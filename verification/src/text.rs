//! Character and string primitives the prompt engine is built on: the
//! whitespace set used for trimming, ASCII case folding, and trimming of a
//! sequence of characters.

use vstd::prelude::*;

verus! {

/// The characters this library treats as surrounding whitespace when a raw
/// input line is trimmed.
pub open spec fn is_space(c: char) -> bool {
    c == ' ' || c == '\t' || c == '\n' || c == '\r'
}

/// Executable mirror of [`is_space`].
pub fn is_space_char(c: char) -> (r: bool)
    ensures
        r == is_space(c),
{
    c == ' ' || c == '\t' || c == '\n' || c == '\r'
}

/// ASCII case folding of one character: an ASCII capital letter becomes the
/// corresponding small letter, every other character is unchanged.
pub open spec fn lower_char(c: char) -> char {
    match c {
        'A' => 'a',
        'B' => 'b',
        'C' => 'c',
        'D' => 'd',
        'E' => 'e',
        'F' => 'f',
        'G' => 'g',
        'H' => 'h',
        'I' => 'i',
        'J' => 'j',
        'K' => 'k',
        'L' => 'l',
        'M' => 'm',
        'N' => 'n',
        'O' => 'o',
        'P' => 'p',
        'Q' => 'q',
        'R' => 'r',
        'S' => 's',
        'T' => 't',
        'U' => 'u',
        'V' => 'v',
        'W' => 'w',
        'X' => 'x',
        'Y' => 'y',
        'Z' => 'z',
        _ => c,
    }
}

/// Executable mirror of [`lower_char`].
pub fn lower_char_exec(c: char) -> (r: char)
    ensures
        r == lower_char(c),
{
    match c {
        'A' => 'a',
        'B' => 'b',
        'C' => 'c',
        'D' => 'd',
        'E' => 'e',
        'F' => 'f',
        'G' => 'g',
        'H' => 'h',
        'I' => 'i',
        'J' => 'j',
        'K' => 'k',
        'L' => 'l',
        'M' => 'm',
        'N' => 'n',
        'O' => 'o',
        'P' => 'p',
        'Q' => 'q',
        'R' => 'r',
        'S' => 's',
        'T' => 't',
        'U' => 'u',
        'V' => 'v',
        'W' => 'w',
        'X' => 'x',
        'Y' => 'y',
        'Z' => 'z',
        _ => c,
    }
}

/// Case folding of a whole sequence of characters.
pub open spec fn fold_lower(s: Seq<char>) -> Seq<char> {
    s.map_values(|c: char| lower_char(c))
}

/// Number of leading whitespace characters of `s`.
pub open spec fn trim_start(s: Seq<char>) -> int
    decreases s.len(),
{
    if s.len() == 0 {
        0
    } else if is_space(s[0]) {
        1 + trim_start(s.drop_first())
    } else {
        0
    }
}

/// Index just after the last non-whitespace character of `s` (0 when `s` is
/// all whitespace).
pub open spec fn trim_end(s: Seq<char>) -> int
    decreases s.len(),
{
    if s.len() == 0 {
        0
    } else if is_space(s.last()) {
        trim_end(s.drop_last())
    } else {
        s.len() as int
    }
}

/// `s` with leading and trailing whitespace removed.
pub open spec fn trim_spec(s: Seq<char>) -> Seq<char> {
    if trim_start(s) == s.len() {
        Seq::empty()
    } else {
        s.subrange(trim_start(s), trim_end(s))
    }
}

pub proof fn lemma_trim_start(s: Seq<char>)
    ensures
        0 <= trim_start(s) <= s.len(),
        forall|i: int| 0 <= i < trim_start(s) ==> is_space(#[trigger] s[i]),
        trim_start(s) < s.len() ==> !is_space(s[trim_start(s)]),
    decreases s.len(),
{
    if s.len() > 0 && is_space(s[0]) {
        lemma_trim_start(s.drop_first());
        assert forall|i: int| 0 <= i < trim_start(s) implies is_space(#[trigger] s[i]) by {
            if i > 0 {
                assert(s.drop_first()[i - 1] == s[i]);
            }
        }
        if trim_start(s) < s.len() {
            assert(s.drop_first()[trim_start(s) - 1] == s[trim_start(s)]);
        }
    }
}

pub proof fn lemma_trim_end(s: Seq<char>)
    ensures
        0 <= trim_end(s) <= s.len(),
        forall|i: int| trim_end(s) <= i < s.len() ==> is_space(#[trigger] s[i]),
        trim_end(s) > 0 ==> !is_space(s[trim_end(s) - 1]),
    decreases s.len(),
{
    if s.len() > 0 && is_space(s.last()) {
        lemma_trim_end(s.drop_last());
        assert forall|i: int| trim_end(s) <= i < s.len() implies is_space(#[trigger] s[i]) by {
            if i < s.len() - 1 {
                assert(s.drop_last()[i] == s[i]);
            }
        }
    }
}

/// When `s` holds a non-whitespace character, the trim bounds are ordered.
pub proof fn lemma_trim_bounds(s: Seq<char>)
    ensures
        trim_start(s) < s.len() ==> trim_start(s) < trim_end(s) <= s.len(),
{
    lemma_trim_start(s);
    lemma_trim_end(s);
    if trim_start(s) < s.len() && trim_end(s) <= trim_start(s) {
        assert(is_space(s[trim_start(s)]));
    }
}

/// A trimmed string neither starts nor ends with whitespace, so trimming it
/// again changes nothing.
pub proof fn lemma_trim_idempotent(s: Seq<char>)
    ensures
        trim_spec(trim_spec(s)) == trim_spec(s),
{
    lemma_trim_start(s);
    lemma_trim_end(s);
    lemma_trim_bounds(s);
    let t = trim_spec(s);
    if trim_start(s) < s.len() {
        assert(t[0] == s[trim_start(s)]);
        assert(t.last() == s[trim_end(s) - 1]);
        assert(trim_start(t) == 0);
        assert(trim_end(t) == t.len());
        if t.len() > 0 {
            assert(t.subrange(0, t.len() as int) =~= t);
        }
    }
}

/// `s` with leading and trailing whitespace removed.
pub fn trim_str<'a>(s: &'a str) -> (t: &'a str)
    ensures
        t@ == trim_spec(s@),
{
    proof {
        lemma_trim_start(s@);
        lemma_trim_end(s@);
        lemma_trim_bounds(s@);
    }
    let n = s.unicode_len();
    let mut lo: usize = 0;
    while lo < n && is_space_char(s.get_char(lo))
        invariant
            lo <= n,
            n == s@.len(),
            forall|i: int| 0 <= i < lo ==> is_space(#[trigger] s@[i]),
        decreases n - lo,
    {
        lo = lo + 1;
    }
    proof {
        if lo < trim_start(s@) {
            assert(!is_space(s@[lo as int]));
        }
        assert(lo == trim_start(s@));
    }
    if lo == n {
        let t = s.substring_char(n, n);
        proof {
            assert(t@ =~= trim_spec(s@));
        }
        return t;
    }
    let mut hi: usize = n;
    while hi > lo && is_space_char(s.get_char(hi - 1))
        invariant
            lo <= hi <= n,
            n == s@.len(),
            lo < n,
            !is_space(s@[lo as int]),
            forall|i: int| hi <= i < n ==> is_space(#[trigger] s@[i]),
        decreases hi,
    {
        hi = hi - 1;
    }
    proof {
        assert(hi > lo);
        assert(!is_space(s@[hi - 1]));
        if hi < trim_end(s@) {
            assert(is_space(s@[trim_end(s@) - 1]));
        }
        if hi > trim_end(s@) {
            assert(is_space(s@[hi - 1]));
        }
        assert(hi == trim_end(s@));
    }
    s.substring_char(lo, hi)
}

/// Whether the separator `sep` occurs in `s` at position `i`.
pub open spec fn match_at(s: Seq<char>, sep: Seq<char>, i: int) -> bool {
    &&& 0 <= i
    &&& i + sep.len() <= s.len()
    &&& s.subrange(i, i + sep.len()) == sep
}

/// The position of the first occurrence of `sep` in `s`, or -1 when there is
/// none.
pub open spec fn find_sep(s: Seq<char>, sep: Seq<char>) -> int
    decreases s.len(),
{
    if sep.len() > s.len() {
        -1
    } else if s.subrange(0, sep.len() as int) == sep {
        0
    } else if s.len() == 0 {
        -1
    } else {
        let r = find_sep(s.drop_first(), sep);
        if r == -1 {
            -1
        } else {
            r + 1
        }
    }
}

/// Occurrences in the tail of `s` are occurrences in `s`, one position over.
proof fn lemma_match_at_shift(s: Seq<char>, sep: Seq<char>, i: int)
    requires
        s.len() > 0,
        0 <= i,
    ensures
        match_at(s.drop_first(), sep, i) == match_at(s, sep, i + 1),
{
    if i + sep.len() <= s.len() - 1 {
        assert(s.drop_first().subrange(i, i + sep.len()) =~= s.subrange(
            i + 1,
            i + 1 + sep.len(),
        ));
    }
}

/// `find_sep` finds the first occurrence: nothing matches before it, and -1
/// means nothing matches at all.
pub proof fn lemma_find_sep(s: Seq<char>, sep: Seq<char>)
    requires
        sep.len() >= 1,
    ensures
        find_sep(s, sep) == -1 ==> forall|i: int| !match_at(s, sep, i),
        find_sep(s, sep) != -1 ==> match_at(s, sep, find_sep(s, sep)) && (forall|i: int|
            0 <= i < find_sep(s, sep) ==> !match_at(s, sep, i)),
    decreases s.len(),
{
    if sep.len() > s.len() {
        assert forall|i: int| !match_at(s, sep, i) by {}
    } else if s.subrange(0, sep.len() as int) == sep {
        assert(match_at(s, sep, 0));
    } else {
        assert(!match_at(s, sep, 0));
        lemma_find_sep(s.drop_first(), sep);
        let fd = find_sep(s.drop_first(), sep);
        if fd == -1 {
            assert forall|i: int| !match_at(s, sep, i) by {
                if i >= 1 {
                    lemma_match_at_shift(s, sep, i - 1);
                    assert(!match_at(s.drop_first(), sep, i - 1));
                }
            }
        } else {
            lemma_match_at_shift(s, sep, fd);
            assert(match_at(s, sep, fd + 1));
            assert forall|i: int| 0 <= i < find_sep(s, sep) implies !match_at(s, sep, i) by {
                if i >= 1 {
                    lemma_match_at_shift(s, sep, i - 1);
                    assert(!match_at(s.drop_first(), sep, i - 1));
                }
            }
        }
    }
}

/// `s` split on `sep`: the pieces between the non-overlapping occurrences of
/// `sep`, taken left to right. A string without an occurrence is one piece.
pub open spec fn split_spec(s: Seq<char>, sep: Seq<char>) -> Seq<Seq<char>>
    decreases s.len(),
{
    let f = find_sep(s, sep);
    if 1 <= sep.len() && 0 <= f && f + sep.len() <= s.len() {
        seq![s.subrange(0, f)] + split_spec(s.skip(f + sep.len()), sep)
    } else {
        seq![s]
    }
}

/// Whether `sep` occurs in `s` at position `i`.
fn match_at_str(s: &str, sep: &str, i: usize) -> (r: bool)
    requires
        i + sep@.len() <= s@.len(),
        s@.len() <= usize::MAX,
    ensures
        r == match_at(s@, sep@, i as int),
{
    let m = sep.unicode_len();
    let mut j: usize = 0;
    while j < m
        invariant
            j <= m,
            m == sep@.len(),
            i + m <= s@.len(),
            s@.len() <= usize::MAX,
            forall|k: int| 0 <= k < j ==> s@[i + k] == #[trigger] sep@[k],
        decreases m - j,
    {
        if s.get_char(i + j) != sep.get_char(j) {
            proof {
                assert(s@.subrange(i as int, i + m) != sep@) by {
                    if s@.subrange(i as int, i + m) == sep@ {
                        assert(s@.subrange(i as int, i + m)[j as int] == s@[i + j]);
                    }
                }
            }
            return false;
        }
        j = j + 1;
    }
    proof {
        assert(s@.subrange(i as int, i + m) =~= sep@);
    }
    true
}

/// The position of the first occurrence of `sep` in `s`, if any.
pub fn find_sep_str(s: &str, sep: &str) -> (r: Option<usize>)
    requires
        sep@.len() >= 1,
    ensures
        r is None ==> find_sep(s@, sep@) == -1,
        r matches Some(i) ==> i == find_sep(s@, sep@),
{
    proof {
        lemma_find_sep(s@, sep@);
    }
    let n = s.unicode_len();
    let m = sep.unicode_len();
    if m > n {
        return None;
    }
    let mut i: usize = 0;
    while i <= n - m
        invariant
            m >= 1,
            m <= n,
            n == s@.len(),
            m == sep@.len(),
            i <= n - m + 1,
            forall|j: int| 0 <= j < i ==> !match_at(s@, sep@, j),
        decreases n - m - i + 1,
    {
        if match_at_str(s, sep, i) {
            proof {
                lemma_find_sep(s@, sep@);
                let f = find_sep(s@, sep@);
                assert(match_at(s@, sep@, i as int));
                assert(f != -1);
                if f < i {
                    assert(!match_at(s@, sep@, f));
                }
                assert(f == i);
            }
            return Some(i);
        }
        i = i + 1;
    }
    proof {
        lemma_find_sep(s@, sep@);
        let f = find_sep(s@, sep@);
        if f != -1 {
            assert(match_at(s@, sep@, f));
            assert(f <= n - m);
        }
    }
    None
}

/// `s` split on the non-empty separator `sep`, as an executable vector of
/// slices.
pub fn split_str<'a>(s: &'a str, sep: &str) -> (r: Vec<&'a str>)
    requires
        sep@.len() >= 1,
    ensures
        r@.map_values(|p: &str| p@) == split_spec(s@, sep@),
    decreases s@.len(),
{
    proof {
        lemma_find_sep(s@, sep@);
    }
    let n = s.unicode_len();
    let m = sep.unicode_len();
    match find_sep_str(s, sep) {
        None => {
            let mut out: Vec<&str> = Vec::new();
            out.push(s);
            proof {
                assert(out@.map_values(|p: &str| p@) =~= split_spec(s@, sep@));
            }
            out
        },
        Some(i) => {
            let head = s.substring_char(0, i);
            let rest = s.substring_char(i + m, n);
            proof {
                assert(rest@ =~= s@.skip(i + m));
            }
            let tail = split_str(rest, sep);
            let mut out: Vec<&str> = Vec::new();
            out.push(head);
            let mut k: usize = 0;
            while k < tail.len()
                invariant
                    k <= tail@.len(),
                    out@ == seq![head] + tail@.take(k as int),
                decreases tail@.len() - k,
            {
                let piece = tail[k];
                out.push(piece);
                proof {
                    assert(seq![head] + tail@.take(k + 1) =~= (seq![head] + tail@.take(
                        k as int,
                    )).push(piece));
                }
                k = k + 1;
            }
            proof {
                assert(tail@.take(tail@.len() as int) =~= tail@);
                assert(head@ == s@.subrange(0, i as int));
                assert(out@.map_values(|p: &str| p@) =~= seq![head@] + tail@.map_values(
                    |p: &str| p@,
                ));
                assert(out@.map_values(|p: &str| p@) =~= split_spec(s@, sep@));
            }
            out
        },
    }
}

/// Case folding is idempotent on one character: a folded character is never
/// a capital letter.
pub proof fn lemma_lower_char_idempotent(c: char)
    ensures
        lower_char(lower_char(c)) == lower_char(c),
{
}

/// Case folding leaves whitespace-ness alone.
pub proof fn lemma_lower_preserves_space(c: char)
    ensures
        is_space(lower_char(c)) == is_space(c),
{
}

/// Case folding is idempotent on a sequence.
pub proof fn lemma_fold_idempotent(s: Seq<char>)
    ensures
        fold_lower(fold_lower(s)) == fold_lower(s),
{
    assert forall|i: int| 0 <= i < s.len() implies fold_lower(fold_lower(s))[i] == fold_lower(
        s,
    )[i] by {
        lemma_lower_char_idempotent(s[i]);
    }
    assert(fold_lower(fold_lower(s)) =~= fold_lower(s));
}

proof fn lemma_trim_start_fold(s: Seq<char>)
    ensures
        trim_start(fold_lower(s)) == trim_start(s),
    decreases s.len(),
{
    if s.len() > 0 {
        assert(fold_lower(s)[0] == lower_char(s[0]));
        lemma_lower_preserves_space(s[0]);
        if is_space(s[0]) {
            assert(fold_lower(s).drop_first() =~= fold_lower(s.drop_first()));
            lemma_trim_start_fold(s.drop_first());
        }
    }
}

proof fn lemma_trim_end_fold(s: Seq<char>)
    ensures
        trim_end(fold_lower(s)) == trim_end(s),
    decreases s.len(),
{
    if s.len() > 0 {
        assert(fold_lower(s).last() == lower_char(s.last()));
        lemma_lower_preserves_space(s.last());
        if is_space(s.last()) {
            assert(fold_lower(s).drop_last() =~= fold_lower(s.drop_last()));
            lemma_trim_end_fold(s.drop_last());
        }
    }
}

/// Trimming and case folding commute.
pub proof fn lemma_trim_fold_commute(s: Seq<char>)
    ensures
        trim_spec(fold_lower(s)) == fold_lower(trim_spec(s)),
{
    lemma_trim_start_fold(s);
    lemma_trim_end_fold(s);
    lemma_trim_start(s);
    lemma_trim_end(s);
    if trim_start(s) == s.len() {
        assert(trim_spec(fold_lower(s)) =~= fold_lower(trim_spec(s)));
    } else {
        lemma_trim_bounds(s);
        assert(fold_lower(s).subrange(trim_start(s), trim_end(s)) =~= fold_lower(
            s.subrange(trim_start(s), trim_end(s)),
        ));
    }
}

/// The views of a sequence of string slices.
pub open spec fn str_views(cs: Seq<&str>) -> Seq<Seq<char>> {
    cs.map_values(|c: &str| c@)
}

/// Whether the raw line `line` selects the candidate `cand`: the candidate
/// and the trimmed line are equal under case folding.
pub open spec fn choice_match(line: Seq<char>, cand: Seq<char>) -> bool {
    fold_lower(cand) == fold_lower(trim_spec(line))
}

/// The position of the first candidate the raw line selects, if any.
pub open spec fn choice_index(line: Seq<char>, cands: Seq<Seq<char>>) -> Option<int>
    decreases cands.len(),
{
    if cands.len() == 0 {
        None
    } else if choice_match(line, cands[0]) {
        Some(0)
    } else {
        match choice_index(line, cands.drop_first()) {
            Some(i) => Some(i + 1),
            None => None,
        }
    }
}

/// The choice rule, characterized: no candidate position comes back exactly
/// when no candidate matches, and position `i` comes back exactly when
/// candidate `i` matches and no earlier candidate does.
pub proof fn lemma_choice_index(line: Seq<char>, cands: Seq<Seq<char>>, i: int)
    ensures
        choice_index(line, cands) is None <==> (forall|j: int|
            0 <= j < cands.len() ==> !choice_match(line, #[trigger] cands[j])),
        choice_index(line, cands) == Some(i) <==> (0 <= i < cands.len() && choice_match(
            line,
            cands[i],
        ) && (forall|j: int| 0 <= j < i ==> !choice_match(line, #[trigger] cands[j]))),
    decreases cands.len(),
{
    if cands.len() == 0 {
    } else if choice_match(line, cands[0]) {
    } else {
        let tail = cands.drop_first();
        lemma_choice_index(line, tail, i - 1);
        assert(forall|j: int| 0 <= j < tail.len() ==> #[trigger] tail[j] == cands[j + 1]);
        if choice_index(line, tail) is None {
            assert forall|j: int| 0 <= j < cands.len() implies !choice_match(
                line,
                #[trigger] cands[j],
            ) by {
                if j >= 1 {
                    assert(!choice_match(line, tail[j - 1]));
                }
            }
        } else {
            let t = choice_index(line, tail)->Some_0;
            assert(choice_index(line, tail) == Some(t));
            lemma_choice_index(line, tail, t);
            assert(choice_match(line, tail[t]));
            assert(choice_match(line, cands[t + 1]));
        }
        if 0 <= i < cands.len() && choice_match(line, cands[i]) && (forall|j: int|
            0 <= j < i ==> !choice_match(line, #[trigger] cands[j]))
        {
            assert(i >= 1);
            assert(choice_match(line, tail[i - 1]));
            assert forall|j: int| 0 <= j < i - 1 implies !choice_match(
                line,
                #[trigger] tail[j],
            ) by {
                assert(tail[j] == cands[j + 1]);
            }
            assert(choice_index(line, tail) == Some(i - 1));
        }
        if choice_index(line, cands) == Some(i) {
            assert(choice_index(line, tail) == Some(i - 1));
            assert(choice_match(line, tail[i - 1]));
            assert forall|j: int| 0 <= j < i implies !choice_match(
                line,
                #[trigger] cands[j],
            ) by {
                if j >= 1 {
                    assert(!choice_match(line, tail[j - 1]));
                }
            }
        }
    }
}

/// Equality of two strings under ASCII case folding.
pub fn fold_eq(a: &str, b: &str) -> (r: bool)
    ensures
        r == (fold_lower(a@) == fold_lower(b@)),
{
    let n = a.unicode_len();
    if n != b.unicode_len() {
        proof {
            assert(fold_lower(a@).len() != fold_lower(b@).len());
        }
        return false;
    }
    let mut i: usize = 0;
    while i < n
        invariant
            i <= n,
            n == a@.len(),
            n == b@.len(),
            forall|j: int| 0 <= j < i ==> lower_char(a@[j]) == lower_char(#[trigger] b@[j]),
        decreases n - i,
    {
        if lower_char_exec(a.get_char(i)) != lower_char_exec(b.get_char(i)) {
            proof {
                assert(fold_lower(a@)[i as int] != fold_lower(b@)[i as int]);
            }
            return false;
        }
        i = i + 1;
    }
    proof {
        assert(fold_lower(a@) =~= fold_lower(b@));
    }
    true
}

} // verus!
