//! The prompt engine: each primitive takes the successive raw lines a user
//! would type and returns the value parsed from the first line that
//! validates, or `None` when every line fails (the front end then keeps
//! prompting; the retry loop never ends on its own).
//!
//! A raw line is trimmed of surrounding whitespace before any rule is
//! applied, exactly once per attempt.

use vstd::prelude::*;

use crate::parse::Parseable;
use crate::text::choice_index;
use crate::text::choice_match;
use crate::text::fold_eq;
use crate::text::fold_lower;
use crate::text::lemma_choice_index;
use crate::text::split_spec;
use crate::text::split_str;
use crate::text::str_views;
use crate::text::trim_spec;
use crate::text::trim_str;

verus! {

/// Relies on alloc's `String::push_str`: it appends the given string slice
/// onto the end of the string.
pub assume_specification[ String::push_str ](s: &mut String, other: &str)
    ensures
        final(s)@ == old(s)@ + other@,
;

/// The value the generic retry primitive produces from `lines`: the parsed
/// value of the first line that, trimmed, parses as `T` — and nothing, when
/// no line does.
pub open spec fn get_input_spec<T: Parseable>(lines: Seq<Seq<char>>) -> Option<T::V>
    decreases lines.len(),
{
    if lines.len() == 0 {
        None
    } else if T::parse_ok(trim_spec(lines[0])) {
        Some(T::parse_val(trim_spec(lines[0])))
    } else {
        get_input_spec::<T>(lines.drop_first())
    }
}

/// The generic retry primitive: parse each line in turn, after trimming, as a
/// value of type `T`; the first success is the answer. `prompt` is what a
/// front end displays before each attempt; the engine itself does not consume
/// it.
pub fn get_input<T: Parseable>(prompt: &str, lines: &Vec<String>) -> (r: Option<T>)
    ensures
        r is Some <==> get_input_spec::<T>(lines.deep_view()) is Some,
        r matches Some(v) ==> Some(v@) == get_input_spec::<T>(lines.deep_view()),
{
    let ghost lv = lines.deep_view();
    proof {
        assert(lv.skip(0) =~= lv);
    }
    let mut k: usize = 0;
    while k < lines.len()
        invariant
            k <= lines@.len(),
            lv == lines.deep_view(),
            lv.len() == lines@.len(),
            get_input_spec::<T>(lv) == get_input_spec::<T>(lv.skip(k as int)),
        decreases lines@.len() - k,
    {
        let t = trim_str(lines[k].as_str());
        proof {
            assert(lv.skip(k as int)[0] == lv[k as int]);
            assert(lv[k as int] == lines@[k as int]@);
        }
        match T::parse_text(t) {
            Some(v) => {
                return Some(v);
            },
            None => {
                proof {
                    assert(lv.skip(k as int).drop_first() =~= lv.skip(k + 1));
                }
            },
        }
        k = k + 1;
    }
    proof {
        assert(lv.skip(lines@.len() as int) =~= Seq::<Seq<char>>::empty());
    }
    None
}

/// The value one raw line contributes to the list primitive: the line is
/// trimmed, split on the separator, each piece trimmed again, and every piece
/// must parse as `T`; otherwise the whole line is discarded.
pub open spec fn list_line_spec<T: Parseable>(line: Seq<char>, sep: Seq<char>) -> Option<
    Seq<T::V>,
> {
    let pieces = split_spec(trim_spec(line), sep).map_values(|p: Seq<char>| trim_spec(p));
    if forall|i: int| 0 <= i < pieces.len() ==> T::parse_ok(#[trigger] pieces[i]) {
        Some(Seq::new(pieces.len(), |i: int| T::parse_val(pieces[i])))
    } else {
        None
    }
}

/// The value the list primitive produces from `lines`: the parsed pieces of
/// the first line on which every piece parses.
pub open spec fn get_list_spec<T: Parseable>(lines: Seq<Seq<char>>, sep: Seq<char>) -> Option<
    Seq<T::V>,
>
    decreases lines.len(),
{
    if lines.len() == 0 {
        None
    } else if list_line_spec::<T>(lines[0], sep) is Some {
        list_line_spec::<T>(lines[0], sep)
    } else {
        get_list_spec::<T>(lines.drop_first(), sep)
    }
}

/// One attempt of the list primitive, on one raw line.
fn parse_list_line<T: Parseable>(line: &str, separator: &str) -> (r: Option<Vec<T>>)
    requires
        separator@.len() >= 1,
    ensures
        r is Some <==> list_line_spec::<T>(line@, separator@) is Some,
        r matches Some(v) ==> Some(v@.map_values(|x: T| x@)) == list_line_spec::<T>(
            line@,
            separator@,
        ),
{
    let t = trim_str(line);
    let pieces = split_str(t, separator);
    let ghost ps = split_spec(trim_spec(line@), separator@).map_values(
        |p: Seq<char>| trim_spec(p),
    );
    proof {
        assert(ps.len() == pieces@.len());
    }
    let mut out: Vec<T> = Vec::new();
    let mut i: usize = 0;
    while i < pieces.len()
        invariant
            i <= pieces@.len(),
            separator@.len() >= 1,
            pieces@.map_values(|p: &str| p@) == split_spec(trim_spec(line@), separator@),
            ps == split_spec(trim_spec(line@), separator@).map_values(
                |p: Seq<char>| trim_spec(p),
            ),
            ps.len() == pieces@.len(),
            forall|j: int| 0 <= j < i ==> T::parse_ok(#[trigger] ps[j]),
            out@.len() == i,
            forall|j: int| 0 <= j < i ==> #[trigger] out@[j]@ == T::parse_val(ps[j]),
        decreases pieces@.len() - i,
    {
        proof {
            assert(pieces@.map_values(|p: &str| p@)[i as int] == pieces@[i as int]@);
            assert(ps[i as int] == trim_spec(pieces@[i as int]@));
        }
        let p = trim_str(pieces[i]);
        match T::parse_text(p) {
            Some(v) => {
                out.push(v);
            },
            None => {
                proof {
                    assert(!T::parse_ok(ps[i as int]));
                }
                return None;
            },
        }
        i = i + 1;
    }
    proof {
        assert(out@.map_values(|x: T| x@) =~= Seq::new(
            ps.len(),
            |j: int| T::parse_val(ps[j]),
        ));
    }
    Some(out)
}

/// The list primitive: obtain one raw line, split it on `separator`, trim
/// each piece, and parse every piece as `T`. If and only if all pieces parse,
/// the ordered parsed values are the answer; otherwise the whole line is
/// discarded and the next one is tried. The separator must not be empty:
/// passing an empty separator is a caller contract violation, not a retried
/// input error.
pub fn get_list<T: Parseable>(prompt: &str, separator: &str, lines: &Vec<String>) -> (r: Option<
    Vec<T>,
>)
    requires
        separator@.len() >= 1,
    ensures
        r is Some <==> get_list_spec::<T>(lines.deep_view(), separator@) is Some,
        r matches Some(v) ==> Some(v@.map_values(|x: T| x@)) == get_list_spec::<T>(
            lines.deep_view(),
            separator@,
        ),
{
    let ghost lv = lines.deep_view();
    proof {
        assert(lv.skip(0) =~= lv);
    }
    let mut k: usize = 0;
    while k < lines.len()
        invariant
            k <= lines@.len(),
            separator@.len() >= 1,
            lv == lines.deep_view(),
            lv.len() == lines@.len(),
            get_list_spec::<T>(lv, separator@) == get_list_spec::<T>(
                lv.skip(k as int),
                separator@,
            ),
        decreases lines@.len() - k,
    {
        proof {
            assert(lv.skip(k as int)[0] == lv[k as int]);
            assert(lv[k as int] == lines@[k as int]@);
        }
        match parse_list_line::<T>(lines[k].as_str(), separator) {
            Some(v) => {
                return Some(v);
            },
            None => {
                proof {
                    assert(lv.skip(k as int).drop_first() =~= lv.skip(k + 1));
                }
            },
        }
        k = k + 1;
    }
    proof {
        assert(lv.skip(lines@.len() as int) =~= Seq::<Seq<char>>::empty());
    }
    None
}

/// The boolean rule on one trimmed, case-folded line: exactly the four
/// tokens "y", "yes", "n", "no" are recognized.
pub open spec fn bool_token(line: Seq<char>) -> Option<bool> {
    let t = fold_lower(trim_spec(line));
    if t == seq!['y'] || t == seq!['y', 'e', 's'] {
        Some(true)
    } else if t == seq!['n'] || t == seq!['n', 'o'] {
        Some(false)
    } else {
        None
    }
}

/// The value the boolean primitive produces from `lines`: the truth value of
/// the first line that, trimmed and case-folded, is one of the four
/// recognized tokens.
pub open spec fn get_bool_spec(lines: Seq<Seq<char>>) -> Option<bool>
    decreases lines.len(),
{
    if lines.len() == 0 {
        None
    } else if bool_token(lines[0]) is Some {
        bool_token(lines[0])
    } else {
        get_bool_spec(lines.drop_first())
    }
}

/// One attempt of the boolean primitive, on one raw line.
fn bool_of_line(line: &str) -> (r: Option<bool>)
    ensures
        r == bool_token(line@),
{
    let t = trim_str(line);
    let ghost ft = fold_lower(trim_spec(line@));
    proof {
        assert(ft.len() == t@.len());
    }
    let n = t.unicode_len();
    if n == 1 {
        let c0 = crate::text::lower_char_exec(t.get_char(0));
        proof {
            assert(ft[0] == crate::text::lower_char(t@[0]));
        }
        if c0 == 'y' {
            proof {
                assert(ft =~= seq!['y']);
            }
            Some(true)
        } else if c0 == 'n' {
            proof {
                assert(ft =~= seq!['n']);
            }
            Some(false)
        } else {
            proof {
                assert(ft != seq!['y']) by {
                    if ft == seq!['y'] {
                        assert(ft[0] == 'y');
                    }
                }
                assert(ft != seq!['n']) by {
                    if ft == seq!['n'] {
                        assert(ft[0] == 'n');
                    }
                }
            }
            None
        }
    } else if n == 2 {
        let c0 = crate::text::lower_char_exec(t.get_char(0));
        let c1 = crate::text::lower_char_exec(t.get_char(1));
        proof {
            assert(ft[0] == crate::text::lower_char(t@[0]));
            assert(ft[1] == crate::text::lower_char(t@[1]));
        }
        if c0 == 'n' && c1 == 'o' {
            proof {
                assert(ft =~= seq!['n', 'o']);
            }
            Some(false)
        } else {
            proof {
                assert(ft != seq!['n', 'o']) by {
                    if ft == seq!['n', 'o'] {
                        assert(ft[0] == 'n');
                        assert(ft[1] == 'o');
                    }
                }
            }
            None
        }
    } else if n == 3 {
        let c0 = crate::text::lower_char_exec(t.get_char(0));
        let c1 = crate::text::lower_char_exec(t.get_char(1));
        let c2 = crate::text::lower_char_exec(t.get_char(2));
        proof {
            assert(ft[0] == crate::text::lower_char(t@[0]));
            assert(ft[1] == crate::text::lower_char(t@[1]));
            assert(ft[2] == crate::text::lower_char(t@[2]));
        }
        if c0 == 'y' && c1 == 'e' && c2 == 's' {
            proof {
                assert(ft =~= seq!['y', 'e', 's']);
            }
            Some(true)
        } else {
            proof {
                assert(ft != seq!['y', 'e', 's']) by {
                    if ft == seq!['y', 'e', 's'] {
                        assert(ft[0] == 'y');
                        assert(ft[1] == 'e');
                        assert(ft[2] == 's');
                    }
                }
            }
            None
        }
    } else {
        None
    }
}

/// The boolean primitive: true for the first line reading (case-insensitively
/// and after trimming) "y" or "yes", false for "n" or "no"; any other line is
/// discarded and the next one is tried.
pub fn get_bool(prompt: &str, lines: &Vec<String>) -> (r: Option<bool>)
    ensures
        r == get_bool_spec(lines.deep_view()),
{
    let ghost lv = lines.deep_view();
    proof {
        assert(lv.skip(0) =~= lv);
    }
    let mut k: usize = 0;
    while k < lines.len()
        invariant
            k <= lines@.len(),
            lv == lines.deep_view(),
            lv.len() == lines@.len(),
            get_bool_spec(lv) == get_bool_spec(lv.skip(k as int)),
        decreases lines@.len() - k,
    {
        proof {
            assert(lv.skip(k as int)[0] == lv[k as int]);
            assert(lv[k as int] == lines@[k as int]@);
        }
        match bool_of_line(lines[k].as_str()) {
            Some(b) => {
                return Some(b);
            },
            None => {
                proof {
                    assert(lv.skip(k as int).drop_first() =~= lv.skip(k + 1));
                }
            },
        }
        k = k + 1;
    }
    proof {
        assert(lv.skip(lines@.len() as int) =~= Seq::<Seq<char>>::empty());
    }
    None
}

/// The value the choice primitive produces from `lines`: for the first line
/// that matches some candidate, the position of the first matching candidate.
pub open spec fn get_choice_spec(lines: Seq<Seq<char>>, cands: Seq<Seq<char>>) -> Option<int>
    decreases lines.len(),
{
    if lines.len() == 0 {
        None
    } else if choice_index(lines[0], cands) is Some {
        choice_index(lines[0], cands)
    } else {
        get_choice_spec(lines.drop_first(), cands)
    }
}

/// One attempt of the choice primitive, on one raw line.
fn choice_of_line(line: &str, choices: &[&str]) -> (r: Option<usize>)
    ensures
        r is None <==> choice_index(line@, str_views(choices@)) is None,
        r matches Some(i) ==> Some(i as int) == choice_index(line@, str_views(choices@)),
{
    let ghost cs = str_views(choices@);
    let tl = trim_str(line);
    let mut k: usize = 0;
    while k < choices.len()
        invariant
            k <= choices@.len(),
            cs == str_views(choices@),
            cs.len() == choices@.len(),
            tl@ == trim_spec(line@),
            forall|j: int| 0 <= j < k ==> !choice_match(line@, #[trigger] cs[j]),
        decreases choices@.len() - k,
    {
        proof {
            assert(cs[k as int] == choices@[k as int]@);
        }
        let cand = choices[k];
        if fold_eq(cand, tl) {
            proof {
                assert(choice_match(line@, cs[k as int]));
                lemma_choice_index(line@, cs, k as int);
            }
            return Some(k);
        }
        k = k + 1;
    }
    proof {
        lemma_choice_index(line@, cs, 0);
    }
    None
}

/// The choice primitive: the position of the first candidate that equals the
/// first matching line, both sides case-folded and the line trimmed. Lines
/// matching no candidate are discarded and the next one is tried.
pub fn get_choice(prompt: &str, choices: &[&str], lines: &Vec<String>) -> (r: Option<usize>)
    ensures
        r is Some <==> get_choice_spec(lines.deep_view(), str_views(choices@)) is Some,
        r matches Some(i) ==> Some(i as int) == get_choice_spec(
            lines.deep_view(),
            str_views(choices@),
        ),
{
    let ghost lv = lines.deep_view();
    let ghost cs = str_views(choices@);
    proof {
        assert(lv.skip(0) =~= lv);
    }
    let mut k: usize = 0;
    while k < lines.len()
        invariant
            k <= lines@.len(),
            lv == lines.deep_view(),
            cs == str_views(choices@),
            lv.len() == lines@.len(),
            get_choice_spec(lv, cs) == get_choice_spec(lv.skip(k as int), cs),
        decreases lines@.len() - k,
    {
        proof {
            assert(lv.skip(k as int)[0] == lv[k as int]);
            assert(lv[k as int] == lines@[k as int]@);
        }
        match choice_of_line(lines[k].as_str(), choices) {
            Some(i) => {
                return Some(i);
            },
            None => {
                proof {
                    assert(lv.skip(k as int).drop_first() =~= lv.skip(k + 1));
                }
            },
        }
        k = k + 1;
    }
    proof {
        assert(lv.skip(lines@.len() as int) =~= Seq::<Seq<char>>::empty());
    }
    None
}

/// The candidates joined by '/': the display form of a choice set.
pub open spec fn joined_choices(cands: Seq<Seq<char>>) -> Seq<char>
    decreases cands.len(),
{
    if cands.len() == 0 {
        Seq::empty()
    } else if cands.len() == 1 {
        cands[0]
    } else {
        cands[0] + seq!['/'] + joined_choices(cands.drop_first())
    }
}

/// The prompt the choice primitive's front end displays: the caller's prompt
/// suffixed with the candidates joined by '/' in parentheses.
pub open spec fn choice_prompt_spec(prompt: Seq<char>, cands: Seq<Seq<char>>) -> Seq<char> {
    prompt + seq![' ', '('] + joined_choices(cands) + seq![')', ' ']
}

/// Builds the display prompt for the choice primitive.
pub fn choice_prompt(prompt: &str, choices: &[&str]) -> (r: String)
    ensures
        r@ == choice_prompt_spec(prompt@, str_views(choices@)),
{
    let ghost cs = str_views(choices@);
    let mut out = String::new();
    out.push_str(prompt);
    out.push_str(" (");
    proof {
        reveal_strlit(" (");
        assert(" ("@ =~= seq![' ', '(']);
        assert(out@ =~= prompt@ + seq![' ', '(']);
        assert(cs.skip(0) =~= cs);
        assert(out@ + joined_choices(cs) + seq![')', ' '] =~= choice_prompt_spec(prompt@, cs));
    }
    let mut k: usize = 0;
    while k < choices.len()
        invariant
            k <= choices@.len(),
            cs == str_views(choices@),
            cs.len() == choices@.len(),
            out@ + joined_choices(cs.skip(k as int)) + seq![')', ' '] == choice_prompt_spec(
                prompt@,
                cs,
            ),
        decreases choices@.len() - k,
    {
        proof {
            assert(cs[k as int] == choices@[k as int]@);
            assert(cs.skip(k as int)[0] == cs[k as int]);
        }
        out.push_str(choices[k]);
        if k + 1 < choices.len() {
            out.push_str("/");
            proof {
                reveal_strlit("/");
                assert("/"@ =~= seq!['/']);
                assert(cs.skip(k as int).drop_first() =~= cs.skip(k + 1));
                assert(joined_choices(cs.skip(k as int)) =~= cs[k as int] + seq!['/']
                    + joined_choices(cs.skip(k + 1)));
            }
        } else {
            proof {
                assert(cs.skip(k as int).len() == 1);
                assert(cs.skip(k + 1) =~= Seq::<Seq<char>>::empty());
                assert(joined_choices(cs.skip(k as int)) == cs[k as int]);
            }
        }
        k = k + 1;
    }
    proof {
        assert(cs.skip(choices@.len() as int) =~= Seq::<Seq<char>>::empty());
    }
    out.push_str(") ");
    proof {
        reveal_strlit(") ");
        assert(") "@ =~= seq![')', ' ']);
    }
    out
}

/// The constant separator character exposed for callers that want a default.
pub fn get_separator() -> (c: char)
    ensures
        c == '.',
{
    '.'
}

} // verus!
