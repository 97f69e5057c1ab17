//! Numeric text: decimal digits, the value of a digit string, and the
//! stripping of digit-grouping commas that the engine applies before a
//! numeric parse.

use vstd::prelude::*;

verus! {

/// The value of a decimal digit character, and -1 for every other character.
pub open spec fn digit_of(c: char) -> int {
    match c {
        '0' => 0,
        '1' => 1,
        '2' => 2,
        '3' => 3,
        '4' => 4,
        '5' => 5,
        '6' => 6,
        '7' => 7,
        '8' => 8,
        '9' => 9,
        _ => -1,
    }
}

pub open spec fn is_digit(c: char) -> bool {
    digit_of(c) >= 0
}

pub open spec fn all_digits(s: Seq<char>) -> bool {
    forall|i: int| 0 <= i < s.len() ==> is_digit(#[trigger] s[i])
}

/// The numeric value of a digit string, most significant digit first.
pub open spec fn digits_val(s: Seq<char>) -> int
    decreases s.len(),
{
    if s.len() == 0 {
        0
    } else {
        digits_val(s.drop_last()) * 10 + digit_of(s.last())
    }
}

/// `s` with every comma removed.
pub open spec fn strip_commas(s: Seq<char>) -> Seq<char>
    decreases s.len(),
{
    if s.len() == 0 {
        s
    } else if s.last() == ',' {
        strip_commas(s.drop_last())
    } else {
        strip_commas(s.drop_last()).push(s.last())
    }
}

pub proof fn lemma_digits_val_nonneg(s: Seq<char>)
    requires
        all_digits(s),
    ensures
        digits_val(s) >= 0,
    decreases s.len(),
{
    if s.len() > 0 {
        assert(all_digits(s.drop_last()));
        lemma_digits_val_nonneg(s.drop_last());
    }
}

/// The value of a digit string is at least the value of any of its prefixes.
pub proof fn lemma_digits_val_prefix(s: Seq<char>, k: int)
    requires
        all_digits(s),
        0 <= k <= s.len(),
    ensures
        digits_val(s.take(k)) <= digits_val(s),
    decreases s.len(),
{
    if k == s.len() {
        assert(s.take(k) =~= s);
    } else {
        assert(all_digits(s.drop_last()));
        assert(s.take(k) =~= s.drop_last().take(k));
        lemma_digits_val_prefix(s.drop_last(), k);
        lemma_digits_val_nonneg(s.drop_last());
    }
}

/// Stripping commas leaves no comma behind.
pub proof fn lemma_strip_commas_free(s: Seq<char>)
    ensures
        forall|i: int|
            0 <= i < strip_commas(s).len() ==> #[trigger] strip_commas(s)[i] != ',',
    decreases s.len(),
{
    if s.len() > 0 {
        lemma_strip_commas_free(s.drop_last());
        if s.last() != ',' {
            let t = strip_commas(s.drop_last());
            assert forall|i: int|
                0 <= i < strip_commas(s).len() implies #[trigger] strip_commas(s)[i] != ',' by {
                if i < t.len() {
                    assert(strip_commas(s)[i] == t[i]);
                } else {
                    assert(strip_commas(s)[i] == s.last());
                }
            }
        }
    }
}

/// Stripping commas from a comma-free string changes nothing.
pub proof fn lemma_strip_commas_identity(s: Seq<char>)
    requires
        forall|i: int| 0 <= i < s.len() ==> #[trigger] s[i] != ',',
    ensures
        strip_commas(s) == s,
    decreases s.len(),
{
    if s.len() > 0 {
        assert(forall|i: int|
            0 <= i < s.drop_last().len() ==> #[trigger] s.drop_last()[i] != ',');
        lemma_strip_commas_identity(s.drop_last());
        assert(strip_commas(s.drop_last()).push(s.last()) =~= s);
    }
}

/// Stripping commas twice is the same as stripping them once.
pub proof fn lemma_strip_commas_idempotent(s: Seq<char>)
    ensures
        strip_commas(strip_commas(s)) == strip_commas(s),
{
    lemma_strip_commas_free(s);
    lemma_strip_commas_identity(strip_commas(s));
}

/// Executable mirror of [`digit_of`], as an optional digit value.
pub fn digit_value(c: char) -> (r: Option<u8>)
    ensures
        r is Some <==> is_digit(c),
        r matches Some(d) ==> d == digit_of(c),
{
    match c {
        '0' => Some(0),
        '1' => Some(1),
        '2' => Some(2),
        '3' => Some(3),
        '4' => Some(4),
        '5' => Some(5),
        '6' => Some(6),
        '7' => Some(7),
        '8' => Some(8),
        '9' => Some(9),
        _ => None,
    }
}

/// The characters of `s` with every comma removed.
pub fn strip_commas_str(s: &str) -> (v: Vec<char>)
    ensures
        v@ == strip_commas(s@),
{
    let n = s.unicode_len();
    let mut v: Vec<char> = Vec::new();
    let mut i: usize = 0;
    while i < n
        invariant
            i <= n,
            n == s@.len(),
            v@ == strip_commas(s@.take(i as int)),
        decreases n - i,
    {
        let c = s.get_char(i);
        proof {
            assert(s@.take(i + 1).drop_last() =~= s@.take(i as int));
            assert(s@.take(i + 1).last() == s@[i as int]);
        }
        if c != ',' {
            v.push(c);
        }
        i = i + 1;
    }
    proof {
        assert(s@.take(n as int) =~= s@);
    }
    v
}

/// Parses the digit string `v[start..]`: its numeric value, when every
/// character from `start` on is a digit, there is at least one, and the value
/// fits in a `u64`.
pub fn parse_digits(v: &Vec<char>, start: usize) -> (r: Option<u64>)
    requires
        start <= v@.len(),
    ensures
        r is Some <==> {
            let d = v@.skip(start as int);
            d.len() > 0 && all_digits(d) && digits_val(d) <= u64::MAX
        },
        r matches Some(m) ==> m == digits_val(v@.skip(start as int)),
{
    let ghost d = v@.skip(start as int);
    if start == v.len() {
        return None;
    }
    let mut acc: u64 = 0;
    let mut i: usize = start;
    while i < v.len()
        invariant
            start <= i <= v@.len(),
            d == v@.skip(start as int),
            d.len() == v@.len() - start,
            forall|j: int| 0 <= j < i - start ==> is_digit(#[trigger] d[j]),
            acc == digits_val(d.take(i - start)),
        decreases v@.len() - i,
    {
        let c = v[i];
        proof {
            assert(d[i - start] == v@[i as int]);
            assert(d.take(i - start + 1).drop_last() =~= d.take(i - start));
            assert(d.take(i - start + 1).last() == d[i - start]);
        }
        let dg = match digit_value(c) {
            Some(dg) => dg,
            None => {
                proof {
                    assert(!is_digit(d[i - start]));
                }
                return None;
            },
        };
        let next = match acc.checked_mul(10) {
            Some(m) => m.checked_add(dg as u64),
            None => None,
        };
        match next {
            Some(n) => {
                acc = n;
            },
            None => {
                proof {
                    let k = i - start + 1;
                    assert(digits_val(d.take(k)) == acc * 10 + digit_of(d[i - start]));
                    assert(digits_val(d.take(k)) > u64::MAX);
                    if all_digits(d) && digits_val(d) <= u64::MAX {
                        lemma_digits_val_prefix(d, k);
                    }
                }
                return None;
            },
        }
        i = i + 1;
    }
    proof {
        assert(d.take(v@.len() - start) =~= d);
    }
    Some(acc)
}

} // verus!
