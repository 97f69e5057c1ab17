//! The email primitive: a raw line is accepted exactly when it has the shape
//! local-part '@' domain '.' final-label, with the character sets and length
//! bounds stated by [`is_email`]. The shape test itself is carried out by a
//! regular-expression engine; everything around it is verified against
//! [`is_email`].

use vstd::prelude::*;

use crate::numbers::is_digit;
use crate::text::trim_spec;
use crate::text::trim_str;

verus! {

/// An ASCII letter.
pub open spec fn is_alpha(c: char) -> bool {
    (97 <= c as u32 && c as u32 <= 122)  // 'a' ..= 'z'
    || (65 <= c as u32 && c as u32 <= 90)  // 'A' ..= 'Z'
}

/// A character allowed in the local part of an address, before the '@'.
pub open spec fn local_char(c: char) -> bool {
    is_alpha(c) || is_digit(c) || c == '.' || c == '_' || c == '%' || c == '+' || c == '-'
}

/// A character allowed in the domain, between the '@' and the last '.'.
pub open spec fn domain_char(c: char) -> bool {
    is_alpha(c) || is_digit(c) || c == '.' || c == '-'
}

/// Whether `s` decomposes as an address at the positions `a` (the '@') and
/// `d` (the '.' before the final label): at least one local-part character,
/// then '@', then at least one domain character, then '.', then at least two
/// letters reaching the end.
pub open spec fn is_email_split(s: Seq<char>, a: int, d: int) -> bool {
    &&& 1 <= a
    &&& a + 2 <= d
    &&& d + 3 <= s.len()
    &&& s[a] == '@'
    &&& s[d] == '.'
    &&& forall|i: int| 0 <= i < a ==> local_char(#[trigger] s[i])
    &&& forall|i: int| a < i < d ==> domain_char(#[trigger] s[i])
    &&& forall|i: int| d < i < s.len() ==> is_alpha(#[trigger] s[i])
}

/// Whether `s` is a well-formed address: some decomposition exists.
pub open spec fn is_email(s: Seq<char>) -> bool {
    exists|a: int, d: int| #![trigger s[a], s[d]] is_email_split(s, a, d)
}

/// Relies on `regex::Regex::is_match` with the anchored pattern
/// `^[a-zA-Z0-9._%+-]+@[a-zA-Z0-9.-]+\.[a-zA-Z]{2,}$`: the haystack matches
/// exactly when it splits into a nonempty run of local-part characters, an
/// '@', a nonempty run of domain characters, a '.', and a final run of at
/// least two letters — that is, exactly when [`is_email`] holds of it.
/// `Regex::new` on this fixed, well-formed pattern does not fail.
#[verifier::external_body]
fn email_matches(s: &str) -> (r: bool)
    ensures
        r == is_email(s@),
{
    let re = regex::Regex::new(r"^[a-zA-Z0-9._%+-]+@[a-zA-Z0-9.-]+\.[a-zA-Z]{2,}$").unwrap();
    re.is_match(s)
}

/// The value the email primitive produces from `lines`: the first line that,
/// trimmed, is a well-formed address, returned unmodified. (For every line
/// that fails, the front end shows a diagnostic and asks again.)
pub open spec fn get_email_spec(lines: Seq<Seq<char>>) -> Option<Seq<char>>
    decreases lines.len(),
{
    if lines.len() == 0 {
        None
    } else if is_email(trim_spec(lines[0])) {
        Some(trim_spec(lines[0]))
    } else {
        get_email_spec(lines.drop_first())
    }
}

/// The email primitive: the first line that, trimmed, has the address shape
/// of [`is_email`] is the answer, unmodified. Any other line is discarded
/// (with a front-end diagnostic) and the next one is tried.
pub fn get_email(prompt: &str, lines: &Vec<String>) -> (r: Option<String>)
    ensures
        r is Some <==> get_email_spec(lines.deep_view()) is Some,
        r matches Some(e) ==> Some(e@) == get_email_spec(lines.deep_view()),
{
    let ghost lv = lines.deep_view();
    proof {
        assert(lv.skip(0) =~= lv);
    }
    let mut k: usize = 0;
    while k < lines.len()
        invariant
            k <= lines@.len(),
            lv == lines.deep_view(),
            lv.len() == lines@.len(),
            get_email_spec(lv) == get_email_spec(lv.skip(k as int)),
        decreases lines@.len() - k,
    {
        proof {
            assert(lv.skip(k as int)[0] == lv[k as int]);
            assert(lv[k as int] == lines@[k as int]@);
        }
        let t = trim_str(lines[k].as_str());
        if email_matches(t) {
            return Some(t.to_owned());
        }
        proof {
            assert(lv.skip(k as int).drop_first() =~= lv.skip(k + 1));
        }
        k = k + 1;
    }
    proof {
        assert(lv.skip(lines@.len() as int) =~= Seq::<Seq<char>>::empty());
    }
    None
}

} // verus!
