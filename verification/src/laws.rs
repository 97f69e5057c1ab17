//! The library's laws: properties that relate the primitives' rules across
//! inputs, stated over the same spec functions the primitives' contracts use
//! and proved once and for all.

use vstd::prelude::*;

use crate::email::get_email_spec;
use crate::engine::bool_token;
use crate::engine::get_bool_spec;
use crate::engine::get_choice_spec;
use crate::engine::get_input_spec;
use crate::engine::get_list_spec;
use crate::engine::list_line_spec;
use crate::numbers::lemma_strip_commas_idempotent;
use crate::numbers::strip_commas;
use crate::parse::Parseable;
use crate::text::choice_match;
use crate::text::find_sep;
use crate::text::fold_lower;
use crate::text::lemma_find_sep;
use crate::text::lemma_fold_idempotent;
use crate::text::lemma_trim_bounds;
use crate::text::lemma_trim_fold_commute;
use crate::text::lemma_trim_idempotent;
use crate::text::match_at;
use crate::text::split_spec;
use crate::text::trim_spec;
use crate::text::trim_start;

verus! {

/// Digit-grouping commas are immaterial to numeric parsing: a literal parses
/// exactly when its comma-stripped form does, and to the same value.
pub proof fn lemma_numeric_commas_immaterial(s: Seq<char>)
    ensures
        <u8 as Parseable>::parse_ok(s) == <u8 as Parseable>::parse_ok(strip_commas(s)),
        <u8 as Parseable>::parse_ok(s) ==> <u8 as Parseable>::parse_val(s) == <u8 as Parseable>::parse_val(strip_commas(s)),
        <u32 as Parseable>::parse_ok(s) == <u32 as Parseable>::parse_ok(strip_commas(s)),
        <u32 as Parseable>::parse_ok(s) ==> <u32 as Parseable>::parse_val(s) == <u32 as Parseable>::parse_val(strip_commas(s)),
        <u64 as Parseable>::parse_ok(s) == <u64 as Parseable>::parse_ok(strip_commas(s)),
        <u64 as Parseable>::parse_ok(s) ==> <u64 as Parseable>::parse_val(s) == <u64 as Parseable>::parse_val(strip_commas(s)),
        <i32 as Parseable>::parse_ok(s) == <i32 as Parseable>::parse_ok(strip_commas(s)),
        <i32 as Parseable>::parse_ok(s) ==> <i32 as Parseable>::parse_val(s) == <i32 as Parseable>::parse_val(strip_commas(s)),
        <i64 as Parseable>::parse_ok(s) == <i64 as Parseable>::parse_ok(strip_commas(s)),
        <i64 as Parseable>::parse_ok(s) ==> <i64 as Parseable>::parse_val(s) == <i64 as Parseable>::parse_val(strip_commas(s)),
{
    lemma_strip_commas_idempotent(s);
}

/// A line in which the separator never occurs is a one-element list: the
/// list rule returns exactly the one parsed value of the trimmed line, and
/// fails exactly when that line does not parse.
pub proof fn lemma_list_single_without_separator<T: Parseable>(line: Seq<char>, sep: Seq<char>)
    requires
        sep.len() >= 1,
        forall|i: int| !match_at(line, sep, i),
    ensures
        list_line_spec::<T>(line, sep) == (if T::parse_ok(trim_spec(line)) {
            Some(seq![T::parse_val(trim_spec(line))])
        } else {
            None::<Seq<T::V>>
        }),
{
    let t = trim_spec(line);
    lemma_trim_bounds(line);
    crate::text::lemma_trim_start(line);
    crate::text::lemma_trim_end(line);
    assert forall|i: int| !match_at(t, sep, i) by {
        if match_at(t, sep, i) {
            if trim_start(line) == line.len() {
                assert(t.len() == 0);
            } else {
                let a = trim_start(line);
                let b = crate::text::trim_end(line);
                assert(t == line.subrange(a, b));
                assert(line.subrange(a + i, a + i + sep.len()) =~= t.subrange(
                    i,
                    i + sep.len(),
                ));
                assert(line.subrange(a + i, a + i + sep.len()) == sep);
                assert(match_at(line, sep, a + i));
            }
        }
    }
    lemma_find_sep(t, sep);
    assert(find_sep(t, sep) == -1) by {
        if find_sep(t, sep) != -1 {
            assert(match_at(t, sep, find_sep(t, sep)));
        }
    }
    assert(split_spec(t, sep) == seq![t]);
    let pieces = split_spec(t, sep).map_values(|p: Seq<char>| trim_spec(p));
    lemma_trim_idempotent(line);
    assert(pieces =~= seq![t]);
    if T::parse_ok(t) {
        assert(forall|i: int| 0 <= i < pieces.len() ==> T::parse_ok(#[trigger] pieces[i]));
        assert(Seq::new(pieces.len(), |i: int| T::parse_val(pieces[i])) =~= seq![
            T::parse_val(t),
        ]);
    } else {
        assert(!T::parse_ok(pieces[0]));
    }
}

/// The boolean rule is case-insensitive: folding a line's case before handing
/// it over changes nothing.
pub proof fn lemma_bool_case_insensitive(line: Seq<char>)
    ensures
        bool_token(fold_lower(line)) == bool_token(line),
{
    lemma_trim_fold_commute(line);
    lemma_fold_idempotent(trim_spec(line));
}

/// Re-invoking any primitive on the same canned lines yields the same value:
/// every primitive's contract pins its result to a spec function of the
/// arguments alone, so any two results obtained from equal arguments — in
/// particular, from two calls of the same primitive — are equal. No hidden
/// state carries across calls.
pub proof fn lemma_reinvocation_deterministic<T: Parseable>(
    lines: Seq<Seq<char>>,
    sep: Seq<char>,
    cands: Seq<Seq<char>>,
    input1: Option<T::V>,
    input2: Option<T::V>,
    list1: Option<Seq<T::V>>,
    list2: Option<Seq<T::V>>,
    bool1: Option<bool>,
    bool2: Option<bool>,
    choice1: Option<int>,
    choice2: Option<int>,
    email1: Option<Seq<char>>,
    email2: Option<Seq<char>>,
)
    requires
        input1 == get_input_spec::<T>(lines),
        input2 == get_input_spec::<T>(lines),
        list1 == get_list_spec::<T>(lines, sep),
        list2 == get_list_spec::<T>(lines, sep),
        bool1 == get_bool_spec(lines),
        bool2 == get_bool_spec(lines),
        choice1 == get_choice_spec(lines, cands),
        choice2 == get_choice_spec(lines, cands),
        email1 == get_email_spec(lines),
        email2 == get_email_spec(lines),
    ensures
        input1 == input2,
        list1 == list2,
        bool1 == bool2,
        choice1 == choice2,
        email1 == email2,
{
}

/// The choice rule is case-insensitive: folding the line's case, the
/// candidate's case, or both, changes no match.
pub proof fn lemma_choice_case_insensitive(line: Seq<char>, cand: Seq<char>)
    ensures
        choice_match(fold_lower(line), cand) == choice_match(line, cand),
        choice_match(line, fold_lower(cand)) == choice_match(line, cand),
        choice_match(fold_lower(line), fold_lower(cand)) == choice_match(line, cand),
{
    lemma_trim_fold_commute(line);
    lemma_fold_idempotent(trim_spec(line));
    lemma_fold_idempotent(cand);
}

} // verus!
