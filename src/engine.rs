use vstd::prelude::*;
use crate::json::{Json, JsonVal};
use crate::path::views;
use crate::pattern::{PatternError, PatternView, all_accepted, short_literals, compile_patterns, first_refused, pattern_specs};
use crate::relative::{apply_relative_keys, missed_all, resolve_all};
use crate::search::{Match, MatchVal, key_search, match_views, search_keys, search_values, value_search};

verus! {

broadcast use {vstd::std_specs::vec::group_vec_axioms, vstd::seq::group_seq_axioms};

/// Every key match, then every value match, from the root.
pub open spec fn find_all(data: JsonVal, kp: Seq<PatternView>, vp: Seq<PatternView>, d: Seq<char>) -> Seq<
    MatchVal,
> {
    key_search(data, kp, d, Seq::empty()) + value_search(data, vp, d, Seq::empty())
}

/// The result of a run: the matches found, or, when relative expressions are
/// given, what they resolve to in their place.
pub open spec fn run_result(
    data: JsonVal,
    kp: Seq<PatternView>,
    vp: Seq<PatternView>,
    rels: Seq<Seq<char>>,
    d: Seq<char>,
    rd: Seq<char>,
) -> Seq<MatchVal> {
    if rels.len() == 0 {
        find_all(data, kp, vp, d)
    } else {
        resolve_all(data, find_all(data, kp, vp, d), rels, d, rd)
    }
}

/// The paths of the relative pairs that do not resolve, where relative
/// expressions are given.
pub open spec fn run_missed(
    data: JsonVal,
    kp: Seq<PatternView>,
    vp: Seq<PatternView>,
    rels: Seq<Seq<char>>,
    d: Seq<char>,
    rd: Seq<char>,
) -> Seq<Seq<char>> {
    if rels.len() == 0 {
        Seq::empty()
    } else {
        missed_all(data, find_all(data, kp, vp, d), rels, d, rd)
    }
}

/// Searches `data` for keys and values. All patterns are compiled first; the
/// first one the regex engine refuses ends the run with no result. On
/// success, the matches come first, then the paths of the relative pairs
/// that did not resolve.
pub fn process_json(
    data: &Json,
    keys: &Vec<String>,
    values: &Vec<String>,
    extended_keys: &Vec<String>,
    extended_values: &Vec<String>,
    delimiter: &str,
    relative_keys: &Vec<String>,
    relative_delimiter: &str,
    ignore_case: bool,
) -> (r: Result<(Vec<Match>, Vec<String>), PatternError>)
    ensures
        r is Ok <==> all_accepted(pattern_specs(views(keys@), views(extended_keys@), ignore_case))
            && all_accepted(pattern_specs(views(values@), views(extended_values@), ignore_case)),
        r matches Ok(res) ==> match_views(res.0@) == run_result(
            data@,
            pattern_specs(views(keys@), views(extended_keys@), ignore_case),
            pattern_specs(views(values@), views(extended_values@), ignore_case),
            views(relative_keys@),
            delimiter@,
            relative_delimiter@,
        ),
        r matches Ok(res) ==> views(res.1@) == run_missed(
            data@,
            pattern_specs(views(keys@), views(extended_keys@), ignore_case),
            pattern_specs(views(values@), views(extended_values@), ignore_case),
            views(relative_keys@),
            delimiter@,
            relative_delimiter@,
        ),
        !ignore_case && extended_keys.len() == 0 && extended_values.len() == 0 && short_literals(
            views(keys@),
        ) && short_literals(views(values@)) ==> r is Ok,
        r matches Err(e) ==> (exists|i: int|
            first_refused(pattern_specs(views(keys@), views(extended_keys@), ignore_case), i)
                && e.pattern@ == #[trigger] pattern_specs(views(keys@), views(extended_keys@), ignore_case)[i].text)
            || (all_accepted(pattern_specs(views(keys@), views(extended_keys@), ignore_case)) && exists|i: int|
            first_refused(pattern_specs(views(values@), views(extended_values@), ignore_case), i)
                && e.pattern@ == #[trigger] pattern_specs(views(values@), views(extended_values@), ignore_case)[i].text),
{
    let key_patterns = match compile_patterns(keys, extended_keys, ignore_case) {
        Ok(ps) => ps,
        Err(e) => {
            return Err(e);
        },
    };
    let value_patterns = match compile_patterns(values, extended_values, ignore_case) {
        Ok(ps) => ps,
        Err(e) => {
            return Err(e);
        },
    };
    proof {
        reveal_strlit("");
        assert(""@ =~= Seq::<char>::empty());
    }
    let mut matches = search_keys(data, &key_patterns, delimiter, "");
    let mut found_values = search_values(data, &value_patterns, delimiter, "");
    let ghost k = matches@;
    let ghost v = found_values@;
    matches.append(&mut found_values);
    assert(match_views(matches@) =~= match_views(k) + match_views(v));
    if relative_keys.len() > 0 {
        Ok(apply_relative_keys(data, &matches, relative_keys, delimiter, relative_delimiter))
    } else {
        let missed: Vec<String> = Vec::new();
        assert(views(missed@) =~= Seq::<Seq<char>>::empty());
        Ok((matches, missed))
    }
}

} // verus!
