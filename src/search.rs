use vstd::prelude::*;
use vstd::string::*;
use crate::json::{Json, JsonVal};
use crate::path::{
    all_digits, child_path, decimal, ends_with, extend_path, index_text, lemma_decimal_digits,
    lemma_normalized_ends, normalize_key, normalized, shares_no_char,
};
use crate::pattern::{Pattern, PatternView, anchored_literal, is_literal, literal_part, same_name, pattern_finds, pattern_spec, pattern_views};

verus! {

broadcast use {vstd::std_specs::vec::group_vec_axioms, vstd::seq::group_seq_axioms};

/// A found location: its path and the value there.
pub struct MatchVal {
    pub path: Seq<char>,
    pub value: JsonVal,
}

/// A found location with an independent copy of the value there.
pub struct Match {
    pub key: String,
    pub value: Json,
}

impl View for Match {
    type V = MatchVal;

    open spec fn view(&self) -> MatchVal {
        MatchVal { path: self.key@, value: self.value@ }
    }
}

pub open spec fn match_views(ms: Seq<Match>) -> Seq<MatchVal> {
    ms.map_values(|m: Match| m@)
}

/// How many children a node has: fields of an object, elements of an array.
pub open spec fn child_count(j: JsonVal) -> nat {
    match j {
        JsonVal::Array(es) => es.len(),
        JsonVal::Object(ks, vs) => vs.len(),
        _ => 0,
    }
}

pub open spec fn child_at(j: JsonVal, i: int) -> JsonVal {
    match j {
        JsonVal::Array(es) => es[i],
        JsonVal::Object(ks, vs) => vs[i],
        _ => JsonVal::Null,
    }
}

/// The path segment of a child: the field name, or the decimal index.
pub open spec fn segment_at(j: JsonVal, i: int) -> Seq<char> {
    match j {
        JsonVal::Object(ks, vs) => ks[i],
        _ => decimal(i as nat),
    }
}

pub open spec fn wf_val(j: JsonVal) -> bool {
    j matches JsonVal::Object(ks, vs) ==> ks.len() == vs.len()
}

/// Whether a key pattern is satisfied at a child with candidate path `path`.
/// A full pattern also accepts a child whose bare segment (a field name or
/// an array index) is the pattern text, compared without case where the
/// pattern ignores case.
pub open spec fn key_hit(p: PatternView, path: Seq<char>, name: Seq<char>) -> bool {
    pattern_finds(p.source, path) || (p.full && same_name(p, name))
}

/// One match for each satisfied key pattern, in pattern order.
pub open spec fn key_hits(
    pats: Seq<PatternView>,
    path: Seq<char>,
    name: Seq<char>,
    v: JsonVal,
    d: Seq<char>,
) -> Seq<MatchVal>
    decreases pats.len(),
{
    if pats.len() == 0 {
        Seq::empty()
    } else {
        key_hits(pats.drop_last(), path, name, v, d) + if key_hit(pats.last(), path, name) {
            seq![MatchVal { path: normalized(path, d), value: v }]
        } else {
            Seq::empty()
        }
    }
}

/// The key matches below `j`, whose own path is `prefix`, depth first, each
/// child tested before its own children are searched.
pub open spec fn key_search(j: JsonVal, pats: Seq<PatternView>, d: Seq<char>, prefix: Seq<char>) -> Seq<
    MatchVal,
>
    decreases j, child_count(j) + 1,
{
    key_fold(j, pats, d, prefix, child_count(j))
}

/// The key matches of the first `n` children of `j` and below them.
pub open spec fn key_fold(
    j: JsonVal,
    pats: Seq<PatternView>,
    d: Seq<char>,
    prefix: Seq<char>,
    n: nat,
) -> Seq<MatchVal>
    decreases j, n,
{
    if n == 0 || n > child_count(j) || !wf_val(j) {
        Seq::empty()
    } else {
        let i = n - 1;
        let path = child_path(prefix, segment_at(j, i), d);
        key_fold(j, pats, d, prefix, (n - 1) as nat) + key_hits(
            pats,
            path,
            segment_at(j, i),
            child_at(j, i),
            d,
        ) + key_search(child_at(j, i), pats, d, path)
    }
}

pub open spec fn true_text() -> Seq<char> {
    seq!['t', 'r', 'u', 'e']
}

pub open spec fn false_text() -> Seq<char> {
    seq!['f', 'a', 'l', 's', 'e']
}

/// The text that value patterns are tested against: a string itself, the
/// canonical form of a number or a boolean. Other nodes have none.
pub open spec fn scalar_text(j: JsonVal) -> Option<Seq<char>> {
    match j {
        JsonVal::Str(s) => Some(s),
        JsonVal::Number(t) => Some(t),
        JsonVal::Bool(b) => Some(
            if b {
                true_text()
            } else {
                false_text()
            },
        ),
        _ => None,
    }
}

/// One match for each value pattern found in `text`, in pattern order.
pub open spec fn value_hits(
    pats: Seq<PatternView>,
    path: Seq<char>,
    text: Seq<char>,
    v: JsonVal,
    d: Seq<char>,
) -> Seq<MatchVal>
    decreases pats.len(),
{
    if pats.len() == 0 {
        Seq::empty()
    } else {
        value_hits(pats.drop_last(), path, text, v, d) + if pattern_finds(pats.last().source, text) {
            seq![MatchVal { path: normalized(path, d), value: v }]
        } else {
            Seq::empty()
        }
    }
}

/// The value matches at and below `j`, whose path is `path`, depth first.
pub open spec fn value_search(j: JsonVal, pats: Seq<PatternView>, d: Seq<char>, path: Seq<char>) -> Seq<
    MatchVal,
>
    decreases j, child_count(j) + 1,
{
    match scalar_text(j) {
        Some(t) => value_hits(pats, path, t, j, d),
        None => value_fold(j, pats, d, path, child_count(j)),
    }
}

/// The value matches below the first `n` children of `j`.
pub open spec fn value_fold(
    j: JsonVal,
    pats: Seq<PatternView>,
    d: Seq<char>,
    prefix: Seq<char>,
    n: nat,
) -> Seq<MatchVal>
    decreases j, n,
{
    if n == 0 || n > child_count(j) || !wf_val(j) {
        Seq::empty()
    } else {
        let i = n - 1;
        value_fold(j, pats, d, prefix, (n - 1) as nat) + value_search(
            child_at(j, i),
            pats,
            d,
            child_path(prefix, segment_at(j, i), d),
        )
    }
}

proof fn lemma_match_views_add(a: Seq<Match>, b: Seq<Match>)
    ensures
        match_views(a + b) == match_views(a) + match_views(b),
{
    assert(match_views(a + b) =~= match_views(a) + match_views(b));
}

proof fn lemma_match_views_push(a: Seq<Match>, m: Match)
    ensures
        match_views(a.push(m)) == match_views(a).push(m@),
{
    assert(match_views(a.push(m)) =~= match_views(a).push(m@));
}

fn push_key_hits(
    out: &mut Vec<Match>,
    pats: &Vec<Pattern>,
    path: &String,
    name: &String,
    v: &Json,
    d: &str,
)
    ensures
        match_views(final(out)@) == match_views(old(out)@) + key_hits(
            pattern_views(pats@),
            path@,
            name@,
            v@,
            d@,
        ),
{
    let key = normalize_key(path.as_str(), d);
    let ghost pv = pattern_views(pats@);
    let mut i: usize = 0;
    while i < pats.len()
        invariant
            i <= pats.len(),
            pv == pattern_views(pats@),
            key@ == normalized(path@, d@),
            match_views(out@) == match_views(old(out)@) + key_hits(pv.take(i as int), path@, name@, v@, d@),
        decreases pats.len() - i,
    {
        assert(pv.take(i + 1).drop_last() =~= pv.take(i as int));
        assert(pv.take(i + 1).last() == pats@[i as int]@);
        let p = &pats[i];
        if p.finds(path.as_str()) || (p.is_full() && p.names(name.as_str())) {
            let m = Match { key: key.clone(), value: v.snapshot() };
            proof {
                lemma_match_views_push(out@, m);
            }
            out.push(m);
        }
        i += 1;
    }
    assert(pv.take(i as int) =~= pv);
}

fn push_value_hits(out: &mut Vec<Match>, pats: &Vec<Pattern>, path: &str, text: &str, v: &Json, d: &str)
    ensures
        match_views(final(out)@) == match_views(old(out)@) + value_hits(
            pattern_views(pats@),
            path@,
            text@,
            v@,
            d@,
        ),
{
    let key = normalize_key(path, d);
    let ghost pv = pattern_views(pats@);
    let mut i: usize = 0;
    while i < pats.len()
        invariant
            i <= pats.len(),
            pv == pattern_views(pats@),
            key@ == normalized(path@, d@),
            match_views(out@) == match_views(old(out)@) + value_hits(pv.take(i as int), path@, text@, v@, d@),
        decreases pats.len() - i,
    {
        assert(pv.take(i + 1).drop_last() =~= pv.take(i as int));
        assert(pv.take(i + 1).last() == pats@[i as int]@);
        if pats[i].finds(text) {
            let m = Match { key: key.clone(), value: v.snapshot() };
            proof {
                lemma_match_views_push(out@, m);
            }
            out.push(m);
        }
        i += 1;
    }
    assert(pv.take(i as int) =~= pv);
}

/// Every key match at and below `data`, whose own path is `prefix`, in
/// depth-first order: a child is tested against each pattern in turn, then
/// searched itself.
pub fn search_keys(data: &Json, key_patterns: &Vec<Pattern>, delimiter: &str, prefix: &str) -> (r: Vec<
    Match,
>)
    ensures
        match_views(r@) == key_search(data@, pattern_views(key_patterns@), delimiter@, prefix@),
    decreases data,
{
    let ghost pv = pattern_views(key_patterns@);
    let mut matches: Vec<Match> = Vec::new();
    match data {
        Json::Object(ms) => {
            let mut i: usize = 0;
            #[verifier::loop_isolation(false)]
            while i < ms.len()
                invariant
                    i <= ms.len(),
                    match_views(matches@) == key_fold(data@, pv, delimiter@, prefix@, i as nat),
                decreases ms.len() - i,
            {
                proof {
                    assert(decreases_to!(*data => ms[i as int].1));
                    assert(segment_at(data@, i as int) == ms[i as int].0@);
                    assert(child_at(data@, i as int) == ms[i as int].1@);
                }
                let path = extend_path(prefix, ms[i].0.as_str(), delimiter);
                push_key_hits(&mut matches, key_patterns, &path, &ms[i].0, &ms[i].1, delimiter);
                let mut sub = search_keys(&ms[i].1, key_patterns, delimiter, path.as_str());
                proof {
                    lemma_match_views_add(matches@, sub@);
                }
                matches.append(&mut sub);
                i += 1;
            }
        },
        Json::Array(es) => {
            let mut i: usize = 0;
            #[verifier::loop_isolation(false)]
            while i < es.len()
                invariant
                    i <= es.len(),
                    match_views(matches@) == key_fold(data@, pv, delimiter@, prefix@, i as nat),
                decreases es.len() - i,
            {
                proof {
                    assert(decreases_to!(*data => es[i as int]));
                    assert(child_at(data@, i as int) == es[i as int]@);
                }
                let name = index_text(i);
                let path = extend_path(prefix, name.as_str(), delimiter);
                push_key_hits(&mut matches, key_patterns, &path, &name, &es[i], delimiter);
                let mut sub = search_keys(&es[i], key_patterns, delimiter, path.as_str());
                proof {
                    lemma_match_views_add(matches@, sub@);
                }
                matches.append(&mut sub);
                i += 1;
            }
        },
        _ => {},
    }
    matches
}

fn scalar_text_exec(data: &Json) -> (r: Option<String>)
    ensures
        r is None <==> scalar_text(data@) is None,
        r matches Some(t) ==> scalar_text(data@) == Some(t@),
{
    proof {
        reveal_strlit("true");
        reveal_strlit("false");
    }
    match data {
        Json::Str(s) => Some(s.clone()),
        Json::Number(t) => Some(t.clone()),
        Json::Bool(b) => {
            if *b {
                Some(String::from_str("true"))
            } else {
                Some(String::from_str("false"))
            }
        },
        _ => None,
    }
}

/// Every value match at and below `data`, whose path is `prefix`, in
/// depth-first order. Only strings, numbers and booleans are tested.
pub fn search_values(data: &Json, value_patterns: &Vec<Pattern>, delimiter: &str, prefix: &str) -> (r: Vec<
    Match,
>)
    ensures
        match_views(r@) == value_search(data@, pattern_views(value_patterns@), delimiter@, prefix@),
    decreases data,
{
    let ghost pv = pattern_views(value_patterns@);
    let mut matches: Vec<Match> = Vec::new();
    if let Some(text) = scalar_text_exec(data) {
        push_value_hits(&mut matches, value_patterns, prefix, text.as_str(), data, delimiter);
        assert(match_views(matches@) =~= value_search(data@, pv, delimiter@, prefix@));
        return matches;
    }
    match data {
        Json::Object(ms) => {
            let mut i: usize = 0;
            #[verifier::loop_isolation(false)]
            while i < ms.len()
                invariant
                    i <= ms.len(),
                    match_views(matches@) == value_fold(data@, pv, delimiter@, prefix@, i as nat),
                decreases ms.len() - i,
            {
                proof {
                    assert(decreases_to!(*data => ms[i as int].1));
                    assert(segment_at(data@, i as int) == ms[i as int].0@);
                    assert(child_at(data@, i as int) == ms[i as int].1@);
                }
                let path = extend_path(prefix, ms[i].0.as_str(), delimiter);
                let mut sub = search_values(&ms[i].1, value_patterns, delimiter, path.as_str());
                proof {
                    lemma_match_views_add(matches@, sub@);
                }
                matches.append(&mut sub);
                i += 1;
            }
        },
        Json::Array(es) => {
            let mut i: usize = 0;
            #[verifier::loop_isolation(false)]
            while i < es.len()
                invariant
                    i <= es.len(),
                    match_views(matches@) == value_fold(data@, pv, delimiter@, prefix@, i as nat),
                decreases es.len() - i,
            {
                proof {
                    assert(decreases_to!(*data => es[i as int]));
                    assert(child_at(data@, i as int) == es[i as int]@);
                }
                let name = index_text(i);
                let path = extend_path(prefix, name.as_str(), delimiter);
                let mut sub = search_values(&es[i], value_patterns, delimiter, path.as_str());
                proof {
                    lemma_match_views_add(matches@, sub@);
                }
                matches.append(&mut sub);
                i += 1;
            }
        },
        _ => {},
    }
    matches
}

/// Each field named `f` at or below `j` (whose path is `prefix`), with its
/// normalized path and value, depth first.
pub open spec fn occurrences(j: JsonVal, f: Seq<char>, d: Seq<char>, prefix: Seq<char>) -> Seq<MatchVal>
    decreases j, child_count(j) + 1,
{
    occurrence_fold(j, f, d, prefix, child_count(j))
}

pub open spec fn occurrence_fold(j: JsonVal, f: Seq<char>, d: Seq<char>, prefix: Seq<char>, n: nat) -> Seq<
    MatchVal,
>
    decreases j, n,
{
    if n == 0 || n > child_count(j) || !wf_val(j) {
        Seq::empty()
    } else {
        let i = n - 1;
        let path = child_path(prefix, segment_at(j, i), d);
        occurrence_fold(j, f, d, prefix, (n - 1) as nat) + if j is Object && segment_at(j, i) == f {
            seq![MatchVal { path: normalized(path, d), value: child_at(j, i) }]
        } else {
            Seq::empty()
        } + occurrences(child_at(j, i), f, d, path)
    }
}

/// The conditions under which a field name is searched for as itself: it is
/// literal regex text, not a number, and holds no character of the delimiter.
pub open spec fn plain_name(f: Seq<char>, d: Seq<char>) -> bool {
    &&& d.len() > 0
    &&& is_literal(f)
    &&& !all_digits(f)
    &&& shares_no_char(f, d)
}

proof fn lemma_literal_hit(f: Seq<char>, d: Seq<char>, prefix: Seq<char>, seg: Seq<char>, is_index: bool)
    requires
        plain_name(f, d),
        is_index ==> all_digits(seg),
    ensures
        key_hit(pattern_spec(f, true, false), child_path(prefix, seg, d), seg) <==> (!is_index && seg == f),
{
    let p = pattern_spec(f, true, false);
    let src = p.source;
    assert(src == seq!['^', '(', '?', ':'] + f + seq![')', '$']);
    assert(literal_part(src) =~= f);
    assert(anchored_literal(src));
    let path = child_path(prefix, seg, d);
    if is_index && seg == f {
        assert(all_digits(f));
    }
    if path == f {
        if prefix.len() == 0 && is_index {
            assert(all_digits(f));
        }
        if prefix.len() > 0 {
            assert(path[prefix.len() as int] == d[0]);
            assert(f[prefix.len() as int] == d[0]);
        }
    }
}

proof fn lemma_occurrence_paths(j: JsonVal, f: Seq<char>, d: Seq<char>, prefix: Seq<char>)
    requires
        plain_name(f, d),
    ensures
        forall|i: int| 0 <= i < occurrences(j, f, d, prefix).len() ==> ends_with(
            #[trigger] occurrences(j, f, d, prefix)[i].path,
            f,
        ),
    decreases j, child_count(j) + 1,
{
    lemma_occurrence_fold_paths(j, f, d, prefix, child_count(j));
}

proof fn lemma_occurrence_fold_paths(j: JsonVal, f: Seq<char>, d: Seq<char>, prefix: Seq<char>, n: nat)
    requires
        plain_name(f, d),
    ensures
        forall|i: int| 0 <= i < occurrence_fold(j, f, d, prefix, n).len() ==> ends_with(
            #[trigger] occurrence_fold(j, f, d, prefix, n)[i].path,
            f,
        ),
    decreases j, n,
{
    if n == 0 || n > child_count(j) || !wf_val(j) {
    } else {
        let i = (n - 1) as int;
        let path = child_path(prefix, segment_at(j, i), d);
        let a = occurrence_fold(j, f, d, prefix, (n - 1) as nat);
        let b = if j is Object && segment_at(j, i) == f {
            seq![MatchVal { path: normalized(path, d), value: child_at(j, i) }]
        } else {
            Seq::empty()
        };
        let c = occurrences(child_at(j, i), f, d, path);
        lemma_occurrence_fold_paths(j, f, d, prefix, (n - 1) as nat);
        lemma_occurrence_paths(child_at(j, i), f, d, path);
        if j is Object && segment_at(j, i) == f {
            lemma_normalized_ends(prefix, f, d);
        }
        assert(occurrence_fold(j, f, d, prefix, n) == a + b + c);
        assert forall|k: int| 0 <= k < (a + b + c).len() implies ends_with(#[trigger] (a + b + c)[k].path, f) by {
            if k < a.len() {
                assert((a + b + c)[k] == a[k]);
            } else if k < a.len() + b.len() {
                assert((a + b + c)[k] == b[k - a.len()]);
            } else {
                assert((a + b + c)[k] == c[k - a.len() - b.len()]);
            }
        }
    }
}

proof fn lemma_literal_fold(j: JsonVal, f: Seq<char>, d: Seq<char>, prefix: Seq<char>, n: nat)
    requires
        plain_name(f, d),
    ensures
        key_fold(j, seq![pattern_spec(f, true, false)], d, prefix, n) == occurrence_fold(j, f, d, prefix, n),
    decreases j, n,
{
    let pats = seq![pattern_spec(f, true, false)];
    if n == 0 || n > child_count(j) || !wf_val(j) {
    } else {
        let i = (n - 1) as int;
        let seg = segment_at(j, i);
        let path = child_path(prefix, seg, d);
        lemma_literal_fold(j, f, d, prefix, (n - 1) as nat);
        lemma_literal_search(child_at(j, i), f, d, path);
        lemma_decimal_digits(i as nat);
        lemma_literal_hit(f, d, prefix, seg, !(j is Object));
        assert(pats.drop_last() =~= Seq::<PatternView>::empty());
        assert(key_hits(Seq::<PatternView>::empty(), path, seg, child_at(j, i), d) == Seq::<MatchVal>::empty());
    }
}

proof fn lemma_literal_search(j: JsonVal, f: Seq<char>, d: Seq<char>, prefix: Seq<char>)
    requires
        plain_name(f, d),
    ensures
        key_search(j, seq![pattern_spec(f, true, false)], d, prefix) == occurrences(j, f, d, prefix),
    decreases j, child_count(j) + 1,
{
    lemma_literal_fold(j, f, d, prefix, child_count(j));
}

/// A full, case-sensitive key pattern that is a plain field name `f` finds
/// exactly the fields named `f`, one match for each, at any depth and in
/// traversal order; the path of each ends in `f`.
pub proof fn lemma_literal_key_pattern(j: JsonVal, f: Seq<char>, d: Seq<char>)
    requires
        plain_name(f, d),
    ensures
        key_search(j, seq![pattern_spec(f, true, false)], d, Seq::empty()) == occurrences(j, f, d, Seq::empty()),
        forall|i: int| 0 <= i < occurrences(j, f, d, Seq::empty()).len() ==> ends_with(
            #[trigger] occurrences(j, f, d, Seq::empty())[i].path,
            f,
        ),
{
    lemma_literal_search(j, f, d, Seq::empty());
    lemma_occurrence_paths(j, f, d, Seq::empty());
}

} // verus!
