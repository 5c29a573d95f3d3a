use vstd::prelude::*;
use vstd::string::*;
use crate::json::{Json, JsonVal};
use crate::path::{
    all_digits, is_digit, join_segments, lemma_split_pair, lemma_split_self, lemma_split_whole,
    shares_no_char, join_spec, normalized, parse_key, segments, split_on, split_spec, views};
use crate::search::{Match, MatchVal, match_views};

verus! {

broadcast use {vstd::std_specs::vec::group_vec_axioms, vstd::seq::group_seq_axioms};

/// A piece as a token list: itself if it is not empty, else nothing.
pub open spec fn keep(p: Seq<char>) -> Seq<Seq<char>> {
    if p.len() > 0 {
        seq![p]
    } else {
        Seq::empty()
    }
}

/// The tokens of pieces that were cut at each relative delimiter `rd`: each
/// non-empty piece, with one `rd` token where each cut was.
pub open spec fn marks(ps: Seq<Seq<char>>, rd: Seq<char>) -> Seq<Seq<char>>
    decreases ps.len(),
{
    if ps.len() == 0 {
        Seq::empty()
    } else if ps.len() == 1 {
        keep(ps[0])
    } else {
        marks(ps.drop_last(), rd) + seq![rd] + keep(ps.last())
    }
}

/// The tokens of each chunk in turn.
pub open spec fn chunk_tokens(cs: Seq<Seq<char>>, rd: Seq<char>) -> Seq<Seq<char>>
    decreases cs.len(),
{
    if cs.len() == 0 {
        Seq::empty()
    } else {
        chunk_tokens(cs.drop_last(), rd) + marks(split_spec(cs.last(), rd), rd)
    }
}

/// The tokens of a relative expression: cut at each delimiter `d`, each chunk
/// cut again at each relative delimiter `rd`, empty tokens left out.
pub open spec fn relative_tokens(expr: Seq<char>, d: Seq<char>, rd: Seq<char>) -> Seq<Seq<char>> {
    chunk_tokens(split_spec(expr, d), rd)
}

/// One token applied to a segment list: `rd` drops the last segment (nothing
/// happens on an empty list), any other token is pushed.
pub open spec fn step(path: Seq<Seq<char>>, t: Seq<char>, rd: Seq<char>) -> Seq<Seq<char>> {
    if t == rd {
        if path.len() == 0 {
            path
        } else {
            path.drop_last()
        }
    } else {
        path.push(t)
    }
}

/// The tokens applied left to right.
pub open spec fn apply_tokens(path: Seq<Seq<char>>, toks: Seq<Seq<char>>, rd: Seq<char>) -> Seq<Seq<char>>
    decreases toks.len(),
{
    if toks.len() == 0 {
        path
    } else {
        step(apply_tokens(path, toks.drop_last(), rd), toks.last(), rd)
    }
}

/// The segment list that the expression `rel` leads to from the path `key`.
pub open spec fn relative_path(key: Seq<char>, rel: Seq<char>, d: Seq<char>, rd: Seq<char>) -> Seq<Seq<char>> {
    apply_tokens(segments(key, d), relative_tokens(rel, d, rd), rd)
}

pub open spec fn digits_value(s: Seq<char>) -> nat
    decreases s.len(),
{
    if s.len() == 0 {
        0
    } else {
        digits_value(s.drop_last()) * 10 + ((s.last() as u32) - ('0' as u32)) as nat
    }
}

/// The digits of an index segment, after the one `+` sign it may carry.
pub open spec fn index_digits(seg: Seq<char>) -> Seq<char> {
    if seg.len() > 0 && seg[0] == '+' {
        seg.drop_first()
    } else {
        seg
    }
}

/// The first position at or after `i` that holds the name `k`, or -1.
pub open spec fn find_key(ks: Seq<Seq<char>>, k: Seq<char>, i: int) -> int
    decreases ks.len() - i,
{
    if i < 0 || i >= ks.len() {
        -1
    } else if ks[i] == k {
        i
    } else {
        find_key(ks, k, i + 1)
    }
}

/// One step down: a field by name, an element by its decimal index.
pub open spec fn step_into(j: JsonVal, seg: Seq<char>) -> Option<JsonVal> {
    match j {
        JsonVal::Object(ks, vs) => {
            let i = find_key(ks, seg, 0);
            if 0 <= i < vs.len() {
                Some(vs[i])
            } else {
                None
            }
        },
        JsonVal::Array(es) => {
            if all_digits(index_digits(seg)) && digits_value(index_digits(seg)) < es.len() {
                Some(es[digits_value(index_digits(seg)) as int])
            } else {
                None
            }
        },
        _ => None,
    }
}

/// The node that the segments lead to from `j`, if every step exists.
pub open spec fn lookup(j: JsonVal, segs: Seq<Seq<char>>) -> Option<JsonVal>
    decreases segs.len(),
{
    if segs.len() == 0 {
        Some(j)
    } else {
        match step_into(j, segs[0]) {
            Some(c) => lookup(c, segs.drop_first()),
            None => None,
        }
    }
}

/// What one (match, expression) pair resolves to: nothing, or one match.
pub open spec fn resolve_one(
    data: JsonVal,
    key: Seq<char>,
    rel: Seq<char>,
    d: Seq<char>,
    rd: Seq<char>,
) -> Seq<MatchVal> {
    located(data, relative_path(key, rel, d, rd), d)
}

/// The match at the segment list `segs`, if it exists in `data`.
pub open spec fn located(data: JsonVal, segs: Seq<Seq<char>>, d: Seq<char>) -> Seq<MatchVal> {
    match lookup(data, segs) {
        Some(v) => seq![MatchVal { path: join_spec(segs, d), value: v }],
        None => Seq::empty(),
    }
}

pub open spec fn resolve_rels(
    data: JsonVal,
    key: Seq<char>,
    rels: Seq<Seq<char>>,
    d: Seq<char>,
    rd: Seq<char>,
) -> Seq<MatchVal>
    decreases rels.len(),
{
    if rels.len() == 0 {
        Seq::empty()
    } else {
        resolve_rels(data, key, rels.drop_last(), d, rd) + resolve_one(data, key, rels.last(), d, rd)
    }
}

/// The resolved matches, for each match in order and each expression in order.
pub open spec fn resolve_all(
    data: JsonVal,
    ms: Seq<MatchVal>,
    rels: Seq<Seq<char>>,
    d: Seq<char>,
    rd: Seq<char>,
) -> Seq<MatchVal>
    decreases ms.len(),
{
    if ms.len() == 0 {
        Seq::empty()
    } else {
        resolve_all(data, ms.drop_last(), rels, d, rd) + resolve_rels(data, ms.last().path, rels, d, rd)
    }
}

/// The tokens of the relative expression `relative`.
pub fn split_keys(relative: &str, delimiter: &str, relative_delimiter: &str) -> (r: Vec<String>)
    ensures
        views(r@) == relative_tokens(relative@, delimiter@, relative_delimiter@),
{
    let ghost rd = relative_delimiter@;
    let chunks = split_on(relative, delimiter);
    let mut out: Vec<String> = Vec::new();
    let mut i: usize = 0;
    while i < chunks.len()
        invariant
            i <= chunks.len(),
            rd == relative_delimiter@,
            views(chunks@) == split_spec(relative@, delimiter@),
            views(out@) == chunk_tokens(views(chunks@).take(i as int), rd),
        decreases chunks.len() - i,
    {
        assert(views(chunks@).take(i + 1).drop_last() =~= views(chunks@).take(i as int));
        let pieces = split_on(chunks[i].as_str(), relative_delimiter);
        let ghost before = views(out@);
        let mut j: usize = 0;
        while j < pieces.len()
            invariant
                j <= pieces.len(),
                rd == relative_delimiter@,
                views(out@) == before + marks(views(pieces@).take(j as int), rd),
            decreases pieces.len() - j,
        {
            let ghost ps = views(pieces@).take(j + 1);
            assert(ps.drop_last() =~= views(pieces@).take(j as int));
            assert(ps.last() == pieces@[j as int]@);
            let ghost mid = out@;
            if j > 0 {
                out.push(String::from_str(relative_delimiter));
            }
            let ghost mid2 = out@;
            if pieces[j].unicode_len() > 0 {
                out.push(pieces[j].clone());
            }
            proof {
                if j == 0 {
                    assert(ps =~= seq![pieces@[0]@]);
                }
                assert(views(mid2) =~= views(mid) + if j > 0 { seq![rd] } else { Seq::empty() });
                assert(views(out@) =~= views(mid2) + keep(pieces@[j as int]@));
                assert(views(out@) =~= before + marks(ps, rd));
            }
            j += 1;
        }
        assert(views(pieces@).take(pieces.len() as int) =~= views(pieces@));
        i += 1;
    }
    assert(views(chunks@).take(chunks.len() as int) =~= views(chunks@));
    out
}

/// The segment list that `rel_key` leads to from the path `key`.
pub fn apply_relative_path(key: &str, rel_key: &str, delimiter: &str, relative_delimiter: &str) -> (r: Vec<
    String,
>)
    ensures
        views(r@) == relative_path(key@, rel_key@, delimiter@, relative_delimiter@),
{
    let ghost rd = relative_delimiter@;
    let mut path = parse_key(key, delimiter);
    let toks = split_keys(rel_key, delimiter, relative_delimiter);
    let pop = String::from_str(relative_delimiter);
    let ghost start = views(path@);
    let mut i: usize = 0;
    while i < toks.len()
        invariant
            i <= toks.len(),
            pop@ == rd,
            views(path@) == apply_tokens(start, views(toks@).take(i as int), rd),
        decreases toks.len() - i,
    {
        assert(views(toks@).take(i + 1).drop_last() =~= views(toks@).take(i as int));
        assert(views(toks@).take(i + 1).last() == toks@[i as int]@);
        let ghost before = path@;
        if toks[i] == pop {
            if path.len() > 0 {
                path.pop();
                assert(views(path@) =~= views(before).drop_last());
            }
        } else {
            path.push(toks[i].clone());
            assert(views(path@) =~= views(before).push(toks@[i as int]@));
        }
        i += 1;
    }
    assert(views(toks@).take(toks.len() as int) =~= views(toks@));
    path
}

proof fn lemma_digits_prefix(s: Seq<char>, k: int)
    requires
        0 <= k <= s.len(),
    ensures
        digits_value(s.take(k)) <= digits_value(s) || !all_digits(s),
    decreases s.len(),
{
    if k == s.len() {
        assert(s.take(k) =~= s);
    } else if all_digits(s) {
        assert(s.drop_last().take(k) =~= s.take(k));
        assert(is_digit(s[s.len() - 1]));
        assert(all_digits(s.drop_last()) || s.drop_last().len() == 0);
        if s.drop_last().len() > 0 {
            lemma_digits_prefix(s.drop_last(), k);
        } else {
            assert(s.take(k) =~= Seq::<char>::empty());
        }
    }
}

/// The index that `seg` names in an array of `len` elements, if any: decimal
/// digits, after an optional `+` sign.
fn parse_index(seg: &str, len: usize) -> (r: Option<usize>)
    ensures
        r is Some <==> all_digits(index_digits(seg@)) && digits_value(index_digits(seg@)) < len,
        r matches Some(i) ==> i == digits_value(index_digits(seg@)),
{
    let n = seg.unicode_len();
    if n > 0 && seg.get_char(0) == '+' {
        let rest = seg.substring_char(1, n);
        assert(rest@ =~= seg@.drop_first());
        parse_digits(rest, len)
    } else {
        parse_digits(seg, len)
    }
}

/// The value of `seg` as decimal digits, where it is below `len`.
fn parse_digits(seg: &str, len: usize) -> (r: Option<usize>)
    ensures
        r is Some <==> all_digits(seg@) && digits_value(seg@) < len,
        r matches Some(i) ==> i == digits_value(seg@),
{
    let n = seg.unicode_len();
    if n == 0 || len == 0 {
        return None;
    }
    let mut val: usize = 0;
    let mut i: usize = 0;
    while i < n
        invariant
            i <= n,
            n == seg@.len(),
            val == digits_value(seg@.take(i as int)),
            val < len,
            forall|k: int| 0 <= k < i ==> is_digit(#[trigger] seg@[k]),
        decreases n - i,
    {
        let c = seg.get_char(i);
        if !(c >= '0' && c <= '9') {
            return None;
        }
        assert(seg@.take(i + 1).drop_last() =~= seg@.take(i as int));
        let next: u128 = (val as u128) * 10 + (c as u32 - '0' as u32) as u128;
        assert(next == digits_value(seg@.take(i + 1)));
        if next >= len as u128 {
            proof {
                lemma_digits_prefix(seg@, i + 1);
            }
            return None;
        }
        val = next as usize;
        i += 1;
    }
    assert(seg@.take(n as int) =~= seg@);
    Some(val)
}

proof fn lemma_find_key_at(ks: Seq<Seq<char>>, k: Seq<char>, i: int, j: int)
    requires
        0 <= i <= j < ks.len(),
        ks[j] == k,
        forall|m: int| i <= m < j ==> ks[m] != k,
    ensures
        find_key(ks, k, i) == j,
    decreases j - i,
{
    if i < j {
        lemma_find_key_at(ks, k, i + 1, j);
    }
}

proof fn lemma_find_key_none(ks: Seq<Seq<char>>, k: Seq<char>, i: int)
    requires
        0 <= i,
        forall|m: int| i <= m < ks.len() ==> ks[m] != k,
    ensures
        find_key(ks, k, i) == -1,
    decreases ks.len() - i,
{
    if i < ks.len() {
        lemma_find_key_none(ks, k, i + 1);
    }
}

/// The position of the first field named `key`.
fn find_field(ms: &Vec<(String, Json)>, key: &String) -> (r: Option<usize>)
    ensures
        r matches Some(k) ==> k < ms.len() && ms@[k as int].0@ == key@,
        r matches Some(k) ==> forall|j: int| 0 <= j < k ==> (#[trigger] ms@[j]).0@ != key@,
        r is None ==> forall|j: int| 0 <= j < ms.len() ==> (#[trigger] ms@[j]).0@ != key@,
{
    let mut i: usize = 0;
    while i < ms.len()
        invariant
            i <= ms.len(),
            forall|j: int| 0 <= j < i ==> (#[trigger] ms@[j]).0@ != key@,
        decreases ms.len() - i,
    {
        if ms[i].0 == *key {
            return Some(i);
        }
        i += 1;
    }
    None
}

fn copy_segments(v: &Vec<String>) -> (r: Vec<String>)
    ensures
        views(r@) == views(v@),
{
    let mut out: Vec<String> = Vec::new();
    let mut i: usize = 0;
    while i < v.len()
        invariant
            i <= v.len(),
            views(out@) == views(v@).take(i as int),
        decreases v.len() - i,
    {
        let ghost before = out@;
        let c = v[i].clone();
        out.push(c);
        assert(views(out@) =~= views(before).push(v@[i as int]@));
        assert(views(out@) =~= views(v@).take(i + 1));
        i += 1;
    }
    assert(views(v@).take(i as int) =~= views(v@));
    out
}

/// Follows the segments down from `data`: a field by name, an element by its
/// decimal index. `None` where a step does not exist.
pub fn resolve_path(data: &Json, path: &Vec<String>) -> (r: Option<(Json, Vec<String>)>)
    ensures
        r is None <==> lookup(data@, views(path@)) is None,
        r matches Some(p) ==> lookup(data@, views(path@)) == Some(p.0@) && views(p.1@) == views(path@),
{
    let ghost segs = views(path@);
    let mut current: &Json = data;
    let mut i: usize = 0;
    assert(segs.skip(0) =~= segs);
    while i < path.len()
        invariant
            i <= path.len(),
            segs == views(path@),
            lookup(data@, segs) == lookup(current@, segs.skip(i as int)),
        decreases path.len() - i,
    {
        let ghost rest = segs.skip(i as int);
        assert(rest.drop_first() =~= segs.skip(i + 1));
        assert(rest[0] == path@[i as int]@);
        let part = &path[i];
        match current {
            Json::Object(ms) => {
                let ghost ks = current@->Object_0;
                assert(forall|j: int| 0 <= j < ms.len() ==> ks[j] == (#[trigger] ms@[j]).0@);
                match find_field(ms, part) {
                    Some(k) => {
                        proof {
                            lemma_find_key_at(ks, part@, 0, k as int);
                        }
                        current = &ms[k].1;
                    },
                    None => {
                        proof {
                            lemma_find_key_none(ks, part@, 0);
                        }
                        return None;
                    },
                }
            },
            Json::Array(es) => {
                match parse_index(part.as_str(), es.len()) {
                    Some(k) => {
                        current = &es[k];
                    },
                    None => {
                        return None;
                    },
                }
            },
            _ => {
                return None;
            },
        }
        i += 1;
    }
    assert(segs.skip(i as int).len() == 0);
    Some((current.snapshot(), copy_segments(path)))
}

/// The path that one (match, expression) pair was sent to, as a one-element
/// list, where it does not resolve; else nothing.
pub open spec fn missed_one(
    data: JsonVal,
    key: Seq<char>,
    rel: Seq<char>,
    d: Seq<char>,
    rd: Seq<char>,
) -> Seq<Seq<char>> {
    let segs = relative_path(key, rel, d, rd);
    if lookup(data, segs) is None {
        seq![join_spec(segs, d)]
    } else {
        Seq::empty()
    }
}

pub open spec fn missed_rels(
    data: JsonVal,
    key: Seq<char>,
    rels: Seq<Seq<char>>,
    d: Seq<char>,
    rd: Seq<char>,
) -> Seq<Seq<char>>
    decreases rels.len(),
{
    if rels.len() == 0 {
        Seq::empty()
    } else {
        missed_rels(data, key, rels.drop_last(), d, rd) + missed_one(data, key, rels.last(), d, rd)
    }
}

/// The paths of the pairs that do not resolve, in pair order.
pub open spec fn missed_all(
    data: JsonVal,
    ms: Seq<MatchVal>,
    rels: Seq<Seq<char>>,
    d: Seq<char>,
    rd: Seq<char>,
) -> Seq<Seq<char>>
    decreases ms.len(),
{
    if ms.len() == 0 {
        Seq::empty()
    } else {
        missed_all(data, ms.drop_last(), rels, d, rd) + missed_rels(data, ms.last().path, rels, d, rd)
    }
}

/// For each match in order and each relative expression in order, the match
/// that the expression leads to, where it resolves. Pairs that do not
/// resolve give no match; the paths they were sent to come back second, for
/// a diagnostic.
pub fn apply_relative_keys(
    data: &Json,
    matches: &Vec<Match>,
    relative_keys: &Vec<String>,
    delimiter: &str,
    relative_delimiter: &str,
) -> (r: (Vec<Match>, Vec<String>))
    ensures
        match_views(r.0@) == resolve_all(
            data@,
            match_views(matches@),
            views(relative_keys@),
            delimiter@,
            relative_delimiter@,
        ),
        views(r.1@) == missed_all(
            data@,
            match_views(matches@),
            views(relative_keys@),
            delimiter@,
            relative_delimiter@,
        ),
{
    let ghost ms = match_views(matches@);
    let ghost rels = views(relative_keys@);
    let mut out: Vec<Match> = Vec::new();
    let mut missed: Vec<String> = Vec::new();
    let mut i: usize = 0;
    while i < matches.len()
        invariant
            i <= matches.len(),
            ms == match_views(matches@),
            rels == views(relative_keys@),
            match_views(out@) == resolve_all(data@, ms.take(i as int), rels, delimiter@, relative_delimiter@),
            views(missed@) == missed_all(data@, ms.take(i as int), rels, delimiter@, relative_delimiter@),
        decreases matches.len() - i,
    {
        assert(ms.take(i + 1).drop_last() =~= ms.take(i as int));
        assert(ms.take(i + 1).last() == matches@[i as int]@);
        let ghost before = match_views(out@);
        let ghost missed_before = views(missed@);
        let mut j: usize = 0;
        while j < relative_keys.len()
            invariant
                j <= relative_keys.len(),
                i < matches.len(),
                rels == views(relative_keys@),
                match_views(out@) == before + resolve_rels(
                    data@,
                    matches@[i as int].key@,
                    rels.take(j as int),
                    delimiter@,
                    relative_delimiter@,
                ),
                views(missed@) == missed_before + missed_rels(
                    data@,
                    matches@[i as int].key@,
                    rels.take(j as int),
                    delimiter@,
                    relative_delimiter@,
                ),
            decreases relative_keys.len() - j,
        {
            assert(rels.take(j + 1).drop_last() =~= rels.take(j as int));
            assert(rels.take(j + 1).last() == relative_keys@[j as int]@);
            let new_path = apply_relative_path(
                matches[i].key.as_str(),
                relative_keys[j].as_str(),
                delimiter,
                relative_delimiter,
            );
            let ghost mid = out@;
            let ghost missed_mid = missed@;
            match resolve_path(data, &new_path) {
                Some((value, resolved)) => {
                    let m = Match { key: join_segments(&resolved, delimiter), value };
                    out.push(m);
                    assert(match_views(out@) =~= match_views(mid).push(m@));
                },
                None => {
                    let p = join_segments(&new_path, delimiter);
                    missed.push(p);
                    assert(views(missed@) =~= views(missed_mid).push(p@));
                },
            }
            j += 1;
        }
        assert(rels.take(j as int) =~= rels);
        i += 1;
    }
    assert(ms.take(i as int) =~= ms);
    (out, missed)
}

/// Pushing a segment and then popping it leads back where it started: a
/// match whose path resolves to its value is found again, path and value
/// alike, through an expression that pushes a literal segment and pops it.
pub proof fn lemma_push_pop_round_trip(
    data: JsonVal,
    m: MatchVal,
    rel: Seq<char>,
    seg: Seq<char>,
    d: Seq<char>,
    rd: Seq<char>,
)
    requires
        relative_tokens(rel, d, rd) == seq![seg, rd],
        seg != rd,
        lookup(data, segments(m.path, d)) == Some(m.value),
        normalized(m.path, d) == m.path,
    ensures
        relative_path(m.path, rel, d, rd) == segments(m.path, d),
        resolve_one(data, m.path, rel, d, rd) == seq![m],
{
    let toks = seq![seg, rd];
    let start = segments(m.path, d);
    assert(toks.drop_last() =~= seq![seg]);
    assert(toks.drop_last().drop_last() =~= Seq::<Seq<char>>::empty());
    assert(seq![seg].drop_last() =~= Seq::<Seq<char>>::empty());
    assert(apply_tokens(start, Seq::<Seq<char>>::empty(), rd) == start);
    assert(apply_tokens(start, seq![seg], rd) == step(start, seg, rd));
    assert(start.push(seg).drop_last() =~= start);
}

/// Popping once and then pushing `s` leads to the sibling named `s`: the
/// same depth, the last segment replaced.
pub proof fn lemma_pop_push_sibling(
    data: JsonVal,
    key: Seq<char>,
    rel: Seq<char>,
    s: Seq<char>,
    d: Seq<char>,
    rd: Seq<char>,
)
    requires
        relative_tokens(rel, d, rd) == seq![rd, s],
        s != rd,
        segments(key, d).len() > 0,
    ensures
        relative_path(key, rel, d, rd) == segments(key, d).drop_last().push(s),
        relative_path(key, rel, d, rd).len() == segments(key, d).len(),
        resolve_one(data, key, rel, d, rd) == located(data, segments(key, d).drop_last().push(s), d),
{
    let toks = seq![rd, s];
    let start = segments(key, d);
    assert(toks.drop_last() =~= seq![rd]);
    assert(toks.drop_last().drop_last() =~= Seq::<Seq<char>>::empty());
    assert(seq![rd].drop_last() =~= Seq::<Seq<char>>::empty());
    assert(apply_tokens(start, Seq::<Seq<char>>::empty(), rd) == start);
    assert(apply_tokens(start, seq![rd], rd) == step(start, rd, rd));
}

proof fn lemma_pops(path: Seq<Seq<char>>, toks: Seq<Seq<char>>, rd: Seq<char>)
    requires
        forall|i: int| 0 <= i < toks.len() ==> toks[i] == rd,
    ensures
        apply_tokens(path, toks, rd).len() == if toks.len() >= path.len() {
            0
        } else {
            path.len() - toks.len()
        },
        apply_tokens(path, toks, rd) == path.take(apply_tokens(path, toks, rd).len() as int),
    decreases toks.len(),
{
    if toks.len() > 0 {
        lemma_pops(path, toks.drop_last(), rd);
        let prev = apply_tokens(path, toks.drop_last(), rd);
        assert(toks.last() == rd);
        if prev.len() > 0 {
            assert(prev.drop_last() =~= path.take(prev.len() - 1));
        }
    } else {
        assert(path.take(path.len() as int) =~= path);
    }
}

/// Popping past the root is no failure: with at least as many pops as the
/// path has segments, the expression resolves to the root itself.
pub proof fn lemma_pop_past_root(data: JsonVal, key: Seq<char>, rel: Seq<char>, d: Seq<char>, rd: Seq<char>)
    requires
        forall|i: int|
            0 <= i < relative_tokens(rel, d, rd).len() ==> #[trigger] relative_tokens(rel, d, rd)[i] == rd,
        relative_tokens(rel, d, rd).len() >= segments(key, d).len(),
    ensures
        relative_path(key, rel, d, rd) == Seq::<Seq<char>>::empty(),
        resolve_one(data, key, rel, d, rd) == seq![MatchVal { path: Seq::empty(), value: data }],
{
    lemma_pops(segments(key, d), relative_tokens(rel, d, rd), rd);
    assert(relative_path(key, rel, d, rd) =~= Seq::<Seq<char>>::empty());
}

/// A token of an expression: the relative delimiter itself, or a non-empty
/// literal segment that shares no character with either delimiter.
pub open spec fn plain_token(t: Seq<char>, d: Seq<char>, rd: Seq<char>) -> bool {
    t == rd || (t.len() > 0 && shares_no_char(t, d) && shares_no_char(t, rd))
}

proof fn lemma_single_token(t: Seq<char>, d: Seq<char>, rd: Seq<char>)
    requires
        d.len() > 0,
        rd.len() > 0,
        plain_token(t, d, rd),
    ensures
        marks(split_spec(t, rd), rd) == seq![t],
{
    if t == rd {
        lemma_split_self(rd);
        let ps = seq![Seq::<char>::empty(), Seq::<char>::empty()];
        assert(ps.drop_last() =~= seq![Seq::<char>::empty()]);
        let e = Seq::<char>::empty();
        assert(keep(e) =~= Seq::<Seq<char>>::empty());
        assert(marks(seq![e], rd) == keep(e));
        assert(ps.last() == e);
        assert(marks(ps, rd) == marks(seq![e], rd) + seq![rd] + keep(e));
        assert(marks(ps, rd) =~= seq![t]);
    } else {
        lemma_split_whole(t, rd);
    }
}

/// Two tokens written with the delimiter between them read back as those
/// two tokens.
pub proof fn lemma_two_tokens(a: Seq<char>, b: Seq<char>, d: Seq<char>, rd: Seq<char>)
    requires
        d.len() > 0,
        rd.len() > 0,
        shares_no_char(rd, d),
        plain_token(a, d, rd),
        plain_token(b, d, rd),
    ensures
        relative_tokens(a + d + b, d, rd) == seq![a, b],
{
    lemma_split_pair(a, b, d);
    lemma_single_token(a, d, rd);
    lemma_single_token(b, d, rd);
    let cs = seq![a, b];
    assert(cs.drop_last() =~= seq![a]);
    assert(seq![a].drop_last() =~= Seq::<Seq<char>>::empty());
    assert(chunk_tokens(Seq::<Seq<char>>::empty(), rd) == Seq::<Seq<char>>::empty());
    assert(seq![a].last() == a);
    assert(chunk_tokens(seq![a], rd) == chunk_tokens(Seq::<Seq<char>>::empty(), rd) + marks(split_spec(a, rd), rd));
    assert(chunk_tokens(seq![a], rd) =~= seq![a]);
    assert(relative_tokens(a + d + b, d, rd) =~= seq![a, b]);
}

/// The expression `seg`, delimiter, relative delimiter pushes `seg` and pops
/// it: a match whose path resolves to its value is found again unchanged.
pub proof fn lemma_push_pop_text(data: JsonVal, m: MatchVal, seg: Seq<char>, d: Seq<char>, rd: Seq<char>)
    requires
        d.len() > 0,
        rd.len() > 0,
        shares_no_char(rd, d),
        seg.len() > 0,
        shares_no_char(seg, d),
        shares_no_char(seg, rd),
        lookup(data, segments(m.path, d)) == Some(m.value),
        normalized(m.path, d) == m.path,
    ensures
        resolve_one(data, m.path, seg + d + rd, d, rd) == seq![m],
{
    lemma_two_tokens(seg, rd, d, rd);
    assert(seg[0] != rd[0]);
    lemma_push_pop_round_trip(data, m, seg + d + rd, seg, d, rd);
}

/// The expression relative delimiter, delimiter, `s` leads from a path of
/// depth N > 0 to its sibling named `s`.
pub proof fn lemma_pop_push_text(data: JsonVal, key: Seq<char>, s: Seq<char>, d: Seq<char>, rd: Seq<char>)
    requires
        d.len() > 0,
        rd.len() > 0,
        shares_no_char(rd, d),
        s.len() > 0,
        shares_no_char(s, d),
        shares_no_char(s, rd),
        segments(key, d).len() > 0,
    ensures
        relative_path(key, rd + d + s, d, rd) == segments(key, d).drop_last().push(s),
        resolve_one(data, key, rd + d + s, d, rd) == located(data, segments(key, d).drop_last().push(s), d),
{
    lemma_two_tokens(rd, s, d, rd);
    assert(s[0] != rd[0]);
    lemma_pop_push_sibling(data, key, rd + d + s, s, d, rd);
}

} // verus!
