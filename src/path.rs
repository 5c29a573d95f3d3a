use vstd::prelude::*;
use vstd::string::*;

verus! {

broadcast use {vstd::std_specs::vec::group_vec_axioms, vstd::seq::group_seq_axioms};

/// The character contents of each string.
pub open spec fn views(v: Seq<String>) -> Seq<Seq<char>> {
    v.map_values(|x: String| x@)
}

/// Whether `d` occurs in `s` starting at position `i`.
pub open spec fn occurs_at(s: Seq<char>, d: Seq<char>, i: int) -> bool {
    0 <= i && i + d.len() <= s.len() && s.subrange(i, i + d.len()) == d
}

/// The first position at or after `i` where the non-empty `d` occurs in `s`, or -1.
pub open spec fn find_from(s: Seq<char>, d: Seq<char>, i: int) -> int
    decreases s.len() - i,
{
    if d.len() == 0 || i < 0 || i + d.len() > s.len() {
        -1
    } else if occurs_at(s, d, i) {
        i
    } else {
        find_from(s, d, i + 1)
    }
}

proof fn lemma_find_from(s: Seq<char>, d: Seq<char>, i: int)
    ensures
        find_from(s, d, i) == -1 || (i <= find_from(s, d, i) && find_from(s, d, i) + d.len() <= s.len()
            && d.len() > 0 && occurs_at(s, d, find_from(s, d, i))),
    decreases s.len() - i,
{
    if d.len() == 0 || i < 0 || i + d.len() > s.len() {
    } else if occurs_at(s, d, i) {
    } else {
        lemma_find_from(s, d, i + 1);
    }
}

/// The pieces of `s` from position `pos` on, cut at each occurrence of `d`
/// (leftmost first, occurrences not overlapping). An empty `d` cuts nothing.
pub open spec fn split_at(s: Seq<char>, d: Seq<char>, pos: int) -> Seq<Seq<char>>
    decreases s.len() - pos,
    via split_at_decreases
{
    if pos < 0 || pos > s.len() {
        Seq::empty()
    } else {
        let i = find_from(s, d, pos);
        if i < 0 {
            seq![s.subrange(pos, s.len() as int)]
        } else {
            seq![s.subrange(pos, i)] + split_at(s, d, i + d.len())
        }
    }
}

#[via_fn]
proof fn split_at_decreases(s: Seq<char>, d: Seq<char>, pos: int) {
    lemma_find_from(s, d, pos);
}

/// `s` cut at each occurrence of `d`, as `str::split` does for a non-empty
/// `d`. An empty `d` leaves `s` whole (where `str::split` would cut between
/// every two characters).
pub open spec fn split_spec(s: Seq<char>, d: Seq<char>) -> Seq<Seq<char>> {
    split_at(s, d, 0)
}

/// The segments in order, with the empty ones left out.
pub open spec fn drop_empty(segs: Seq<Seq<char>>) -> Seq<Seq<char>>
    decreases segs.len(),
{
    if segs.len() == 0 {
        segs
    } else if segs.last().len() > 0 {
        drop_empty(segs.drop_last()).push(segs.last())
    } else {
        drop_empty(segs.drop_last())
    }
}

/// The segments joined, with `d` between each two of them.
pub open spec fn join_spec(segs: Seq<Seq<char>>, d: Seq<char>) -> Seq<char>
    decreases segs.len(),
{
    if segs.len() == 0 {
        Seq::empty()
    } else if segs.len() == 1 {
        segs[0]
    } else {
        join_spec(segs.drop_last(), d) + d + segs.last()
    }
}

/// The non-empty segments of a path string.
pub open spec fn segments(s: Seq<char>, d: Seq<char>) -> Seq<Seq<char>> {
    drop_empty(split_spec(s, d))
}

/// A path string with its empty segments taken out.
pub open spec fn normalized(s: Seq<char>, d: Seq<char>) -> Seq<char> {
    join_spec(segments(s, d), d)
}

/// The path of a child named `seg` under the path `prefix`.
pub open spec fn child_path(prefix: Seq<char>, seg: Seq<char>, d: Seq<char>) -> Seq<char> {
    if prefix.len() == 0 {
        seg
    } else {
        prefix + d + seg
    }
}

pub open spec fn digit_char(n: int) -> char {
    if n == 0 {
        '0'
    } else if n == 1 {
        '1'
    } else if n == 2 {
        '2'
    } else if n == 3 {
        '3'
    } else if n == 4 {
        '4'
    } else if n == 5 {
        '5'
    } else if n == 6 {
        '6'
    } else if n == 7 {
        '7'
    } else if n == 8 {
        '8'
    } else {
        '9'
    }
}

/// The decimal form of `n`, without leading zeros.
pub open spec fn decimal(n: nat) -> Seq<char>
    decreases n,
{
    if n < 10 {
        seq![digit_char(n as int)]
    } else {
        decimal(n / 10).push(digit_char((n % 10) as int))
    }
}

fn digit_str(n: usize) -> (r: &'static str)
    requires
        n < 10,
    ensures
        r@ == seq![digit_char(n as int)],
{
    proof {
        reveal_strlit("0");
        reveal_strlit("1");
        reveal_strlit("2");
        reveal_strlit("3");
        reveal_strlit("4");
        reveal_strlit("5");
        reveal_strlit("6");
        reveal_strlit("7");
        reveal_strlit("8");
        reveal_strlit("9");
    }
    if n == 0 {
        "0"
    } else if n == 1 {
        "1"
    } else if n == 2 {
        "2"
    } else if n == 3 {
        "3"
    } else if n == 4 {
        "4"
    } else if n == 5 {
        "5"
    } else if n == 6 {
        "6"
    } else if n == 7 {
        "7"
    } else if n == 8 {
        "8"
    } else {
        "9"
    }
}

/// The decimal text of an array index.
pub fn index_text(n: usize) -> (r: String)
    ensures
        r@ == decimal(n as nat),
    decreases n,
{
    if n < 10 {
        String::from_str(digit_str(n))
    } else {
        let mut r = index_text(n / 10);
        r.append(digit_str(n % 10));
        r
    }
}

fn occurs_at_exec(s: &str, d: &str, i: usize, sl: usize, dl: usize) -> (r: bool)
    requires
        sl == s@.len(),
        dl == d@.len(),
        i + dl <= sl,
    ensures
        r == occurs_at(s@, d@, i as int),
{
    let mut j: usize = 0;
    while j < dl
        invariant
            j <= dl,
            sl == s@.len(),
            dl == d@.len(),
            i + dl <= sl,
            forall|k: int| 0 <= k < j ==> s@[i + k] == d@[k],
        decreases dl - j,
    {
        if s.get_char(i + j) != d.get_char(j) {
            assert(s@.subrange(i as int, i + dl)[j as int] != d@[j as int]);
            return false;
        }
        j += 1;
    }
    assert(s@.subrange(i as int, i + dl) =~= d@);
    true
}

fn find_exec(s: &str, d: &str, from: usize, sl: usize, dl: usize) -> (r: Option<usize>)
    requires
        sl == s@.len(),
        dl == d@.len(),
        from <= sl,
    ensures
        match r {
            None => find_from(s@, d@, from as int) == -1,
            Some(i) => find_from(s@, d@, from as int) == i,
        },
{
    if dl == 0 || dl > sl {
        return None;
    }
    let mut i: usize = from;
    while i <= sl - dl
        invariant
            from <= i,
            sl == s@.len(),
            dl == d@.len(),
            0 < dl <= sl,
            find_from(s@, d@, from as int) == find_from(s@, d@, i as int),
        decreases sl - i,
    {
        if occurs_at_exec(s, d, i, sl, dl) {
            return Some(i);
        }
        i += 1;
    }
    None
}

/// Cuts `s` at each occurrence of `d`.
pub fn split_on(s: &str, d: &str) -> (r: Vec<String>)
    ensures
        views(r@) == split_spec(s@, d@),
{
    let sl = s.unicode_len();
    let dl = d.unicode_len();
    let mut out: Vec<String> = Vec::new();
    let mut pos: usize = 0;
    loop
        invariant
            sl == s@.len(),
            dl == d@.len(),
            pos <= sl,
            views(out@) + split_at(s@, d@, pos as int) == split_spec(s@, d@),
        decreases sl - pos,
    {
        let ghost old_out = out@;
        match find_exec(s, d, pos, sl, dl) {
            None => {
                out.push(String::from_str(s.substring_char(pos, sl)));
                assert(views(out@) =~= views(old_out) + split_at(s@, d@, pos as int));
                return out;
            },
            Some(i) => {
                proof {
                    lemma_find_from(s@, d@, pos as int);
                }
                out.push(String::from_str(s.substring_char(pos, i)));
                assert(views(out@) + split_at(s@, d@, i + dl) =~= views(old_out) + split_at(
                    s@,
                    d@,
                    pos as int,
                ));
                pos = i + dl;
            },
        }
    }
}

/// Joins the segments with `d` between each two of them.
pub fn join_segments(segs: &Vec<String>, d: &str) -> (r: String)
    ensures
        r@ == join_spec(views(segs@), d@),
{
    let mut out = String::new();
    let mut i: usize = 0;
    while i < segs.len()
        invariant
            i <= segs.len(),
            out@ == join_spec(views(segs@).take(i as int), d@),
        decreases segs.len() - i,
    {
        assert(views(segs@).take(i + 1).drop_last() =~= views(segs@).take(i as int));
        if i > 0 {
            out.append(d);
        }
        out.append(segs[i].as_str());
        i += 1;
    }
    assert(views(segs@).take(segs.len() as int) =~= views(segs@));
    out
}

/// The non-empty segments of the path `key`, cut at each `delimiter`.
pub fn parse_key(key: &str, delimiter: &str) -> (r: Vec<String>)
    ensures
        views(r@) == segments(key@, delimiter@),
{
    let parts = split_on(key, delimiter);
    let mut out: Vec<String> = Vec::new();
    let mut i: usize = 0;
    while i < parts.len()
        invariant
            i <= parts.len(),
            views(parts@) == split_spec(key@, delimiter@),
            views(out@) == drop_empty(views(parts@).take(i as int)),
        decreases parts.len() - i,
    {
        assert(views(parts@).take(i + 1).drop_last() =~= views(parts@).take(i as int));
        let ghost old_out = out@;
        if parts[i].unicode_len() > 0 {
            out.push(parts[i].clone());
            assert(views(out@) =~= views(old_out).push(parts@[i as int]@));
        }
        i += 1;
    }
    assert(views(parts@).take(parts.len() as int) =~= views(parts@));
    out
}

/// The path `key` with its empty segments taken out.
pub fn normalize_key(key: &str, delimiter: &str) -> (r: String)
    ensures
        r@ == normalized(key@, delimiter@),
{
    let segs = parse_key(key, delimiter);
    join_segments(&segs, delimiter)
}

/// The path of a child named `seg` under `prefix`.
pub fn extend_path(prefix: &str, seg: &str, d: &str) -> (r: String)
    ensures
        r@ == child_path(prefix@, seg@, d@),
{
    if prefix.unicode_len() == 0 {
        String::from_str(seg)
    } else {
        let mut r = String::from_str(prefix);
        r.append(d);
        r.append(seg);
        r
    }
}

pub open spec fn is_digit(c: char) -> bool {
    '0' <= c <= '9'
}

pub open spec fn all_digits(s: Seq<char>) -> bool {
    s.len() > 0 && forall|i: int| 0 <= i < s.len() ==> is_digit(#[trigger] s[i])
}

/// Whether `f` is a suffix of `s`.
pub open spec fn ends_with(s: Seq<char>, f: Seq<char>) -> bool {
    s.len() >= f.len() && s.subrange(s.len() - f.len(), s.len() as int) == f
}

/// No character of `f` occurs in `d`.
pub open spec fn shares_no_char(f: Seq<char>, d: Seq<char>) -> bool {
    forall|i: int, k: int| 0 <= i < f.len() && 0 <= k < d.len() ==> #[trigger] f[i] != #[trigger] d[k]
}

pub proof fn lemma_decimal_digits(n: nat)
    ensures
        all_digits(decimal(n)),
    decreases n,
{
    if n >= 10 {
        lemma_decimal_digits(n / 10);
    }
}

proof fn lemma_split_last(s: Seq<char>, d: Seq<char>, pos: int, t: int)
    requires
        0 <= pos <= t <= s.len(),
        forall|i: int| #[trigger] occurs_at(s, d, i) ==> i + d.len() <= t,
    ensures
        split_at(s, d, pos).len() >= 1,
        exists|q: int| pos <= q <= t && split_at(s, d, pos).last() == #[trigger] s.subrange(q, s.len() as int),
    decreases s.len() - pos,
{
    lemma_find_from(s, d, pos);
    let i = find_from(s, d, pos);
    if i < 0 {
        assert(split_at(s, d, pos).last() == s.subrange(pos, s.len() as int));
    } else {
        assert(occurs_at(s, d, i));
        lemma_split_last(s, d, i + d.len(), t);
        let rest = split_at(s, d, i + d.len());
        assert(split_at(s, d, pos) == seq![s.subrange(pos, i)] + rest);
        assert(split_at(s, d, pos).last() == rest.last());
    }
}

proof fn lemma_join_ends(segs: Seq<Seq<char>>, d: Seq<char>)
    requires
        segs.len() > 0,
    ensures
        ends_with(join_spec(segs, d), segs.last()),
{
    let j = join_spec(segs, d);
    if segs.len() == 1 {
        assert(j.subrange(0, j.len() as int) =~= j);
    } else {
        let x = join_spec(segs.drop_last(), d) + d;
        assert(j == x + segs.last());
        assert(j.subrange(x.len() as int, j.len() as int) =~= segs.last());
    }
}

/// The normalized path of a child named `f` ends in `f`, where `f` holds no
/// character of the delimiter.
pub proof fn lemma_normalized_ends(prefix: Seq<char>, f: Seq<char>, d: Seq<char>)
    requires
        d.len() > 0,
        shares_no_char(f, d),
    ensures
        ends_with(normalized(child_path(prefix, f, d), d), f),
{
    let s = child_path(prefix, f, d);
    let t = s.len() - f.len();
    if f.len() == 0 {
        let n = normalized(s, d);
        assert(n.subrange(n.len() as int, n.len() as int) =~= f);
    } else {
        assert(s.subrange(t, s.len() as int) =~= f);
        assert forall|i: int| #[trigger] occurs_at(s, d, i) implies i + d.len() <= t by {
            if i + d.len() > t {
                let k = if i > t {
                    i
                } else {
                    t
                };
                assert(s.subrange(i, i + d.len())[k - i] == s[k]);
                assert(s.subrange(t, s.len() as int)[k - t] == s[k]);
                assert(f[k - t] == d[k - i]);
            }
        }
        lemma_split_last(s, d, 0, t);
        let segs = split_spec(s, d);
        let q = choose|q: int| 0 <= q <= t && segs.last() == #[trigger] s.subrange(q, s.len() as int);
        let last = segs.last();
        assert(last.len() > 0);
        assert(drop_empty(segs) == drop_empty(segs.drop_last()).push(last));
        lemma_join_ends(drop_empty(segs), d);
        let n = normalized(s, d);
        assert(ends_with(n, last));
        assert(last.subrange(last.len() - f.len(), last.len() as int) =~= f);
        assert(n.subrange(n.len() - f.len(), n.len() as int) =~= last.subrange(
            last.len() - f.len(),
            last.len() as int,
        ));
    }
}

pub proof fn lemma_find_from_at(s: Seq<char>, d: Seq<char>, i: int, j: int)
    requires
        0 <= i <= j,
        d.len() > 0,
        occurs_at(s, d, j),
        forall|k: int| i <= k < j ==> !occurs_at(s, d, k),
    ensures
        find_from(s, d, i) == j,
    decreases j - i,
{
    if i < j {
        lemma_find_from_at(s, d, i + 1, j);
    }
}

pub proof fn lemma_find_from_none(s: Seq<char>, d: Seq<char>, i: int)
    requires
        0 <= i,
        forall|k: int| i <= k ==> !occurs_at(s, d, k),
    ensures
        find_from(s, d, i) == -1,
    decreases s.len() - i,
{
    if d.len() > 0 && i + d.len() <= s.len() {
        lemma_find_from_none(s, d, i + 1);
    }
}

/// Text that shares no character with a non-empty `d` is one piece.
pub proof fn lemma_split_whole(x: Seq<char>, d: Seq<char>)
    requires
        d.len() > 0,
        shares_no_char(x, d),
    ensures
        split_spec(x, d) == seq![x],
{
    assert forall|k: int| 0 <= k implies !occurs_at(x, d, k) by {
        if occurs_at(x, d, k) {
            assert(x.subrange(k, k + d.len())[0] == x[k]);
            assert(x[k] == d[0]);
        }
    }
    lemma_find_from_none(x, d, 0);
    assert(x.subrange(0, x.len() as int) =~= x);
}

/// A non-empty `d` cut at itself gives two empty pieces.
pub proof fn lemma_split_self(d: Seq<char>)
    requires
        d.len() > 0,
    ensures
        split_spec(d, d) == seq![Seq::<char>::empty(), Seq::<char>::empty()],
{
    assert(d.subrange(0, d.len() as int) =~= d);
    assert(occurs_at(d, d, 0));
    assert(find_from(d, d, 0) == 0);
    assert(find_from(d, d, d.len() as int) == -1);
    assert(d.subrange(d.len() as int, d.len() as int) =~= Seq::<char>::empty());
    assert(split_at(d, d, d.len() as int) =~= seq![Seq::<char>::empty()]);
    assert(d.subrange(0, 0) =~= Seq::<char>::empty());
    assert(split_spec(d, d) =~= seq![Seq::<char>::empty(), Seq::<char>::empty()]);
}

/// Two texts that share no character with `d`, written with `d` between
/// them, are cut back into those two texts.
pub proof fn lemma_split_pair(a: Seq<char>, b: Seq<char>, d: Seq<char>)
    requires
        d.len() > 0,
        shares_no_char(a, d),
        shares_no_char(b, d),
    ensures
        split_spec(a + d + b, d) == seq![a, b],
{
    let s = a + d + b;
    let n = a.len() as int;
    let m = d.len() as int;
    assert(s.subrange(n, n + m) =~= d);
    assert forall|k: int| 0 <= k && k != n implies !occurs_at(s, d, k) by {
        if occurs_at(s, d, k) {
            if k < n {
                assert(s.subrange(k, k + m)[0] == s[k]);
                assert(a[k] == d[0]);
            } else {
                let e = k + m - 1;
                assert(s.subrange(k, k + m)[m - 1] == s[e]);
                assert(b[e - n - m] == d[m - 1]);
            }
        }
    }
    lemma_find_from_at(s, d, 0, n);
    lemma_find_from_none(s, d, n + m);
    assert(s.subrange(0, n) =~= a);
    assert(s.subrange(n + m, s.len() as int) =~= b);
    assert(split_at(s, d, n + m) == seq![b]);
    assert(split_spec(s, d) =~= seq![a, b]);
}

} // verus!
