use vstd::prelude::*;
use vstd::string::*;
use crate::path::{join_segments, join_spec, split_on, split_spec, views};

verus! {

broadcast use {vstd::std_specs::vec::group_vec_axioms, vstd::seq::group_seq_axioms};

pub open spec fn newline() -> Seq<char> {
    seq!['\n']
}

/// A line without the carriage return that may end it.
pub open spec fn strip_cr(l: Seq<char>) -> Seq<char> {
    if l.len() > 0 && l.last() == '\r' {
        l.drop_last()
    } else {
        l
    }
}

/// The lines of a text, as `str::lines` gives them: cut at each line feed,
/// no line after a final line feed, and a `\r` just before a line feed taken
/// off with it.
pub open spec fn lines_of(s: Seq<char>) -> Seq<Seq<char>> {
    let p = split_spec(s, newline());
    let q = if p.len() > 0 && p.last().len() == 0 {
        p.drop_last()
    } else {
        p
    };
    Seq::new(q.len(), |i: int| if i < p.len() - 1 { strip_cr(q[i]) } else { q[i] })
}

/// The characters with the Unicode White_Space property, which
/// `char::is_whitespace` and `str::trim_start` go by.
pub open spec fn is_blank(c: char) -> bool {
    let u = c as u32;
    (0x9 <= u <= 0xd) || u == 0x20 || u == 0x85 || u == 0xa0 || u == 0x1680 || (0x2000 <= u <= 0x200a)
        || u == 0x2028 || u == 0x2029 || u == 0x202f || u == 0x205f || u == 0x3000
}

/// How many bytes a character takes in UTF-8.
pub open spec fn utf8_len(c: char) -> nat {
    let u = c as u32;
    if u < 0x80 {
        1
    } else if u < 0x800 {
        2
    } else if u < 0x10000 {
        3
    } else {
        4
    }
}

/// How many bytes a text takes in UTF-8.
pub open spec fn byte_len(s: Seq<char>) -> nat
    decreases s.len(),
{
    if s.len() == 0 {
        0
    } else {
        byte_len(s.drop_last()) + utf8_len(s.last())
    }
}

/// How many white-space characters a line starts with.
pub open spec fn leading_blanks(l: Seq<char>) -> nat
    decreases l.len(),
{
    if l.len() > 0 && is_blank(l[0]) {
        1 + leading_blanks(l.drop_first())
    } else {
        0
    }
}

pub open spec fn spaces(n: nat) -> Seq<char> {
    Seq::new(n, |i: int| ' ')
}

/// How many bytes of white space a line starts with.
pub open spec fn lead_bytes(l: Seq<char>) -> nat {
    byte_len(l.take(leading_blanks(l) as int))
}

/// A line whose leading white space, read as two bytes per level, becomes
/// `indent` spaces per level.
pub open spec fn reindent(l: Seq<char>, indent: nat) -> Seq<char> {
    spaces(indent * (lead_bytes(l) / 2)) + l.skip(leading_blanks(l) as int)
}

/// Whether the new indentation of every line fits in memory's index range.
pub open spec fn widths_fit(s: Seq<char>, indent: nat) -> bool {
    forall|k: int| 0 <= k < lines_of(s).len() ==> indent * (lead_bytes(#[trigger] lines_of(s)[k]) / 2) <= usize::MAX
}

pub open spec fn reindented(ls: Seq<Seq<char>>, indent: nat) -> Seq<Seq<char>> {
    Seq::new(ls.len(), |i: int| reindent(ls[i], indent))
}

/// The text re-indented line by line, the lines joined with `\n`.
pub open spec fn adjusted(s: Seq<char>, indent: nat) -> Seq<char> {
    join_spec(reindented(lines_of(s), indent), newline())
}

proof fn lemma_leading_blanks_exact(l: Seq<char>, n: nat)
    requires
        n <= l.len(),
        forall|k: int| 0 <= k < n ==> is_blank(#[trigger] l[k]),
        n < l.len() ==> !is_blank(l[n as int]),
    ensures
        leading_blanks(l) == n,
    decreases l.len(),
{
    if n > 0 {
        assert forall|k: int| 0 <= k < n - 1 implies is_blank(#[trigger] l.drop_first()[k]) by {
            assert(l.drop_first()[k] == l[k + 1]);
        }
        lemma_leading_blanks_exact(l.drop_first(), (n - 1) as nat);
    }
}

fn white_byte_len(c: char) -> (r: u128)
    ensures
        r == utf8_len(c),
{
    let u = c as u32;
    if u < 0x80 {
        1
    } else if u < 0x800 {
        2
    } else if u < 0x10000 {
        3
    } else {
        4
    }
}

fn blank(c: char) -> (r: bool)
    ensures
        r == is_blank(c),
{
    let u = c as u32;
    (0x9 <= u && u <= 0xd) || u == 0x20 || u == 0x85 || u == 0xa0 || u == 0x1680 || (0x2000 <= u && u
        <= 0x200a) || u == 0x2028 || u == 0x2029 || u == 0x202f || u == 0x205f || u == 0x3000
}

fn reindent_line(l: &str, strip: bool, indent: usize) -> (r: String)
    requires
        indent * (lead_bytes(if strip { strip_cr(l@) } else { l@ }) / 2) <= usize::MAX,
    ensures
        r@ == reindent(if strip { strip_cr(l@) } else { l@ }, indent as nat),
{
    proof {
        reveal_strlit(" ");
        assert(" "@ =~= seq![' ']);
    }
    let mut len = l.unicode_len();
    if strip && len > 0 && l.get_char(len - 1) == '\r' {
        len = len - 1;
    }
    let ghost line = if strip { strip_cr(l@) } else { l@ };
    assert(line =~= l@.subrange(0, len as int));
    let mut lead: usize = 0;
    let mut bytes: u128 = 0;
    while lead < len && blank(l.get_char(lead))
        invariant
            lead <= len,
            len <= l@.len(),
            line == l@.subrange(0, len as int),
            forall|k: int| 0 <= k < lead ==> is_blank(#[trigger] line[k]),
            bytes == byte_len(line.take(lead as int)),
            bytes <= 4 * lead,
        decreases len - lead,
    {
        assert(line.take(lead + 1).drop_last() =~= line.take(lead as int));
        bytes = bytes + white_byte_len(l.get_char(lead));
        lead += 1;
    }
    proof {
        lemma_leading_blanks_exact(line, lead as nat);
    }
    let width = (indent as u128 * (bytes / 2)) as usize;
    let mut out = String::new();
    let sp: &str = " ";
    let mut k: usize = 0;
    while k < width
        invariant
            sp@ == seq![' '],
            k <= width,
            out@ == spaces(k as nat),
        decreases width - k,
    {
        out.append(sp);
        assert(out@ =~= spaces((k + 1) as nat));
        k += 1;
    }
    out.append(l.substring_char(lead, len));
    assert(line.skip(lead as int) =~= l@.subrange(lead as int, len as int));
    out
}

/// Re-indents pretty-printed JSON: each line's leading white space, read as
/// two bytes per level, becomes `indent` spaces per level; lines are joined
/// with `\n`.
pub fn adjust_indent(json_str: &str, indent: usize) -> (r: String)
    requires
        widths_fit(json_str@, indent as nat),
    ensures
        r@ == adjusted(json_str@, indent as nat),
{
    proof {
        reveal_strlit("\n");
        assert("\n"@ =~= newline());
    }
    let mut pieces = split_on(json_str, "\n");
    let ghost p = views(pieces@);
    let n = pieces.len();
    if n > 0 && pieces[n - 1].unicode_len() == 0 {
        pieces.pop();
        assert(views(pieces@) =~= p.drop_last());
    }
    let ghost q = views(pieces@);
    let mut out: Vec<String> = Vec::new();
    let mut i: usize = 0;
    while i < pieces.len()
        invariant
            i <= pieces.len(),
            q == views(pieces@),
            n == p.len(),
            q == if p.len() > 0 && p.last().len() == 0 {
                p.drop_last()
            } else {
                p
            },
            widths_fit(json_str@, indent as nat),
            p == split_spec(json_str@, newline()),
            out@.len() == i,
            forall|k: int|
                0 <= k < i ==> (#[trigger] out@[k])@ == reindent(
                    if k < n - 1 {
                        strip_cr(q[k])
                    } else {
                        q[k]
                    },
                    indent as nat,
                ),
        decreases pieces.len() - i,
    {
        assert(q[i as int] == pieces@[i as int]@);
        assert(lines_of(json_str@)[i as int] == if i < n - 1 {
            strip_cr(q[i as int])
        } else {
            q[i as int]
        });
        let line = reindent_line(pieces[i].as_str(), i + 1 < n, indent);
        out.push(line);
        i += 1;
    }
    assert(views(out@) =~= reindented(lines_of(json_str@), indent as nat));
    join_segments(&out, "\n")
}

} // verus!
