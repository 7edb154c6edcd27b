//! The heterogeneous value model: a closed tagged variant for JSON-like
//! data, the cell rendering rule that turns one value into a string, and
//! the compact textual serialization used for nested structures.

use vstd::prelude::*;

verus! {

/// One heterogeneous element of a fetched page, prior to normalization.
/// Numbers keep their original decimal text so rendering never re-parses
/// or rounds them.
pub enum RawItem {
    Null,
    Bool(bool),
    Number(String),
    Text(String),
    Array(Vec<RawItem>),
    Object(Vec<(String, RawItem)>),
}

/// How one character appears inside a double-quoted serialized string:
/// the quote, the backslash and the common control characters are escaped
/// with a backslash, everything else stands for itself.
pub open spec fn escape_char(c: char) -> Seq<char> {
    if c == '"' {
        seq!['\\', '"']
    } else if c == '\\' {
        seq!['\\', '\\']
    } else if c == '\n' {
        seq!['\\', 'n']
    } else if c == '\r' {
        seq!['\\', 'r']
    } else if c == '\t' {
        seq!['\\', 't']
    } else {
        seq![c]
    }
}

/// The escaped body of a double-quoted serialized string.
pub open spec fn escape_seq(s: Seq<char>) -> Seq<char>
    decreases s.len(),
{
    if s.len() == 0 {
        Seq::empty()
    } else {
        escape_char(s[0]) + escape_seq(s.skip(1))
    }
}

/// A string as it appears in serialized output: quoted and escaped.
pub open spec fn quoted(s: Seq<char>) -> Seq<char> {
    seq!['"'] + escape_seq(s) + seq!['"']
}

/// The characters of `true` / `false`.
pub open spec fn bool_text(b: bool) -> Seq<char> {
    if b {
        seq!['t', 'r', 'u', 'e']
    } else {
        seq!['f', 'a', 'l', 's', 'e']
    }
}

/// The compact textual serialization of a nested structure. Strings are
/// quoted and escaped; arrays and objects are bracketed with comma-separated
/// elements; numbers keep their original text.
pub open spec fn compact_text(it: RawItem) -> Seq<char>
    decreases it, 0int,
{
    match it {
        RawItem::Null => seq!['n', 'u', 'l', 'l'],
        RawItem::Bool(b) => bool_text(b),
        RawItem::Number(s) => s@,
        RawItem::Text(s) => quoted(s@),
        RawItem::Array(elems) => seq!['['] + compact_list(elems@, 0) + seq![']'],
        RawItem::Object(fields) => seq!['{'] + compact_entries(fields@, 0) + seq!['}'],
    }
}

/// The comma-separated serializations of `elems[i..]`.
pub open spec fn compact_list(elems: Seq<RawItem>, i: int) -> Seq<char>
    decreases elems, elems.len() - i + 1,
{
    if i < 0 || i >= elems.len() {
        Seq::empty()
    } else if i + 1 < elems.len() {
        compact_text(elems[i]) + seq![','] + compact_list(elems, i + 1)
    } else {
        compact_text(elems[i])
    }
}

/// The comma-separated `"key":value` serializations of `fields[i..]`.
pub open spec fn compact_entries(fields: Seq<(String, RawItem)>, i: int) -> Seq<char>
    decreases fields, fields.len() - i + 1,
{
    if i < 0 || i >= fields.len() {
        Seq::empty()
    } else {
        let entry = quoted(fields[i].0@) + seq![':'] + compact_text(fields[i].1);
        if i + 1 < fields.len() {
            entry + seq![','] + compact_entries(fields, i + 1)
        } else {
            entry
        }
    }
}

/// The cell rendering rule: how one heterogeneous value becomes a cell
/// string. Nulls vanish, booleans and numbers keep their text, strings are
/// verbatim, and nested structures fall back to the compact serialization.
pub open spec fn cell_text(it: RawItem) -> Seq<char> {
    match it {
        RawItem::Null => Seq::empty(),
        RawItem::Bool(b) => bool_text(b),
        RawItem::Number(s) => s@,
        RawItem::Text(s) => s@,
        RawItem::Array(_) => compact_text(it),
        RawItem::Object(_) => compact_text(it),
    }
}

/// Appends one character to a string.
/// Relies on `String::push`: appends the given char to the end.
#[verifier::external_body]
pub(crate) fn push_char(s: &mut String, c: char)
    ensures
        final(s)@ == old(s)@ + seq![c],
{
    s.push(c);
}

/// Appends the escaped form of every character of `piece` to `out`.
pub fn append_escaped(out: &mut String, piece: &str)
    ensures
        final(out)@ == old(out)@ + escape_seq(piece@),
{
    let n = piece.unicode_len();
    let mut i: usize = 0;
    while i < n
        invariant
            n == piece@.len(),
            i <= n,
            out@ == old(out)@ + escape_seq(piece@.take(i as int)),
        decreases n - i,
    {
        let c = piece.get_char(i);
        if c == '"' || c == '\\' {
            push_char(out, '\\');
            push_char(out, c);
        } else if c == '\n' {
            push_char(out, '\\');
            push_char(out, 'n');
        } else if c == '\r' {
            push_char(out, '\\');
            push_char(out, 'r');
        } else if c == '\t' {
            push_char(out, '\\');
            push_char(out, 't');
        } else {
            push_char(out, c);
        }
        proof {
            lemma_escape_seq_take_step(piece@, i as int);
        }
        i = i + 1;
    }
    proof {
        assert(piece@.take(n as int) =~= piece@);
    }
}

/// Appends the quoted, escaped form of `piece` to `out`.
pub fn append_quoted(out: &mut String, piece: &str)
    ensures
        final(out)@ == old(out)@ + quoted(piece@),
{
    push_char(out, '"');
    append_escaped(out, piece);
    push_char(out, '"');
    proof {
        assert(out@ =~= old(out)@ + quoted(piece@));
    }
}

/// Appends the compact serialization of `it` to `out`.
pub fn write_compact(it: &RawItem, out: &mut String)
    ensures
        final(out)@ == old(out)@ + compact_text(*it),
    decreases *it, 0int,
{
    match it {
        RawItem::Null => {
            out.append("null");
            proof {
                reveal_strlit("null");
                assert(out@ =~= old(out)@ + compact_text(*it));
            }
        },
        RawItem::Bool(b) => {
            if *b {
                out.append("true");
            } else {
                out.append("false");
            }
            proof {
                reveal_strlit("true");
                reveal_strlit("false");
                assert(out@ =~= old(out)@ + compact_text(*it));
            }
        },
        RawItem::Number(s) => {
            out.append(s.as_str());
        },
        RawItem::Text(s) => {
            append_quoted(out, s.as_str());
        },
        RawItem::Array(elems) => {
            push_char(out, '[');
            write_compact_list(elems, 0, out);
            push_char(out, ']');
            proof {
                assert(out@ =~= old(out)@ + compact_text(*it));
            }
        },
        RawItem::Object(fields) => {
            push_char(out, '{');
            write_compact_entries(fields, 0, out);
            push_char(out, '}');
            proof {
                assert(out@ =~= old(out)@ + compact_text(*it));
            }
        },
    }
}

/// Appends the comma-separated serializations of `elems[i..]` to `out`.
fn write_compact_list(elems: &Vec<RawItem>, i: usize, out: &mut String)
    ensures
        final(out)@ == old(out)@ + compact_list(elems@, i as int),
    decreases elems@, elems@.len() - i + 1,
{
    if i < elems.len() {
        write_compact(&elems[i], out);
        if i + 1 < elems.len() {
            push_char(out, ',');
            write_compact_list(elems, i + 1, out);
        }
        proof {
            assert(out@ =~= old(out)@ + compact_list(elems@, i as int));
        }
    }
}

/// Appends the comma-separated `"key":value` serializations of
/// `fields[i..]` to `out`.
fn write_compact_entries(fields: &Vec<(String, RawItem)>, i: usize, out: &mut String)
    ensures
        final(out)@ == old(out)@ + compact_entries(fields@, i as int),
    decreases fields@, fields@.len() - i + 1,
{
    if i < fields.len() {
        append_quoted(out, fields[i].0.as_str());
        push_char(out, ':');
        write_compact(&fields[i].1, out);
        if i + 1 < fields.len() {
            push_char(out, ',');
            write_compact_entries(fields, i + 1, out);
        }
        proof {
            assert(out@ =~= old(out)@ + compact_entries(fields@, i as int));
        }
    }
}

/// Applies the cell rendering rule to one value.
pub fn render_value(it: &RawItem) -> (r: String)
    ensures
        r@ == cell_text(*it),
{
    match it {
        RawItem::Null => String::new(),
        RawItem::Bool(b) => {
            let r = if *b {
                "true".to_owned()
            } else {
                "false".to_owned()
            };
            proof {
                reveal_strlit("true");
                reveal_strlit("false");
                assert(r@ =~= cell_text(*it));
            }
            r
        },
        RawItem::Number(s) => s.clone(),
        RawItem::Text(s) => s.clone(),
        RawItem::Array(_) => {
            let mut out = String::new();
            write_compact(it, &mut out);
            proof {
                assert(out@ =~= cell_text(*it));
            }
            out
        },
        RawItem::Object(_) => {
            let mut out = String::new();
            write_compact(it, &mut out);
            proof {
                assert(out@ =~= cell_text(*it));
            }
            out
        },
    }
}

/// Escaping one character alone gives that character's escape.
pub proof fn lemma_escape_single(c: char)
    ensures
        escape_seq(seq![c]) == escape_char(c),
{
    let s = seq![c];
    assert(s.skip(1) =~= Seq::<char>::empty());
    assert(escape_seq(Seq::<char>::empty()) =~= Seq::<char>::empty());
    assert(escape_char(c) + Seq::<char>::empty() =~= escape_char(c));
}

/// Escaping distributes over concatenation.
pub proof fn lemma_escape_concat(a: Seq<char>, b: Seq<char>)
    ensures
        escape_seq(a + b) == escape_seq(a) + escape_seq(b),
    decreases a.len(),
{
    if a.len() == 0 {
        assert(a + b =~= b);
        assert(escape_seq(a) =~= Seq::<char>::empty());
        assert(Seq::<char>::empty() + escape_seq(b) =~= escape_seq(b));
    } else {
        lemma_escape_concat(a.skip(1), b);
        assert((a + b).skip(1) =~= a.skip(1) + b);
        assert((a + b)[0] == a[0]);
        assert(escape_char(a[0]) + (escape_seq(a.skip(1)) + escape_seq(b)) =~= (escape_char(a[0])
            + escape_seq(a.skip(1))) + escape_seq(b));
    }
}

/// Unfolds one step of `escape_seq` over a growing prefix.
proof fn lemma_escape_seq_take_step(s: Seq<char>, i: int)
    requires
        0 <= i < s.len(),
    ensures
        escape_seq(s.take(i + 1)) == escape_seq(s.take(i)) + escape_char(s[i]),
{
    assert(s.take(i + 1) =~= s.take(i) + seq![s[i]]);
    lemma_escape_concat(s.take(i), seq![s[i]]);
    lemma_escape_single(s[i]);
}

} // verus!
