//! The command-reference document: a markdown table of command names and
//! descriptions. Which commands exist is the front end's business; turning
//! them into the document is decided, and verified, here.

use vstd::prelude::*;

use crate::value::push_char;

verus! {

/// A description character as it appears inside a markdown table cell: the
/// column separator is escaped, everything else stands for itself.
pub open spec fn md_escape_char(c: char) -> Seq<char> {
    if c == '|' {
        seq!['\\', '|']
    } else {
        seq![c]
    }
}

/// A description with its column separators escaped.
pub open spec fn md_escape(s: Seq<char>) -> Seq<char>
    decreases s.len(),
{
    if s.len() == 0 {
        Seq::empty()
    } else {
        md_escape_char(s[0]) + md_escape(s.skip(1))
    }
}

/// One table row: the command in backticks, then its escaped description.
pub open spec fn md_row(cmd: Seq<char>, about: Seq<char>) -> Seq<char> {
    seq!['|', ' ', '`'] + cmd + seq!['`', ' ', '|', ' '] + md_escape(about) + seq![' ', '|', '\n']
}

/// The table rows of `entries[i..]`.
pub open spec fn md_rows(entries: Seq<(Seq<char>, Seq<char>)>, i: int) -> Seq<char>
    decreases entries.len() - i,
{
    if i < 0 || i >= entries.len() {
        Seq::empty()
    } else {
        md_row(entries[i].0, entries[i].1) + md_rows(entries, i + 1)
    }
}

/// The whole reference: a title, the table head, and one row per command.
pub open spec fn md_reference(entries: Seq<(Seq<char>, Seq<char>)>) -> Seq<char> {
    "# Command Reference\n\n| Command | Description |\n|---|---|\n"@ + md_rows(entries, 0)
}

/// Escaping distributes over a one-character extension at the end.
proof fn lemma_md_escape_step(s: Seq<char>, i: int)
    requires
        0 <= i < s.len(),
    ensures
        md_escape(s.take(i + 1)) == md_escape(s.take(i)) + md_escape_char(s[i]),
{
    lemma_md_escape_concat(s.take(i), seq![s[i]]);
    assert(s.take(i + 1) =~= s.take(i) + seq![s[i]]);
    assert(seq![s[i]].skip(1) =~= Seq::<char>::empty());
    assert(md_escape(Seq::<char>::empty()) =~= Seq::<char>::empty());
    assert(md_escape(seq![s[i]]) =~= md_escape_char(s[i]));
}

/// Escaping distributes over concatenation.
proof fn lemma_md_escape_concat(a: Seq<char>, b: Seq<char>)
    ensures
        md_escape(a + b) == md_escape(a) + md_escape(b),
    decreases a.len(),
{
    if a.len() == 0 {
        assert(a + b =~= b);
        assert(md_escape(a) =~= Seq::<char>::empty());
        assert(md_escape(a) + md_escape(b) =~= md_escape(b));
    } else {
        lemma_md_escape_concat(a.skip(1), b);
        assert((a + b).skip(1) =~= a.skip(1) + b);
        assert((a + b)[0] == a[0]);
        assert(md_escape_char(a[0]) + (md_escape(a.skip(1)) + md_escape(b)) =~= (md_escape_char(
            a[0],
        ) + md_escape(a.skip(1))) + md_escape(b));
    }
}

/// Appends the escaped form of a description.
#[verifier::loop_isolation(false)]
fn append_md_escaped(out: &mut String, s: &str)
    ensures
        final(out)@ == old(out)@ + md_escape(s@),
{
    let n = s.unicode_len();
    let mut i: usize = 0;
    proof {
        assert(md_escape(s@.take(0)) =~= Seq::<char>::empty());
        assert(out@ + Seq::<char>::empty() =~= out@);
    }
    while i < n
        invariant
            i <= n,
            n == s@.len(),
            out@ == old(out)@ + md_escape(s@.take(i as int)),
        decreases n - i,
    {
        let c = s.get_char(i);
        if c == '|' {
            push_char(out, '\\');
        }
        push_char(out, c);
        proof {
            lemma_md_escape_step(s@, i as int);
            assert(out@ =~= old(out)@ + md_escape(s@.take(i as int + 1)));
        }
        i = i + 1;
    }
    proof {
        assert(s@.take(n as int) =~= s@);
    }
}

/// Builds the command reference for a list of command names and their
/// descriptions, in the given order.
#[verifier::loop_isolation(false)]
pub fn command_reference_markdown(entries: &Vec<(String, String)>) -> (r: String)
    ensures
        r@ == md_reference(entries.deep_view()),
{
    let ghost ed = entries.deep_view();
    let mut out = "# Command Reference\n\n| Command | Description |\n|---|---|\n".to_owned();
    let ghost head = out@;
    let mut i: usize = 0;
    proof {
        assert(out@ + Seq::<char>::empty() =~= out@);
    }
    while i < entries.len()
        invariant
            i <= entries.len(),
            out@ + md_rows(ed, i as int) == head + md_rows(ed, 0),
        decreases entries.len() - i,
    {
        out.append("| `");
        out.append(entries[i].0.as_str());
        out.append("` | ");
        append_md_escaped(&mut out, entries[i].1.as_str());
        out.append(" |\n");
        proof {
            reveal_strlit("| `");
            reveal_strlit("` | ");
            reveal_strlit(" |\n");
            assert("| `"@ =~= seq!['|', ' ', '`']);
            assert("` | "@ =~= seq!['`', ' ', '|', ' ']);
            assert(" |\n"@ =~= seq![' ', '|', '\n']);
            assert(ed[i as int] == (entries@[i as int].0@, entries@[i as int].1@));
            assert(out@ + md_rows(ed, i as int + 1) =~= head + md_rows(ed, 0));
        }
        i = i + 1;
    }
    proof {
        assert(md_rows(ed, entries@.len() as int) =~= Seq::<char>::empty());
        assert(out@ =~= head + md_rows(ed, 0));
    }
    out
}

} // verus!
