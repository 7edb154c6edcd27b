//! The renderers: serialize a record set into delimited text, a fixed-width
//! box table, a structured document, or a block-style document. Identical
//! input gives byte-identical output: each format is a function of the
//! record set alone.

use vstd::prelude::*;

use crate::records::{RecordSet, RecordSetV};
use crate::value::{push_char, quoted};

verus! {

/// Whether a delimited-text field must be quoted: it contains the
/// delimiter, a double quote, or a newline.
pub open spec fn needs_quoting(s: Seq<char>, d: char) -> bool {
    s.contains(d) || s.contains('"') || s.contains('\n')
}

/// A field body with every double quote doubled.
pub open spec fn dq_escape(s: Seq<char>) -> Seq<char>
    decreases s.len(),
{
    if s.len() == 0 {
        Seq::empty()
    } else {
        let head: Seq<char> = if s[0] == '"' {
            seq!['"', '"']
        } else {
            seq![s[0]]
        };
        head + dq_escape(s.skip(1))
    }
}

/// One delimited-text field: quoted with doubled quotes when it needs
/// quoting, verbatim otherwise.
pub open spec fn delim_field(s: Seq<char>, d: char) -> Seq<char> {
    if needs_quoting(s, d) {
        seq!['"'] + dq_escape(s) + seq!['"']
    } else {
        s
    }
}

/// The fields `cells[i..]` joined by the delimiter.
pub open spec fn delim_line_from(cells: Seq<Seq<char>>, d: char, i: int) -> Seq<char>
    decreases cells.len() - i,
{
    if i < 0 || i >= cells.len() {
        Seq::empty()
    } else if i + 1 < cells.len() {
        delim_field(cells[i], d) + seq![d] + delim_line_from(cells, d, i + 1)
    } else {
        delim_field(cells[i], d)
    }
}

/// One delimited-text record line, terminated by a newline.
pub open spec fn delim_line(cells: Seq<Seq<char>>, d: char) -> Seq<char> {
    delim_line_from(cells, d, 0) + seq!['\n']
}

/// The record lines of `rows[i..]`.
pub open spec fn delim_rows_from(rows: Seq<Seq<Seq<char>>>, d: char, i: int) -> Seq<char>
    decreases rows.len() - i,
{
    if i < 0 || i >= rows.len() {
        Seq::empty()
    } else {
        delim_line(rows[i], d) + delim_rows_from(rows, d, i + 1)
    }
}

/// The whole delimited text: a header line and one line per row, but only
/// when at least one row exists; an empty record set renders as nothing.
pub open spec fn delimited_text(v: RecordSetV, d: char) -> Seq<char> {
    if v.rows.len() == 0 {
        Seq::empty()
    } else {
        delim_line(v.header, d) + delim_rows_from(v.rows, d, 0)
    }
}

/// Tests whether a field must be quoted.
#[verifier::loop_isolation(false)]
fn field_needs_quoting(s: &str, d: char) -> (r: bool)
    ensures
        r == needs_quoting(s@, d),
{
    let n = s.unicode_len();
    let mut i: usize = 0;
    while i < n
        invariant
            i <= n,
            n == s@.len(),
            forall|m: int| 0 <= m < i ==> s@[m] != d && s@[m] != '"' && s@[m] != '\n',
        decreases n - i,
    {
        let c = s.get_char(i);
        if c == d || c == '"' || c == '\n' {
            proof {
                assert(s@[i as int] == c);
            }
            return true;
        }
        i = i + 1;
    }
    proof {
        if needs_quoting(s@, d) {
            if s@.contains(d) {
                let m = choose|m: int| 0 <= m < s@.len() && s@[m] == d;
            } else if s@.contains('"') {
                let m = choose|m: int| 0 <= m < s@.len() && s@[m] == '"';
            } else {
                let m = choose|m: int| 0 <= m < s@.len() && s@[m] == '\n';
            }
        }
    }
    false
}

/// `dq_escape` distributes over a one-character extension at the end.
proof fn lemma_dq_take_step(s: Seq<char>, i: int)
    requires
        0 <= i < s.len(),
    ensures
        dq_escape(s.take(i + 1)) == dq_escape(s.take(i)) + (if s[i] == '"' {
            seq!['"', '"']
        } else {
            seq![s[i]]
        }),
    decreases s.len(),
{
    lemma_dq_concat(s.take(i), seq![s[i]]);
    assert(s.take(i + 1) =~= s.take(i) + seq![s[i]]);
    assert(seq![s[i]].skip(1) =~= Seq::<char>::empty());
    assert(dq_escape(Seq::<char>::empty()) =~= Seq::<char>::empty());
    let head: Seq<char> = if s[i] == '"' {
        seq!['"', '"']
    } else {
        seq![s[i]]
    };
    assert(dq_escape(seq![s[i]]) =~= head);
}

/// Doubling quotes distributes over concatenation.
proof fn lemma_dq_concat(a: Seq<char>, b: Seq<char>)
    ensures
        dq_escape(a + b) == dq_escape(a) + dq_escape(b),
    decreases a.len(),
{
    if a.len() == 0 {
        assert(a + b =~= b);
        assert(dq_escape(a) =~= Seq::<char>::empty());
        assert(dq_escape(a) + dq_escape(b) =~= dq_escape(b));
    } else {
        lemma_dq_concat(a.skip(1), b);
        assert((a + b).skip(1) =~= a.skip(1) + b);
        assert((a + b)[0] == a[0]);
        let head: Seq<char> = if a[0] == '"' {
            seq!['"', '"']
        } else {
            seq![a[0]]
        };
        assert(head + (dq_escape(a.skip(1)) + dq_escape(b)) =~= (head + dq_escape(a.skip(1)))
            + dq_escape(b));
    }
}

/// Appends one delimited-text field, quoting it if necessary.
#[verifier::loop_isolation(false)]
fn append_delim_field(out: &mut String, s: &str, d: char)
    ensures
        final(out)@ == old(out)@ + delim_field(s@, d),
{
    if !field_needs_quoting(s, d) {
        out.append(s);
        return ;
    }
    push_char(out, '"');
    let n = s.unicode_len();
    let mut i: usize = 0;
    while i < n
        invariant
            i <= n,
            n == s@.len(),
            out@ == old(out)@ + seq!['"'] + dq_escape(s@.take(i as int)),
        decreases n - i,
    {
        let c = s.get_char(i);
        if c == '"' {
            push_char(out, '"');
            push_char(out, '"');
        } else {
            push_char(out, c);
        }
        proof {
            lemma_dq_take_step(s@, i as int);
            assert(out@ =~= old(out)@ + seq!['"'] + dq_escape(s@.take(i as int + 1)));
        }
        i = i + 1;
    }
    push_char(out, '"');
    proof {
        assert(s@.take(n as int) =~= s@);
        assert(out@ =~= old(out)@ + delim_field(s@, d));
    }
}

/// Appends one record line: the fields joined by the delimiter, then a
/// newline.
#[verifier::loop_isolation(false)]
fn append_delim_line(out: &mut String, cells: &Vec<String>, d: char)
    ensures
        final(out)@ == old(out)@ + delim_line(cells.deep_view(), d),
{
    let ghost cd = cells.deep_view();
    let mut i: usize = 0;
    proof {
        assert(old(out)@ + Seq::<char>::empty() =~= old(out)@);
    }
    while i < cells.len()
        invariant
            i <= cells.len(),
            out@ + delim_line_from(cd, d, i as int) == old(out)@ + delim_line_from(cd, d, 0),
        decreases cells.len() - i,
    {
        append_delim_field(out, cells[i].as_str(), d);
        if i + 1 < cells.len() {
            push_char(out, d);
        }
        proof {
            assert(cd[i as int] == cells@[i as int]@);
            if i as int + 1 < cd.len() {
                assert((out@) + delim_line_from(cd, d, i as int + 1) =~= old(out)@
                    + delim_line_from(cd, d, 0));
            } else {
                assert(delim_line_from(cd, d, i as int + 1) =~= Seq::<char>::empty());
                assert((out@) + delim_line_from(cd, d, i as int + 1) =~= old(out)@
                    + delim_line_from(cd, d, 0));
            }
        }
        i = i + 1;
    }
    proof {
        assert(delim_line_from(cd, d, cells@.len() as int) =~= Seq::<char>::empty());
        assert(out@ =~= old(out)@ + delim_line_from(cd, d, 0));
    }
    push_char(out, '\n');
    proof {
        assert(out@ =~= old(out)@ + delim_line(cd, d));
    }
}

/// Renders the delimited-text form of a record set: a header line and one
/// line per row, fields joined by `d` and quoted by the standard rule, or
/// nothing at all when there are no rows.
#[verifier::loop_isolation(false)]
pub fn delimited_to_string(rs: &RecordSet, d: char) -> (r: String)
    ensures
        r@ == delimited_text(rs@, d),
{
    let mut out = String::new();
    if rs.rows.len() == 0 {
        proof {
            assert(out@ =~= delimited_text(rs@, d));
        }
        return out;
    }
    append_delim_line(&mut out, &rs.header, d);
    let ghost rd = rs@.rows;
    let mut i: usize = 0;
    while i < rs.rows.len()
        invariant
            i <= rs.rows.len(),
            out@ + delim_rows_from(rd, d, i as int) == delim_line(rs@.header, d)
                + delim_rows_from(rd, d, 0),
        decreases rs.rows.len() - i,
    {
        append_delim_line(&mut out, &rs.rows[i], d);
        proof {
            assert(rs.rows@[i as int].deep_view() == rd[i as int]);
            assert(out@ + delim_rows_from(rd, d, i as int + 1) =~= delim_line(rs@.header, d)
                + delim_rows_from(rd, d, 0));
        }
        i = i + 1;
    }
    proof {
        assert(delim_rows_from(rd, d, rs.rows@.len() as int) =~= Seq::<char>::empty());
        assert(out@ =~= delimited_text(rs@, d));
    }
    out
}

} // verus!

verus! {

/// The larger of two lengths.
pub open spec fn max2(a: nat, b: nat) -> nat {
    if a >= b {
        a
    } else {
        b
    }
}

/// `n` copies of one character.
pub open spec fn rep(n: nat, c: char) -> Seq<char>
    decreases n,
{
    if n == 0 {
        Seq::empty()
    } else {
        rep((n - 1) as nat, c).push(c)
    }
}

/// The widest cell in column `j` among `rows[i..]`.
pub open spec fn width_rows(rows: Seq<Seq<Seq<char>>>, j: int, i: int) -> nat
    decreases rows.len() - i,
{
    if i < 0 || i >= rows.len() {
        0
    } else {
        let cell = if 0 <= j < rows[i].len() {
            rows[i][j].len()
        } else {
            0
        };
        max2(cell, width_rows(rows, j, i + 1))
    }
}

/// The width of column `j`: the widest of the header field and every cell.
pub open spec fn col_width(v: RecordSetV, j: int) -> nat {
    max2(if 0 <= j < v.header.len() {
        v.header[j].len()
    } else {
        0
    }, width_rows(v.rows, j, 0))
}

/// A cell padded with spaces to the column width.
pub open spec fn pad(s: Seq<char>, w: nat) -> Seq<char> {
    if s.len() <= w {
        s + rep((w - s.len()) as nat, ' ')
    } else {
        s
    }
}

/// The border segments for columns `j..`: repeated `c` under each column,
/// a joint after each, and the final newline.
pub open spec fn border_from(v: RecordSetV, j: int, c: char) -> Seq<char>
    decreases v.header.len() - j,
{
    if j < 0 || j >= v.header.len() {
        seq!['\n']
    } else {
        rep(col_width(v, j) + 2, c) + seq!['+'] + border_from(v, j + 1, c)
    }
}

/// One horizontal border line drawn with `c`.
pub open spec fn border(v: RecordSetV, c: char) -> Seq<char> {
    seq!['+'] + border_from(v, 0, c)
}

/// The cell segments of one table line for columns `j..`.
pub open spec fn table_line_from(v: RecordSetV, row: Seq<Seq<char>>, j: int) -> Seq<char>
    decreases v.header.len() - j,
{
    if j < 0 || j >= v.header.len() {
        seq!['\n']
    } else {
        let cell = if j < row.len() {
            row[j]
        } else {
            Seq::empty()
        };
        seq![' '] + pad(cell, col_width(v, j)) + seq![' ', '|'] + table_line_from(v, row, j + 1)
    }
}

/// One table content line: the row's cells padded to the column widths.
pub open spec fn table_line(v: RecordSetV, row: Seq<Seq<char>>) -> Seq<char> {
    seq!['|'] + table_line_from(v, row, 0)
}

/// The content lines of `rows[i..]`.
pub open spec fn table_rows_from(v: RecordSetV, i: int) -> Seq<char>
    decreases v.rows.len() - i,
{
    if i < 0 || i >= v.rows.len() {
        Seq::empty()
    } else {
        table_line(v, v.rows[i]) + table_rows_from(v, i + 1)
    }
}

/// The whole box table: top border, header line, a double-rule under the
/// header, one line per row, bottom border. A record set with no fields
/// and no rows renders as nothing.
pub open spec fn table_text(v: RecordSetV) -> Seq<char> {
    if v.header.len() == 0 && v.rows.len() == 0 {
        Seq::empty()
    } else {
        border(v, '-') + table_line(v, v.header) + border(v, '=') + table_rows_from(v, 0)
            + border(v, '-')
    }
}

/// Every cell of column `j` fits in `width_rows` of that column.
proof fn lemma_width_rows_bound(rows: Seq<Seq<Seq<char>>>, j: int, i0: int, i: int)
    requires
        0 <= i0 <= i < rows.len(),
        0 <= j < rows[i].len(),
    ensures
        rows[i][j].len() <= width_rows(rows, j, i0),
    decreases i - i0,
{
    if i0 < i {
        lemma_width_rows_bound(rows, j, i0 + 1, i);
    }
}

/// Computes the column widths of a record set.
#[verifier::loop_isolation(false)]
fn compute_widths(rs: &RecordSet) -> (widths: Vec<usize>)
    requires
        rs@.wf(),
    ensures
        widths@.len() == rs@.header.len(),
        forall|j: int| 0 <= j < widths@.len() ==> #[trigger] widths@[j] as nat == col_width(rs@, j),
{
    let ghost v = rs@;
    let mut widths: Vec<usize> = Vec::new();
    let mut j: usize = 0;
    while j < rs.header.len()
        invariant
            j <= rs.header.len(),
            widths@.len() == j,
            forall|m: int| 0 <= m < j ==> #[trigger] widths@[m] as nat == col_width(v, m),
        decreases rs.header.len() - j,
    {
        let mut w = rs.header[j].as_str().unicode_len();
        proof {
            assert(v.header[j as int] == rs.header@[j as int]@);
        }
        let mut i: usize = 0;
        while i < rs.rows.len()
            invariant
                i <= rs.rows.len(),
                j < rs.header.len(),
                col_width(v, j as int) == max2(w as nat, width_rows(v.rows, j as int, i as int)),
            decreases rs.rows.len() - i,
        {
            proof {
                assert(v.rows[i as int].len() == v.header.len());
                assert(v.rows[i as int][j as int] == rs.rows@[i as int]@[j as int]@);
            }
            let c = rs.rows[i][j].as_str().unicode_len();
            if c > w {
                w = c;
            }
            i = i + 1;
        }
        proof {
            assert(width_rows(v.rows, j as int, rs.rows@.len() as int) == 0);
        }
        widths.push(w);
        j = j + 1;
    }
    widths
}

/// Appends `n` copies of `c`.
#[verifier::loop_isolation(false)]
fn append_rep(out: &mut String, n: usize, c: char)
    ensures
        final(out)@ == old(out)@ + rep(n as nat, c),
{
    let mut k: usize = 0;
    proof {
        assert(old(out)@ + rep(0, c) =~= old(out)@);
    }
    while k < n
        invariant
            k <= n,
            out@ == old(out)@ + rep(k as nat, c),
        decreases n - k,
    {
        push_char(out, c);
        k = k + 1;
    }
}

/// Appends one border line drawn with `c`.
#[verifier::loop_isolation(false)]
fn append_border(out: &mut String, rs: &RecordSet, widths: &Vec<usize>, c: char)
    requires
        widths@.len() == rs@.header.len(),
        forall|j: int| 0 <= j < widths@.len() ==> #[trigger] widths@[j] as nat == col_width(rs@, j),
    ensures
        final(out)@ == old(out)@ + border(rs@, c),
{
    let ghost v = rs@;
    push_char(out, '+');
    let mut j: usize = 0;
    proof {
        assert(out@ + Seq::<char>::empty() =~= out@);
    }
    while j < widths.len()
        invariant
            j <= widths@.len(),
            out@ + border_from(v, j as int, c) == old(out)@ + border(v, c),
        decreases widths.len() - j,
    {
        let w = widths[j];
        append_rep(out, w, c);
        push_char(out, c);
        push_char(out, c);
        push_char(out, '+');
        proof {
            assert(rep(w as nat + 2, c) == rep(w as nat + 1, c).push(c));
            assert(rep(w as nat + 1, c) == rep(w as nat, c).push(c));
            assert(out@ + border_from(v, j as int + 1, c) =~= old(out)@ + border(v, c));
        }
        j = j + 1;
    }
    push_char(out, '\n');
    proof {
        assert(border_from(v, widths@.len() as int, c) =~= seq!['\n']);
        assert(out@ =~= old(out)@ + border(v, c));
    }
}

/// Appends one table content line for `row`.
#[verifier::loop_isolation(false)]
fn append_table_line(out: &mut String, rs: &RecordSet, widths: &Vec<usize>, row: &Vec<String>)
    requires
        widths@.len() == rs@.header.len(),
        forall|j: int| 0 <= j < widths@.len() ==> #[trigger] widths@[j] as nat == col_width(rs@, j),
        row.deep_view().len() <= rs@.header.len(),
        forall|j: int| 0 <= j < row.deep_view().len() ==> (#[trigger] row.deep_view()[j]).len()
            <= col_width(rs@, j),
    ensures
        final(out)@ == old(out)@ + table_line(rs@, row.deep_view()),
{
    let ghost v = rs@;
    let ghost rd = row.deep_view();
    push_char(out, '|');
    let mut j: usize = 0;
    while j < widths.len()
        invariant
            j <= widths@.len(),
            out@ + table_line_from(v, rd, j as int) == old(out)@ + table_line(v, rd),
        decreases widths.len() - j,
    {
        let w = widths[j];
        push_char(out, ' ');
        let ghost cell = if (j as int) < rd.len() {
            rd[j as int]
        } else {
            Seq::<char>::empty()
        };
        if j < row.len() {
            proof {
                assert(rd[j as int] == row@[j as int]@);
            }
            out.append(row[j].as_str());
            let n = row[j].as_str().unicode_len();
            append_rep(out, w - n, ' ');
        } else {
            append_rep(out, w, ' ');
            proof {
                assert(cell + rep(w as nat, ' ') =~= rep(w as nat, ' '));
            }
        }
        push_char(out, ' ');
        push_char(out, '|');
        proof {
            assert(pad(cell, col_width(v, j as int)) == cell + rep(
                (col_width(v, j as int) - cell.len()) as nat,
                ' ',
            ));
            assert(out@ + table_line_from(v, rd, j as int + 1) =~= old(out)@ + table_line(v, rd));
        }
        j = j + 1;
    }
    push_char(out, '\n');
    proof {
        assert(table_line_from(v, rd, widths@.len() as int) =~= seq!['\n']);
        assert(out@ =~= old(out)@ + table_line(v, rd));
    }
}

/// Renders the fixed-width box table of a record set: a bordered header
/// row and one padded line per row; a missing cell renders as an empty
/// field, so every line has one field per header column.
#[verifier::loop_isolation(false)]
pub fn table_to_string(rs: &RecordSet) -> (r: String)
    requires
        rs@.wf(),
    ensures
        r@ == table_text(rs@),
{
    let ghost v = rs@;
    let mut out = String::new();
    if rs.header.len() == 0 && rs.rows.len() == 0 {
        proof {
            assert(out@ =~= table_text(v));
        }
        return out;
    }
    let widths = compute_widths(rs);
    append_border(&mut out, rs, &widths, '-');
    proof {
        assert forall|j: int| 0 <= j < rs.header.deep_view().len() implies (
        #[trigger] rs.header.deep_view()[j]).len() <= col_width(v, j) by {
            assert(v.header[j] == rs.header.deep_view()[j]);
        }
    }
    append_table_line(&mut out, rs, &widths, &rs.header);
    append_border(&mut out, rs, &widths, '=');
    let mut i: usize = 0;
    let ghost mid = out@;
    while i < rs.rows.len()
        invariant
            i <= rs.rows.len(),
            out@ + table_rows_from(v, i as int) == mid + table_rows_from(v, 0),
        decreases rs.rows.len() - i,
    {
        proof {
            assert(v.rows[i as int].len() == v.header.len());
            assert forall|j: int| 0 <= j < rs.rows@[i as int].deep_view().len() implies (
            #[trigger] rs.rows@[i as int].deep_view()[j]).len() <= col_width(v, j) by {
                assert(rs.rows@[i as int].deep_view() == v.rows[i as int]);
                lemma_width_rows_bound(v.rows, j, 0, i as int);
            }
            assert(rs.rows@[i as int].deep_view().len() <= v.header.len());
        }
        append_table_line(&mut out, rs, &widths, &rs.rows[i]);
        proof {
            assert(rs.rows@[i as int].deep_view() == v.rows[i as int]);
            assert(out@ + table_rows_from(v, i as int + 1) =~= mid + table_rows_from(v, 0));
        }
        i = i + 1;
    }
    proof {
        assert(table_rows_from(v, rs.rows@.len() as int) =~= Seq::<char>::empty());
        assert(out@ =~= mid + table_rows_from(v, 0));
    }
    append_border(&mut out, rs, &widths, '-');
    proof {
        assert(out@ =~= table_text(v));
    }
    out
}

} // verus!

use crate::value::append_quoted;
use crate::OutputFormat;

verus! {

/// The cell of `row` at position `j`, or the empty string beyond its end.
pub open spec fn cell_at(row: Seq<Seq<char>>, j: int) -> Seq<char> {
    if 0 <= j < row.len() {
        row[j]
    } else {
        Seq::empty()
    }
}

/// One `"key": "value"` member line body of a structured-document object.
pub open spec fn entry_text(k: Seq<char>, cell: Seq<char>) -> Seq<char> {
    seq![' ', ' ', ' ', ' '] + quoted(k) + seq![':', ' '] + quoted(cell)
}

/// The member lines for header fields `j..`, joined by `,` and newline.
pub open spec fn obj_entries_from(header: Seq<Seq<char>>, row: Seq<Seq<char>>, j: int) -> Seq<char>
    decreases header.len() - j,
{
    if j < 0 || j >= header.len() {
        Seq::empty()
    } else {
        let e = entry_text(header[j], cell_at(row, j));
        if j + 1 < header.len() {
            e + seq![',', '\n'] + obj_entries_from(header, row, j + 1)
        } else {
            e
        }
    }
}

/// One row as a structured-document object, indented two spaces, members
/// in header order.
pub open spec fn obj_text(v: RecordSetV, row: Seq<Seq<char>>) -> Seq<char> {
    if v.header.len() == 0 {
        seq![' ', ' ', '{', '}']
    } else {
        seq![' ', ' ', '{', '\n'] + obj_entries_from(v.header, row, 0) + seq!['\n', ' ', ' ', '}']
    }
}

/// The objects of `rows[i..]`, joined by `,` and newline.
pub open spec fn objs_from(v: RecordSetV, i: int) -> Seq<char>
    decreases v.rows.len() - i,
{
    if i < 0 || i >= v.rows.len() {
        Seq::empty()
    } else if i + 1 < v.rows.len() {
        obj_text(v, v.rows[i]) + seq![',', '\n'] + objs_from(v, i + 1)
    } else {
        obj_text(v, v.rows[i])
    }
}

/// The structured document of a record set: a pretty-printed array of
/// objects, one object per row, keys in header order, two-space indent.
pub open spec fn structured_text(v: RecordSetV) -> Seq<char> {
    if v.rows.len() == 0 {
        seq!['[', ']']
    } else {
        seq!['[', '\n'] + objs_from(v, 0) + seq!['\n', ']']
    }
}

/// Appends the member lines of one object.
#[verifier::loop_isolation(false)]
fn append_obj_entries(out: &mut String, header: &Vec<String>, row: &Vec<String>)
    ensures
        final(out)@ == old(out)@ + obj_entries_from(header.deep_view(), row.deep_view(), 0),
{
    let ghost hd = header.deep_view();
    let ghost rd = row.deep_view();
    let mut j: usize = 0;
    proof {
        assert(old(out)@ + Seq::<char>::empty() =~= old(out)@);
    }
    while j < header.len()
        invariant
            j <= header.len(),
            out@ + obj_entries_from(hd, rd, j as int) == old(out)@ + obj_entries_from(hd, rd, 0),
        decreases header.len() - j,
    {
        out.append("    ");
        append_quoted(out, header[j].as_str());
        out.append(": ");
        if j < row.len() {
            append_quoted(out, row[j].as_str());
        } else {
            out.append("\"\"");
        }
        if j + 1 < header.len() {
            out.append(",\n");
        }
        proof {
            reveal_strlit("    ");
            reveal_strlit(": ");
            reveal_strlit("\"\"");
            reveal_strlit(",\n");
            assert("    "@ =~= seq![' ', ' ', ' ', ' ']);
            assert(": "@ =~= seq![':', ' ']);
            assert(",\n"@ =~= seq![',', '\n']);
            assert(hd[j as int] == header@[j as int]@);
            if (j as int) < rd.len() {
                assert(cell_at(rd, j as int) == row@[j as int]@);
            } else {
                assert(crate::value::escape_seq(Seq::<char>::empty()) =~= Seq::<char>::empty());
                assert("\"\""@ =~= quoted(Seq::<char>::empty()));
            }
            if j as int + 1 < hd.len() {
                assert(out@ + obj_entries_from(hd, rd, j as int + 1) =~= old(out)@
                    + obj_entries_from(hd, rd, 0));
            } else {
                assert(obj_entries_from(hd, rd, j as int + 1) =~= Seq::<char>::empty());
                assert(out@ + obj_entries_from(hd, rd, j as int + 1) =~= old(out)@
                    + obj_entries_from(hd, rd, 0));
            }
        }
        j = j + 1;
    }
    proof {
        assert(obj_entries_from(hd, rd, header@.len() as int) =~= Seq::<char>::empty());
        assert(out@ =~= old(out)@ + obj_entries_from(hd, rd, 0));
    }
}

/// Appends one row's object.
fn append_obj(out: &mut String, rs: &RecordSet, row: &Vec<String>)
    ensures
        final(out)@ == old(out)@ + obj_text(rs@, row.deep_view()),
{
    if rs.header.len() == 0 {
        out.append("  {}");
        proof {
            reveal_strlit("  {}");
            assert("  {}"@ =~= seq![' ', ' ', '{', '}']);
            assert(out@ =~= old(out)@ + obj_text(rs@, row.deep_view()));
        }
        return ;
    }
    out.append("  {\n");
    append_obj_entries(out, &rs.header, row);
    out.append("\n  }");
    proof {
        reveal_strlit("  {\n");
        reveal_strlit("\n  }");
        assert("  {\n"@ =~= seq![' ', ' ', '{', '\n']);
        assert("\n  }"@ =~= seq!['\n', ' ', ' ', '}']);
        assert(out@ =~= old(out)@ + obj_text(rs@, row.deep_view()));
    }
}

/// Renders the structured document of a record set.
#[verifier::loop_isolation(false)]
pub fn structured_to_string(rs: &RecordSet) -> (r: String)
    ensures
        r@ == structured_text(rs@),
{
    let ghost v = rs@;
    let mut out = String::new();
    if rs.rows.len() == 0 {
        out.append("[]");
        proof {
            reveal_strlit("[]");
            assert(out@ =~= structured_text(v));
        }
        return out;
    }
    out.append("[\n");
    proof {
        reveal_strlit("[\n");
    }
    let ghost mid = out@;
    let mut i: usize = 0;
    while i < rs.rows.len()
        invariant
            i <= rs.rows.len(),
            out@ + objs_from(v, i as int) == mid + objs_from(v, 0),
        decreases rs.rows.len() - i,
    {
        append_obj(&mut out, rs, &rs.rows[i]);
        if i + 1 < rs.rows.len() {
            out.append(",\n");
        }
        proof {
            reveal_strlit(",\n");
            assert(",\n"@ =~= seq![',', '\n']);
            assert(rs.rows@[i as int].deep_view() == v.rows[i as int]);
            if i as int + 1 < v.rows.len() {
                assert(out@ + objs_from(v, i as int + 1) =~= mid + objs_from(v, 0));
            } else {
                assert(objs_from(v, i as int + 1) =~= Seq::<char>::empty());
                assert(out@ + objs_from(v, i as int + 1) =~= mid + objs_from(v, 0));
            }
        }
        i = i + 1;
    }
    out.append("\n]");
    proof {
        reveal_strlit("\n]");
        assert("\n]"@ =~= seq!['\n', ']']);
        assert(objs_from(v, rs.rows@.len() as int) =~= Seq::<char>::empty());
        assert("[\n"@ =~= seq!['[', '\n']);
        assert(out@ =~= structured_text(v));
    }
    out
}

/// One `key: "value"` line of a block-style row: the first line of a row
/// is marked with a dash, the rest are indented.
pub open spec fn block_entry(k: Seq<char>, cell: Seq<char>, first: bool) -> Seq<char> {
    (if first {
        seq!['-', ' ']
    } else {
        seq![' ', ' ']
    }) + k + seq![':', ' '] + quoted(cell) + seq!['\n']
}

/// The block lines for header fields `j..` of one row.
pub open spec fn block_row_from(v: RecordSetV, row: Seq<Seq<char>>, j: int) -> Seq<char>
    decreases v.header.len() - j,
{
    if j < 0 || j >= v.header.len() {
        Seq::empty()
    } else {
        block_entry(v.header[j], cell_at(row, j), j == 0) + block_row_from(v, row, j + 1)
    }
}

/// One row in block style; a row with no fields is a bare dash line.
pub open spec fn block_row(v: RecordSetV, row: Seq<Seq<char>>) -> Seq<char> {
    if v.header.len() == 0 {
        seq!['-', '\n']
    } else {
        block_row_from(v, row, 0)
    }
}

/// The block lines of `rows[i..]`.
pub open spec fn block_rows_from(v: RecordSetV, i: int) -> Seq<char>
    decreases v.rows.len() - i,
{
    if i < 0 || i >= v.rows.len() {
        Seq::empty()
    } else {
        block_row(v, v.rows[i]) + block_rows_from(v, i + 1)
    }
}

/// The block-style document of a record set: one indented `key: value`
/// block per row, keys in header order; no rows render as nothing.
pub open spec fn block_text(v: RecordSetV) -> Seq<char> {
    block_rows_from(v, 0)
}

/// Appends one row's block lines.
#[verifier::loop_isolation(false)]
fn append_block_row(out: &mut String, rs: &RecordSet, row: &Vec<String>)
    ensures
        final(out)@ == old(out)@ + block_row(rs@, row.deep_view()),
{
    let ghost v = rs@;
    let ghost rd = row.deep_view();
    if rs.header.len() == 0 {
        out.append("-\n");
        proof {
            reveal_strlit("-\n");
            assert("-\n"@ =~= seq!['-', '\n']);
            assert(out@ =~= old(out)@ + block_row(v, rd));
        }
        return ;
    }
    let mut j: usize = 0;
    proof {
        assert(old(out)@ + Seq::<char>::empty() =~= old(out)@);
    }
    while j < rs.header.len()
        invariant
            j <= rs.header.len(),
            out@ + block_row_from(v, rd, j as int) == old(out)@ + block_row_from(v, rd, 0),
        decreases rs.header.len() - j,
    {
        if j == 0 {
            out.append("- ");
        } else {
            out.append("  ");
        }
        out.append(rs.header[j].as_str());
        out.append(": ");
        if j < row.len() {
            append_quoted(out, row[j].as_str());
        } else {
            out.append("\"\"");
        }
        push_char(out, '\n');
        proof {
            reveal_strlit("- ");
            reveal_strlit("  ");
            reveal_strlit(": ");
            reveal_strlit("\"\"");
            assert("- "@ =~= seq!['-', ' ']);
            assert("  "@ =~= seq![' ', ' ']);
            assert(": "@ =~= seq![':', ' ']);
            assert(v.header[j as int] == rs.header@[j as int]@);
            if (j as int) < rd.len() {
                assert(cell_at(rd, j as int) == row@[j as int]@);
            } else {
                assert(crate::value::escape_seq(Seq::<char>::empty()) =~= Seq::<char>::empty());
                assert("\"\""@ =~= quoted(Seq::<char>::empty()));
            }
            assert(out@ + block_row_from(v, rd, j as int + 1) =~= old(out)@ + block_row_from(
                v,
                rd,
                0,
            ));
        }
        j = j + 1;
    }
    proof {
        assert(block_row_from(v, rd, rs.header@.len() as int) =~= Seq::<char>::empty());
        assert(out@ =~= old(out)@ + block_row(v, rd));
    }
}

/// Renders the block-style document of a record set.
#[verifier::loop_isolation(false)]
pub fn block_to_string(rs: &RecordSet) -> (r: String)
    ensures
        r@ == block_text(rs@),
{
    let ghost v = rs@;
    let mut out = String::new();
    let mut i: usize = 0;
    proof {
        assert(Seq::<char>::empty() + block_rows_from(v, 0) =~= block_rows_from(v, 0));
    }
    while i < rs.rows.len()
        invariant
            i <= rs.rows.len(),
            out@ + block_rows_from(v, i as int) == block_rows_from(v, 0),
        decreases rs.rows.len() - i,
    {
        append_block_row(&mut out, rs, &rs.rows[i]);
        proof {
            assert(rs.rows@[i as int].deep_view() == v.rows[i as int]);
            assert(out@ + block_rows_from(v, i as int + 1) =~= block_rows_from(v, 0));
        }
        i = i + 1;
    }
    proof {
        assert(block_rows_from(v, rs.rows@.len() as int) =~= Seq::<char>::empty());
        assert(out@ =~= block_text(v));
    }
    out
}

/// The rendered text of a record set in each output format.
pub open spec fn records_text(v: RecordSetV, fmt: OutputFormat) -> Seq<char> {
    match fmt {
        OutputFormat::Json => structured_text(v),
        OutputFormat::Yaml => block_text(v),
        OutputFormat::Csv => delimited_text(v, ','),
        OutputFormat::Psv => delimited_text(v, '|'),
        OutputFormat::Table => table_text(v),
    }
}

/// Renders a record set in the chosen output format. Identical record set
/// and format give byte-identical text.
pub fn render_records(rs: &RecordSet, fmt: OutputFormat) -> (r: String)
    requires
        rs@.wf(),
    ensures
        r@ == records_text(rs@, fmt),
{
    match fmt {
        OutputFormat::Json => structured_to_string(rs),
        OutputFormat::Yaml => block_to_string(rs),
        OutputFormat::Csv => delimited_to_string(rs, ','),
        OutputFormat::Psv => delimited_to_string(rs, '|'),
        OutputFormat::Table => table_to_string(rs),
    }
}

} // verus!

use crate::value::{bool_text, compact_text, RawItem};

verus! {

/// The pretty serialization of a nested value: scalars stay on their line,
/// arrays and objects open a brace, indent their members two spaces deeper
/// than `pad`, and close on a line of their own at `pad`. Empty containers
/// stay compact.
pub open spec fn pretty_text(it: RawItem, pad: Seq<char>) -> Seq<char>
    decreases it, 0int,
{
    match it {
        RawItem::Null => seq!['n', 'u', 'l', 'l'],
        RawItem::Bool(b) => bool_text(b),
        RawItem::Number(s) => s@,
        RawItem::Text(s) => quoted(s@),
        RawItem::Array(elems) => if elems@.len() == 0 {
            seq!['[', ']']
        } else {
            seq!['[', '\n'] + pretty_list(elems@, 0, pad + seq![' ', ' ']) + seq!['\n'] + pad
                + seq![']']
        },
        RawItem::Object(fields) => if fields@.len() == 0 {
            seq!['{', '}']
        } else {
            seq!['{', '\n'] + pretty_fields(fields@, 0, pad + seq![' ', ' ']) + seq!['\n'] + pad
                + seq!['}']
        },
    }
}

/// The pretty lines of `elems[i..]`, each indented by `pad` and joined by
/// a comma and a newline.
pub open spec fn pretty_list(elems: Seq<RawItem>, i: int, pad: Seq<char>) -> Seq<char>
    decreases elems, elems.len() - i + 1,
{
    if i < 0 || i >= elems.len() {
        Seq::empty()
    } else {
        let head = pad + pretty_text(elems[i], pad);
        if i + 1 < elems.len() {
            head + seq![',', '\n'] + pretty_list(elems, i + 1, pad)
        } else {
            head
        }
    }
}

/// The pretty `"key": value` lines of `fields[i..]`.
pub open spec fn pretty_fields(fields: Seq<(String, RawItem)>, i: int, pad: Seq<char>) -> Seq<char>
    decreases fields, fields.len() - i + 1,
{
    if i < 0 || i >= fields.len() {
        Seq::empty()
    } else {
        let head = pad + quoted(fields[i].0@) + seq![':', ' '] + pretty_text(fields[i].1, pad);
        if i + 1 < fields.len() {
            head + seq![',', '\n'] + pretty_fields(fields, i + 1, pad)
        } else {
            head
        }
    }
}

/// Appends the pretty serialization of `it`, with nested lines indented
/// two spaces beyond `pad`.
pub fn write_pretty(it: &RawItem, pad: &str, out: &mut String)
    ensures
        final(out)@ == old(out)@ + pretty_text(*it, pad@),
    decreases *it, 0int,
{
    match it {
        RawItem::Null => {
            out.append("null");
            proof {
                reveal_strlit("null");
                assert(out@ =~= old(out)@ + pretty_text(*it, pad@));
            }
        },
        RawItem::Bool(b) => {
            if *b {
                out.append("true");
            } else {
                out.append("false");
            }
            proof {
                reveal_strlit("true");
                reveal_strlit("false");
                assert(out@ =~= old(out)@ + pretty_text(*it, pad@));
            }
        },
        RawItem::Number(s) => {
            out.append(s.as_str());
        },
        RawItem::Text(s) => {
            crate::value::append_quoted(out, s.as_str());
        },
        RawItem::Array(elems) => {
            if elems.len() == 0 {
                out.append("[]");
                proof {
                    reveal_strlit("[]");
                    assert(out@ =~= old(out)@ + pretty_text(*it, pad@));
                }
            } else {
                out.append("[\n");
                let mut inner = pad.to_owned();
                inner.append("  ");
                proof {
                    reveal_strlit("  ");
                    assert("  "@ =~= seq![' ', ' ']);
                }
                write_pretty_list(elems, 0, inner.as_str(), out);
                push_char(out, '\n');
                out.append(pad);
                push_char(out, ']');
                proof {
                    reveal_strlit("[\n");
                    assert("[\n"@ =~= seq!['[', '\n']);
                    assert(out@ =~= old(out)@ + pretty_text(*it, pad@));
                }
            }
        },
        RawItem::Object(fields) => {
            if fields.len() == 0 {
                out.append("{}");
                proof {
                    reveal_strlit("{}");
                    assert(out@ =~= old(out)@ + pretty_text(*it, pad@));
                }
            } else {
                out.append("{\n");
                let mut inner = pad.to_owned();
                inner.append("  ");
                proof {
                    reveal_strlit("  ");
                    assert("  "@ =~= seq![' ', ' ']);
                }
                write_pretty_fields(fields, 0, inner.as_str(), out);
                push_char(out, '\n');
                out.append(pad);
                push_char(out, '}');
                proof {
                    reveal_strlit("{\n");
                    assert("{\n"@ =~= seq!['{', '\n']);
                    assert(out@ =~= old(out)@ + pretty_text(*it, pad@));
                }
            }
        },
    }
}

/// Appends the pretty lines of `elems[i..]`.
fn write_pretty_list(elems: &Vec<RawItem>, i: usize, pad: &str, out: &mut String)
    ensures
        final(out)@ == old(out)@ + pretty_list(elems@, i as int, pad@),
    decreases elems@, elems@.len() - i + 1,
{
    if i < elems.len() {
        out.append(pad);
        write_pretty(&elems[i], pad, out);
        if i + 1 < elems.len() {
            out.append(",\n");
            write_pretty_list(elems, i + 1, pad, out);
        }
        proof {
            reveal_strlit(",\n");
            assert(",\n"@ =~= seq![',', '\n']);
            assert(out@ =~= old(out)@ + pretty_list(elems@, i as int, pad@));
        }
    }
}

/// Appends the pretty `"key": value` lines of `fields[i..]`.
fn write_pretty_fields(fields: &Vec<(String, RawItem)>, i: usize, pad: &str, out: &mut String)
    ensures
        final(out)@ == old(out)@ + pretty_fields(fields@, i as int, pad@),
    decreases fields@, fields@.len() - i + 1,
{
    if i < fields.len() {
        out.append(pad);
        crate::value::append_quoted(out, fields[i].0.as_str());
        out.append(": ");
        write_pretty(&fields[i].1, pad, out);
        if i + 1 < fields.len() {
            out.append(",\n");
            write_pretty_fields(fields, i + 1, pad, out);
        }
        proof {
            reveal_strlit(": ");
            reveal_strlit(",\n");
            assert(": "@ =~= seq![':', ' ']);
            assert(",\n"@ =~= seq![',', '\n']);
            assert(out@ =~= old(out)@ + pretty_fields(fields@, i as int, pad@));
        }
    }
}

/// Renders the pretty serialization of one value.
pub fn pretty_to_string(it: &RawItem) -> (r: String)
    ensures
        r@ == pretty_text(*it, Seq::<char>::empty()),
{
    let mut out = String::new();
    let pad = "";
    proof {
        reveal_strlit("");
        assert(pad@ =~= Seq::<char>::empty());
    }
    write_pretty(it, pad, &mut out);
    proof {
        assert(Seq::<char>::empty() + pretty_text(*it, Seq::<char>::empty()) =~= pretty_text(
            *it,
            Seq::<char>::empty(),
        ));
    }
    out
}

/// A scalar in block style: the compact text of anything that opens no
/// lines of its own, including empty containers.
pub open spec fn scalar_text(it: RawItem) -> Seq<char> {
    compact_text(it)
}

/// Whether a value opens an indented block: a nonempty array or object.
pub open spec fn is_branch(it: RawItem) -> bool {
    match it {
        RawItem::Array(elems) => elems@.len() > 0,
        RawItem::Object(fields) => fields@.len() > 0,
        _ => false,
    }
}

/// The block lines of a branch value, each indented by `pad` and ending
/// with a newline.
pub open spec fn block_node(it: RawItem, pad: Seq<char>) -> Seq<char>
    decreases it, 0int,
{
    match it {
        RawItem::Array(elems) => block_items(elems@, 0, pad),
        RawItem::Object(fields) => block_obj_fields(fields@, 0, pad),
        _ => Seq::empty(),
    }
}

/// The dash-marked block lines of `elems[i..]`: a scalar stays on the dash
/// line, a branch opens an indented block under a bare dash.
pub open spec fn block_items(elems: Seq<RawItem>, i: int, pad: Seq<char>) -> Seq<char>
    decreases elems, elems.len() - i + 1,
{
    if i < 0 || i >= elems.len() {
        Seq::empty()
    } else {
        let head = if is_branch(elems[i]) {
            pad + seq!['-', '\n'] + block_node(elems[i], pad + seq![' ', ' '])
        } else {
            pad + seq!['-', ' '] + scalar_text(elems[i]) + seq!['\n']
        };
        head + block_items(elems, i + 1, pad)
    }
}

/// The `key: value` block lines of `fields[i..]`: a scalar stays on the
/// key's line, a branch opens an indented block under the key.
pub open spec fn block_obj_fields(fields: Seq<(String, RawItem)>, i: int, pad: Seq<char>) -> Seq<
    char,
>
    decreases fields, fields.len() - i + 1,
{
    if i < 0 || i >= fields.len() {
        Seq::empty()
    } else {
        let head = if is_branch(fields[i].1) {
            pad + fields[i].0@ + seq![':', '\n'] + block_node(fields[i].1, pad + seq![' ', ' '])
        } else {
            pad + fields[i].0@ + seq![':', ' '] + scalar_text(fields[i].1) + seq!['\n']
        };
        head + block_obj_fields(fields, i + 1, pad)
    }
}

/// One value as a block-style document: a nonempty array or object becomes
/// indented lines, anything else is its scalar text on one line.
pub open spec fn block_value_text(it: RawItem) -> Seq<char> {
    if is_branch(it) {
        block_node(it, Seq::empty())
    } else {
        scalar_text(it) + seq!['\n']
    }
}

/// Tells a branch value (a nonempty array or object) from a scalar.
fn branch_check(it: &RawItem) -> (r: bool)
    ensures
        r == is_branch(*it),
{
    match it {
        RawItem::Array(elems) => elems.len() > 0,
        RawItem::Object(fields) => fields.len() > 0,
        _ => false,
    }
}

/// Appends the block lines of a branch value.
fn write_block_node(it: &RawItem, pad: &str, out: &mut String)
    ensures
        final(out)@ == old(out)@ + block_node(*it, pad@),
    decreases *it, 0int,
{
    match it {
        RawItem::Array(elems) => {
            write_block_items(elems, 0, pad, out);
        },
        RawItem::Object(fields) => {
            write_block_fields(fields, 0, pad, out);
        },
        _ => {
            proof {
                assert(out@ + block_node(*it, pad@) =~= out@);
            }
        },
    }
}

/// Appends the dash-marked block lines of `elems[i..]`.
fn write_block_items(elems: &Vec<RawItem>, i: usize, pad: &str, out: &mut String)
    ensures
        final(out)@ == old(out)@ + block_items(elems@, i as int, pad@),
    decreases elems@, elems@.len() - i + 1,
{
    if i < elems.len() {
        out.append(pad);
        if branch_check(&elems[i]) {
            out.append("-\n");
            let mut inner = pad.to_owned();
            inner.append("  ");
            write_block_node(&elems[i], inner.as_str(), out);
            proof {
                reveal_strlit("-\n");
                reveal_strlit("  ");
                assert("-\n"@ =~= seq!['-', '\n']);
                assert("  "@ =~= seq![' ', ' ']);
            }
        } else {
            out.append("- ");
            crate::value::write_compact(&elems[i], out);
            push_char(out, '\n');
            proof {
                reveal_strlit("- ");
                assert("- "@ =~= seq!['-', ' ']);
            }
        }
        write_block_items(elems, i + 1, pad, out);
        proof {
            assert(out@ =~= old(out)@ + block_items(elems@, i as int, pad@));
        }
    }
}

/// Appends the `key: value` block lines of `fields[i..]`.
fn write_block_fields(fields: &Vec<(String, RawItem)>, i: usize, pad: &str, out: &mut String)
    ensures
        final(out)@ == old(out)@ + block_obj_fields(fields@, i as int, pad@),
    decreases fields@, fields@.len() - i + 1,
{
    if i < fields.len() {
        out.append(pad);
        out.append(fields[i].0.as_str());
        if branch_check(&fields[i].1) {
            out.append(":\n");
            let mut inner = pad.to_owned();
            inner.append("  ");
            write_block_node(&fields[i].1, inner.as_str(), out);
            proof {
                reveal_strlit(":\n");
                reveal_strlit("  ");
                assert(":\n"@ =~= seq![':', '\n']);
                assert("  "@ =~= seq![' ', ' ']);
            }
        } else {
            out.append(": ");
            crate::value::write_compact(&fields[i].1, out);
            push_char(out, '\n');
            proof {
                reveal_strlit(": ");
                assert(": "@ =~= seq![':', ' ']);
            }
        }
        write_block_fields(fields, i + 1, pad, out);
        proof {
            assert(out@ =~= old(out)@ + block_obj_fields(fields@, i as int, pad@));
        }
    }
}

/// Renders one value as a block-style document.
pub fn block_value_to_string(it: &RawItem) -> (r: String)
    ensures
        r@ == block_value_text(*it),
{
    let mut out = String::new();
    if branch_check(it) {
        let pad = "";
        proof {
            reveal_strlit("");
            assert(pad@ =~= Seq::<char>::empty());
        }
        write_block_node(it, pad, &mut out);
        proof {
            assert(out@ =~= block_value_text(*it));
        }
    } else {
        crate::value::write_compact(it, &mut out);
        push_char(&mut out, '\n');
        proof {
            assert(out@ =~= block_value_text(*it));
        }
    }
    out
}

} // verus!
