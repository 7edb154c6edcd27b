//! Parsing the structured document format back into a record set, and the
//! round-trip law: rendering a record set and parsing the text back
//! reconstructs the same header and the same row values.

use vstd::prelude::*;

use crate::records::{RecordSet, RecordSetV};
use crate::render::{cell_at, entry_text, obj_entries_from, obj_text, objs_from, structured_text};
use crate::value::{escape_char, escape_seq, quoted};

verus! {

/// The character an escape code stands for.
pub open spec fn decode_esc(c: char) -> Option<char> {
    if c == '"' {
        Some('"')
    } else if c == '\\' {
        Some('\\')
    } else if c == 'n' {
        Some('\n')
    } else if c == 'r' {
        Some('\r')
    } else if c == 't' {
        Some('\t')
    } else {
        None
    }
}

/// Scans a quoted string body from position `i` (just after the opening
/// quote): decodes escapes up to the closing quote, and returns the decoded
/// text with the position just after that quote.
pub open spec fn scan_string(s: Seq<char>, i: int) -> Option<(Seq<char>, int)>
    decreases s.len() - i,
{
    if i < 0 || i >= s.len() {
        None
    } else if s[i] == '"' {
        Some((Seq::empty(), i + 1))
    } else if s[i] == '\\' {
        if i + 2 > s.len() {
            None
        } else {
            match decode_esc(s[i + 1]) {
                Some(c) => match scan_string(s, i + 2) {
                    Some(r) => Some((seq![c] + r.0, r.1)),
                    None => None,
                },
                None => None,
            }
        }
    } else {
        match scan_string(s, i + 1) {
            Some(r) => Some((seq![s[i]] + r.0, r.1)),
            None => None,
        }
    }
}

/// A successful string scan moves forward and stays inside the text.
pub proof fn lemma_scan_string_progress(s: Seq<char>, i: int)
    requires
        scan_string(s, i) is Some,
    ensures
        i < scan_string(s, i).unwrap().1 <= s.len(),
    decreases s.len() - i,
{
    if s[i] == '"' {
    } else if s[i] == '\\' {
        lemma_scan_string_progress(s, i + 2);
    } else {
        lemma_scan_string_progress(s, i + 1);
    }
}

/// Scanning the escaped form of any text, followed by the closing quote,
/// recovers exactly that text: the string-level round trip.
pub proof fn lemma_scan_escape(a: Seq<char>, v: Seq<char>, b: Seq<char>)
    ensures
        scan_string(a + escape_seq(v) + seq!['"'] + b, a.len() as int) == Some(
            (v, (a.len() + escape_seq(v).len() + 1) as int),
        ),
    decreases v.len(),
{
    let s = a + escape_seq(v) + seq!['"'] + b;
    let i = a.len() as int;
    if v.len() == 0 {
        assert(escape_seq(v) =~= Seq::<char>::empty());
        assert(s[i] == '"');
        assert(v =~= Seq::<char>::empty());
    } else {
        let c = v[0];
        let e = escape_char(c);
        let rest = v.skip(1);
        assert(escape_seq(v) == e + escape_seq(rest));
        let a2 = a + e;
        assert(s =~= a2 + escape_seq(rest) + seq!['"'] + b);
        lemma_scan_escape(a2, rest, b);
        if c == '"' || c == '\\' || c == '\n' || c == '\r' || c == '\t' {
            assert(e.len() == 2);
            assert(s[i] == '\\');
            assert(decode_esc(s[i + 1]) == Some(c));
            assert(scan_string(s, i + 2) == Some(
                (rest, (a2.len() + escape_seq(rest).len() + 1) as int),
            ));
            assert(seq![c] + rest =~= v);
            assert(a2.len() + escape_seq(rest).len() + 1 == a.len() + escape_seq(v).len() + 1);
        } else {
            assert(e =~= seq![c]);
            assert(s[i] == c);
            assert(c != '"' && c != '\\');
            assert(scan_string(s, i + 1) == Some(
                (rest, (a2.len() + escape_seq(rest).len() + 1) as int),
            ));
            assert(seq![s[i]] + rest =~= v);
        }
    }
}

/// Scans one `"key": "value"` member from position `i`.
pub open spec fn scan_entry(s: Seq<char>, i: int) -> Option<((Seq<char>, Seq<char>), int)> {
    if i < 0 || i + 5 > s.len() {
        None
    } else if s[i] == ' ' && s[i + 1] == ' ' && s[i + 2] == ' ' && s[i + 3] == ' ' && s[i + 4]
        == '"' {
        match scan_string(s, i + 5) {
            Some((k, j)) => if j + 3 <= s.len() && s[j] == ':' && s[j + 1] == ' ' && s[j + 2]
                == '"' {
                match scan_string(s, j + 3) {
                    Some((c, j2)) => Some(((k, c), j2)),
                    None => None,
                }
            } else {
                None
            },
            None => None,
        }
    } else {
        None
    }
}

/// A successful member scan moves forward.
pub proof fn lemma_scan_entry_progress(s: Seq<char>, i: int)
    requires
        scan_entry(s, i) is Some,
    ensures
        i < scan_entry(s, i).unwrap().1 <= s.len(),
{
    let (k, j) = scan_string(s, i + 5).unwrap();
    lemma_scan_string_progress(s, i + 5);
    lemma_scan_string_progress(s, j + 3);
}

/// Scanning a rendered member recovers its key and cell.
pub proof fn lemma_scan_entry_rt(a: Seq<char>, k: Seq<char>, cell: Seq<char>, b: Seq<char>)
    ensures
        scan_entry(a + entry_text(k, cell) + b, a.len() as int) == Some(
            ((k, cell), (a.len() + entry_text(k, cell).len()) as int),
        ),
{
    let s = a + entry_text(k, cell) + b;
    let i = a.len() as int;
    let a2 = a + seq![' ', ' ', ' ', ' ', '"'];
    assert(s =~= a2 + escape_seq(k) + seq!['"'] + (seq![':', ' '] + quoted(cell) + b));
    lemma_scan_escape(a2, k, seq![':', ' '] + quoted(cell) + b);
    let j: int = (a2.len() + escape_seq(k).len() + 1) as int;
    assert(s[i] == ' ' && s[i + 1] == ' ' && s[i + 2] == ' ' && s[i + 3] == ' ' && s[i + 4] == '"');
    assert(scan_string(s, i + 5) == Some((k, j)));
    assert(s[j] == ':' && s[j + 1] == ' ' && s[j + 2] == '"');
    let a3 = a2 + escape_seq(k) + seq!['"'] + seq![':', ' ', '"'];
    assert(s =~= a3 + escape_seq(cell) + seq!['"'] + b);
    lemma_scan_escape(a3, cell, b);
    assert(a3.len() == j + 3);
    assert(scan_string(s, j + 3) == Some((cell, (a3.len() + escape_seq(cell).len() + 1) as int)));
    assert(a3.len() + escape_seq(cell).len() + 1 == a.len() + entry_text(k, cell).len());
}

/// Scans the members of one object: members separated by a comma and a
/// newline, ending before anything else.
pub open spec fn scan_entries(s: Seq<char>, i: int) -> Option<(Seq<(Seq<char>, Seq<char>)>, int)>
    decreases s.len() - i,
{
    match scan_entry(s, i) {
        Some((kv, j)) => if i < j <= s.len() {
            if j + 2 <= s.len() && s[j] == ',' && s[j + 1] == '\n' {
                match scan_entries(s, j + 2) {
                    Some((rest, j2)) => Some((seq![kv] + rest, j2)),
                    None => None,
                }
            } else {
                Some((seq![kv], j))
            }
        } else {
            None
        },
        None => None,
    }
}

/// Scanning the rendered members of a row recovers the header fields and
/// cells from position `jj` on; the text after them starts with a newline.
#[verifier::rlimit(80)]
pub proof fn lemma_scan_entries_rt(
    a: Seq<char>,
    header: Seq<Seq<char>>,
    row: Seq<Seq<char>>,
    jj: int,
    b: Seq<char>,
)
    requires
        0 <= jj < header.len(),
        b.len() > 0,
        b[0] == '\n',
    ensures
        scan_entries(a + obj_entries_from(header, row, jj) + b, a.len() as int) == Some(
            (
                Seq::new((header.len() - jj) as nat, |m: int| (header[jj + m], cell_at(row, jj + m))),
                (a.len() + obj_entries_from(header, row, jj).len()) as int,
            ),
        ),
    decreases header.len() - jj,
{
    let s = a + obj_entries_from(header, row, jj) + b;
    let i = a.len() as int;
    let e = entry_text(header[jj], cell_at(row, jj));
    if jj + 1 < header.len() {
        assert(obj_entries_from(header, row, jj) == e + seq![',', '\n'] + obj_entries_from(
            header,
            row,
            jj + 1,
        ));
        assert(s =~= a + e + (seq![',', '\n'] + obj_entries_from(header, row, jj + 1) + b));
        lemma_scan_entry_rt(a, header[jj], cell_at(row, jj), seq![',', '\n'] + obj_entries_from(
            header,
            row,
            jj + 1,
        ) + b);
        let j: int = (a.len() + e.len()) as int;
        assert(scan_entry(s, i) == Some(((header[jj], cell_at(row, jj)), j)));
        assert(s[j] == ',' && s[j + 1] == '\n');
        let a2 = a + e + seq![',', '\n'];
        assert(s =~= a2 + obj_entries_from(header, row, jj + 1) + b);
        lemma_scan_entries_rt(a2, header, row, jj + 1, b);
        let rest = Seq::new(
            (header.len() - jj - 1) as nat,
            |m: int| (header[jj + 1 + m], cell_at(row, jj + 1 + m)),
        );
        assert(scan_entries(s, j + 2) == Some(
            (rest, (a2.len() + obj_entries_from(header, row, jj + 1).len()) as int),
        ));
        assert(seq![(header[jj], cell_at(row, jj))] + rest =~= Seq::new(
            (header.len() - jj) as nat,
            |m: int| (header[jj + m], cell_at(row, jj + m)),
        ));
        assert(a2.len() + obj_entries_from(header, row, jj + 1).len() == a.len()
            + obj_entries_from(header, row, jj).len());
    } else {
        assert(obj_entries_from(header, row, jj) == e);
        assert(s =~= a + e + b);
        lemma_scan_entry_rt(a, header[jj], cell_at(row, jj), b);
        let j: int = (a.len() + e.len()) as int;
        assert(scan_entry(s, i) == Some(((header[jj], cell_at(row, jj)), j)));
        assert(s[j] == '\n');
        assert(seq![(header[jj], cell_at(row, jj))] =~= Seq::new(
            (header.len() - jj) as nat,
            |m: int| (header[jj + m], cell_at(row, jj + m)),
        ));
    }
}

/// Scans one object from position `i`: either the empty object or a
/// braced, newline-framed member list.
pub open spec fn scan_obj(s: Seq<char>, i: int) -> Option<(Seq<(Seq<char>, Seq<char>)>, int)> {
    if i < 0 || i + 4 > s.len() || !(s[i] == ' ' && s[i + 1] == ' ' && s[i + 2] == '{') {
        None
    } else if s[i + 3] == '}' {
        Some((Seq::empty(), i + 4))
    } else if s[i + 3] == '\n' {
        match scan_entries(s, i + 4) {
            Some((kvs, j)) => if j + 4 <= s.len() && s[j] == '\n' && s[j + 1] == ' ' && s[j + 2]
                == ' ' && s[j + 3] == '}' {
                Some((kvs, j + 4))
            } else {
                None
            },
            None => None,
        }
    } else {
        None
    }
}

/// A successful entries scan moves forward.
pub proof fn lemma_scan_entries_progress(s: Seq<char>, i: int)
    requires
        scan_entries(s, i) is Some,
    ensures
        i < scan_entries(s, i).unwrap().1 <= s.len(),
    decreases s.len() - i,
{
    lemma_scan_entry_progress(s, i);
    let (kv, j) = scan_entry(s, i).unwrap();
    if j + 2 <= s.len() && s[j] == ',' && s[j + 1] == '\n' {
        lemma_scan_entries_progress(s, j + 2);
    }
}

/// The member pairs one row renders to: its header fields and cells.
pub open spec fn row_pairs(v: RecordSetV, row: Seq<Seq<char>>) -> Seq<(Seq<char>, Seq<char>)> {
    Seq::new(v.header.len(), |m: int| (v.header[m], cell_at(row, m)))
}

/// Scanning a rendered object recovers the header fields and cells of its
/// row.
pub proof fn lemma_scan_obj_rt(a: Seq<char>, v: RecordSetV, row: Seq<Seq<char>>, b: Seq<char>)
    ensures
        scan_obj(a + obj_text(v, row) + b, a.len() as int) == Some(
            (row_pairs(v, row), (a.len() + obj_text(v, row).len()) as int),
        ),
{
    let s = a + obj_text(v, row) + b;
    let i = a.len() as int;
    if v.header.len() == 0 {
        assert(s[i] == ' ' && s[i + 1] == ' ' && s[i + 2] == '{' && s[i + 3] == '}');
        assert(row_pairs(v, row) =~= Seq::<(Seq<char>, Seq<char>)>::empty());
    } else {
        assert(s[i] == ' ' && s[i + 1] == ' ' && s[i + 2] == '{' && s[i + 3] == '\n');
        let a2 = a + seq![' ', ' ', '{', '\n'];
        let tail = seq!['\n', ' ', ' ', '}'] + b;
        assert(s =~= a2 + obj_entries_from(v.header, row, 0) + tail);
        lemma_scan_entries_rt(a2, v.header, row, 0, tail);
        let j: int = (a2.len() + obj_entries_from(v.header, row, 0).len()) as int;
        assert(scan_entries(s, i + 4) == Some(
            (
                Seq::new(v.header.len(), |m: int| (v.header[0 + m], cell_at(row, 0 + m))),
                j,
            ),
        ));
        assert(Seq::new(v.header.len(), |m: int| (v.header[0 + m], cell_at(row, 0 + m)))
            =~= row_pairs(v, row));
        assert(s[j] == '\n' && s[j + 1] == ' ' && s[j + 2] == ' ' && s[j + 3] == '}');
        assert(j + 4 == a.len() + obj_text(v, row).len());
    }
}

/// Scans the objects of a document: objects separated by a comma and a
/// newline, ending before anything else.
pub open spec fn scan_objs(s: Seq<char>, i: int) -> Option<(Seq<Seq<(Seq<char>, Seq<char>)>>, int)>
    decreases s.len() - i,
{
    match scan_obj(s, i) {
        Some((kvs, j)) => if i < j <= s.len() {
            if j + 2 <= s.len() && s[j] == ',' && s[j + 1] == '\n' {
                match scan_objs(s, j + 2) {
                    Some((rest, j2)) => Some((seq![kvs] + rest, j2)),
                    None => None,
                }
            } else {
                Some((seq![kvs], j))
            }
        } else {
            None
        },
        None => None,
    }
}

/// A successful object scan moves forward.
pub proof fn lemma_scan_obj_progress(s: Seq<char>, i: int)
    requires
        scan_obj(s, i) is Some,
    ensures
        i < scan_obj(s, i).unwrap().1 <= s.len(),
{
    if s[i + 3] == '\n' {
        lemma_scan_entries_progress(s, i + 4);
    }
}

/// Scanning the rendered objects of `rows[ii..]` recovers every row's
/// member pairs; the text after them starts with a newline.
#[verifier::rlimit(80)]
pub proof fn lemma_scan_objs_rt(a: Seq<char>, v: RecordSetV, ii: int, b: Seq<char>)
    requires
        0 <= ii < v.rows.len(),
        b.len() > 0,
        b[0] == '\n',
    ensures
        scan_objs(a + objs_from(v, ii) + b, a.len() as int) == Some(
            (
                Seq::new((v.rows.len() - ii) as nat, |m: int| row_pairs(v, v.rows[ii + m])),
                (a.len() + objs_from(v, ii).len()) as int,
            ),
        ),
    decreases v.rows.len() - ii,
{
    let s = a + objs_from(v, ii) + b;
    let i = a.len() as int;
    let o = obj_text(v, v.rows[ii]);
    if ii + 1 < v.rows.len() {
        assert(objs_from(v, ii) == o + seq![',', '\n'] + objs_from(v, ii + 1));
        assert(s =~= a + o + (seq![',', '\n'] + objs_from(v, ii + 1) + b));
        lemma_scan_obj_rt(a, v, v.rows[ii], seq![',', '\n'] + objs_from(v, ii + 1) + b);
        let j: int = (a.len() + o.len()) as int;
        assert(scan_obj(s, i) == Some((row_pairs(v, v.rows[ii]), j)));
        lemma_scan_obj_progress(s, i);
        assert(s[j] == ',' && s[j + 1] == '\n');
        let a2 = a + o + seq![',', '\n'];
        assert(s =~= a2 + objs_from(v, ii + 1) + b);
        lemma_scan_objs_rt(a2, v, ii + 1, b);
        let rest = Seq::new((v.rows.len() - ii - 1) as nat, |m: int| row_pairs(v, v.rows[ii + 1 + m]));
        assert(scan_objs(s, j + 2) == Some(
            (rest, (a2.len() + objs_from(v, ii + 1).len()) as int),
        ));
        assert(seq![row_pairs(v, v.rows[ii])] + rest =~= Seq::new(
            (v.rows.len() - ii) as nat,
            |m: int| row_pairs(v, v.rows[ii + m]),
        ));
        assert(a2.len() + objs_from(v, ii + 1).len() == a.len() + objs_from(v, ii).len());
    } else {
        assert(objs_from(v, ii) == o);
        lemma_scan_obj_rt(a, v, v.rows[ii], b);
        let j: int = (a.len() + o.len()) as int;
        assert(scan_obj(s, i) == Some((row_pairs(v, v.rows[ii]), j)));
        lemma_scan_obj_progress(s, i);
        assert(s[j] == '\n');
        assert(seq![row_pairs(v, v.rows[ii])] =~= Seq::new(
            (v.rows.len() - ii) as nat,
            |m: int| row_pairs(v, v.rows[ii + m]),
        ));
    }
}

/// The field names of scanned member pairs.
pub open spec fn keys_of(kvs: Seq<(Seq<char>, Seq<char>)>) -> Seq<Seq<char>> {
    kvs.map_values(|p: (Seq<char>, Seq<char>)| p.0)
}

/// The cells of scanned member pairs.
pub open spec fn cells_of(kvs: Seq<(Seq<char>, Seq<char>)>) -> Seq<Seq<char>> {
    kvs.map_values(|p: (Seq<char>, Seq<char>)| p.1)
}

/// Parses a structured document: an empty array gives the empty record
/// set; otherwise every object must carry the same field names, in the
/// same order, and those become the header, with one row per object.
pub open spec fn parse_spec(s: Seq<char>) -> Option<(Seq<Seq<char>>, Seq<Seq<Seq<char>>>)> {
    if s.len() == 2 && s[0] == '[' && s[1] == ']' {
        Some((Seq::empty(), Seq::empty()))
    } else if s.len() >= 2 && s[0] == '[' && s[1] == '\n' {
        match scan_objs(s, 2) {
            Some((objs, j)) => if objs.len() > 0 && j + 2 == s.len() && s[j] == '\n' && s[j + 1]
                == ']' {
                if forall|m: int| 0 <= m < objs.len() ==> keys_of(#[trigger] objs[m]) == keys_of(
                    objs[0],
                ) {
                    Some(
                        (
                            keys_of(objs[0]),
                            objs.map_values(|kvs: Seq<(Seq<char>, Seq<char>)>| cells_of(kvs)),
                        ),
                    )
                } else {
                    None
                }
            } else {
                None
            },
            None => None,
        }
    } else {
        None
    }
}

/// The round trip: rendering a well-formed record set to the structured
/// document format and parsing the text back reconstructs an identical
/// header and identical row values. At least one row must exist: the empty
/// record set renders as an empty array, whose text holds no field names.
pub proof fn lemma_structured_round_trip(v: RecordSetV)
    requires
        v.wf(),
        v.rows.len() > 0,
    ensures
        parse_spec(structured_text(v)) == Some((v.header, v.rows)),
{
    let s = structured_text(v);
    let a = seq!['[', '\n'];
    assert(s =~= a + objs_from(v, 0) + seq!['\n', ']']);
    lemma_scan_objs_rt(a, v, 0, seq!['\n', ']']);
    let objs = Seq::new(v.rows.len(), |m: int| row_pairs(v, v.rows[0 + m]));
    let j: int = (a.len() + objs_from(v, 0).len()) as int;
    assert(scan_objs(s, 2) == Some((objs, j)));
    assert(s[0] == '[' && s[1] == '\n');
    assert(s[j] == '\n' && s[j + 1] == ']');
    assert(j + 2 == s.len());
    assert(s.len() > 2) by {
        assert(objs_from(v, 0).len() >= 0);
        lemma_scan_obj_progress(s, 2);
        lemma_scan_objs_progress_len(v, 0);
    }
    assert forall|m: int| 0 <= m < objs.len() implies keys_of(#[trigger] objs[m]) == keys_of(
        objs[0],
    ) by {
        assert(keys_of(objs[m]) =~= v.header);
        assert(keys_of(objs[0]) =~= v.header);
    }
    assert(keys_of(objs[0]) =~= v.header);
    assert forall|m: int| 0 <= m < objs.len() implies #[trigger] cells_of(objs[m]) == v.rows[m] by {
        assert(v.rows[m].len() == v.header.len());
        assert forall|mm: int| 0 <= mm < v.header.len() implies cells_of(objs[m])[mm] == v.rows[m][mm] by {
            assert(objs[m][mm] == (v.header[mm], cell_at(v.rows[m], mm)));
        }
        assert(cells_of(objs[m]) =~= v.rows[m]);
    }
    assert(objs.map_values(|kvs: Seq<(Seq<char>, Seq<char>)>| cells_of(kvs)) =~= v.rows);
}

/// A rendered object list is never empty text.
proof fn lemma_scan_objs_progress_len(v: RecordSetV, ii: int)
    requires
        0 <= ii < v.rows.len(),
    ensures
        objs_from(v, ii).len() > 0,
{
    assert(obj_text(v, v.rows[ii]).len() >= 4);
}

} // verus!

verus! {

/// Collects the characters of a string.
#[verifier::loop_isolation(false)]
fn chars_of(s: &str) -> (v: Vec<char>)
    ensures
        v@ == s@,
{
    let n = s.unicode_len();
    let mut v: Vec<char> = Vec::new();
    let mut i: usize = 0;
    while i < n
        invariant
            i <= n,
            n == s@.len(),
            v@ =~= s@.take(i as int),
        decreases n - i,
    {
        v.push(s.get_char(i));
        proof {
            assert(v@ =~= s@.take(i as int + 1));
        }
        i = i + 1;
    }
    proof {
        assert(s@.take(n as int) =~= s@);
    }
    v
}

/// Scans one quoted string body, decoding escapes.
#[verifier::loop_isolation(false)]
fn scan_string_exec(s: &Vec<char>, i: usize) -> (r: Option<(String, usize)>)
    ensures
        match scan_string(s@, i as int) {
            Some(p) => r matches Some(q) && q.0@ == p.0 && q.1 as int == p.1,
            None => r is None,
        },
{
    if i >= s.len() {
        return None;
    }
    let mut out = String::new();
    let mut j = i;
    loop
        invariant
            i <= j <= s@.len(),
            match scan_string(s@, j as int) {
                Some(p) => scan_string(s@, i as int) == Some((out@ + p.0, p.1)),
                None => scan_string(s@, i as int) is None,
            },
        decreases s@.len() - j,
    {
        if j >= s.len() {
            return None;
        }
        let c = s[j];
        if c == '"' {
            proof {
                assert(out@ + Seq::<char>::empty() =~= out@);
            }
            return Some((out, j + 1));
        }
        let ghost prev = out@;
        if c == '\\' {
            if s.len() < 2 || j > s.len() - 2 {
                return None;
            }
            let e = s[j + 1];
            let mut bad = false;
            let d: char = if e == '"' {
                '"'
            } else if e == '\\' {
                '\\'
            } else if e == 'n' {
                '\n'
            } else if e == 'r' {
                '\r'
            } else if e == 't' {
                '\t'
            } else {
                bad = true;
                ' '
            };
            if bad {
                return None;
            }
            crate::value::push_char(&mut out, d);
            proof {
                assert(decode_esc(s@[j as int + 1]) == Some(d));
                if scan_string(s@, j as int + 2) is Some {
                    let p = scan_string(s@, j as int + 2).unwrap();
                    assert(scan_string(s@, j as int) == Some((seq![d] + p.0, p.1)));
                    assert(prev + (seq![d] + p.0) =~= (prev + seq![d]) + p.0);
                }
            }
            j = j + 2;
        } else {
            crate::value::push_char(&mut out, c);
            proof {
                if scan_string(s@, j as int + 1) is Some {
                    let p = scan_string(s@, j as int + 1).unwrap();
                    assert(scan_string(s@, j as int) == Some((seq![c] + p.0, p.1)));
                    assert(prev + (seq![c] + p.0) =~= (prev + seq![c]) + p.0);
                }
            }
            j = j + 1;
        }
    }
}

/// Scans one `"key": "value"` member.
fn scan_entry_exec(s: &Vec<char>, i: usize) -> (r: Option<((String, String), usize)>)
    ensures
        match scan_entry(s@, i as int) {
            Some(p) => r matches Some(q) && q.0.0@ == p.0.0 && q.0.1@ == p.0.1 && q.1 as int
                == p.1,
            None => r is None,
        },
{
    if s.len() < 5 || i > s.len() - 5 {
        return None;
    }
    if !(s[i] == ' ' && s[i + 1] == ' ' && s[i + 2] == ' ' && s[i + 3] == ' ' && s[i + 4] == '"') {
        return None;
    }
    match scan_string_exec(s, i + 5) {
        Some((k, j)) => {
            proof {
                lemma_scan_string_progress(s@, i as int + 5);
            }
            if s.len() < 3 || j > s.len() - 3 {
                return None;
            }
            if !(s[j] == ':' && s[j + 1] == ' ' && s[j + 2] == '"') {
                return None;
            }
            match scan_string_exec(s, j + 3) {
                Some((c, j2)) => Some(((k, c), j2)),
                None => None,
            }
        },
        None => None,
    }
}

/// Scans the member list of one object.
fn scan_entries_exec(s: &Vec<char>, i: usize) -> (r: Option<(Vec<(String, String)>, usize)>)
    ensures
        match scan_entries(s@, i as int) {
            Some(p) => r matches Some(q) && q.0.deep_view() == p.0 && q.1 as int == p.1,
            None => r is None,
        },
    decreases s@.len() - i,
{
    match scan_entry_exec(s, i) {
        Some((kv, j)) => {
            proof {
                lemma_scan_entry_progress(s@, i as int);
            }
            if s.len() >= 2 && j <= s.len() - 2 && s[j] == ',' && s[j + 1] == '\n' {
                match scan_entries_exec(s, j + 2) {
                    Some((rest, j2)) => {
                        let ghost prev = rest.deep_view();
                        let mut rest = rest;
                        rest.insert(0, kv);
                        proof {
                            assert(rest.deep_view() =~= seq![(kv.0@, kv.1@)] + prev);
                        }
                        Some((rest, j2))
                    },
                    None => None,
                }
            } else {
                let mut one: Vec<(String, String)> = Vec::new();
                one.push(kv);
                proof {
                    assert(one.deep_view() =~= seq![(kv.0@, kv.1@)]);
                }
                Some((one, j))
            }
        },
        None => None,
    }
}

/// Scans one object.
fn scan_obj_exec(s: &Vec<char>, i: usize) -> (r: Option<(Vec<(String, String)>, usize)>)
    ensures
        match scan_obj(s@, i as int) {
            Some(p) => r matches Some(q) && q.0.deep_view() == p.0 && q.1 as int == p.1,
            None => r is None,
        },
{
    if s.len() < 4 || i > s.len() - 4 {
        return None;
    }
    if !(s[i] == ' ' && s[i + 1] == ' ' && s[i + 2] == '{') {
        return None;
    }
    if s[i + 3] == '}' {
        let empty: Vec<(String, String)> = Vec::new();
        proof {
            assert(empty.deep_view() =~= Seq::<(Seq<char>, Seq<char>)>::empty());
        }
        return Some((empty, i + 4));
    }
    if s[i + 3] != '\n' {
        return None;
    }
    match scan_entries_exec(s, i + 4) {
        Some((kvs, j)) => {
            proof {
                lemma_scan_entries_progress(s@, i as int + 4);
            }
            if s.len() >= 4 && j <= s.len() - 4 && s[j] == '\n' && s[j + 1] == ' ' && s[j + 2]
                == ' ' && s[j + 3] == '}' {
                Some((kvs, j + 4))
            } else {
                None
            }
        },
        None => None,
    }
}

/// Scans the object list of a document.
fn scan_objs_exec(s: &Vec<char>, i: usize) -> (r: Option<(Vec<Vec<(String, String)>>, usize)>)
    ensures
        match scan_objs(s@, i as int) {
            Some(p) => r matches Some(q) && q.0.deep_view() == p.0 && q.1 as int == p.1,
            None => r is None,
        },
    decreases s@.len() - i,
{
    match scan_obj_exec(s, i) {
        Some((kvs, j)) => {
            proof {
                lemma_scan_obj_progress(s@, i as int);
            }
            if s.len() >= 2 && j <= s.len() - 2 && s[j] == ',' && s[j + 1] == '\n' {
                match scan_objs_exec(s, j + 2) {
                    Some((rest, j2)) => {
                        let ghost prev = rest.deep_view();
                        let ghost kd = kvs.deep_view();
                        let mut rest = rest;
                        rest.insert(0, kvs);
                        proof {
                            assert(rest.deep_view() =~= seq![kd] + prev);
                        }
                        Some((rest, j2))
                    },
                    None => None,
                }
            } else {
                let ghost kd = kvs.deep_view();
                let mut one: Vec<Vec<(String, String)>> = Vec::new();
                one.push(kvs);
                proof {
                    assert(one.deep_view() =~= seq![kd]);
                }
                Some((one, j))
            }
        },
        None => None,
    }
}

/// Parses a structured document back into a record set: the header is the
/// field names shared by every object, and each object becomes one row.
/// Text that is not a structured document, or whose objects disagree on
/// their fields, is rejected.
#[verifier::loop_isolation(false)]
pub fn parse_structured(s: &str) -> (r: Option<RecordSet>)
    ensures
        match parse_spec(s@) {
            Some(p) => r matches Some(rs) && rs@.header == p.0 && rs@.rows == p.1 && rs@.wf(),
            None => r is None,
        },
{
    let cs = chars_of(s);
    if cs.len() == 2 && cs[0] == '[' && cs[1] == ']' {
        let r = RecordSet { header: Vec::new(), rows: Vec::new() };
        proof {
            assert(r@.header =~= Seq::<Seq<char>>::empty());
            assert(r@.rows =~= Seq::<Seq<Seq<char>>>::empty());
        }
        return Some(r);
    }
    if cs.len() < 2 || !(cs[0] == '[' && cs[1] == '\n') {
        return None;
    }
    match scan_objs_exec(&cs, 2) {
        Some((objs, j)) => {
            let ghost od = objs.deep_view();
            if objs.len() == 0 || j > s.unicode_len() || s.unicode_len() - j != 2 || !(cs[j] == '\n'
                && cs[j + 1] == ']') {
                return None;
            }
            // the first object names the header fields
            let mut header: Vec<String> = Vec::new();
            let mut m: usize = 0;
            while m < objs[0].len()
                invariant
                    m <= objs[0]@.len(),
                    header.deep_view() =~= keys_of(od[0]).take(m as int),
                decreases objs[0]@.len() - m,
            {
                header.push(objs[0][m].0.clone());
                proof {
                    assert(header.deep_view() =~= keys_of(od[0]).take(m as int + 1));
                }
                m = m + 1;
            }
            proof {
                assert(keys_of(od[0]).take(od[0].len() as int) =~= keys_of(od[0]));
            }
            // every object must agree on the fields; its values become a row
            let mut rows: Vec<Vec<String>> = Vec::new();
            let mut i: usize = 0;
            while i < objs.len()
                invariant
                    i <= objs@.len(),
                    header.deep_view() == keys_of(od[0]),
                    rows.deep_view() =~= od.take(i as int).map_values(
                        |kvs: Seq<(Seq<char>, Seq<char>)>| cells_of(kvs),
                    ),
                    forall|w: int| 0 <= w < i ==> keys_of(#[trigger] od[w]) == keys_of(od[0]),
                decreases objs@.len() - i,
            {
                let obj = &objs[i];
                if obj.len() != header.len() {
                    proof {
                        assert(keys_of(od[i as int]).len() != keys_of(od[0]).len());
                    }
                    return None;
                }
                let mut row: Vec<String> = Vec::new();
                let mut m2: usize = 0;
                while m2 < obj.len()
                    invariant
                        m2 <= obj@.len(),
                        obj@.len() == header@.len(),
                        obj.deep_view() == od[i as int],
                        i < objs@.len(),
                        header.deep_view() == keys_of(od[0]),
                        row.deep_view() =~= cells_of(od[i as int]).take(m2 as int),
                        forall|w: int| 0 <= w < m2 ==> keys_of(od[i as int])[w] == keys_of(
                            od[0],
                        )[w],
                    decreases obj@.len() - m2,
                {
                    if !crate::text::str_eq(obj[m2].0.as_str(), header[m2].as_str()) {
                        proof {
                            assert(keys_of(od[i as int])[m2 as int] != keys_of(od[0])[m2 as int]);
                            assert(keys_of(od[i as int]) != keys_of(od[0]));
                        }
                        return None;
                    }
                    row.push(obj[m2].1.clone());
                    proof {
                        assert(row.deep_view() =~= cells_of(od[i as int]).take(m2 as int + 1));
                    }
                    m2 = m2 + 1;
                }
                proof {
                    assert(cells_of(od[i as int]).take(od[i as int].len() as int) =~= cells_of(
                        od[i as int],
                    ));
                    assert(keys_of(od[i as int]) =~= keys_of(od[0]));
                }
                let ghost prev_rows = rows.deep_view();
                rows.push(row);
                proof {
                    assert(rows.deep_view() =~= prev_rows.push(cells_of(od[i as int])));
                    assert(rows.deep_view() =~= od.take(i as int + 1).map_values(
                        |kvs: Seq<(Seq<char>, Seq<char>)>| cells_of(kvs),
                    ));
                }
                i = i + 1;
            }
            proof {
                assert(od.take(od.len() as int) =~= od);
            }
            let r = RecordSet { header, rows };
            proof {
                assert forall|w: int| 0 <= w < r@.rows.len() implies (#[trigger] r@.rows[w]).len()
                    == r@.header.len() by {
                    assert(r@.rows[w] == cells_of(od[w]));
                }
            }
            Some(r)
        },
        None => None,
    }
}

} // verus!
