//! The pipeline driver: parses the projection and sort options, runs the
//! stages over a normalized record set, and renders the result. Each run
//! is a pure function of the items and the options.

use vstd::prelude::*;

use crate::records::{normalize, normalize_spec, project, project_rs, RecordSet, RecordSetV, limit};
use crate::render::{block_value_text, block_value_to_string, pretty_text, pretty_to_string, records_text, render_records};
use crate::requests::opt_str;
use crate::sort::{key_index, sort_by, sort_rows};
use crate::value::RawItem;
use crate::OutputFormat;

verus! {

/// Whitespace trimmed from around a projection field.
pub open spec fn is_space(c: char) -> bool {
    c == ' ' || c == '\t' || c == '\r' || c == '\n'
}

/// The sequence without its leading whitespace.
pub open spec fn trim_start(s: Seq<char>) -> Seq<char>
    decreases s.len(),
{
    if s.len() > 0 && is_space(s[0]) {
        trim_start(s.skip(1))
    } else {
        s
    }
}

/// The sequence without its trailing whitespace.
pub open spec fn trim_end(s: Seq<char>) -> Seq<char>
    decreases s.len(),
{
    if s.len() > 0 && is_space(s.last()) {
        trim_end(s.drop_last())
    } else {
        s
    }
}

/// The sequence without surrounding whitespace.
pub open spec fn trim_spec(s: Seq<char>) -> Seq<char> {
    trim_end(trim_start(s))
}

/// The fields of a comma-separated specification, from a scan position:
/// each comma-bounded piece is trimmed, and empty pieces are dropped.
/// `start` is where the current piece began.
pub open spec fn fields_from(s: Seq<char>, start: int, j: int) -> Seq<Seq<char>>
    decreases s.len() - j,
{
    if !(0 <= start <= j <= s.len()) {
        Seq::empty()
    } else if j == s.len() {
        let t = trim_spec(s.subrange(start, j));
        if t.len() > 0 {
            seq![t]
        } else {
            Seq::empty()
        }
    } else if s[j] == ',' {
        let t = trim_spec(s.subrange(start, j));
        (if t.len() > 0 {
            seq![t]
        } else {
            Seq::empty()
        }) + fields_from(s, j + 1, j + 1)
    } else {
        fields_from(s, start, j + 1)
    }
}

/// The parsed projection fields of a comma-separated specification.
pub open spec fn fields_of(s: Seq<char>) -> Seq<Seq<char>> {
    fields_from(s, 0, 0)
}

/// Trims surrounding whitespace from a string.
#[verifier::loop_isolation(false)]
pub fn trim(s: &str) -> (r: String)
    ensures
        r@ == trim_spec(s@),
{
    let n = s.unicode_len();
    let mut a: usize = 0;
    proof {
        assert(s@.skip(0) =~= s@);
    }
    while a < n
        invariant
            a <= n,
            n == s@.len(),
            trim_start(s@) == trim_start(s@.skip(a as int)),
        decreases n - a,
    {
        let c = s.get_char(a);
        if !(c == ' ' || c == '\t' || c == '\r' || c == '\n') {
            break ;
        }
        proof {
            assert(s@.skip(a as int)[0] == s@[a as int]);
            assert(s@.skip(a as int).skip(1) =~= s@.skip(a as int + 1));
        }
        a = a + 1;
    }
    proof {
        if a < n {
            assert(s@.skip(a as int)[0] == s@[a as int]);
        }
        assert(trim_start(s@) == s@.skip(a as int));
    }
    let ghost u = s@.skip(a as int);
    let mut b: usize = n;
    proof {
        assert(u.take(n - a) =~= u);
    }
    while b > a
        invariant
            a <= b <= n,
            trim_end(u) == trim_end(u.take(b - a)),
        decreases b,
    {
        let c = s.get_char(b - 1);
        if !(c == ' ' || c == '\t' || c == '\r' || c == '\n') {
            break ;
        }
        proof {
            let t = u.take(b - a);
            assert(t.last() == u[b - a - 1]);
            assert(u[b - a - 1] == s@[b - 1]);
            assert(t.drop_last() =~= u.take(b - a - 1));
        }
        b = b - 1;
    }
    proof {
        if b > a {
            assert(u.take(b - a).last() == u[b - a - 1]);
            assert(u[b - a - 1] == s@[b - 1]);
        } else {
            assert(u.take(0).len() == 0);
        }
        assert(trim_end(u) == u.take(b - a));
    }
    let r = s.substring_char(a, b);
    proof {
        assert(r@ =~= u.take(b - a));
    }
    r.to_owned()
}

/// Parses a comma-separated projection specification: splits at commas,
/// trims whitespace, and drops empty entries.
#[verifier::loop_isolation(false)]
pub fn parse_fields(s: &str) -> (r: Vec<String>)
    ensures
        r.deep_view() == fields_of(s@),
{
    let n = s.unicode_len();
    let mut out: Vec<String> = Vec::new();
    let mut start: usize = 0;
    let mut j: usize = 0;
    proof {
        assert(out.deep_view() =~= Seq::<Seq<char>>::empty());
        assert(Seq::<Seq<char>>::empty() + fields_from(s@, 0, 0) =~= fields_from(s@, 0, 0));
    }
    while j < n
        invariant
            start <= j <= n,
            n == s@.len(),
            out.deep_view() + fields_from(s@, start as int, j as int) == fields_of(s@),
        decreases n - j,
    {
        if s.get_char(j) == ',' {
            let piece = s.substring_char(start, j);
            proof {
                assert(piece@ =~= s@.subrange(start as int, j as int));
            }
            let t = trim(piece);
            let ghost prev = out.deep_view();
            if t.as_str().unicode_len() > 0 {
                out.push(t);
                proof {
                    assert(out.deep_view() =~= prev.push(trim_spec(
                        s@.subrange(start as int, j as int),
                    )));
                }
            }
            proof {
                let tt = trim_spec(s@.subrange(start as int, j as int));
                if tt.len() > 0 {
                    assert(prev.push(tt) + fields_from(s@, j as int + 1, j as int + 1) =~= prev + (
                    seq![tt] + fields_from(s@, j as int + 1, j as int + 1)));
                } else {
                    assert(prev + (Seq::<Seq<char>>::empty() + fields_from(
                        s@,
                        j as int + 1,
                        j as int + 1,
                    )) =~= prev + fields_from(s@, j as int + 1, j as int + 1));
                }
            }
            start = j + 1;
        }
        j = j + 1;
    }
    let piece = s.substring_char(start, n);
    proof {
        assert(piece@ =~= s@.subrange(start as int, n as int));
    }
    let t = trim(piece);
    let ghost prev = out.deep_view();
    if t.as_str().unicode_len() > 0 {
        out.push(t);
        proof {
            assert(out.deep_view() =~= prev.push(trim_spec(s@.subrange(start as int, n as int))));
        }
    }
    proof {
        let tt = trim_spec(s@.subrange(start as int, n as int));
        if tt.len() > 0 {
            assert(prev.push(tt) =~= prev + seq![tt]);
            assert(out.deep_view() =~= fields_of(s@));
        } else {
            assert(prev + Seq::<Seq<char>>::empty() =~= prev);
            assert(out.deep_view() =~= fields_of(s@));
        }
    }
    out
}

/// The sort key of a sort specification: the text after one optional
/// leading dash.
pub open spec fn sort_key_of(s: Seq<char>) -> Seq<char> {
    if s.len() > 0 && s[0] == '-' {
        s.skip(1)
    } else {
        s
    }
}

/// Whether a sort specification asks for descending order: it starts with
/// a dash.
pub open spec fn sort_desc_of(s: Seq<char>) -> bool {
    s.len() > 0 && s[0] == '-'
}

/// Parses a sort specification: a leading dash selects descending order
/// and is stripped from the key.
pub fn parse_sort(s: &str) -> (r: (String, bool))
    ensures
        r.0@ == sort_key_of(s@),
        r.1 == sort_desc_of(s@),
{
    let n = s.unicode_len();
    if n > 0 && s.get_char(0) == '-' {
        let key = s.substring_char(1, n);
        proof {
            assert(key@ =~= s@.skip(1));
        }
        (key.to_owned(), true)
    } else {
        (s.to_owned(), false)
    }
}

/// The record set a pipeline run produces: the items normalized, then
/// projected when a nonempty field list was given, then stably sorted when
/// a sort key was given, then truncated when a limit was given.
pub open spec fn pipeline_spec(
    items: Seq<RawItem>,
    fields: Option<Seq<char>>,
    sortspec: Option<Seq<char>>,
    lim: Option<int>,
) -> RecordSetV {
    let rs0 = normalize_spec(items);
    let rs1 = match fields {
        Some(f) => if fields_of(f).len() > 0 {
            project_rs(rs0, fields_of(f))
        } else {
            rs0
        },
        None => rs0,
    };
    let rs2 = match sortspec {
        Some(sp) => {
            let sorted = sort_rows(rs1.rows, key_index(rs1.header, sort_key_of(sp)));
            RecordSetV {
                header: rs1.header,
                rows: if sort_desc_of(sp) {
                    sorted.reverse()
                } else {
                    sorted
                },
            }
        },
        None => rs1,
    };
    match lim {
        Some(l) => RecordSetV {
            header: rs2.header,
            rows: rs2.rows.take(
                if l <= rs2.rows.len() {
                    l
                } else {
                    rs2.rows.len() as int
                },
            ),
        },
        None => rs2,
    }
}

/// The spec view of an optional row limit.
pub open spec fn opt_usize(o: Option<usize>) -> Option<int> {
    match o {
        Some(l) => Some(l as int),
        None => None,
    }
}

/// Runs the whole pipeline over fetched items: normalize, project by the
/// comma-separated field specification, sort stably by the optional key,
/// truncate to the optional limit, and render in the chosen format.
/// Identical items and options give byte-identical text.
pub fn output_array_with_projection(
    items: &Vec<RawItem>,
    fmt: OutputFormat,
    fields: Option<&str>,
    sortspec: Option<&str>,
    lim: Option<usize>,
) -> (r: String)
    ensures
        r@ == records_text(
            pipeline_spec(items@, opt_str(fields), opt_str(sortspec), opt_usize(lim)),
            fmt,
        ),
{
    let ghost gfields = opt_str(fields);
    let ghost gsort = opt_str(sortspec);
    let mut rs = normalize(items);
    let ghost v0 = rs@;
    match fields {
        Some(f) => {
            let want = parse_fields(f);
            if want.len() > 0 {
                rs = project(&rs, &want);
            }
            proof {
                assert(want.deep_view().len() == want@.len());
            }
        },
        None => {},
    }
    let ghost v1 = rs@;
    match sortspec {
        Some(sp) => {
            let (key, desc) = parse_sort(sp);
            rs = sort_by(rs, key.as_str(), desc);
        },
        None => {},
    }
    let ghost v2 = rs@;
    proof {
        let w = pipeline_spec(items@, gfields, gsort, Option::<int>::None);
        assert(v2.header =~= w.header);
        assert(v2.rows =~= w.rows);
        assert(v2 =~= w);
    }
    match lim {
        Some(l) => {
            rs = limit(rs, l);
            proof {
                let w = pipeline_spec(items@, gfields, gsort, opt_usize(lim));
                assert(rs@.rows =~= w.rows);
                assert(rs@ =~= w);
            }
        },
        None => {},
    }
    render_records(&rs, fmt)
}

/// The rendered text of one heterogeneous value: the structured format is
/// the pretty serialization and the block format the block-style one, both
/// rendered directly; the tabular formats render an array of items through
/// the normalizer and fall back to the pretty structured form for anything
/// that is not an array.
pub open spec fn any_text(it: RawItem, fmt: OutputFormat) -> Seq<char> {
    match fmt {
        OutputFormat::Json => pretty_text(it, Seq::empty()),
        OutputFormat::Yaml => block_value_text(it),
        _ => match it {
            RawItem::Array(elems) => records_text(normalize_spec(elems@), fmt),
            _ => pretty_text(it, Seq::empty()),
        },
    }
}

/// Renders one heterogeneous value, tabulating arrays in the tabular
/// formats.
pub fn output_any(it: &RawItem, fmt: OutputFormat) -> (r: String)
    ensures
        r@ == any_text(*it, fmt),
{
    match fmt {
        OutputFormat::Json => pretty_to_string(it),
        OutputFormat::Yaml => block_value_to_string(it),
        _ => {
            match it {
                RawItem::Array(elems) => {
                    let rs = normalize(elems);
                    render_records(&rs, fmt)
                },
                _ => pretty_to_string(it),
            }
        },
    }
}

} // verus!
