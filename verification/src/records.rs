//! Record sets: one alphabetically ordered header shared by rows of string
//! cells, the normalizer that builds them from heterogeneous values, and the
//! projection, sorting and truncation stages of the pipeline.

use vstd::prelude::*;

use crate::text::{lex_lt, lemma_lex_lt_trans, lemma_lex_total, str_eq, str_lt};
use crate::value::{cell_text, RawItem};
use crate::value::render_value;

verus! {

/// The mathematical model of a record set: a header of field names and one
/// cell sequence per row.
pub struct RecordSetV {
    pub header: Seq<Seq<char>>,
    pub rows: Seq<Seq<Seq<char>>>,
}

impl RecordSetV {
    /// Every row has exactly one cell per header field.
    pub open spec fn wf(self) -> bool {
        forall|i: int|
            0 <= i < self.rows.len() ==> (#[trigger] self.rows[i]).len() == self.header.len()
    }
}

/// An ordered sequence of rows sharing one header; every row has exactly one
/// cell per header field, in header order.
pub struct RecordSet {
    pub header: Vec<String>,
    pub rows: Vec<Vec<String>>,
}

impl View for RecordSet {
    type V = RecordSetV;

    open spec fn view(&self) -> RecordSetV {
        RecordSetV { header: self.header.deep_view(), rows: self.rows.deep_view() }
    }
}

/// A header is strictly sorted: ascending with no duplicates.
pub open spec fn strictly_sorted(s: Seq<Seq<char>>) -> bool {
    forall|i: int, j: int| 0 <= i < j < s.len() ==> lex_lt(#[trigger] s[i], #[trigger] s[j])
}

/// The field names of an object value; other variants contribute none.
pub open spec fn object_keys(it: RawItem) -> Seq<Seq<char>> {
    match it {
        RawItem::Object(fields) => fields@.map_values(|f: (String, RawItem)| f.0@),
        _ => Seq::empty(),
    }
}

/// The value of the first field named `k`.
pub open spec fn field_value(fields: Seq<(String, RawItem)>, k: Seq<char>) -> RawItem
    decreases fields.len(),
{
    if fields.len() == 0 {
        RawItem::Null
    } else if fields[0].0@ == k {
        fields[0].1
    } else {
        field_value(fields.skip(1), k)
    }
}

/// The cell an item contributes under header field `k`: the rendered field
/// value if the item is an object with that field, the empty string otherwise.
pub open spec fn item_cell(it: RawItem, k: Seq<char>) -> Seq<char> {
    match it {
        RawItem::Object(fields) => if object_keys(it).contains(k) {
            cell_text(field_value(fields@, k))
        } else {
            Seq::empty()
        },
        _ => Seq::empty(),
    }
}

/// The row an item produces under a header.
pub open spec fn row_of(it: RawItem, header: Seq<Seq<char>>) -> Seq<Seq<char>> {
    header.map_values(|k: Seq<char>| item_cell(it, k))
}

/// Inserts a key into a sorted header, keeping it sorted and duplicate-free.
pub open spec fn insert_key(hdr: Seq<Seq<char>>, k: Seq<char>) -> Seq<Seq<char>>
    decreases hdr.len(),
{
    if hdr.len() == 0 {
        seq![k]
    } else if hdr[0] == k {
        hdr
    } else if lex_lt(k, hdr[0]) {
        seq![k] + hdr
    } else {
        seq![hdr[0]] + insert_key(hdr.skip(1), k)
    }
}

/// Inserts the keys `ks[i..]` in order.
pub open spec fn insert_keys(hdr: Seq<Seq<char>>, ks: Seq<Seq<char>>, i: int) -> Seq<Seq<char>>
    decreases ks.len() - i,
{
    if i < 0 || i >= ks.len() {
        hdr
    } else {
        insert_keys(insert_key(hdr, ks[i]), ks, i + 1)
    }
}

/// The header accumulated from the object keys of `items[i..]`, starting
/// from `hdr`.
pub open spec fn header_from(hdr: Seq<Seq<char>>, items: Seq<RawItem>, i: int) -> Seq<Seq<char>>
    decreases items.len() - i,
{
    if i < 0 || i >= items.len() {
        hdr
    } else {
        header_from(insert_keys(hdr, object_keys(items[i]), 0), items, i + 1)
    }
}

/// The header of a normalized item sequence: the sorted union of the keys
/// of all object items.
pub open spec fn header_of(items: Seq<RawItem>) -> Seq<Seq<char>> {
    header_from(Seq::empty(), items, 0)
}

/// The whole normalized record set of an item sequence.
pub open spec fn normalize_spec(items: Seq<RawItem>) -> RecordSetV {
    RecordSetV {
        header: header_of(items),
        rows: items.map_values(|it: RawItem| row_of(it, header_of(items))),
    }
}

/// Inserting one key keeps a header sorted, and adds exactly that key to
/// its contents.
pub proof fn lemma_insert_key(hdr: Seq<Seq<char>>, k: Seq<char>)
    requires
        strictly_sorted(hdr),
    ensures
        strictly_sorted(insert_key(hdr, k)),
        forall|x: Seq<char>| #[trigger]
            insert_key(hdr, k).contains(x) <==> hdr.contains(x) || x == k,
    decreases hdr.len(),
{
    let out = insert_key(hdr, k);
    if hdr.len() == 0 {
        assert(out =~= seq![k]);
        assert(out.contains(k)) by {
            assert(out[0] == k);
        }
        assert forall|x: Seq<char>| #[trigger] out.contains(x) implies hdr.contains(x) || x == k by {
            let i = choose|i: int| 0 <= i < out.len() && out[i] == x;
            assert(i == 0);
        }
    } else if hdr[0] == k {
        assert(hdr.contains(k)) by {
            assert(hdr[0] == k);
        }
    } else if lex_lt(k, hdr[0]) {
        assert forall|i: int, j: int| 0 <= i < j < out.len() implies lex_lt(
            #[trigger] out[i],
            #[trigger] out[j],
        ) by {
            if i == 0 {
                assert(out[j] == hdr[j - 1]);
                if j > 1 {
                    assert(lex_lt(hdr[0], hdr[j - 1]));
                    lemma_lex_lt_trans(k, hdr[0], hdr[j - 1]);
                }
            } else {
                assert(out[i] == hdr[i - 1]);
                assert(out[j] == hdr[j - 1]);
            }
        }
        assert forall|x: Seq<char>| #[trigger] out.contains(x) implies hdr.contains(x) || x == k by {
            let i = choose|i: int| 0 <= i < out.len() && out[i] == x;
            if i > 0 {
                assert(hdr[i - 1] == x);
            }
        }
        assert forall|x: Seq<char>| hdr.contains(x) || x == k implies #[trigger] out.contains(x) by {
            if x == k {
                assert(out[0] == k);
            } else {
                let i = choose|i: int| 0 <= i < hdr.len() && hdr[i] == x;
                assert(out[i + 1] == x);
            }
        }
    } else {
        // here k != hdr[0] and !lex_lt(k, hdr[0]), so hdr[0] comes first
        lemma_lex_total(k, hdr[0]);
        let tail = hdr.skip(1);
        assert(strictly_sorted(tail)) by {
            assert forall|i: int, j: int| 0 <= i < j < tail.len() implies lex_lt(
                #[trigger] tail[i],
                #[trigger] tail[j],
            ) by {
                assert(tail[i] == hdr[i + 1]);
                assert(tail[j] == hdr[j + 1]);
            }
        }
        lemma_insert_key(tail, k);
        let rec = insert_key(tail, k);
        assert(out =~= seq![hdr[0]] + rec);
        assert forall|i: int, j: int| 0 <= i < j < out.len() implies lex_lt(
            #[trigger] out[i],
            #[trigger] out[j],
        ) by {
            if i == 0 {
                assert(out[j] == rec[j - 1]);
                assert(rec.contains(rec[j - 1]));
                if rec[j - 1] == k {
                    // hdr[0] < k directly
                } else {
                    assert(tail.contains(rec[j - 1]));
                    let m = choose|m: int| 0 <= m < tail.len() && tail[m] == rec[j - 1];
                    assert(tail[m] == hdr[m + 1]);
                    assert(lex_lt(hdr[0], hdr[m + 1]));
                }
            } else {
                assert(out[i] == rec[i - 1]);
                assert(out[j] == rec[j - 1]);
            }
        }
        assert forall|x: Seq<char>| #[trigger] out.contains(x) implies hdr.contains(x) || x == k by {
            let i = choose|i: int| 0 <= i < out.len() && out[i] == x;
            if i == 0 {
                assert(hdr[0] == x);
            } else {
                assert(rec.contains(rec[i - 1]));
                if rec[i - 1] != k {
                    assert(tail.contains(rec[i - 1]));
                    let m = choose|m: int| 0 <= m < tail.len() && tail[m] == x;
                    assert(hdr[m + 1] == x);
                }
            }
        }
        assert forall|x: Seq<char>| hdr.contains(x) || x == k implies #[trigger] out.contains(x) by {
            if x == k {
                assert(rec.contains(k));
                let m = choose|m: int| 0 <= m < rec.len() && rec[m] == k;
                assert(out[m + 1] == k);
            } else {
                let i = choose|i: int| 0 <= i < hdr.len() && hdr[i] == x;
                if i == 0 {
                    assert(out[0] == x);
                } else {
                    assert(tail[i - 1] == x);
                    assert(tail.contains(x));
                    assert(rec.contains(x));
                    let m = choose|m: int| 0 <= m < rec.len() && rec[m] == x;
                    assert(out[m + 1] == x);
                }
            }
        }
    }
}

/// Inserting a key sequence keeps a header sorted and adds exactly those keys.
pub proof fn lemma_insert_keys(hdr: Seq<Seq<char>>, ks: Seq<Seq<char>>, j: int)
    requires
        strictly_sorted(hdr),
        0 <= j <= ks.len(),
    ensures
        strictly_sorted(insert_keys(hdr, ks, j)),
        forall|x: Seq<char>| #[trigger]
            insert_keys(hdr, ks, j).contains(x) <==> hdr.contains(x) || exists|m: int|
                j <= m < ks.len() && ks[m] == x,
    decreases ks.len() - j,
{
    if j == ks.len() {
    } else {
        lemma_insert_key(hdr, ks[j]);
        lemma_insert_keys(insert_key(hdr, ks[j]), ks, j + 1);
        let out = insert_keys(hdr, ks, j);
        assert forall|x: Seq<char>| #[trigger]
            out.contains(x) implies hdr.contains(x) || exists|m: int|
            j <= m < ks.len() && ks[m] == x by {
            if !hdr.contains(x) {
                if insert_key(hdr, ks[j]).contains(x) {
                    assert(ks[j] == x);
                } else {
                    let m = choose|m: int| j + 1 <= m < ks.len() && ks[m] == x;
                    assert(j <= m < ks.len() && ks[m] == x);
                }
            }
        }
        assert forall|x: Seq<char>|
            hdr.contains(x) || exists|m: int| j <= m < ks.len() && ks[m] == x implies #[trigger]
            out.contains(x) by {
            if !hdr.contains(x) {
                let m = choose|m: int| j <= m < ks.len() && ks[m] == x;
                if m == j {
                    assert(insert_key(hdr, ks[j]).contains(x));
                }
            }
        }
    }
}

/// Accumulating headers over items keeps them sorted, and the result holds
/// exactly the starting keys plus every object key of the remaining items.
pub proof fn lemma_header_from(hdr: Seq<Seq<char>>, items: Seq<RawItem>, i: int)
    requires
        strictly_sorted(hdr),
        0 <= i <= items.len(),
    ensures
        strictly_sorted(header_from(hdr, items, i)),
        forall|x: Seq<char>| #[trigger]
            header_from(hdr, items, i).contains(x) <==> hdr.contains(x) || exists|m: int|
                i <= m < items.len() && object_keys(items[m]).contains(x),
    decreases items.len() - i,
{
    if i == items.len() {
    } else {
        let ks = object_keys(items[i]);
        lemma_insert_keys(hdr, ks, 0);
        lemma_header_from(insert_keys(hdr, ks, 0), items, i + 1);
        let out = header_from(hdr, items, i);
        assert forall|x: Seq<char>| #[trigger]
            out.contains(x) implies hdr.contains(x) || exists|m: int|
            i <= m < items.len() && object_keys(items[m]).contains(x) by {
            if !hdr.contains(x) {
                if insert_keys(hdr, ks, 0).contains(x) {
                    assert(ks.contains(x));
                    assert(object_keys(items[i]).contains(x));
                } else {
                    let m = choose|m: int|
                        i + 1 <= m < items.len() && object_keys(items[m]).contains(x);
                    assert(i <= m < items.len() && object_keys(items[m]).contains(x));
                }
            }
        }
        assert forall|x: Seq<char>|
            hdr.contains(x) || exists|m: int|
                i <= m < items.len() && object_keys(items[m]).contains(x) implies #[trigger]
            out.contains(x) by {
            if !hdr.contains(x) {
                let m = choose|m: int| i <= m < items.len() && object_keys(items[m]).contains(x);
                if m == i {
                    let mi = choose|mi: int| 0 <= mi < ks.len() && ks[mi] == x;
                    assert(insert_keys(hdr, ks, 0).contains(x));
                }
            }
        }
    }
}

/// Inserts one field name into a sorted, duplicate-free header.
#[verifier::loop_isolation(false)]
fn header_insert(hdr: &mut Vec<String>, k: &String)
    ensures
        final(hdr).deep_view() == insert_key(old(hdr).deep_view(), k@),
{
    let ghost d = hdr.deep_view();
    let mut j: usize = 0;
    proof {
        assert(d.skip(0) =~= d);
        assert(d.take(0) + insert_key(d.skip(0), k@) =~= insert_key(d, k@));
    }
    loop
        invariant
            j <= hdr.len(),
            hdr.deep_view() == d,
            insert_key(d, k@) == d.take(j as int) + insert_key(d.skip(j as int), k@),
        decreases hdr.len() - j,
    {
        if j >= hdr.len() {
            proof {
                assert(d.skip(j as int).len() == 0);
                assert(insert_key(d.skip(j as int), k@) =~= seq![k@]);
            }
            hdr.push(k.clone());
            proof {
                assert(hdr.deep_view() =~= d.take(j as int) + seq![k@]);
            }
            return ;
        }
        let cur = &hdr[j];
        proof {
            assert(d.skip(j as int)[0] == d[j as int]);
            assert(d[j as int] == cur@);
        }
        if str_eq(cur.as_str(), k.as_str()) {
            proof {
                assert(insert_key(d.skip(j as int), k@) == d.skip(j as int));
                assert(d.take(j as int) + d.skip(j as int) =~= d);
            }
            return ;
        }
        if str_lt(k.as_str(), cur.as_str()) {
            hdr.insert(j, k.clone());
            proof {
                assert(insert_key(d.skip(j as int), k@) == seq![k@] + d.skip(j as int));
                assert(hdr.deep_view() =~= d.take(j as int) + (seq![k@] + d.skip(j as int)));
            }
            return ;
        }
        proof {
            assert(insert_key(d.skip(j as int), k@) == seq![d[j as int]] + insert_key(
                d.skip(j as int).skip(1),
                k@,
            ));
            assert(d.skip(j as int).skip(1) =~= d.skip(j as int + 1));
            assert(d.take(j as int) + (seq![d[j as int]] + insert_key(d.skip(j as int + 1), k@))
                =~= d.take(j as int + 1) + insert_key(d.skip(j as int + 1), k@));
        }
        j = j + 1;
    }
}

/// Computes the header of an item sequence: the sorted union of the keys
/// of all object items.
#[verifier::loop_isolation(false)]
fn compute_header(items: &Vec<RawItem>) -> (hdr: Vec<String>)
    ensures
        hdr.deep_view() == header_of(items@),
{
    let mut hdr: Vec<String> = Vec::new();
    proof {
        assert(hdr.deep_view() =~= Seq::<Seq<char>>::empty());
    }
    let mut i: usize = 0;
    while i < items.len()
        invariant
            i <= items.len(),
            header_of(items@) == header_from(hdr.deep_view(), items@, i as int),
        decreases items.len() - i,
    {
        match &items[i] {
            RawItem::Object(fields) => {
                let ghost ks = object_keys(items@[i as int]);
                let ghost start = hdr.deep_view();
                let mut j: usize = 0;
                while j < fields.len()
                    invariant
                        j <= fields.len(),
                        ks == object_keys(items@[i as int]),
                        ks.len() == fields@.len(),
                        forall|m: int| 0 <= m < ks.len() ==> ks[m] == fields@[m].0@,
                        insert_keys(hdr.deep_view(), ks, j as int) == insert_keys(start, ks, 0),
                    decreases fields.len() - j,
                {
                    header_insert(&mut hdr, &fields[j].0);
                    j = j + 1;
                }
                proof {
                    assert(hdr.deep_view() == insert_keys(start, ks, 0));
                }
            },
            _ => {
                proof {
                    assert(object_keys(items@[i as int]) =~= Seq::<Seq<char>>::empty());
                    assert(insert_keys(hdr.deep_view(), object_keys(items@[i as int]), 0)
                        == hdr.deep_view());
                }
            },
        }
        i = i + 1;
    }
    hdr
}

/// Whether some field of an object is named `k`.
pub open spec fn has_field(fields: Seq<(String, RawItem)>, k: Seq<char>) -> bool {
    exists|m: int| 0 <= m < fields.len() && (#[trigger] fields[m]).0@ == k
}

/// Looks up field `k` of an object and renders its value; an absent field
/// renders as the empty string.
#[verifier::loop_isolation(false)]
fn field_cell(fields: &Vec<(String, RawItem)>, k: &String) -> (r: String)
    ensures
        r@ == if has_field(fields@, k@) {
            cell_text(field_value(fields@, k@))
        } else {
            Seq::<char>::empty()
        },
{
    let mut i: usize = 0;
    proof {
        assert(fields@.skip(0) =~= fields@);
    }
    loop
        invariant
            i <= fields.len(),
            forall|m: int| 0 <= m < i ==> (#[trigger] fields@[m]).0@ != k@,
            field_value(fields@, k@) == field_value(fields@.skip(i as int), k@),
        decreases fields.len() - i,
    {
        if i >= fields.len() {
            proof {
                assert(!has_field(fields@, k@));
            }
            return String::new();
        }
        proof {
            assert(fields@.skip(i as int)[0] == fields@[i as int]);
        }
        if str_eq(fields[i].0.as_str(), k.as_str()) {
            let r = render_value(&fields[i].1);
            proof {
                assert(field_value(fields@.skip(i as int), k@) == fields@[i as int].1);
                assert(has_field(fields@, k@)) by {
                    assert(fields@[i as int].0@ == k@);
                }
            }
            return r;
        }
        proof {
            assert(fields@.skip(i as int).skip(1) =~= fields@.skip(i as int + 1));
        }
        i = i + 1;
    }
}

/// Builds the row an item produces under a header: one cell per header
/// field, in header order.
#[verifier::loop_isolation(false)]
fn build_row(it: &RawItem, header: &Vec<String>) -> (row: Vec<String>)
    ensures
        row.deep_view() == row_of(*it, header.deep_view()),
{
    let ghost hd = header.deep_view();
    let mut row: Vec<String> = Vec::new();
    let mut j: usize = 0;
    while j < header.len()
        invariant
            j <= header.len(),
            hd == header.deep_view(),
            row.deep_view() =~= row_of(*it, hd.take(j as int)),
        decreases header.len() - j,
    {
        let cell = match it {
            RawItem::Object(fields) => {
                let c = field_cell(fields, &header[j]);
                proof {
                    assert(object_keys(*it).contains(hd[j as int]) == has_field(
                        fields@,
                        hd[j as int],
                    )) by {
                        let ghost hk = hd[j as int];
                        if has_field(fields@, hk) {
                            let m = choose|m: int|
                                0 <= m < fields@.len() && (#[trigger] fields@[m]).0@ == hk;
                            assert(object_keys(*it)[m] == hk);
                        }
                        if object_keys(*it).contains(hk) {
                            let m = choose|m: int|
                                0 <= m < object_keys(*it).len() && object_keys(*it)[m] == hk;
                            assert(fields@[m].0@ == hk);
                        }
                    }
                    assert(c@ == item_cell(*it, hd[j as int]));
                }
                c
            },
            _ => {
                proof {
                    assert(item_cell(*it, hd[j as int]) =~= Seq::<char>::empty());
                }
                String::new()
            },
        };
        let ghost prev = row.deep_view();
        row.push(cell);
        proof {
            assert(row.deep_view() =~= prev.push(cell@));
            assert(row.deep_view() =~= row_of(*it, hd.take(j as int + 1)));
        }
        j = j + 1;
    }
    proof {
        assert(hd.take(header@.len() as int) =~= hd);
    }
    row
}

/// Normalizes a sequence of heterogeneous items into a record set: the
/// header is the sorted union of all object keys, every item produces one
/// row with one cell per header field, and a missing field is the empty
/// string. Identical input always yields identical output.
#[verifier::loop_isolation(false)]
pub fn normalize(items: &Vec<RawItem>) -> (r: RecordSet)
    ensures
        r@.header == header_of(items@),
        strictly_sorted(r@.header),
        forall|x: Seq<char>| #[trigger]
            r@.header.contains(x) <==> exists|m: int|
                0 <= m < items@.len() && object_keys(items@[m]).contains(x),
        r@.rows.len() == items@.len(),
        forall|i: int| 0 <= i < items@.len() ==> #[trigger] r@.rows[i] == row_of(
            items@[i],
            r@.header,
        ),
        r@.wf(),
        r@ == normalize_spec(items@),
{
    let header = compute_header(items);
    proof {
        lemma_header_from(Seq::empty(), items@, 0);
    }
    let mut rows: Vec<Vec<String>> = Vec::new();
    let mut i: usize = 0;
    while i < items.len()
        invariant
            i <= items.len(),
            header.deep_view() == header_of(items@),
            rows@.len() == i,
            forall|m: int| 0 <= m < i ==> #[trigger] rows.deep_view()[m] == row_of(
                items@[m],
                header.deep_view(),
            ),
        decreases items.len() - i,
    {
        let row = build_row(&items[i], &header);
        let ghost prev = rows.deep_view();
        rows.push(row);
        proof {
            assert(rows.deep_view() =~= prev.push(row.deep_view()));
        }
        i = i + 1;
    }
    let r = RecordSet { header, rows };
    proof {
        assert forall|i: int| 0 <= i < r@.rows.len() implies (#[trigger] r@.rows[i]).len()
            == r@.header.len() by {
            assert(r@.rows[i] == row_of(items@[i], r@.header));
        }
        assert(r@.rows =~= normalize_spec(items@).rows);
        assert(r@ =~= normalize_spec(items@));
    }
    r
}

/// Keeps the first `min(len, n)` rows: the result is that long and is a
/// prefix of the input; the header is unchanged.
pub fn limit(rs: RecordSet, n: usize) -> (r: RecordSet)
    ensures
        r@.header == rs@.header,
        r@.rows.len() == if n <= rs@.rows.len() {
            n as int
        } else {
            rs@.rows.len() as int
        },
        r@.rows == rs@.rows.take(r@.rows.len() as int),
        rs@.wf() ==> r@.wf(),
{
    let RecordSet { header, mut rows } = rs;
    rows.truncate(n);
    let r = RecordSet { header, rows };
    proof {
        assert(r@.rows =~= rs@.rows.take(r@.rows.len() as int));
    }
    r
}

} // verus!


verus! {

/// The cells of `row` whose header field is among the wanted fields, in
/// header order. Projecting the header by itself gives the projected header.
pub open spec fn project_cells(
    header: Seq<Seq<char>>,
    row: Seq<Seq<char>>,
    want: Seq<Seq<char>>,
) -> Seq<Seq<char>>
    decreases header.len(),
{
    if header.len() == 0 || row.len() == 0 {
        Seq::empty()
    } else {
        let rest = project_cells(header.skip(1), row.skip(1), want);
        if want.contains(header[0]) {
            seq![row[0]] + rest
        } else {
            rest
        }
    }
}

/// The projection of a whole record set: the header keeps the wanted
/// fields in original header order, and every row keeps the matching cells.
pub open spec fn project_rs(v: RecordSetV, want: Seq<Seq<char>>) -> RecordSetV {
    RecordSetV {
        header: project_cells(v.header, v.header, want),
        rows: v.rows.map_values(|r: Seq<Seq<char>>| project_cells(v.header, r, want)),
    }
}

/// Rows of equal length project to rows of equal length.
pub proof fn lemma_project_cells_len(
    header: Seq<Seq<char>>,
    a: Seq<Seq<char>>,
    b: Seq<Seq<char>>,
    want: Seq<Seq<char>>,
)
    requires
        a.len() == header.len(),
        b.len() == header.len(),
    ensures
        project_cells(header, a, want).len() == project_cells(header, b, want).len(),
    decreases header.len(),
{
    if header.len() > 0 {
        lemma_project_cells_len(header.skip(1), a.skip(1), b.skip(1), want);
    }
}

/// Every field of a projected header is a wanted field.
pub proof fn lemma_project_header_wanted(header: Seq<Seq<char>>, want: Seq<Seq<char>>)
    ensures
        forall|j: int|
            0 <= j < project_cells(header, header, want).len() ==> want.contains(
                #[trigger] project_cells(header, header, want)[j],
            ),
    decreases header.len(),
{
    if header.len() > 0 {
        lemma_project_header_wanted(header.skip(1), want);
        let rest = project_cells(header.skip(1), header.skip(1), want);
        let out = project_cells(header, header, want);
        if want.contains(header[0]) {
            assert forall|j: int| 0 <= j < out.len() implies want.contains(#[trigger] out[j]) by {
                if j == 0 {
                    assert(out[0] == header[0]);
                } else {
                    assert(out[j] == rest[j - 1]);
                }
            }
        } else {
            assert forall|j: int| 0 <= j < out.len() implies want.contains(#[trigger] out[j]) by {
                assert(out[j] == rest[j]);
            }
        }
    }
}

/// Projecting onto fields that are all wanted changes nothing.
pub proof fn lemma_project_all_wanted(
    header: Seq<Seq<char>>,
    row: Seq<Seq<char>>,
    want: Seq<Seq<char>>,
)
    requires
        row.len() == header.len(),
        forall|j: int| 0 <= j < header.len() ==> want.contains(#[trigger] header[j]),
    ensures
        project_cells(header, row, want) == row,
    decreases header.len(),
{
    if header.len() == 0 {
        assert(project_cells(header, row, want) =~= row);
    } else {
        assert(want.contains(header[0]));
        assert forall|j: int| 0 <= j < header.skip(1).len() implies want.contains(
            #[trigger] header.skip(1)[j],
        ) by {
            assert(header.skip(1)[j] == header[j + 1]);
        }
        lemma_project_all_wanted(header.skip(1), row.skip(1), want);
        assert(project_cells(header, row, want) =~= row);
    }
}

/// Projecting twice with the same field set equals projecting once: the
/// projection is idempotent.
pub proof fn lemma_project_idempotent(v: RecordSetV, want: Seq<Seq<char>>)
    requires
        v.wf(),
    ensures
        project_rs(project_rs(v, want), want) == project_rs(v, want),
{
    let once = project_rs(v, want);
    let h1 = once.header;
    lemma_project_header_wanted(v.header, want);
    lemma_project_all_wanted(h1, h1, want);
    assert forall|i: int| 0 <= i < once.rows.len() implies #[trigger] project_rs(once, want).rows[i]
        == once.rows[i] by {
        let r1 = once.rows[i];
        assert(r1 == project_cells(v.header, v.rows[i], want));
        lemma_project_cells_len(v.header, v.rows[i], v.header, want);
        lemma_project_all_wanted(h1, r1, want);
    }
    assert(project_rs(once, want).rows =~= once.rows);
    assert(project_rs(once, want) =~= once);
}

/// Whether some string of `v` has the characters of `s`.
#[verifier::loop_isolation(false)]
pub fn contains_str(v: &Vec<String>, s: &str) -> (r: bool)
    ensures
        r == v.deep_view().contains(s@),
{
    let mut i: usize = 0;
    while i < v.len()
        invariant
            i <= v.len(),
            forall|m: int| 0 <= m < i ==> v.deep_view()[m] != s@,
        decreases v.len() - i,
    {
        if str_eq(v[i].as_str(), s) {
            proof {
                assert(v.deep_view()[i as int] == s@);
            }
            return true;
        }
        i = i + 1;
    }
    proof {
        if v.deep_view().contains(s@) {
            let m = choose|m: int| 0 <= m < v.deep_view().len() && v.deep_view()[m] == s@;
            assert(v.deep_view()[m] != s@);
        }
    }
    false
}

/// Keeps the cells of `row` whose header field is wanted.
#[verifier::loop_isolation(false)]
fn project_row(header: &Vec<String>, row: &Vec<String>, fields: &Vec<String>) -> (out: Vec<String>)
    requires
        row@.len() == header@.len(),
    ensures
        out.deep_view() == project_cells(header.deep_view(), row.deep_view(), fields.deep_view()),
{
    let ghost hd = header.deep_view();
    let ghost rd = row.deep_view();
    let ghost w = fields.deep_view();
    let mut out: Vec<String> = Vec::new();
    let mut j: usize = 0;
    proof {
        assert(hd.skip(0) =~= hd);
        assert(rd.skip(0) =~= rd);
        assert(out.deep_view() =~= Seq::<Seq<char>>::empty());
        assert(Seq::<Seq<char>>::empty() + project_cells(hd, rd, w) =~= project_cells(hd, rd, w));
    }
    while j < header.len()
        invariant
            j <= header.len(),
            project_cells(hd, rd, w) == out.deep_view() + project_cells(
                hd.skip(j as int),
                rd.skip(j as int),
                w,
            ),
        decreases header.len() - j,
    {
        let ghost prev = out.deep_view();
        proof {
            assert(hd.skip(j as int)[0] == hd[j as int]);
            assert(rd.skip(j as int)[0] == rd[j as int]);
            assert(hd.skip(j as int).skip(1) =~= hd.skip(j as int + 1));
            assert(rd.skip(j as int).skip(1) =~= rd.skip(j as int + 1));
        }
        if contains_str(fields, header[j].as_str()) {
            out.push(row[j].clone());
            proof {
                assert(out.deep_view() =~= prev.push(rd[j as int]));
                assert(prev.push(rd[j as int]) + project_cells(
                    hd.skip(j as int + 1),
                    rd.skip(j as int + 1),
                    w,
                ) =~= prev + (seq![rd[j as int]] + project_cells(
                    hd.skip(j as int + 1),
                    rd.skip(j as int + 1),
                    w,
                )));
            }
        }
        j = j + 1;
    }
    proof {
        assert(hd.skip(header@.len() as int).len() == 0);
        assert(out.deep_view() + Seq::<Seq<char>>::empty() =~= out.deep_view());
    }
    out
}

/// Restricts a record set to the requested fields: the result header is
/// the wanted subset of the header in original header order, and every row
/// keeps exactly the matching cells. A requested field absent from the
/// header is silently dropped.
#[verifier::loop_isolation(false)]
pub fn project(rs: &RecordSet, fields: &Vec<String>) -> (r: RecordSet)
    requires
        rs@.wf(),
    ensures
        r@ == project_rs(rs@, fields.deep_view()),
        r@.wf(),
{
    let ghost w = fields.deep_view();
    let header = project_row(&rs.header, &rs.header, fields);
    let mut rows: Vec<Vec<String>> = Vec::new();
    let mut i: usize = 0;
    while i < rs.rows.len()
        invariant
            i <= rs.rows.len(),
            rows@.len() == i,
            forall|m: int| 0 <= m < i ==> #[trigger] rows.deep_view()[m] == project_cells(
                rs@.header,
                rs@.rows[m],
                w,
            ),
        decreases rs.rows.len() - i,
    {
        proof {
            assert(rs@.rows[i as int] == rs.rows@[i as int].deep_view());
            assert(rs.rows@[i as int]@.len() == rs@.rows[i as int].len());
            assert(rs@.rows[i as int].len() == rs@.header.len());
            assert(rs@.header.len() == rs.header@.len());
        }
        let row = project_row(&rs.header, &rs.rows[i], fields);
        let ghost prev = rows.deep_view();
        rows.push(row);
        proof {
            assert(rows.deep_view() =~= prev.push(row.deep_view()));
        }
        i = i + 1;
    }
    let r = RecordSet { header, rows };
    proof {
        assert(r@.rows =~= project_rs(rs@, w).rows);
        assert(r@ =~= project_rs(rs@, w));
        assert forall|i: int| 0 <= i < r@.rows.len() implies (#[trigger] r@.rows[i]).len()
            == r@.header.len() by {
            lemma_project_cells_len(rs@.header, rs@.rows[i], rs@.header, w);
        }
    }
    r
}

} // verus!
