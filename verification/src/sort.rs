//! The sorter: a stable reordering of rows by one string-valued key,
//! ascending or descending. Descending is the ascending sort followed by a
//! whole-sequence reversal, so ties come out in reverse input order there.

use vstd::prelude::*;

use crate::records::{RecordSet, RecordSetV};
use crate::text::{lex_le, lemma_lex_le_trans, lemma_lex_total, str_eq, str_le};

verus! {

/// The sort key of a row: the cell at the key's header position, or the
/// empty string when the key is not a header field.
pub open spec fn key_at(row: Seq<Seq<char>>, idx: Option<int>) -> Seq<char> {
    match idx {
        Some(j) => if 0 <= j < row.len() {
            row[j]
        } else {
            Seq::empty()
        },
        None => Seq::empty(),
    }
}

/// The first position of `key` in the header, from position `j` on.
pub open spec fn key_index_from(header: Seq<Seq<char>>, key: Seq<char>, j: int) -> Option<int>
    decreases header.len() - j,
{
    if j < 0 || j >= header.len() {
        None
    } else if header[j] == key {
        Some(j)
    } else {
        key_index_from(header, key, j + 1)
    }
}

/// The first position of `key` in the header, if any.
pub open spec fn key_index(header: Seq<Seq<char>>, key: Seq<char>) -> Option<int> {
    key_index_from(header, key, 0)
}

/// Rows are ordered by their sort keys.
pub open spec fn sorted_by(rows: Seq<Seq<Seq<char>>>, idx: Option<int>) -> bool {
    forall|i: int, j: int|
        0 <= i < j < rows.len() ==> lex_le(key_at(#[trigger] rows[i], idx), key_at(#[trigger] rows[j], idx))
}

/// Whether a row's sort key is exactly `k`.
pub open spec fn key_pred(idx: Option<int>, k: Seq<char>) -> spec_fn(Seq<Seq<char>>) -> bool {
    |row: Seq<Seq<char>>| key_at(row, idx) == k
}

/// Inserts a row into a sorted row sequence, after every row whose key is
/// less than or equal to its own.
pub open spec fn insert_row(
    sorted: Seq<Seq<Seq<char>>>,
    r: Seq<Seq<char>>,
    idx: Option<int>,
) -> Seq<Seq<Seq<char>>>
    decreases sorted.len(),
{
    if sorted.len() == 0 {
        seq![r]
    } else if lex_le(key_at(sorted.last(), idx), key_at(r, idx)) {
        sorted.push(r)
    } else {
        insert_row(sorted.drop_last(), r, idx).push(sorted.last())
    }
}

/// The stable ascending sort of a row sequence by the key at `idx`: rows
/// are inserted one after another, each after all rows with keys less than
/// or equal to its own.
pub open spec fn sort_rows(rows: Seq<Seq<Seq<char>>>, idx: Option<int>) -> Seq<Seq<Seq<char>>>
    decreases rows.len(),
{
    if rows.len() == 0 {
        Seq::empty()
    } else {
        insert_row(sort_rows(rows.drop_last(), idx), rows.last(), idx)
    }
}

/// Inserting adds one row.
pub proof fn lemma_insert_row_len(sorted: Seq<Seq<Seq<char>>>, r: Seq<Seq<char>>, idx: Option<int>)
    ensures
        insert_row(sorted, r, idx).len() == sorted.len() + 1,
    decreases sorted.len(),
{
    if sorted.len() > 0 && !lex_le(key_at(sorted.last(), idx), key_at(r, idx)) {
        lemma_insert_row_len(sorted.drop_last(), r, idx);
    }
}

/// The inserted sequence holds exactly the old rows and the new one.
pub proof fn lemma_insert_row_contains(
    sorted: Seq<Seq<Seq<char>>>,
    r: Seq<Seq<char>>,
    idx: Option<int>,
)
    ensures
        forall|x: Seq<Seq<char>>| #[trigger]
            insert_row(sorted, r, idx).contains(x) <==> sorted.contains(x) || x == r,
    decreases sorted.len(),
{
    let out = insert_row(sorted, r, idx);
    if sorted.len() == 0 {
        assert forall|x: Seq<Seq<char>>| #[trigger] out.contains(x) implies sorted.contains(x) || x
            == r by {
            let i = choose|i: int| 0 <= i < out.len() && out[i] == x;
        }
        assert(out[0] == r);
    } else if lex_le(key_at(sorted.last(), idx), key_at(r, idx)) {
        assert forall|x: Seq<Seq<char>>| #[trigger] out.contains(x) implies sorted.contains(x) || x
            == r by {
            let i = choose|i: int| 0 <= i < out.len() && out[i] == x;
            if i < sorted.len() {
                assert(sorted[i] == x);
            }
        }
        assert forall|x: Seq<Seq<char>>| sorted.contains(x) || x == r implies #[trigger] out.contains(
            x,
        ) by {
            if x == r {
                assert(out[sorted.len() as int] == r);
            } else {
                let i = choose|i: int| 0 <= i < sorted.len() && sorted[i] == x;
                assert(out[i] == x);
            }
        }
    } else {
        lemma_insert_row_contains(sorted.drop_last(), r, idx);
        let rec = insert_row(sorted.drop_last(), r, idx);
        assert forall|x: Seq<Seq<char>>| #[trigger] out.contains(x) implies sorted.contains(x) || x
            == r by {
            let i = choose|i: int| 0 <= i < out.len() && out[i] == x;
            if i < rec.len() {
                assert(rec.contains(x));
                if x != r {
                    let m = choose|m: int| 0 <= m < sorted.drop_last().len()
                        && sorted.drop_last()[m] == x;
                    assert(sorted[m] == x);
                }
            } else {
                assert(x == sorted.last());
                assert(sorted[sorted.len() - 1] == x);
            }
        }
        assert forall|x: Seq<Seq<char>>| sorted.contains(x) || x == r implies #[trigger] out.contains(
            x,
        ) by {
            if x == r {
                assert(rec.contains(r));
                let m = choose|m: int| 0 <= m < rec.len() && rec[m] == r;
                assert(out[m] == r);
            } else {
                let i = choose|i: int| 0 <= i < sorted.len() && sorted[i] == x;
                if i == sorted.len() - 1 {
                    lemma_insert_row_len(sorted.drop_last(), r, idx);
                    assert(out[out.len() - 1] == sorted.last());
                } else {
                    assert(sorted.drop_last()[i] == x);
                    assert(rec.contains(x));
                    let m = choose|m: int| 0 <= m < rec.len() && rec[m] == x;
                    assert(out[m] == x);
                }
            }
        }
    }
}

/// Inserting into a sorted sequence keeps it sorted.
pub proof fn lemma_insert_row_sorted(
    sorted: Seq<Seq<Seq<char>>>,
    r: Seq<Seq<char>>,
    idx: Option<int>,
)
    requires
        sorted_by(sorted, idx),
    ensures
        sorted_by(insert_row(sorted, r, idx), idx),
    decreases sorted.len(),
{
    let out = insert_row(sorted, r, idx);
    if sorted.len() == 0 {
    } else if lex_le(key_at(sorted.last(), idx), key_at(r, idx)) {
        assert forall|i: int, j: int| 0 <= i < j < out.len() implies lex_le(
            key_at(#[trigger] out[i], idx),
            key_at(#[trigger] out[j], idx),
        ) by {
            if j == sorted.len() {
                assert(out[i] == sorted[i]);
                if i < sorted.len() - 1 {
                    assert(lex_le(key_at(sorted[i], idx), key_at(sorted.last(), idx)));
                    lemma_lex_le_trans(key_at(sorted[i], idx), key_at(sorted.last(), idx), key_at(r, idx));
                }
            } else {
                assert(out[i] == sorted[i]);
                assert(out[j] == sorted[j]);
            }
        }
    } else {
        lemma_lex_total(key_at(sorted.last(), idx), key_at(r, idx));
        assert(sorted_by(sorted.drop_last(), idx)) by {
            assert forall|i: int, j: int| 0 <= i < j < sorted.drop_last().len() implies lex_le(
                key_at(#[trigger] sorted.drop_last()[i], idx),
                key_at(#[trigger] sorted.drop_last()[j], idx),
            ) by {
                assert(sorted.drop_last()[i] == sorted[i]);
                assert(sorted.drop_last()[j] == sorted[j]);
            }
        }
        lemma_insert_row_sorted(sorted.drop_last(), r, idx);
        lemma_insert_row_contains(sorted.drop_last(), r, idx);
        lemma_insert_row_len(sorted.drop_last(), r, idx);
        let rec = insert_row(sorted.drop_last(), r, idx);
        assert forall|i: int, j: int| 0 <= i < j < out.len() implies lex_le(
            key_at(#[trigger] out[i], idx),
            key_at(#[trigger] out[j], idx),
        ) by {
            if j == out.len() - 1 {
                // the last element is the old maximum, above everything in `rec`
                assert(out[j] == sorted.last());
                assert(out[i] == rec[i]);
                assert(rec.contains(rec[i]));
                if rec[i] == r {
                    // key(r) < key(last)
                } else {
                    let m = choose|m: int| 0 <= m < sorted.drop_last().len()
                        && sorted.drop_last()[m] == rec[i];
                    assert(sorted[m] == rec[i]);
                    assert(lex_le(key_at(sorted[m], idx), key_at(sorted.last(), idx)));
                }
            } else {
                assert(out[i] == rec[i]);
                assert(out[j] == rec[j]);
            }
        }
    }
}

/// Inserting a row extends the subsequence of rows with its key by exactly
/// that row, and leaves the subsequence of every other key unchanged.
pub proof fn lemma_insert_row_filter(
    sorted: Seq<Seq<Seq<char>>>,
    r: Seq<Seq<char>>,
    idx: Option<int>,
    k: Seq<char>,
)
    ensures
        insert_row(sorted, r, idx).filter(key_pred(idx, k)) == if key_at(r, idx) == k {
            sorted.filter(key_pred(idx, k)).push(r)
        } else {
            sorted.filter(key_pred(idx, k))
        },
    decreases sorted.len(),
{
    reveal(Seq::filter);
    let p = key_pred(idx, k);
    let out = insert_row(sorted, r, idx);
    if sorted.len() == 0 {
        assert(out =~= seq![r]);
        assert(out.drop_last() =~= Seq::<Seq<Seq<char>>>::empty());
        assert(sorted.filter(p) =~= Seq::<Seq<Seq<char>>>::empty());
        if p(r) {
            assert(out.filter(p) =~= sorted.filter(p).push(r));
        } else {
            assert(out.filter(p) =~= sorted.filter(p));
        }
    } else if lex_le(key_at(sorted.last(), idx), key_at(r, idx)) {
        assert(out.drop_last() =~= sorted);
        assert(out.last() == r);
    } else {
        lemma_lex_total(key_at(sorted.last(), idx), key_at(r, idx));
        lemma_insert_row_filter(sorted.drop_last(), r, idx, k);
        let rec = insert_row(sorted.drop_last(), r, idx);
        assert(out.drop_last() =~= rec);
        assert(out.last() == sorted.last());
        // keys of r and of the old maximum differ, so at most one matches k
        if p(r) {
            assert(!p(sorted.last()));
            assert(out.filter(p) == rec.filter(p));
            assert(rec.filter(p) == sorted.drop_last().filter(p).push(r));
            assert(sorted.filter(p) == sorted.drop_last().filter(p));
        } else {
            assert(rec.filter(p) == sorted.drop_last().filter(p));
            if p(sorted.last()) {
                assert(out.filter(p) == rec.filter(p).push(sorted.last()));
                assert(sorted.filter(p) == sorted.drop_last().filter(p).push(sorted.last()));
            } else {
                assert(out.filter(p) == rec.filter(p));
                assert(sorted.filter(p) == sorted.drop_last().filter(p));
            }
        }
    }
}

/// The stable sort: its result is sorted, has the same length, holds the
/// same rows, and keeps the rows of every key value in their input order.
pub proof fn lemma_sort_rows(rows: Seq<Seq<Seq<char>>>, idx: Option<int>)
    ensures
        sort_rows(rows, idx).len() == rows.len(),
        sorted_by(sort_rows(rows, idx), idx),
        forall|x: Seq<Seq<char>>| #[trigger]
            sort_rows(rows, idx).contains(x) <==> rows.contains(x),
        forall|k: Seq<char>| #[trigger]
            sort_rows(rows, idx).filter(key_pred(idx, k)) == rows.filter(key_pred(idx, k)),
    decreases rows.len(),
{
    reveal(Seq::filter);
    let out = sort_rows(rows, idx);
    if rows.len() == 0 {
        assert forall|k: Seq<char>| #[trigger]
            out.filter(key_pred(idx, k)) == rows.filter(key_pred(idx, k)) by {
            assert(out.filter(key_pred(idx, k)) =~= rows.filter(key_pred(idx, k)));
        }
    } else {
        let head = rows.drop_last();
        let last = rows.last();
        lemma_sort_rows(head, idx);
        let sorted_head = sort_rows(head, idx);
        lemma_insert_row_len(sorted_head, last, idx);
        lemma_insert_row_sorted(sorted_head, last, idx);
        lemma_insert_row_contains(sorted_head, last, idx);
        assert forall|x: Seq<Seq<char>>| #[trigger] out.contains(x) <==> rows.contains(x) by {
            if out.contains(x) {
                if x == last {
                    assert(rows[rows.len() - 1] == x);
                } else {
                    assert(head.contains(x));
                    let m = choose|m: int| 0 <= m < head.len() && head[m] == x;
                    assert(rows[m] == x);
                }
            }
            if rows.contains(x) {
                let m = choose|m: int| 0 <= m < rows.len() && rows[m] == x;
                if m == rows.len() - 1 {
                } else {
                    assert(head[m] == x);
                    assert(head.contains(x));
                }
            }
        }
        assert forall|k: Seq<char>| #[trigger]
            out.filter(key_pred(idx, k)) == rows.filter(key_pred(idx, k)) by {
            let p = key_pred(idx, k);
            lemma_insert_row_filter(sorted_head, last, idx, k);
            // unfolding the filter of `rows` itself around its last row
            assert(rows.filter(p) == if p(last) {
                head.filter(p).push(last)
            } else {
                head.filter(p)
            });
        }
    }
}

/// Stability of the ascending sort, stated for every key value `k`: the
/// subsequence of rows whose sort key equals `k` is the same, in the same
/// order, before and after sorting — rows with equal keys keep their
/// relative input order.
pub proof fn lemma_sort_stable(rows: Seq<Seq<Seq<char>>>, idx: Option<int>, k: Seq<char>)
    ensures
        sort_rows(rows, idx).filter(key_pred(idx, k)) == rows.filter(key_pred(idx, k)),
{
    lemma_sort_rows(rows, idx);
}

/// The spec-level view of an optional header position.
pub open spec fn opt_view(o: Option<usize>) -> Option<int> {
    match o {
        Some(j) => Some(j as int),
        None => None,
    }
}

/// Finds the first header position of `key`, if any.
#[verifier::loop_isolation(false)]
pub fn find_key_index(header: &Vec<String>, key: &str) -> (r: Option<usize>)
    ensures
        opt_view(r) == key_index(header.deep_view(), key@),
{
    let ghost hd = header.deep_view();
    let mut j: usize = 0;
    while j < header.len()
        invariant
            j <= header.len(),
            key_index(hd, key@) == key_index_from(hd, key@, j as int),
        decreases header.len() - j,
    {
        if str_eq(header[j].as_str(), key) {
            return Some(j);
        }
        j = j + 1;
    }
    None
}

/// The sort key of one row: the cell at the key position, or empty.
fn row_key<'a>(row: &'a Vec<String>, idx: Option<usize>) -> (r: &'a str)
    ensures
        r@ == key_at(row.deep_view(), opt_view(idx)),
{
    match idx {
        Some(j) => {
            if j < row.len() {
                row[j].as_str()
            } else {
                let e = "";
                proof {
                    reveal_strlit("");
                    assert(e@ =~= Seq::<char>::empty());
                }
                e
            }
        },
        None => {
            let e = "";
            proof {
                reveal_strlit("");
                assert(e@ =~= Seq::<char>::empty());
            }
            e
        },
    }
}

/// Finds where a row belongs in a sorted row sequence: after every row
/// whose key is less than or equal to its own.
#[verifier::loop_isolation(false)]
fn insert_pos(sorted: &Vec<Vec<String>>, row: &Vec<String>, idx: Option<usize>) -> (p: usize)
    ensures
        p <= sorted@.len(),
        insert_row(sorted.deep_view(), row.deep_view(), opt_view(idx)) == sorted.deep_view().take(
            p as int,
        ).push(row.deep_view()) + sorted.deep_view().skip(p as int),
{
    let ghost sd = sorted.deep_view();
    let ghost rowd = row.deep_view();
    let ghost g = opt_view(idx);
    let mut p: usize = sorted.len();
    proof {
        assert(sd.take(p as int) =~= sd);
        assert(sd.skip(p as int) =~= Seq::<Seq<Seq<char>>>::empty());
        assert(insert_row(sd.take(p as int), rowd, g) + sd.skip(p as int) =~= insert_row(
            sd,
            rowd,
            g,
        ));
    }
    loop
        invariant
            p <= sd.len(),
            insert_row(sd, rowd, g) == insert_row(sd.take(p as int), rowd, g) + sd.skip(p as int),
        decreases p,
    {
        if p == 0 {
            proof {
                assert(insert_row(sd.take(0), rowd, g) =~= sd.take(0).push(rowd));
            }
            return 0;
        }
        let le = str_le(row_key(&sorted[p - 1], idx), row_key(row, idx));
        proof {
            assert(sorted@[p - 1].deep_view() == sd[p - 1]);
            assert(sd.take(p as int).last() == sd[p - 1]);
        }
        if le {
            proof {
                assert(insert_row(sd.take(p as int), rowd, g) == sd.take(p as int).push(rowd));
            }
            return p;
        }
        proof {
            let t = sd.take(p as int);
            assert(t.drop_last() =~= sd.take(p as int - 1));
            assert(insert_row(t, rowd, g) == insert_row(sd.take(p as int - 1), rowd, g).push(
                sd[p - 1],
            ));
            assert(seq![sd[p - 1]] + sd.skip(p as int) =~= sd.skip(p as int - 1));
            assert(insert_row(sd.take(p as int - 1), rowd, g).push(sd[p - 1]) + sd.skip(p as int)
                =~= insert_row(sd.take(p as int - 1), rowd, g) + sd.skip(p as int - 1));
        }
        p = p - 1;
    }
}

/// Stably reorders the rows by the cell values under `key`, ascending, or,
/// when `descending` is set, the ascending order reversed — which emits
/// ties in reverse of their input order, deliberately. A key that is not a
/// header field compares every row as the empty string. Ascending, for
/// every key value the rows carrying it keep their relative input order.
#[verifier::loop_isolation(false)]
pub fn sort_by(rs: RecordSet, key: &str, descending: bool) -> (r: RecordSet)
    requires
        rs@.wf(),
    ensures
        r@.header == rs@.header,
        !descending ==> r@.rows == sort_rows(rs@.rows, key_index(rs@.header, key@)),
        descending ==> r@.rows == sort_rows(rs@.rows, key_index(rs@.header, key@)).reverse(),
        r@.rows.len() == rs@.rows.len(),
        r@.wf(),
        !descending ==> sorted_by(r@.rows, key_index(rs@.header, key@)),
        !descending ==> forall|k: Seq<char>| #[trigger]
            r@.rows.filter(key_pred(key_index(rs@.header, key@), k)) == rs@.rows.filter(
                key_pred(key_index(rs@.header, key@), k),
            ),
{
    let idx = find_key_index(&rs.header, key);
    let ghost g = opt_view(idx);
    let ghost rd = rs.rows.deep_view();
    let RecordSet { header, rows } = rs;
    let mut pending = rows;
    let mut sorted: Vec<Vec<String>> = Vec::new();
    let ghost mut i: int = 0;
    proof {
        assert(pending.deep_view() =~= rd.skip(0));
        assert(rd.take(0).len() == 0);
    }
    while pending.len() > 0
        invariant
            0 <= i <= rd.len(),
            pending.deep_view() == rd.skip(i),
            sorted.deep_view() == sort_rows(rd.take(i), g),
            sorted@.len() + pending@.len() == rd.len(),
        decreases pending.len(),
    {
        let ghost prev_sorted = sorted.deep_view();
        let ghost prev_shallow = sorted@;
        let ghost ps = pending@;
        let ghost pd = pending.deep_view();
        let row = pending.remove(0);
        proof {
            assert(i < rd.len());
            assert(pd[0] == ps[0].deep_view());
            assert(row.deep_view() == rd.skip(i)[0]);
            assert(rd.skip(i)[0] == rd[i]);
            assert forall|m: int| 0 <= m < pending@.len() implies #[trigger] pending.deep_view()[m]
                == rd.skip(i + 1)[m] by {
                assert(pending@[m] == ps.remove(0)[m]);
                assert(pending@[m] == ps[m + 1]);
                assert(pending.deep_view()[m] == pending@[m].deep_view());
                assert(pd[m + 1] == ps[m + 1].deep_view());
                assert(pd[m + 1] == rd.skip(i)[m + 1]);
                assert(rd.skip(i)[m + 1] == rd[i + 1 + m]);
                assert(rd.skip(i + 1)[m] == rd[i + 1 + m]);
            }
            assert(pending.deep_view() =~= rd.skip(i + 1));
        }
        let p = insert_pos(&sorted, &row, idx);
        sorted.insert(p, row);
        proof {
            assert(sorted@ == prev_shallow.insert(p as int, row));
            assert forall|m: int| 0 <= m < sorted@.len() implies #[trigger] sorted.deep_view()[m]
                == (prev_sorted.take(p as int).push(rd[i]) + prev_sorted.skip(p as int))[m] by {
                if m < p {
                    assert(sorted@[m] == prev_shallow[m]);
                } else if m == p {
                    assert(sorted@[m] == row);
                } else {
                    assert(sorted@[m] == prev_shallow[m - 1]);
                }
            }
            assert(sorted.deep_view() =~= prev_sorted.take(p as int).push(rd[i]) + prev_sorted.skip(
                p as int,
            ));
            assert(rd.take(i + 1).drop_last() =~= rd.take(i));
            assert(rd.take(i + 1).last() == rd[i]);
            assert(sorted.deep_view() == insert_row(sort_rows(rd.take(i), g), rd[i], g));
            assert(sort_rows(rd.take(i + 1), g) == insert_row(sort_rows(rd.take(i), g), rd[i], g));
            i = i + 1;
        }
    }
    proof {
        assert(pending@.len() == 0);
        assert(pending.deep_view().len() == 0);
        assert(rd.skip(i).len() == rd.len() - i);
        assert(i == rd.len());
        assert(rd.take(i) =~= rd);
        lemma_sort_rows(rd, g);
        assert(sorted.deep_view() == sort_rows(rd, g));
    }
    if descending {
        let ghost asc = sorted.deep_view();
        let mut rev: Vec<Vec<String>> = Vec::new();
        proof {
            assert(sorted.deep_view() =~= asc.take(asc.len() as int));
            assert(rev.deep_view() =~= asc.skip(asc.len() as int).reverse());
        }
        while sorted.len() > 0
            invariant
                sorted@.len() <= asc.len(),
                sorted.deep_view() == asc.take(sorted@.len() as int),
                rev.deep_view() == asc.skip(sorted@.len() as int).reverse(),
                rev@.len() + sorted@.len() == asc.len(),
            decreases sorted.len(),
        {
            let ghost n = sorted@.len() as int;
            let ghost prev_rev = rev.deep_view();
            let x = match sorted.pop() {
                Some(x) => x,
                None => {
                    proof {
                        assert(false);
                    }
                    Vec::new()
                },
            };
            proof {
                assert(x.deep_view() == asc.take(n)[n - 1]);
            }
            rev.push(x);
            proof {
                assert(sorted.deep_view() =~= asc.take(n - 1));
                assert(rev.deep_view() =~= prev_rev.push(asc[n - 1]));
                assert(rev.deep_view() =~= asc.skip(n - 1).reverse());
            }
        }
        proof {
            assert(asc.skip(0).reverse() =~= asc.reverse());
        }
        let r = RecordSet { header, rows: rev };
        proof {
            assert forall|m: int| 0 <= m < r@.rows.len() implies (#[trigger] r@.rows[m]).len()
                == r@.header.len() by {
                assert(r@.rows[m] == asc[asc.len() - 1 - m]);
                assert(asc.contains(asc[asc.len() - 1 - m]));
                assert(rd.contains(asc[asc.len() - 1 - m]));
                let w = choose|w: int| 0 <= w < rd.len() && rd[w] == asc[asc.len() - 1 - m];
                assert(rd == rs@.rows);
                assert(rs@.rows[w].len() == rs@.header.len());
                assert(r@.header == rs@.header);
            }
        }
        r
    } else {
        let r = RecordSet { header, rows: sorted };
        proof {
            assert forall|m: int| 0 <= m < r@.rows.len() implies (#[trigger] r@.rows[m]).len()
                == r@.header.len() by {
                assert(r@.rows.contains(r@.rows[m]));
                assert(rd.contains(r@.rows[m]));
                let w = choose|w: int| 0 <= w < rd.len() && rd[w] == r@.rows[m];
                assert(rd == rs@.rows);
                assert(rs@.rows[w].len() == rs@.header.len());
                assert(r@.header == rs@.header);
            }
        }
        r
    }
}

} // verus!
