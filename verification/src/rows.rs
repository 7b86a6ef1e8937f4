//! Rows by id: lists of ids and records kept in ascending order.

use vstd::prelude::*;
use crate::assoc::{
    distinct_keys, find, lemma_find_absent, lemma_find_at, lemma_find_insert, lemma_find_remove,
    lemma_find_removed, lemma_find_update,
};
use crate::caches::{rows_model, Rows};
use crate::record::{Record, RecordModel};

verus! {

/// Rows as they are meant.
pub type RowsModel = Seq<(u64, RecordModel)>;

/// Whether ids ascend, none twice.
pub open spec fn ascending(rows: RowsModel) -> bool {
    forall|i: int, j: int|
        #![trigger rows[i], rows[j]]
        0 <= i < j < rows.len() ==> rows[i].0 < rows[j].0
}

/// What the last row of an id holds.
pub open spec fn find_last(rows: RowsModel, id: u64) -> Option<RecordModel>
    decreases rows.len(),
{
    if rows.len() == 0 {
        None
    } else if rows.last().0 == id {
        Some(rows.last().1)
    } else {
        find_last(rows.drop_last(), id)
    }
}

pub proof fn lemma_ascending_distinct(rows: RowsModel)
    requires
        ascending(rows),
    ensures
        distinct_keys(rows),
{
}

/// In ascending rows there is one row of an id at most.
pub proof fn lemma_find_last_ascending(rows: RowsModel, id: u64)
    requires
        ascending(rows),
    ensures
        find_last(rows, id) == find(rows, id),
    decreases rows.len(),
{
    if rows.len() > 0 {
        let rest = rows.drop_last();
        let n = rows.len() - 1;
        assert(rows =~= rest.insert(n, rows.last()));
        if rows.last().0 == id {
            assert forall|j: int| 0 <= j < n implies (#[trigger] rows[j]).0 != id by {}
            lemma_find_at(rows, id, n);
        } else {
            lemma_find_last_ascending(rest, id);
            lemma_find_insert(rest, n, rows.last(), id);
        }
    }
}

/// Put a row where its id belongs, in place of the one that has it.
pub fn put_row(rows: &mut Rows, id: u64, rec: Record)
    requires
        ascending(rows_model(old(rows)@)),
    ensures
        ascending(rows_model(final(rows)@)),
        find(rows_model(final(rows)@), id) == Some(rec.model()),
        forall|other: u64|
            other != id ==> #[trigger] find(rows_model(final(rows)@), other) == find(
                rows_model(old(rows)@),
                other,
            ),
{
    let ghost before = rows_model(rows@);
    let ghost r = rec.model();
    let mut at: usize = rows.len();
    while at > 0 && rows[at - 1].0 > id
        invariant
            at <= rows.len(),
            rows@ == old(rows)@,
            before == rows_model(rows@),
            forall|k: int| at <= k < before.len() ==> (#[trigger] before[k]).0 > id,
        decreases at,
    {
        assert(before[at - 1].0 == rows@[at - 1].0);
        at -= 1;
    }
    proof {
        if at > 0 {
            assert(before[at - 1].0 == rows@[at - 1].0);
        }
    }
    if at > 0 && rows[at - 1].0 == id {
        let i: usize = at - 1;
        rows.set(i, (id, rec));
        let ghost after = before.update(i as int, (id, r));
        assert(rows_model(rows@) =~= after);
        proof {
            assert forall|a: int, b: int| 0 <= a < b < after.len() implies (#[trigger] after[a]).0
                < (#[trigger] after[b]).0 by {
                assert(after[a].0 == before[a].0 && after[b].0 == before[b].0);
            }
            assert forall|j: int| 0 <= j < i implies (#[trigger] after[j]).0 != id by {
                assert(after[j] == before[j]);
            }
            lemma_find_at(after, id, i as int);
            assert forall|other: u64| other != id implies #[trigger] find(after, other) == find(
                before,
                other,
            ) by {
                lemma_find_update(before, i as int, r, other);
            }
        }
    } else {
        rows.insert(at, (id, rec));
        let ghost after = before.insert(at as int, (id, r));
        assert(rows_model(rows@) =~= after);
        proof {
            assert forall|a: int, b: int| 0 <= a < b < after.len() implies (#[trigger] after[a]).0
                < (#[trigger] after[b]).0 by {
                if b == at {
                    assert(after[a] == before[a]);
                } else if a == at {
                    assert(after[b] == before[b - 1]);
                } else {
                    let x = if a < at { a } else { a - 1 };
                    let y = if b < at { b } else { b - 1 };
                    assert(after[a] == before[x] && after[b] == before[y]);
                }
            }
            assert forall|j: int| 0 <= j < at implies (#[trigger] after[j]).0 != id by {
                assert(after[j] == before[j]);
            }
            lemma_find_at(after, id, at as int);
            assert forall|other: u64| other != id implies #[trigger] find(after, other) == find(
                before,
                other,
            ) by {
                lemma_find_insert(before, at as int, (id, r), other);
            }
        }
    }
}

/// Take the row of an id out, if there is one.
pub fn drop_row(rows: &mut Rows, id: u64)
    requires
        ascending(rows_model(old(rows)@)),
    ensures
        ascending(rows_model(final(rows)@)),
        find(rows_model(final(rows)@), id) is None,
        forall|other: u64|
            other != id ==> #[trigger] find(rows_model(final(rows)@), other) == find(
                rows_model(old(rows)@),
                other,
            ),
{
    let ghost before = rows_model(rows@);
    let mut at: usize = 0;
    while at < rows.len() && rows[at].0 != id
        invariant
            at <= rows.len(),
            rows@ == old(rows)@,
            before == rows_model(rows@),
            forall|k: int| 0 <= k < at ==> (#[trigger] before[k]).0 != id,
        decreases rows.len() - at,
    {
        assert(before[at as int].0 == rows@[at as int].0);
        at += 1;
    }
    if at < rows.len() {
        assert(before[at as int].0 == id);
        rows.remove(at);
        let ghost after = before.remove(at as int);
        assert(rows_model(rows@) =~= after);
        proof {
            lemma_ascending_distinct(before);
            lemma_find_removed(before, at as int);
            assert forall|a: int, b: int| 0 <= a < b < after.len() implies (#[trigger] after[a]).0
                < (#[trigger] after[b]).0 by {
                let x = if a < at { a } else { a + 1 };
                let y = if b < at { b } else { b + 1 };
                assert(after[a] == before[x] && after[b] == before[y]);
            }
            assert forall|other: u64| other != id implies #[trigger] find(after, other) == find(
                before,
                other,
            ) by {
                lemma_find_remove(before, at as int, other);
            }
        }
    } else {
        proof {
            lemma_find_absent(before, id);
        }
    }
}

/// Whether there is a row of an id.
pub fn has_row(rows: &Rows, id: u64) -> (r: bool)
    requires
        ascending(rows_model(rows@)),
    ensures
        r == (find(rows_model(rows@), id) is Some),
{
    let ghost m = rows_model(rows@);
    let mut lo: usize = 0;
    let mut hi: usize = rows.len();
    while lo < hi
        invariant
            lo <= hi <= rows@.len(),
            m == rows_model(rows@),
            ascending(m),
            forall|k: int| 0 <= k < lo ==> (#[trigger] m[k]).0 < id,
            forall|k: int| hi <= k < m.len() ==> (#[trigger] m[k]).0 > id,
        decreases hi - lo,
    {
        let mid: usize = lo + (hi - lo) / 2;
        let at: u64 = rows[mid].0;
        assert(m[mid as int].0 == at);
        if at == id {
            proof {
                assert forall|j: int| 0 <= j < mid implies (#[trigger] m[j]).0 != id by {}
                lemma_find_at(m, id, mid as int);
            }
            return true;
        }
        if at < id {
            lo = mid + 1;
        } else {
            hi = mid;
        }
    }
    proof {
        assert forall|j: int| 0 <= j < m.len() implies (#[trigger] m[j]).0 != id by {}
        lemma_find_absent(m, id);
    }
    false
}

} // verus!
