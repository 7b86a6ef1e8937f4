//! Shared-nothing partitioning: which shard owns a record, what a shard may run
//! of a plan, and how the shards' answers become one.
//!
//! Shards run the scan and the filters above it, which depend on no other row.
//! Their rows are merged by id into the order an unpartitioned scan has, and
//! everything else runs once, over the merged rows. So no answer depends on how
//! many shards there are.

use vstd::prelude::*;
use vstd::string::*;
use crate::caches::{rows_model, Rows};
use crate::error::{Error, ErrorModel};
use crate::expr::ExprModel;
use crate::journal::{all_read_as, journal_holds, recovery, Recovery};
use crate::plan::{contains_join, joins_in, LogicalOp, OpModel};
use crate::record::{Record, RecordModel};
use crate::rows::{ascending, RowsModel};
use crate::text::{dec, dec_text, push_dec, texts};

verus! {

/// Which shard owns a record: the remainder of its id.
pub open spec fn owner_of(id: u64, shards: nat) -> int {
    id as int % shards as int
}

pub fn shard_of(id: u64, shards: usize) -> (i: usize)
    requires
        shards > 0,
    ensures
        i == owner_of(id, shards as nat),
        i < shards,
{
    (id % shards as u64) as usize
}

/// Every record has exactly one owner.
pub proof fn every_record_has_one_owner(id: u64, shards: nat)
    requires
        shards > 0,
    ensures
        0 <= owner_of(id, shards) < shards,
{
    assert(0 <= id as int % shards as int && (id as int % shards as int) < shards)
        by (nonlinear_arith)
        requires
            shards > 0,
    ;
}

/// Records are spread evenly: the first ids go to one shard each, in order, and every so
/// many ids the same shard has its turn again.
pub proof fn records_are_spread_evenly(id: u64, shards: nat)
    requires
        shards > 0,
    ensures
        id < shards ==> owner_of(id, shards) == id,
        id + shards <= u64::MAX ==> owner_of((id + shards) as u64, shards) == owner_of(id, shards),
        id < u64::MAX && shards > 1 ==> owner_of((id + 1) as u64, shards) != owner_of(id, shards),
{
    if id < shards {
        vstd::arithmetic::div_mod::lemma_small_mod(id as nat, shards);
    }
    vstd::arithmetic::div_mod::lemma_mod_add_multiples_vanish(id as int, shards as int);
    if id < u64::MAX && shards > 1 {
        let (a, b) = (id as int % shards as int, (id + 1) % shards as int);
        vstd::arithmetic::div_mod::lemma_fundamental_div_mod(id as int, shards as int);
        vstd::arithmetic::div_mod::lemma_fundamental_div_mod(id + 1, shards as int);
        let (p, q) = (id as int / shards as int, (id + 1) / shards as int);
        if a == b {
            assert(shards * (q - p) == 1) by (nonlinear_arith)
                requires
                    id as int == shards * p + a,
                    id + 1 == shards * q + b,
                    a == b,
            ;
            assert(false) by (nonlinear_arith)
                requires
                    shards > 1,
                    shards * (q - p) == 1,
            ;
        }
    }
}

// -- merging ------------------------------------------------------------------

/// The part whose first row has the lowest id, the first of them among equals.
pub open spec fn lowest(parts: Seq<RowsModel>) -> Option<int>
    decreases parts.len(),
{
    if parts.len() == 0 {
        None
    } else {
        let last = parts.len() - 1;
        match lowest(parts.drop_last()) {
            None => if parts[last].len() > 0 {
                Some(last)
            } else {
                None
            },
            Some(b) => if parts[last].len() > 0 && parts[last][0].0 < parts[b][0].0 {
                Some(last)
            } else {
                Some(b)
            },
        }
    }
}

proof fn lemma_lowest(parts: Seq<RowsModel>)
    ensures
        match lowest(parts) {
            Some(b) => {
                &&& 0 <= b < parts.len()
                &&& parts[b].len() > 0
                &&& forall|i: int|
                    0 <= i < parts.len() && (#[trigger] parts[i]).len() > 0 ==> parts[b][0].0
                        <= parts[i][0].0 && (i < b ==> parts[b][0].0 < parts[i][0].0)
            },
            None => forall|i: int| 0 <= i < parts.len() ==> (#[trigger] parts[i]).len() == 0,
        },
    decreases parts.len(),
{
    if parts.len() > 0 {
        let rest = parts.drop_last();
        lemma_lowest(rest);
        assert forall|i: int| 0 <= i < rest.len() implies #[trigger] parts[i] == rest[i] by {}
    }
}

/// How many rows there are in all.
pub open spec fn row_total(parts: Seq<RowsModel>) -> nat
    decreases parts.len(),
{
    if parts.len() == 0 {
        0
    } else {
        row_total(parts.drop_last()) + parts.last().len()
    }
}

proof fn lemma_row_total(parts: Seq<RowsModel>, i: int, rows: RowsModel)
    requires
        0 <= i < parts.len(),
    ensures
        row_total(parts.update(i, rows)) + parts[i].len() == row_total(parts) + rows.len(),
    decreases parts.len(),
{
    if i == parts.len() - 1 {
        assert(parts.update(i, rows).drop_last() =~= parts.drop_last());
    } else {
        assert(parts.update(i, rows).drop_last() =~= parts.drop_last().update(i, rows));
        lemma_row_total(parts.drop_last(), i, rows);
    }
}

/// Parts merged into one run: the lowest first row, again and again.
pub open spec fn merged(parts: Seq<RowsModel>) -> RowsModel
    decreases row_total(parts),
    via merged_shrinks
{
    match lowest(parts) {
        None => Seq::empty(),
        Some(b) => seq![parts[b][0]] + merged(parts.update(b, parts[b].drop_first())),
    }
}

#[via_fn]
proof fn merged_shrinks(parts: Seq<RowsModel>) {
    lemma_lowest(parts);
    if let Some(b) = lowest(parts) {
        lemma_row_total(parts, b, parts[b].drop_first());
    }
}

/// The rows of a shard.
pub open spec fn owned(rows: RowsModel, shards: nat, i: int) -> RowsModel
    decreases rows.len(),
{
    if rows.len() == 0 {
        Seq::empty()
    } else {
        let rest = owned(rows.drop_first(), shards, i);
        if owner_of(rows[0].0, shards) == i {
            seq![rows[0]] + rest
        } else {
            rest
        }
    }
}

/// The rows by shard.
pub open spec fn partitioned(rows: RowsModel, shards: nat) -> Seq<RowsModel> {
    Seq::new(shards, |i: int| owned(rows, shards, i))
}

proof fn lemma_owned_rows(rows: RowsModel, shards: nat, i: int)
    ensures
        forall|k: int|
            0 <= k < owned(rows, shards, i).len() ==> rows.contains(
                #[trigger] owned(rows, shards, i)[k],
            ),
    decreases rows.len(),
{
    if rows.len() > 0 {
        let tail = rows.drop_first();
        lemma_owned_rows(tail, shards, i);
        let o = owned(rows, shards, i);
        let rest = owned(tail, shards, i);
        assert forall|k: int| 0 <= k < o.len() implies rows.contains(#[trigger] o[k]) by {
            if owner_of(rows[0].0, shards) == i {
                if k == 0 {
                    assert(rows[0] == o[0]);
                } else {
                    assert(o[k] == rest[k - 1]);
                    let j = choose|j: int| 0 <= j < tail.len() && tail[j] == rest[k - 1];
                    assert(rows[j + 1] == o[k]);
                }
            } else {
                assert(o[k] == rest[k]);
                let j = choose|j: int| 0 <= j < tail.len() && tail[j] == rest[k];
                assert(rows[j + 1] == o[k]);
            }
        }
    }
}

proof fn lemma_tail_ascends(rows: RowsModel)
    requires
        ascending(rows),
        rows.len() > 0,
    ensures
        ascending(rows.drop_first()),
{
    let tail = rows.drop_first();
    assert forall|i: int, j: int|
        #![trigger tail[i], tail[j]]
        0 <= i < j < tail.len() implies tail[i].0 < tail[j].0 by {
        assert(tail[i] == rows[i + 1] && tail[j] == rows[j + 1]);
    }
}

/// Merging the shards' rows gives back exactly the unpartitioned scan.
pub proof fn merging_reproduces_an_unpartitioned_scan(rows: RowsModel, shards: nat)
    requires
        ascending(rows),
        shards > 0,
    ensures
        merged(partitioned(rows, shards)) == rows,
    decreases rows.len(),
{
    let parts = partitioned(rows, shards);
    lemma_lowest(parts);
    if rows.len() == 0 {
        assert(rows =~= Seq::empty());
        if let Some(b) = lowest(parts) {
            assert(parts[b].len() == 0);
        }
    } else {
        let tail = rows.drop_first();
        let home = owner_of(rows[0].0, shards);
        every_record_has_one_owner(rows[0].0, shards);
        assert(parts[home] == owned(rows, shards, home));
        assert(parts[home][0] == rows[0]);
        assert forall|i: int|
            0 <= i < parts.len() && i != home && (#[trigger] parts[i]).len() > 0 implies rows[0].0
            < parts[i][0].0 by {
            lemma_owned_rows(tail, shards, i);
            assert(parts[i] == owned(tail, shards, i));
            assert(owned(tail, shards, i)[0] == parts[i][0]);
            let j = choose|j: int| 0 <= j < tail.len() && tail[j] == parts[i][0];
            assert(rows[j + 1] == parts[i][0]);
        }
        assert(lowest(parts) == Some(home)) by {
            match lowest(parts) {
                Some(b) => {
                    if b != home {
                        assert(parts[b].len() > 0);
                        assert(parts[home].len() > 0);
                    }
                },
                None => {
                    assert(parts[home].len() > 0);
                },
            }
        }
        assert(parts.update(home, parts[home].drop_first()) =~= partitioned(tail, shards)) by {
            assert forall|i: int| 0 <= i < shards implies #[trigger] parts.update(
                home,
                parts[home].drop_first(),
            )[i] == owned(tail, shards, i) by {
                if i == home {
                    assert(parts[home].drop_first() =~= owned(tail, shards, home));
                } else {
                    assert(parts[i] == owned(rows, shards, i));
                }
            }
        }
        lemma_tail_ascends(rows);
        merging_reproduces_an_unpartitioned_scan(tail, shards);
        assert(seq![rows[0]] + tail =~= rows);
    }
}

/// Rows by part.
pub open spec fn part_models(parts: Seq<Rows>) -> Seq<RowsModel> {
    parts.map_values(|p: Rows| rows_model(p@))
}

/// What is left of parts past the rows already taken.
spec fn left_over(parts: Seq<RowsModel>, taken: Seq<usize>) -> Seq<RowsModel> {
    Seq::new(parts.len(), |i: int| parts[i].skip(taken[i] as int))
}

proof fn lemma_single_part(rows: RowsModel)
    ensures
        merged(seq![rows]) == rows,
    decreases rows.len(),
{
    let parts = seq![rows];
    assert(parts.drop_last() =~= Seq::empty());
    assert(lowest(parts.drop_last()) is None);
    if rows.len() > 0 {
        assert(parts.update(0, rows.drop_first()) =~= seq![rows.drop_first()]);
        lemma_single_part(rows.drop_first());
        assert(seq![rows[0]] + rows.drop_first() =~= rows);
    } else {
        assert(rows =~= Seq::empty());
    }
}

/// Which part has the lowest row not yet taken.
fn next_part(parts: &Vec<Rows>, taken: &Vec<usize>, Ghost(all): Ghost<Seq<RowsModel>>) -> (best:
    Option<usize>)
    requires
        taken@.len() == parts@.len(),
        all.len() == parts@.len(),
        forall|i: int|
            0 <= i < parts@.len() ==> (#[trigger] parts@[i])@.len() == all[i].len(),
        forall|i: int| 0 <= i < parts@.len() ==> #[trigger] taken@[i] <= all[i].len(),
        forall|i: int, k: int|
            0 <= i < parts@.len() && taken@[i] <= k < all[i].len() ==> (
            #[trigger] parts@[i]@[k]).0 == all[i][k].0,
    ensures
        match best {
            Some(b) => lowest(left_over(all, taken@)) == Some(b as int),
            None => lowest(left_over(all, taken@)) is None,
        },
{
    let ghost rest = left_over(all, taken@);
    let mut best: Option<usize> = None;
    let mut i: usize = 0;
    assert(rest.take(0) =~= Seq::empty());
    while i < parts.len()
        invariant
            i <= parts@.len(),
            taken@.len() == parts@.len(),
            all.len() == parts@.len(),
            rest == left_over(all, taken@),
            forall|i: int|
                0 <= i < parts@.len() ==> (#[trigger] parts@[i])@.len() == all[i].len(),
            forall|i: int| 0 <= i < parts@.len() ==> #[trigger] taken@[i] <= all[i].len(),
            forall|i: int, k: int|
                0 <= i < parts@.len() && taken@[i] <= k < all[i].len() ==> (
                #[trigger] parts@[i]@[k]).0 == all[i][k].0,
            match best {
                Some(b) => lowest(rest.take(i as int)) == Some(b as int) && b < i && taken@[b as int]
                    < all[b as int].len(),
                None => lowest(rest.take(i as int)) is None,
            },
        decreases parts.len() - i,
    {
        let c: usize = taken[i];
        proof {
            assert(rest.take(i + 1).drop_last() =~= rest.take(i as int));
            assert(rest.take(i + 1)[i as int] == rest[i as int]);
            assert(parts@[i as int]@.len() == all[i as int].len());
        }
        if c < parts[i].len() {
            assert(rest[i as int][0] == all[i as int][c as int]);
            assert(parts@[i as int]@[c as int].0 == all[i as int][c as int].0);
            match best {
                None => {
                    best = Some(i);
                },
                Some(b) => {
                    let d: usize = taken[b];
                    assert(rest.take(i + 1)[b as int] == rest[b as int]);
                    assert(rest[b as int][0] == all[b as int][d as int]);
                    assert(parts@[b as int]@.len() == all[b as int].len());
                    assert(parts@[b as int]@[d as int].0 == all[b as int][d as int].0);
                    if parts[i][c].0 < parts[b][d].0 {
                        best = Some(i);
                    }
                },
            }
        } else {
            assert(rest[i as int].len() == 0);
        }
        i += 1;
    }
    assert(rest.take(i as int) =~= rest);
    best
}

/// Take a row out, leaving an empty one in its place.
fn take_row(rows: &mut Rows, at: usize) -> (row: (u64, Record))
    requires
        at < old(rows)@.len(),
    ensures
        row == old(rows)@[at as int],
        final(rows)@.len() == old(rows)@.len(),
        forall|k: int|
            0 <= k < old(rows)@.len() && k != at ==> #[trigger] final(rows)@[k] == old(rows)@[k],
{
    let mut row: (u64, Record) = (0, Record::new());
    std::mem::swap(&mut rows[at], &mut row);
    row
}

/// Merge the shards' rows into one run.
pub fn merge_by_id(per_shard: Vec<Rows>) -> (out: Rows)
    ensures
        rows_model(out@) == merged(part_models(per_shard@)),
{
    let mut parts = per_shard;
    let ghost all = part_models(parts@);
    let mut out: Rows = Vec::new();
    if parts.len() == 0 {
        assert(lowest(all) is None);
        assert(rows_model(out@) =~= Seq::empty());
        return out;
    }
    if parts.len() == 1 {
        match parts.pop() {
            Some(rows) => {
                proof {
                    assert(all =~= seq![rows_model(rows@)]);
                    lemma_single_part(rows_model(rows@));
                }
                return rows;
            },
            None => {
                return out;
            },
        }
    }
    let mut taken: Vec<usize> = Vec::new();
    let mut k: usize = 0;
    while k < parts.len()
        invariant
            k <= parts@.len(),
            taken@.len() == k,
            forall|i: int| 0 <= i < k ==> #[trigger] taken@[i] == 0,
        decreases parts.len() - k,
    {
        taken.push(0);
        k += 1;
    }
    proof {
        assert(left_over(all, taken@) =~= all) by {
            assert forall|i: int| 0 <= i < all.len() implies #[trigger] left_over(
                all,
                taken@,
            )[i] == all[i] by {
                assert(all[i].skip(0) =~= all[i]);
            }
        }
        assert(rows_model(out@) =~= Seq::empty());
        assert(rows_model(out@) + merged(all) =~= merged(all));
        assert forall|i: int, j: int|
            0 <= i < parts@.len() && 0 <= j < all[i].len() implies (parts@[i]@[j].0, (
        #[trigger] parts@[i]@[j]).1.model()) == all[i][j] by {
            assert(all[i] == rows_model(parts@[i]@));
        }
    }
    loop
        invariant
            parts@.len() == all.len(),
            taken@.len() == all.len(),
            forall|i: int|
                0 <= i < parts@.len() ==> (#[trigger] parts@[i])@.len() == all[i].len(),
            forall|i: int| 0 <= i < parts@.len() ==> #[trigger] taken@[i] <= all[i].len(),
            forall|i: int, j: int|
                0 <= i < parts@.len() && taken@[i] <= j < all[i].len() ==> (parts@[i]@[j].0, (
                #[trigger] parts@[i]@[j]).1.model()) == all[i][j],
            rows_model(out@) + merged(left_over(all, taken@)) == merged(all),
        ensures
            rows_model(out@) == merged(all),
        decreases row_total(left_over(all, taken@)),
    {
        let ghost rest = left_over(all, taken@);
        match next_part(&parts, &taken, Ghost(all)) {
            None => {
                assert(rows_model(out@) + merged(rest) =~= rows_model(out@));
                break;
            },
            Some(b) => {
                proof {
                    lemma_lowest(rest);
                    assert(rest[b as int].len() > 0);
                    assert(parts@[b as int]@.len() == all[b as int].len());
                }
                let c: usize = taken[b];
                let ghost before = rows_model(out@);
                assert(rest[b as int].len() == all[b as int].len() - c);
                let width: usize = parts[b].len();
                assert(c < width);
                let ghost was = parts@;
                assert(parts@[b as int]@[c as int].1.model() == all[b as int][c as int].1);
                let row = take_row(&mut parts[b], c);
                out.push(row);
                taken.set(b, c + 1);
                proof {
                    assert forall|i: int| 0 <= i < parts@.len() implies (#[trigger] parts@[i])@.len()
                        == all[i].len() by {
                        assert(was[i]@.len() == all[i].len());
                    }
                    let head = all[b as int][c as int];
                    assert(rows_model(out@) =~= before.push(head));
                    assert(rest[b as int][0] == head);
                    let now = left_over(all, taken@);
                    assert(now =~= rest.update(b as int, rest[b as int].drop_first())) by {
                        assert forall|i: int| 0 <= i < now.len() implies now[i] == rest.update(
                            b as int,
                            rest[b as int].drop_first(),
                        )[i] by {
                            if i == b {
                                assert(now[i] =~= rest[b as int].drop_first());
                            }
                        }
                    }
                    lemma_row_total(rest, b as int, rest[b as int].drop_first());
                    assert(before + (seq![head] + merged(now)) =~= before.push(head) + merged(now));
                }
            },
        }
    }
    out
}

// -- what a shard may run -----------------------------------------------------

/// Whether a plan is nothing but a scan and filters.
pub open spec fn only_pushdown(op: OpModel) -> bool
    decreases op,
{
    match op {
        OpModel::Scan { .. } => true,
        OpModel::GetById { .. } => true,
        OpModel::GetByIds { .. } => true,
        OpModel::Filter { input, .. } => only_pushdown(*input),
        _ => false,
    }
}

/// The part of a plan without joins that a shard may run: the scan and the
/// filters above it, up to the first operator that reads across rows.
pub open spec fn pushed(op: OpModel) -> OpModel
    decreases op,
{
    if only_pushdown(op) {
        op
    } else {
        match op {
            OpModel::Filter { input, .. } => pushed(*input),
            OpModel::Project { input, .. } => pushed(*input),
            OpModel::Sort { input, .. } => pushed(*input),
            OpModel::Limit { input, .. } => pushed(*input),
            OpModel::Aggregate { input, .. } => pushed(*input),
            _ => op,
        }
    }
}

/// Whether `part` stands in `op` as the input of an input, or is `op` itself.
pub open spec fn stands_in(part: OpModel, op: OpModel) -> bool
    decreases op,
{
    part == op || match op {
        OpModel::Filter { input, .. } => stands_in(part, *input),
        OpModel::Project { input, .. } => stands_in(part, *input),
        OpModel::Sort { input, .. } => stands_in(part, *input),
        OpModel::Limit { input, .. } => stands_in(part, *input),
        OpModel::Aggregate { input, .. } => stands_in(part, *input),
        _ => false,
    }
}

/// What is pushed is a scan and filters, out of the plan itself: no limit, sort,
/// projection or aggregate is ever run by a shard.
pub proof fn only_a_scan_and_filters_are_pushed(op: OpModel)
    requires
        joins_in(op) == 0,
    ensures
        only_pushdown(pushed(op)),
        stands_in(pushed(op), op),
        pushed(pushed(op)) == pushed(op),
    decreases op,
{
    if !only_pushdown(op) {
        match op {
            OpModel::Filter { input, .. } => only_a_scan_and_filters_are_pushed(*input),
            OpModel::Project { input, .. } => only_a_scan_and_filters_are_pushed(*input),
            OpModel::Sort { input, .. } => only_a_scan_and_filters_are_pushed(*input),
            OpModel::Limit { input, .. } => only_a_scan_and_filters_are_pushed(*input),
            OpModel::Aggregate { input, .. } => only_a_scan_and_filters_are_pushed(*input),
            _ => {},
        }
    }
}

proof fn lemma_pushed_kinds(op: OpModel, part: OpModel)
    requires
        only_pushdown(op),
        stands_in(part, op),
    ensures
        part is Scan || part is GetById || part is GetByIds || part is Filter,
    decreases op,
{
    if part != op {
        if let OpModel::Filter { input, .. } = op {
            lemma_pushed_kinds(*input, part);
        }
    }
}

/// Whether a plan asks of no row what depends on another: at every level it scans, reads
/// by id or filters.
pub open spec fn row_by_row(op: OpModel) -> bool {
    forall|part: OpModel| #[trigger]
        stands_in(part, op) ==> part is Scan || part is GetById || part is GetByIds || part is Filter
}

proof fn lemma_row_by_row(op: OpModel)
    ensures
        only_pushdown(op) == row_by_row(op),
    decreases op,
{
    if only_pushdown(op) {
        assert forall|part: OpModel| #[trigger] stands_in(part, op) implies part is Scan
            || part is GetById || part is GetByIds || part is Filter by {
            lemma_pushed_kinds(op, part);
        }
    } else {
        assert(stands_in(op, op));
        if let OpModel::Filter { input, .. } = op {
            lemma_row_by_row(*input);
            let part = choose|part: OpModel| #[trigger]
                stands_in(part, *input) && !(part is Scan || part is GetById || part is GetByIds
                    || part is Filter);
            assert(stands_in(part, op));
        }
    }
}

/// A plan is answered by merging alone exactly where it asks of no row what depends on
/// another. So one that sorts, limits, projects or aggregates anywhere is run centrally.
pub proof fn merging_alone_answers_what_is_asked_row_by_row(op: OpModel, part: OpModel)
    ensures
        only_pushdown(op) <==> row_by_row(op),
        stands_in(part, op) && (part is Sort || part is Limit || part is Project
            || part is Aggregate || part is Join) ==> !only_pushdown(op),
        op is Sort || op is Limit || op is Project || op is Aggregate || op is Join
            ==> !only_pushdown(op),
{
    lemma_row_by_row(op);
    assert(stands_in(op, op));
}

/// What shards run of a plan is asked row by row, stands in the plan, and leaves nothing
/// out that could be run there too.
pub proof fn shards_run_all_that_is_asked_row_by_row(op: OpModel, part: OpModel)
    requires
        joins_in(op) == 0,
    ensures
        row_by_row(pushed(op)),
        stands_in(pushed(op), op),
        stands_in(part, op) && row_by_row(part) ==> stands_in(part, pushed(op)),
    decreases op,
{
    lemma_row_by_row(op);
    lemma_row_by_row(part);
    only_a_scan_and_filters_are_pushed(op);
    lemma_row_by_row(pushed(op));
    if !only_pushdown(op) && part != op {
        match op {
            OpModel::Filter { input, .. } => shards_run_all_that_is_asked_row_by_row(*input, part),
            OpModel::Project { input, .. } => shards_run_all_that_is_asked_row_by_row(*input, part),
            OpModel::Sort { input, .. } => shards_run_all_that_is_asked_row_by_row(*input, part),
            OpModel::Limit { input, .. } => shards_run_all_that_is_asked_row_by_row(*input, part),
            OpModel::Aggregate { input, .. } => shards_run_all_that_is_asked_row_by_row(*input, part),
            _ => {},
        }
    }
}

/// Whether a row passes a scan and filters, where `keeps` says which records a
/// predicate keeps.
pub open spec fn passes(
    op: OpModel,
    keeps: spec_fn(ExprModel, RecordModel) -> bool,
    row: (u64, RecordModel),
) -> bool
    decreases op,
{
    match op {
        OpModel::GetById { id, .. } => row.0 == id,
        OpModel::GetByIds { ids, .. } => ids.contains(row.0),
        OpModel::Filter { input, predicate } => passes(*input, keeps, row) && keeps(
            predicate,
            row.1,
        ),
        _ => true,
    }
}

/// The rows that pass.
pub open spec fn passing(
    op: OpModel,
    keeps: spec_fn(ExprModel, RecordModel) -> bool,
    rows: RowsModel,
) -> RowsModel
    decreases rows.len(),
{
    if rows.len() == 0 {
        Seq::empty()
    } else {
        let rest = passing(op, keeps, rows.drop_first());
        if passes(op, keeps, rows[0]) {
            seq![rows[0]] + rest
        } else {
            rest
        }
    }
}

proof fn lemma_passing_of_owned(
    op: OpModel,
    keeps: spec_fn(ExprModel, RecordModel) -> bool,
    rows: RowsModel,
    shards: nat,
    i: int,
)
    ensures
        passing(op, keeps, owned(rows, shards, i)) == owned(passing(op, keeps, rows), shards, i),
    decreases rows.len(),
{
    if rows.len() > 0 {
        let tail = rows.drop_first();
        lemma_passing_of_owned(op, keeps, tail, shards, i);
        let o = owned(tail, shards, i);
        let p = passing(op, keeps, tail);
        assert((seq![rows[0]] + o).drop_first() =~= o);
        assert((seq![rows[0]] + p).drop_first() =~= p);
    }
}

proof fn lemma_passing_rows(
    op: OpModel,
    keeps: spec_fn(ExprModel, RecordModel) -> bool,
    rows: RowsModel,
)
    requires
        ascending(rows),
    ensures
        ascending(passing(op, keeps, rows)),
        forall|k: int|
            0 <= k < passing(op, keeps, rows).len() ==> rows.contains(
                #[trigger] passing(op, keeps, rows)[k],
            ),
        passing(op, keeps, passing(op, keeps, rows)) == passing(op, keeps, rows),
    decreases rows.len(),
{
    if rows.len() > 0 {
        let tail = rows.drop_first();
        lemma_tail_ascends(rows);
        lemma_passing_rows(op, keeps, tail);
        let rest = passing(op, keeps, tail);
        let all = passing(op, keeps, rows);
        assert forall|k: int| 0 <= k < all.len() implies rows.contains(#[trigger] all[k]) by {
            if passes(op, keeps, rows[0]) && k == 0 {
                assert(rows[0] == all[0]);
            } else {
                let j = if passes(op, keeps, rows[0]) { k - 1 } else { k };
                assert(all[k] == rest[j]);
                let q = choose|q: int| 0 <= q < tail.len() && tail[q] == rest[j];
                assert(rows[q + 1] == all[k]);
            }
        }
        if passes(op, keeps, rows[0]) {
            assert(all.drop_first() =~= rest);
            assert forall|i: int, j: int|
                #![trigger all[i], all[j]]
                0 <= i < j < all.len() implies all[i].0 < all[j].0 by {
                assert(all[j] == rest[j - 1]);
                if i > 0 {
                    assert(all[i] == rest[i - 1]);
                } else {
                    let q = choose|q: int| 0 <= q < tail.len() && tail[q] == rest[j - 1];
                    assert(rows[q + 1] == all[j]);
                }
            }
        }
    }
}

/// Partitioning does not change an answer. What the shards pass of their own
/// rows merges to what passes of all rows, in the same order; and passing those
/// rows again, as the central part of a plan does, changes nothing.
pub proof fn partitioning_does_not_change_an_answer(
    op: OpModel,
    keeps: spec_fn(ExprModel, RecordModel) -> bool,
    rows: RowsModel,
    shards: nat,
)
    requires
        ascending(rows),
        shards > 0,
    ensures
        merged(Seq::new(shards, |i: int| passing(op, keeps, owned(rows, shards, i)))) == passing(
            op,
            keeps,
            rows,
        ),
        passing(op, keeps, passing(op, keeps, rows)) == passing(op, keeps, rows),
{
    let kept = passing(op, keeps, rows);
    lemma_passing_rows(op, keeps, rows);
    merging_reproduces_an_unpartitioned_scan(kept, shards);
    let parts = Seq::new(shards, |i: int| passing(op, keeps, owned(rows, shards, i)));
    assert(parts =~= partitioned(kept, shards)) by {
        assert forall|i: int| 0 <= i < shards implies #[trigger] parts[i] == owned(
            kept,
            shards,
            i,
        ) by {
            lemma_passing_of_owned(op, keeps, rows, shards, i);
        }
    }
}

/// What an operator that reads across rows makes of the rows of its input.
pub type Central = spec_fn(OpModel, RowsModel) -> RowsModel;

/// The rows of a plan without joins over all the rows of its collection, where
/// `central` says what operators make of rows that are more than a scan and filters.
pub open spec fn executed(
    op: OpModel,
    keeps: spec_fn(ExprModel, RecordModel) -> bool,
    central: Central,
    rows: RowsModel,
) -> RowsModel
    decreases op,
{
    if only_pushdown(op) {
        passing(op, keeps, rows)
    } else {
        match op {
            OpModel::Filter { input, .. } => central(op, executed(*input, keeps, central, rows)),
            OpModel::Project { input, .. } => central(op, executed(*input, keeps, central, rows)),
            OpModel::Sort { input, .. } => central(op, executed(*input, keeps, central, rows)),
            OpModel::Limit { input, .. } => central(op, executed(*input, keeps, central, rows)),
            OpModel::Aggregate { input, .. } => central(
                op,
                executed(*input, keeps, central, rows),
            ),
            _ => rows,
        }
    }
}

/// The rows of a plan over shards that hold the rows between them: one shard's, where
/// the plan is of one record; else what each shard passes, merged, with the plan run
/// over that where it is more than a scan and filters.
pub open spec fn executed_sharded(
    op: OpModel,
    keeps: spec_fn(ExprModel, RecordModel) -> bool,
    central: Central,
    rows: RowsModel,
    shards: nat,
) -> RowsModel {
    let parts = Seq::new(shards, |i: int| passing(pushed(op), keeps, owned(rows, shards, i)));
    match op {
        OpModel::GetById { id, .. } => executed(
            op,
            keeps,
            central,
            owned(rows, shards, owner_of(id, shards)),
        ),
        _ => if only_pushdown(op) {
            merged(parts)
        } else {
            executed(op, keeps, central, merged(parts))
        },
    }
}

proof fn lemma_executed_over_passing(
    op: OpModel,
    keeps: spec_fn(ExprModel, RecordModel) -> bool,
    central: Central,
    rows: RowsModel,
)
    requires
        ascending(rows),
        joins_in(op) == 0,
    ensures
        executed(op, keeps, central, passing(pushed(op), keeps, rows)) == executed(
            op,
            keeps,
            central,
            rows,
        ),
    decreases op,
{
    if only_pushdown(op) {
        lemma_passing_rows(op, keeps, rows);
    } else {
        match op {
            OpModel::Filter { input, .. } => lemma_executed_over_passing(*input, keeps, central, rows),
            OpModel::Project { input, .. } => lemma_executed_over_passing(*input, keeps, central, rows),
            OpModel::Sort { input, .. } => lemma_executed_over_passing(*input, keeps, central, rows),
            OpModel::Limit { input, .. } => lemma_executed_over_passing(*input, keeps, central, rows),
            OpModel::Aggregate { input, .. } => lemma_executed_over_passing(
                *input,
                keeps,
                central,
                rows,
            ),
            _ => {},
        }
    }
}

proof fn lemma_all_owned(rows: RowsModel, shards: nat, i: int)
    requires
        forall|k: int| 0 <= k < rows.len() ==> owner_of((#[trigger] rows[k]).0, shards) == i,
    ensures
        owned(rows, shards, i) == rows,
    decreases rows.len(),
{
    if rows.len() > 0 {
        let tail = rows.drop_first();
        assert forall|k: int| 0 <= k < tail.len() implies owner_of((#[trigger] tail[k]).0, shards)
            == i by {
            assert(tail[k] == rows[k + 1]);
        }
        lemma_all_owned(tail, shards, i);
        assert(owner_of(rows[0].0, shards) == i);
        assert(seq![rows[0]] + tail =~= rows);
    } else {
        assert(owned(rows, shards, i) =~= rows);
    }
}

proof fn lemma_passing_ids(
    op: OpModel,
    keeps: spec_fn(ExprModel, RecordModel) -> bool,
    rows: RowsModel,
    id: u64,
    k: int,
)
    requires
        op matches OpModel::GetById { id: i, .. } && i == id,
        0 <= k < passing(op, keeps, rows).len(),
    ensures
        passing(op, keeps, rows)[k].0 == id,
    decreases rows.len(),
{
    if rows.len() > 0 {
        let rest = passing(op, keeps, rows.drop_first());
        if passes(op, keeps, rows[0]) {
            if k > 0 {
                lemma_passing_ids(op, keeps, rows.drop_first(), id, k - 1);
                assert(passing(op, keeps, rows)[k] == rest[k - 1]);
            }
        } else {
            lemma_passing_ids(op, keeps, rows.drop_first(), id, k);
        }
    }
}

/// However many shards there are, a whole plan has one answer: the one it has where
/// nothing is partitioned. This holds whatever the central part of the plan does, so
/// long as it does the same wherever it runs.
pub proof fn a_whole_plan_has_one_answer(
    op: OpModel,
    keeps: spec_fn(ExprModel, RecordModel) -> bool,
    central: Central,
    rows: RowsModel,
    shards: nat,
)
    requires
        ascending(rows),
        shards > 0,
        joins_in(op) == 0,
    ensures
        executed_sharded(op, keeps, central, rows, shards) == executed(op, keeps, central, rows),
{
    match op {
        OpModel::GetById { id, .. } => {
            let home = owner_of(id, shards);
            lemma_passing_of_owned(op, keeps, rows, shards, home);
            let kept = passing(op, keeps, rows);
            assert forall|k: int| 0 <= k < kept.len() implies owner_of(
                (#[trigger] kept[k]).0,
                shards,
            ) == home by {
                lemma_passing_ids(op, keeps, rows, id, k);
            }
            lemma_all_owned(kept, shards, home);
        },
        _ => {
            partitioning_does_not_change_an_answer(pushed(op), keeps, rows, shards);
            lemma_executed_over_passing(op, keeps, central, rows);
        },
    }
}

/// The part of a plan that a shard may run.
pub fn pushdown(root: &LogicalOp) -> (op: LogicalOp)
    requires
        joins_in(root.model()) == 0,
    ensures
        op.model() == pushed(root.model()),
    decreases root,
{
    if is_only_pushdown(root) {
        return root.dup();
    }
    match root.child() {
        Some(input) => pushdown(input),
        None => root.dup(),
    }
}

/// Whether the plan is nothing but a scan and filters, so the merged rows are
/// the whole answer.
pub fn is_only_pushdown(root: &LogicalOp) -> (r: bool)
    ensures
        r == only_pushdown(root.model()),
    decreases root,
{
    match root {
        LogicalOp::Scan { .. } => true,
        LogicalOp::GetById { .. } => true,
        LogicalOp::GetByIds { .. } => true,
        LogicalOp::Filter { input, .. } => is_only_pushdown(input),
        _ => false,
    }
}

// -- a database of shards -----------------------------------------------------

/// How a plan is answered.
#[derive(Debug, PartialEq, Eq)]
pub enum Route {
    /// One shard answers it whole.
    One(usize),
    /// Every shard runs `pushed` and the rows are merged. Where `central` is set
    /// the whole plan then runs over the merged rows.
    All { pushed: LogicalOp, central: bool },
}

pub open spec fn no_shards() -> Seq<char> {
    "a sharded database needs at least one shard"@
}

pub open spec fn no_joins() -> Seq<char> {
    "joins across a sharded database are not implemented yet; query a single shard's Database directly via ShardedDatabase::shard"@
}

/// The complaint about a batch that some shard refused.
pub open spec fn partial_batch(written: nat, why: Seq<char>) -> Seq<char> {
    "batch insert failed on at least one shard after committing "@ + dec_text(written)
        + " record(s) to the others: "@ + why
}

/// How many records the shards that took their batch wrote.
pub open spec fn batches_written(results: Seq<Result<usize, String>>) -> nat
    decreases results.len(),
{
    if results.len() == 0 {
        0
    } else {
        batches_written(results.drop_last()) + match results.last() {
            Ok(n) => n as nat,
            Err(_) => 0,
        }
    }
}

/// Why the first shard that refused its batch did.
pub open spec fn first_refusal(results: Seq<Result<usize, String>>) -> Option<Seq<char>>
    decreases results.len(),
{
    if results.len() == 0 {
        None
    } else {
        match first_refusal(results.drop_last()) {
            Some(e) => Some(e),
            None => match results.last() {
                Ok(_) => None,
                Err(e) => Some(e@),
            },
        }
    }
}

proof fn lemma_written_grows(results: Seq<Result<usize, String>>, i: int)
    requires
        0 <= i <= results.len(),
    ensures
        batches_written(results.take(i)) <= batches_written(results),
    decreases results.len() - i,
{
    if i < results.len() {
        assert(results.take(i + 1).drop_last() =~= results.take(i));
        lemma_written_grows(results, i + 1);
    } else {
        assert(results.take(i) =~= results);
    }
}

/// The id a shard allocates next, given the next free one it knows of: the first
/// from there on that the shard owns.
pub open spec fn allocated(raw: nat, shards: nat, i: nat) -> nat {
    let past = if raw > i {
        (raw - i) as nat
    } else {
        0
    };
    ((past + shards - 1) / shards as int * shards + i) as nat
}

/// An allocated id is at least the one asked for, belongs to the shard that
/// allocated it, and is the first such.
pub proof fn an_allocated_id_routes_home(raw: nat, shards: nat, i: nat)
    requires
        i < shards,
    ensures
        allocated(raw, shards, i) >= raw,
        allocated(raw, shards, i) as int % shards as int == i,
        allocated(raw, shards, i) < raw + shards,
{
    let past: int = if raw > i {
        raw - i
    } else {
        0
    };
    let q = (past + shards - 1) / shards as int;
    if past == 0 {
        vstd::arithmetic::div_mod::lemma_basic_div(shards - 1, shards as int);
        assert(q == 0);
    }
    vstd::arithmetic::div_mod::lemma_fundamental_div_mod(past + shards - 1, shards as int);
    let r = (past + shards - 1) % shards as int;
    vstd::arithmetic::div_mod::lemma_mod_bound(past + shards - 1, shards as int);
    assert(past + shards - 1 == shards * q + r);
    assert(q * shards == shards * q) by (nonlinear_arith);
    vstd::arithmetic::div_mod::lemma_div_pos_is_pos(past + shards - 1, shards as int);
    vstd::arithmetic::mul::lemma_mul_nonnegative(q, shards as int);
    assert(allocated(raw, shards, i) == q * shards + i);
    if past == 0 {
        assert(q * shards == 0) by (nonlinear_arith)
            requires
                q == 0,
        ;
    } else {
        assert(q * shards <= past + shards - 1);
    }
    vstd::arithmetic::div_mod::lemma_mod_multiples_vanish(q, i as int, shards as int);
    vstd::arithmetic::div_mod::lemma_small_mod(i, shards);
}

/// A database of so many shards.
#[derive(Debug)]
pub struct ShardedDatabase {
    shards: usize,
    next_shard: usize,
}

impl ShardedDatabase {
    pub closed spec fn count(&self) -> nat {
        self.shards as nat
    }

    /// Where the next id is allocated.
    pub closed spec fn turn(&self) -> nat {
        self.next_shard as nat
    }

    pub open spec fn wf(&self) -> bool {
        self.count() > 0
    }

    /// A database of `shards` shards, and what is to be done about the coordinator's
    /// journal, given its bytes if there is one. Refused exactly where there would be
    /// no shard: whatever the journal holds, it never blocks opening.
    pub fn open(shards: usize, journal: Option<&[u8]>) -> (r: Result<
        (ShardedDatabase, Recovery),
        Error,
    >)
        ensures
            match r {
                Ok((db, found)) => {
                    &&& shards > 0
                    &&& db.wf()
                    &&& db.count() == shards
                    &&& db.turn() == 0
                    &&& match journal_holds(
                        match journal {
                            Some(s) => Some(s@),
                            None => None,
                        },
                    ) {
                        Ok(ms) => found matches Recovery::Replay(ws) && all_read_as(ws@, ms),
                        Err(_) => found is Leave,
                    }
                },
                Err(e) => shards == 0 && e@ == ErrorModel::InvalidOptimization(no_shards()),
            },
    {
        if shards == 0 {
            return Err(
                Error::InvalidOptimization(
                    "a sharded database needs at least one shard".to_owned(),
                ),
            );
        }
        Ok((ShardedDatabase { shards, next_shard: 0 }, recovery(journal)))
    }

    pub fn shard_count(&self) -> (n: usize)
        ensures
            n == self.count(),
    {
        self.shards
    }

    /// The shard that owns a record.
    pub fn owner(&self, id: u64) -> (i: usize)
        requires
            self.wf(),
        ensures
            i == owner_of(id, self.count()),
            i < self.count(),
    {
        shard_of(id, self.shards)
    }

    /// How a plan is answered. Refused exactly where it joins.
    pub fn query(&self, root: &LogicalOp) -> (r: Result<Route, Error>)
        requires
            self.wf(),
        ensures
            if joins_in(root.model()) > 0 {
                r matches Err(e) && e@ == ErrorModel::Unsupported(no_joins())
            } else {
                match root.model() {
                    OpModel::GetById { id, .. } => r matches Ok(Route::One(i)) && i == owner_of(
                        id,
                        self.count(),
                    ),
                    _ => r matches Ok(Route::All { pushed: p, central }) && p.model() == pushed(
                        root.model(),
                    ) && central == !only_pushdown(root.model()),
                }
            },
    {
        if contains_join(root) {
            return Err(
                Error::Unsupported(
                    "joins across a sharded database are not implemented yet; query a single shard's Database directly via ShardedDatabase::shard".to_owned(),
                ),
            );
        }
        match root {
            LogicalOp::GetById { id, .. } => Ok(Route::One(self.owner(*id))),
            _ => Ok(Route::All { pushed: pushdown(root), central: !is_only_pushdown(root) }),
        }
    }

    /// The shard whose turn it is to allocate an id, in rotation.
    pub fn take_turn(&mut self) -> (i: usize)
        requires
            old(self).wf(),
        ensures
            final(self).wf(),
            final(self).count() == old(self).count(),
            final(self).turn() == if old(self).turn() < usize::MAX {
                old(self).turn() + 1
            } else {
                0
            },
            i == old(self).turn() as int % old(self).count() as int,
            i < old(self).count(),
    {
        let i: usize = self.next_shard % self.shards;
        self.next_shard = if self.next_shard < usize::MAX {
            self.next_shard + 1
        } else {
            0
        };
        i
    }

    /// The id shard `i` gives an insert that names none, given the next free id
    /// it knows of.
    pub fn insert_auto(&self, i: usize, raw: u64) -> (id: u64)
        requires
            self.wf(),
            i < self.count(),
            raw + self.count() <= u64::MAX,
        ensures
            id == allocated(raw as nat, self.count(), i as nat),
            id >= raw,
            owner_of(id, self.count()) == i,
    {
        let n: u64 = self.shards as u64;
        let past: u64 = raw.saturating_sub(i as u64);
        proof {
            an_allocated_id_routes_home(raw as nat, self.count(), i as nat);
            let q = (past + n - 1) / n as int;
            vstd::arithmetic::div_mod::lemma_div_pos_is_pos(past + n - 1, n as int);
            vstd::arithmetic::mul::lemma_mul_nonnegative(q, n as int);
            assert(allocated(raw as nat, self.count(), i as nat) == q * n + i);
        }
        let seq: u64 = (past + (n - 1)) / n;
        seq * n + i as u64
    }

    /// A batch by shard, each record with its owner, in the order given.
    pub fn partition(&self, records: Rows) -> (by_shard: Vec<Rows>)
        requires
            self.wf(),
        ensures
            part_models(by_shard@) == partitioned(rows_model(records@), self.count()),
    {
        let ghost all = rows_model(records@);
        let ghost n = self.count();
        let mut by_shard: Vec<Rows> = Vec::new();
        let mut k: usize = 0;
        while k < self.shards
            invariant
                k <= self.shards,
                by_shard@.len() == k,
                forall|i: int| 0 <= i < k ==> (#[trigger] by_shard@[i])@.len() == 0,
            decreases self.shards - k,
        {
            by_shard.push(Vec::new());
            k += 1;
        }
        let mut records = records;
        let mut at: usize = 0;
        assert(all.take(0) =~= Seq::empty());
        assert forall|i: int| 0 <= i < n implies rows_model((#[trigger] by_shard@[i])@) == owned(
            all.take(0),
            n,
            i,
        ) by {
            assert(rows_model(by_shard@[i]@) =~= Seq::empty());
        }
        while at < records.len()
            invariant
                at <= records@.len(),
                self.wf(),
                n == self.count(),
                records@.len() == all.len(),
                by_shard@.len() == n,
                forall|j: int|
                    at <= j < all.len() ==> (records@[j].0, (#[trigger] records@[j]).1.model())
                        == all[j],
                forall|i: int|
                    0 <= i < n ==> rows_model((#[trigger] by_shard@[i])@) == owned(
                        all.take(at as int),
                        n,
                        i,
                    ),
            decreases records.len() - at,
        {
            let ghost before = by_shard@;
            assert((records@[at as int].0, records@[at as int].1.model()) == all[at as int]);
            let row = take_row(&mut records, at);
            let home = self.owner(row.0);
            by_shard[home].push(row);
            proof {
                let next = all.take(at + 1);
                assert forall|i: int| 0 <= i < n implies rows_model((#[trigger] by_shard@[i])@)
                    == owned(next, n, i) by {
                    assert(next =~= all.take(at as int).push(all[at as int]));
                    lemma_owned_push(all.take(at as int), all[at as int], n, i);
                    if i == home {
                        assert(rows_model(by_shard@[i]@) =~= rows_model(before[i]@).push(
                            all[at as int],
                        ));
                    } else {
                        assert(by_shard@[i] == before[i]);
                    }
                }
            }
            at += 1;
        }
        proof {
            assert(all.take(at as int) =~= all);
            assert(part_models(by_shard@) =~= partitioned(all, n)) by {
                assert forall|i: int| 0 <= i < n implies #[trigger] part_models(by_shard@)[i]
                    == owned(all, n, i) by {
                    assert(rows_model(by_shard@[i]@) == owned(all, n, i));
                }
            }
        }
        by_shard
    }

    /// What a batch came to, given how each shard's part went, in order. Every
    /// shard was tried, whatever came of those before it.
    pub fn insert_batch(results: &Vec<Result<usize, String>>) -> (r: Result<usize, Error>)
        requires
            batches_written(results@) <= usize::MAX,
        ensures
            match first_refusal(results@) {
                None => r matches Ok(n) && n == batches_written(results@),
                Some(why) => r matches Err(e) && e@ == ErrorModel::InvalidOptimization(
                    partial_batch(batches_written(results@), why),
                ),
            },
    {
        let mut written: usize = 0;
        let mut refusal: Option<&String> = None;
        let mut i: usize = 0;
        assert(results@.take(0) =~= Seq::empty());
        while i < results.len()
            invariant
                i <= results@.len(),
                batches_written(results@) <= usize::MAX,
                written == batches_written(results@.take(i as int)),
                match first_refusal(results@.take(i as int)) {
                    None => refusal is None,
                    Some(why) => refusal matches Some(e) && e@ == why,
                },
            decreases results.len() - i,
        {
            proof {
                assert(results@.take(i + 1).drop_last() =~= results@.take(i as int));
                lemma_written_grows(results@, i + 1);
            }
            match &results[i] {
                Ok(n) => {
                    written = written + *n;
                },
                Err(e) => {
                    if refusal.is_none() {
                        refusal = Some(e);
                    }
                },
            }
            i += 1;
        }
        assert(results@.take(i as int) =~= results@);
        match refusal {
            None => Ok(written),
            Some(e) => {
                let mut s = "batch insert failed on at least one shard after committing ".to_owned();
                s.append(dec(written as u64).as_str());
                s.append(" record(s) to the others: ");
                s.append(e.as_str());
                Err(Error::InvalidOptimization(s))
            },
        }
    }
}

proof fn lemma_owned_push(rows: RowsModel, row: (u64, RecordModel), shards: nat, i: int)
    ensures
        owned(rows.push(row), shards, i) == if owner_of(row.0, shards) == i {
            owned(rows, shards, i).push(row)
        } else {
            owned(rows, shards, i)
        },
    decreases rows.len(),
{
    if rows.len() == 0 {
        let none = Seq::<(u64, RecordModel)>::empty();
        assert(rows.push(row).drop_first() =~= none);
        assert(owned(none, shards, i) == none);
        assert(rows.push(row)[0] == row);
        assert(seq![row] + Seq::<(u64, RecordModel)>::empty() =~= Seq::<
            (u64, RecordModel),
        >::empty().push(row));
    } else {
        assert(rows.push(row).drop_first() =~= rows.drop_first().push(row));
        assert(rows.push(row)[0] == rows[0]);
        lemma_owned_push(rows.drop_first(), row, shards, i);
        let rest = owned(rows.drop_first(), shards, i);
        assert(seq![rows[0]] + rest.push(row) =~= (seq![rows[0]] + rest).push(row));
    }
}

/// A batch goes to its owners: each shard gets the records whose ids are its own, all of
/// them and no others, in the order they came.
pub proof fn a_batch_goes_to_its_owners(rows: RowsModel, shards: nat, i: int)
    requires
        0 <= i < shards,
    ensures
        partitioned(rows, shards).len() == shards,
        partitioned(rows, shards)[i] == rows.filter(
            |row: (u64, RecordModel)| row.0 as int % shards as int == i,
        ),
    decreases rows.len(),
{
    let mine = |row: (u64, RecordModel)| row.0 as int % shards as int == i;
    reveal(Seq::filter);
    if rows.len() > 0 {
        let rest = rows.drop_last();
        a_batch_goes_to_its_owners(rest, shards, i);
        assert(partitioned(rest, shards)[i] == owned(rest, shards, i));
        lemma_owned_push(rest, rows.last(), shards, i);
        assert(rest.push(rows.last()) =~= rows);
    }
    assert(partitioned(rows, shards)[i] == owned(rows, shards, i));
}

/// A batch is as good as its parts: it is refused where some shard refused its part, for
/// the reason the first of those gave, and what is counted is what the others took.
pub proof fn a_batch_is_as_good_as_its_parts(results: Seq<Result<usize, String>>)
    ensures
        match first_refusal(results) {
            None => forall|i: int| 0 <= i < results.len() ==> (#[trigger] results[i]) is Ok,
            Some(why) => exists|i: int|
                0 <= i < results.len() && ((#[trigger] results[i]) matches Err(e) && e@ == why) && (
                forall|k: int| 0 <= k < i ==> (#[trigger] results[k]) is Ok),
        },
        batches_written(Seq::empty()) == 0,
        forall|n: usize| #[trigger]
            batches_written(results.push(Ok(n))) == batches_written(results) + n,
        forall|e: String| #[trigger]
            batches_written(results.push(Err(e))) == batches_written(results),
    decreases results.len(),
{
    assert forall|n: usize| #[trigger] batches_written(results.push(Ok(n))) == batches_written(
        results,
    ) + n by {
        assert(results.push(Ok(n)).drop_last() =~= results);
    }
    assert forall|e: String| #[trigger] batches_written(results.push(Err(e))) == batches_written(
        results,
    ) by {
        assert(results.push(Err(e)).drop_last() =~= results);
    }
    if results.len() > 0 {
        let rest = results.drop_last();
        a_batch_is_as_good_as_its_parts(rest);
        match first_refusal(rest) {
            None => {
                assert forall|i: int| 0 <= i < rest.len() implies (#[trigger] results[i]) is Ok by {
                    assert(rest[i] == results[i]);
                }
                assert(results[results.len() - 1] == results.last());
            },
            Some(why) => {
                let i = choose|i: int|
                    0 <= i < rest.len() && ((#[trigger] rest[i]) matches Err(e) && e@ == why) && (
                    forall|k: int| 0 <= k < i ==> (#[trigger] rest[k]) is Ok);
                assert(results[i] == rest[i]);
                assert forall|k: int| 0 <= k < i implies (#[trigger] results[k]) is Ok by {
                    assert(rest[k] == results[k]);
                }
            },
        }
    }
}

// -- what the shards say --------------------------------------------------------

/// What each shard says, in order, under a heading that names the shard.
pub open spec fn headed(s: Seq<Seq<char>>, before: Seq<char>, after: Seq<char>, end: Seq<char>) -> Seq<
    char,
>
    decreases s.len(),
{
    if s.len() == 0 {
        Seq::empty()
    } else {
        headed(s.drop_last(), before, after, end) + before + dec_text((s.len() - 1) as nat) + after
            + s.last() + end
    }
}

fn under_headings(said: &Vec<String>, before: &str, after: &str, end: &str) -> (s: String)
    ensures
        s@ == headed(texts(said@), before@, after@, end@),
{
    let ghost all = texts(said@);
    let mut s = String::new();
    let mut i: usize = 0;
    assert(all.take(0) =~= Seq::empty());
    assert(s@ =~= Seq::empty());
    while i < said.len()
        invariant
            i <= said@.len(),
            all == texts(said@),
            s@ == headed(all.take(i as int), before@, after@, end@),
        decreases said@.len() - i,
    {
        assert(all.take(i + 1).drop_last() =~= all.take(i as int));
        assert(all.take(i + 1).last() == said@[i as int]@);
        s.append(before);
        push_dec(&mut s, i as u64);
        s.append(after);
        s.append(said[i].as_str());
        s.append(end);
        i += 1;
    }
    assert(all.take(i as int) =~= all);
    s
}

impl ShardedDatabase {
    /// How a plan is answered: how each shard would, and then, where that is not the
    /// whole answer, the plan itself.
    pub fn explain(root: &LogicalOp, by_shard: &Vec<String>, plan: &str) -> (s: String)
        ensures
            s@ == headed(texts(by_shard@), "--- shard "@, " ---\n"@, "\n"@) + if only_pushdown(
                root.model(),
            ) {
                Seq::empty()
            } else {
                "--- merged, then centrally ---\n"@ + plan@
            },
    {
        let mut s = under_headings(by_shard, "--- shard ", " ---\n", "\n");
        let ghost said = s@;
        if !is_only_pushdown(root) {
            s.append("--- merged, then centrally ---\n");
            s.append(plan);
            assert(s@ =~= said + ("--- merged, then centrally ---\n"@ + plan@));
        } else {
            assert(s@ =~= said + Seq::empty());
        }
        s
    }

    /// What every shard has decided, shard by shard.
    pub fn explain_optimizations(by_shard: &Vec<String>) -> (s: String)
        ensures
            s@ == headed(texts(by_shard@), "--- shard "@, " ---\n"@, ""@),
    {
        under_headings(by_shard, "--- shard ", " ---\n", "")
    }

    /// What every shard has counted, shard by shard.
    pub fn metrics_text(by_shard: &Vec<String>) -> (s: String)
        ensures
            s@ == headed(texts(by_shard@), "# shard "@, "\n"@, ""@),
    {
        under_headings(by_shard, "# shard ", "\n", "")
    }
}

} // verus!
