//! However a database was tuned, it answers alike.
//!
//! A database goes through writes, collections that come, go and change, changes to how
//! records are kept, and queries, in any order. Writes alone decide what its records are.
//! Everything else leaves what is derived in agreement with them, and every kept result
//! true; so a query is answered with what executing it over the records gives, whatever
//! answers it.

use vstd::prelude::*;
use crate::action::{ActionModel, IndexKind};
use crate::answers::lemma_view_of_records;
use crate::applying::{a_change_keeps_agreement, carried_out, presents, Remaining};
use crate::caches::{rows_model, trimmed, with_entry, ResultCache, ResultEntry};
use crate::database::{
    agrees_elsewhere, agrees_with_arrival, agrees_with_departure, agrees_with_replacement, bumped,
    changed_in, dropped_results, epoch_of, nothing_derived, told_truly, Database,
};
use crate::derived::{agrees_with, enumerates, listed, view_faithful, Derived};
use crate::direct::reads_record;
use crate::error::Error;
use crate::expr::{Expr, ExprModel};
use crate::index::{evaluates, Group, Keeps, Records};
use crate::indexing::{composite_outcome, covering_outcome, index_outcome, partial_outcome};
use crate::managing::{
    created, creating_a_collection_keeps_agreement, dropping_everything_keeps_agreement, emptied,
    making_an_index_keeps_agreement, one_more, replanned,
};
use crate::matview::{answer_rows, definition, Cells, MaterializedView, MaterializedViews};
use crate::plan::{collection_of, OpModel};
use crate::queries::{asked_results, kept_rows, stage, view_built, Home, QueryMode, Stage};
use crate::reads::{a_whole_read_is_of_the_record, stored_field};
use crate::record::{field_of, fields_determine_a_record, named_in_order, Record, RecordModel};
use crate::reopening::{making_a_named_index_keeps_agreement, of_the_records};
use crate::rows::RowsModel;
use crate::schema::SchemaModel;
use crate::structures::CollectionModel;
use crate::verify::records_of;
use crate::whole::{a_batch_keeps_agreement, all_new, batch_into, has_room_for, with_rows};

verus! {

// -- what there is, and what is asked --------------------------------------------------

/// The records of every collection.
pub type Contents = Map<Seq<char>, Records>;

/// The records of a collection: none where nothing was written to it.
pub open spec fn held(all: Contents, c: Seq<char>) -> Records {
    if all.dom().contains(c) {
        all[c]
    } else {
        Map::empty()
    }
}

/// What executing a plan gives over the records of its collection. A plan is known by
/// its key. A join reads two collections; it is always executed, and nothing is kept of
/// it, so there is nothing here to say of one.
pub type Answers = spec_fn(u64, Records) -> RowsModel;

/// How a view's answer is handed out, its means divided.
pub type Shown = spec_fn(Seq<(u64, Cells)>) -> RowsModel;

/// The record of an id, if there is one.
pub open spec fn by_identity(t: Records, id: u64) -> RowsModel {
    if t.dom().contains(id) {
        seq![(id, t[id])]
    } else {
        Seq::empty()
    }
}

/// Whether a plan is executed as it says: a read by identity gives the record of that
/// id, and an aggregate of a whole collection gives what a view that holds what a scan
/// of the records computes reports.
pub open spec fn executed_as_said(answers: Answers, shown: Shown, op: OpModel, key: u64) -> bool {
    &&& op matches OpModel::GetById { id, .. } ==> forall|t: Records| #[trigger]
        answers(key, t) == by_identity(t, id)
    &&& definition(op) matches Some((_, d)) ==> forall|t: Records, v: MaterializedView, ids: Seq<u64>|
        #![trigger answers(key, t), v.follows(listed(ids, t))]
        v.wf() && v.exact() && v.def() == d && enumerates(ids, t) && v.follows(listed(ids, t))
            ==> answers(key, t) == shown(answer_rows(d, v.groups()))
}

// -- steps ------------------------------------------------------------------------------

/// An index that is asked for.
pub enum Making {
    /// By its name, put together from cached entries where there are any.
    Named { name: Seq<char>, kind: IndexKind, cached: Option<Seq<Group>> },
    Composite { fields: Seq<Seq<char>> },
    Covering { field: Seq<char>, covers: Seq<Seq<char>>, kind: IndexKind },
    Partial { field: Seq<char>, condition: ExprModel, kind: IndexKind },
}

/// One thing that happens to a database.
pub enum Step {
    Insert { collection: Seq<char>, id: u64, record: RecordModel },
    Update { collection: Seq<char>, id: u64, was: Option<RecordModel>, record: RecordModel },
    Delete { collection: Seq<char>, id: u64, was: Option<RecordModel> },
    /// Records inserted together.
    Batch { collection: Seq<char>, rows: RowsModel },
    /// A collection is created. While records are addressed directly one of constant
    /// size gets an array at once.
    Create { collection: Seq<char>, schema: SchemaModel, direct_lookup: bool },
    /// A collection's schema changed, at a caller's wish or to freeze it. `records` is
    /// what storage holds then.
    Alter { collection: Seq<char>, records: Records },
    Drop { collection: Seq<char> },
    /// A change to how records are kept, carried out or refused, with every collection
    /// as storage presents it.
    Change {
        action: ActionModel,
        presented: Seq<CollectionModel>,
        headroom: nat,
        result: Result<Remaining, Error>,
    },
    /// An index is asked for, with the rows of its collection as storage presents them.
    MakeIndex {
        collection: Seq<char>,
        known: bool,
        making: Making,
        rows: RowsModel,
        result: Result<bool, Error>,
    },
    /// Records moved between pages.
    Vacuum,
    Query { op: OpModel, key: u64 },
    /// What was kept of a collection goes.
    Bump { collection: Seq<char> },
    /// Whatever touches neither what is derived nor what is kept of results: what is
    /// tried, constrained, placed, specialised, planned or counted.
    Aside,
}

/// Whether a step says something of what there is, a collection or its records.
pub open spec fn writes(s: Step) -> bool {
    s is Insert || s is Update || s is Delete || s is Batch || s is Create || s is Alter || s is Drop
}

/// The records there are after the first `n` of a batch.
pub open spec fn after_rows(all: Contents, c: Seq<char>, rows: RowsModel, n: int) -> Contents
    decreases n,
{
    if n <= 0 {
        all
    } else {
        let before = after_rows(all, c, rows, n - 1);
        before.insert(c, held(before, c).insert(rows[n - 1].0, rows[n - 1].1))
    }
}

/// The records there are after a step.
pub open spec fn after(all: Contents, s: Step) -> Contents {
    match s {
        Step::Insert { collection, id, record } => all.insert(
            collection,
            held(all, collection).insert(id, record),
        ),
        Step::Update { collection, id, record, .. } => all.insert(
            collection,
            held(all, collection).insert(id, record),
        ),
        Step::Delete { collection, id, .. } => all.insert(
            collection,
            held(all, collection).remove(id),
        ),
        Step::Batch { collection, rows } => after_rows(all, collection, rows, rows.len() as int),
        Step::Alter { collection, records } => if records == held(all, collection) {
            all
        } else {
            all.insert(collection, records)
        },
        Step::Drop { collection } => all.remove(collection),
        _ => all,
    }
}

/// Whether kept results are what they were once one was asked for, and what executing
/// gave was kept.
pub open spec fn results_after(
    a: ResultCache,
    b: ResultCache,
    key: u64,
    c: Seq<char>,
    epoch: u64,
    rows: RowsModel,
) -> bool {
    exists|mid: ResultCache| #[trigger]
        asked_or_not(a, mid, key, epoch) && (b.model() == mid.model() || kept_rows(
            mid,
            b,
            key,
            c,
            epoch,
            rows,
        ))
}

pub open spec fn asked_or_not(a: ResultCache, b: ResultCache, key: u64, epoch: u64) -> bool {
    b.model() == a.model() || asked_results(a, b, key, epoch)
}

/// Whether views are those there were, or those and one built for a query from the
/// records of its collection.
pub open spec fn views_after_query(
    a: MaterializedViews,
    b: MaterializedViews,
    op: OpModel,
    all: Contents,
) -> bool {
    b.views() == a.views() || (definition(op) matches Some((c, _)) && exists|ids: Seq<u64>|
        #[trigger] enumerates(ids, held(all, c)) && view_built(a, b, op, listed(ids, held(all, c))))
}

/// What asking for an index comes to.
pub open spec fn made_by<E: Fn(&Expr, &Record) -> bool>(
    a: Derived,
    b: Derived,
    r: Result<bool, Error>,
    c: Seq<char>,
    known: bool,
    making: Making,
    rows: RowsModel,
    eval: E,
) -> bool {
    match making {
        Making::Named { name, kind, cached } => index_outcome(
            a,
            b,
            r,
            c,
            known,
            name,
            kind,
            cached,
            rows,
            eval,
        ),
        Making::Composite { fields } => composite_outcome(a, b, r, c, known, fields, rows, eval),
        Making::Covering { field, covers, kind } => covering_outcome(
            a,
            b,
            r,
            c,
            known,
            field,
            covers,
            kind,
            rows,
            eval,
        ),
        Making::Partial { field, condition, kind } => partial_outcome(
            a,
            b,
            r,
            c,
            known,
            field,
            condition,
            kind,
            rows,
            eval,
        ),
    }
}

/// Whether a state follows another by a step, as the operations of a database say.
/// Constraining a field is making an index and then a step aside.
pub open spec fn follows_by<E: Fn(&Expr, &Record) -> bool>(
    a: Database,
    b: Database,
    s: Step,
    all: Contents,
    eval: E,
    home: Home,
    answers: Answers,
) -> bool {
    b.wf() && match s {
        Step::Insert { collection, id, record } => {
            &&& named_in_order(record)
            &&& !held(all, collection).dom().contains(id)
            &&& changed_in(a, b, collection)
            &&& agrees_elsewhere(a.derived, b.derived, collection)
            &&& agrees_with_arrival(a.derived, b.derived, eval, collection, id, record)
        },
        Step::Update { collection, id, was, record } => {
            &&& named_in_order(record)
            &&& told_truly(a.derived, collection, held(all, collection), id, was)
            &&& changed_in(a, b, collection)
            &&& agrees_elsewhere(a.derived, b.derived, collection)
            &&& agrees_with_replacement(a.derived, b.derived, eval, collection, id, was, record)
        },
        Step::Delete { collection, id, was } => {
            &&& told_truly(a.derived, collection, held(all, collection), id, was)
            &&& changed_in(a, b, collection)
            &&& agrees_elsewhere(a.derived, b.derived, collection)
            &&& agrees_with_departure(a.derived, b.derived, eval, collection, id, was)
        },
        Step::Batch { collection, rows } => {
            &&& forall|i: int| 0 <= i < rows.len() ==> named_in_order((#[trigger] rows[i]).1)
            &&& all_new(held(all, collection), rows)
            &&& has_room_for(a.derived, collection, rows.len())
            &&& changed_in(a, b, collection)
            &&& agrees_elsewhere(a.derived, b.derived, collection)
            &&& forall|keeps: Keeps| #[trigger]
                evaluates(eval, keeps) ==> batch_into(
                    a.derived,
                    b.derived,
                    keeps,
                    collection,
                    rows,
                    rows.len() as int,
                )
        },
        Step::Create { collection, schema, direct_lookup } => {
            &&& forall|id: u64| !#[trigger] held(all, collection).dom().contains(id)
            &&& created(a, b, collection, schema, direct_lookup)
        },
        Step::Alter { collection, records } => {
            &&& forall|id: u64| #[trigger]
                records.dom().contains(id) ==> named_in_order(records[id])
            &&& emptied(a.derived, b.derived, collection)
            &&& replanned(a, b, collection, true, true)
        },
        Step::Drop { collection } => {
            &&& emptied(a.derived, b.derived, collection)
            &&& replanned(a, b, collection, true, true)
        },
        Step::MakeIndex { collection, known, making, rows, result } => {
            &&& known ==> records_of(rows) == held(all, collection)
            &&& made_by(a.derived, b.derived, result, collection, known, making, rows, eval)
            &&& making matches Making::Named { name, cached, .. } ==> forall|keeps: Keeps|
                #[trigger] evaluates(eval, keeps) && known ==> of_the_records(
                    cached,
                    name,
                    keeps,
                    held(all, collection),
                )
            &&& if result == Ok::<bool, Error>(true) {
                exists|paths: bool, results: bool|
                    replanned(a, b, collection, paths, results)
            } else {
                b == a
            }
        },
        Step::Vacuum => {
            &&& b == (Database {
                derived: Derived { direct: b.derived.direct, ..a.derived },
                plan_cache: b.plan_cache,
                compiled: b.compiled,
                ..a
            })
            &&& forall|c: Seq<char>| #[trigger] b.derived.array_of(c) is None
        },
        Step::Bump { collection } => {
            &&& changed_in(a, b, collection)
            &&& b.derived == a.derived
        },
        Step::Aside => {
            &&& b.derived == a.derived
            &&& b.epochs == a.epochs
            &&& b.result_cache == a.result_cache
        },
        Step::Change { action, presented, headroom, result } => {
            &&& forall|c: Seq<char>| #[trigger] presents(presented, c, held(all, c))
            &&& carried_out(
                (Database { trials: b.trials, ..a }),
                b,
                action,
                presented,
                headroom,
                eval,
                result,
            )
        },
        Step::Query { op, key } => {
            let c = collection_of(op);
            &&& home(key) == c
            &&& b == (Database {
                derived: Derived { views: b.derived.views, ..a.derived },
                result_cache: b.result_cache,
                plan_cache: b.plan_cache,
                compiled: b.compiled,
                trials: b.trials,
                ..a
            })
            &&& views_after_query(a.derived.views, b.derived.views, op, all)
            &&& results_after(
                a.result_cache,
                b.result_cache,
                key,
                c,
                epoch_of(a.epochs, c),
                answers(key, held(all, c)),
            )
        },
    }
}

// -- what every step keeps ----------------------------------------------------------------

/// Whether every kept result that could be served is what its query answers now.
pub open spec fn results_true(db: Database, all: Contents, home: Home, answers: Answers) -> bool {
    let m = db.result_cache.model();
    forall|k: u64| #[trigger]
        m.entries.contains_key(k) ==> m.entries[k].source() == home(k) && (m.entries[k].epoch()
            == epoch_of(db.epochs, home(k)) ==> rows_model(m.entries[k].rows()) == answers(
            k,
            held(all, home(k)),
        ))
}

/// Whether a database says what the records say.
pub open spec fn truthful(
    db: Database,
    all: Contents,
    keeps: Keeps,
    home: Home,
    answers: Answers,
) -> bool {
    &&& db.wf()
    &&& forall|c: Seq<char>| #[trigger] agrees_with(db.derived, keeps, c, held(all, c))
    &&& results_true(db, all, home, answers)
    &&& forall|c: Seq<char>, id: u64|
        held(all, c).dom().contains(id) ==> named_in_order(#[trigger] held(all, c)[id])
}

proof fn lemma_no_more(
    a: Database,
    b: Database,
    all: Contents,
    home: Home,
    answers: Answers,
)
    requires
        results_true(a, all, home, answers),
        b.epochs == a.epochs,
        forall|k: u64| #[trigger]
            b.result_cache.model().entries.contains_key(k)
                ==> a.result_cache.model().entries.contains_key(k)
                && b.result_cache.model().entries[k] == a.result_cache.model().entries[k],
    ensures
        results_true(b, all, home, answers),
{
    let (x, y) = (a.result_cache.model(), b.result_cache.model());
    assert forall|k: u64| #[trigger] y.entries.contains_key(k) implies y.entries[k].source() == home(
        k,
    ) && (y.entries[k].epoch() == epoch_of(b.epochs, home(k)) ==> rows_model(y.entries[k].rows())
        == answers(k, held(all, home(k)))) by {
        assert(x.entries.contains_key(k));
    }
}

/// What is kept of other collections stays true where one's epoch moves on.
proof fn lemma_bumped(
    a: Database,
    b: Database,
    c: Seq<char>,
    all: Contents,
    now: Contents,
    home: Home,
    answers: Answers,
)
    requires
        bumped(a.epochs, b.epochs, c),
        dropped_results(a.result_cache, b.result_cache, c),
        forall|other: Seq<char>| other != c ==> #[trigger] held(now, other) == held(all, other),
        results_true(a, all, home, answers),
    ensures
        results_true(b, now, home, answers),
{
    let (x, y) = (a.result_cache.model(), b.result_cache.model());
    assert forall|k: u64| #[trigger] y.entries.contains_key(k) implies y.entries[k].source() == home(
        k,
    ) && (y.entries[k].epoch() == epoch_of(b.epochs, home(k)) ==> rows_model(y.entries[k].rows())
        == answers(k, held(now, home(k)))) by {
        assert(x.entries.contains_key(k));
        assert(home(k) != c);
        assert(b.epochs.of(home(k)) == a.epochs.of(home(k)));
        assert(held(now, home(k)) == held(all, home(k)));
    }
}

/// A batch adds its rows to its collection and leaves every other as it was.
proof fn lemma_after_rows(all: Contents, c: Seq<char>, rows: RowsModel, n: int)
    requires
        0 <= n <= rows.len(),
    ensures
        held(after_rows(all, c, rows, n), c) == with_rows(held(all, c), rows, n),
        forall|other: Seq<char>|
            other != c ==> #[trigger] held(after_rows(all, c, rows, n), other) == held(all, other),
    decreases n,
{
    if n > 0 {
        lemma_after_rows(all, c, rows, n - 1);
        let before = after_rows(all, c, rows, n - 1);
        assert forall|other: Seq<char>| other != c implies #[trigger] held(
            after_rows(all, c, rows, n),
            other,
        ) == held(all, other) by {
            assert(held(before, other) == held(all, other));
        }
    }
}

proof fn lemma_rows_in_order(t: Records, rows: RowsModel, n: int, id: u64)
    requires
        0 <= n <= rows.len(),
        t.dom().contains(id) ==> named_in_order(t[id]),
        forall|i: int| 0 <= i < rows.len() ==> named_in_order((#[trigger] rows[i]).1),
        with_rows(t, rows, n).dom().contains(id),
    ensures
        named_in_order(with_rows(t, rows, n)[id]),
    decreases n,
{
    if n > 0 {
        assert(named_in_order(rows[n - 1].1));
        if id != rows[n - 1].0 {
            lemma_rows_in_order(t, rows, n - 1, id);
        }
    }
}

/// Asking for an index keeps agreement.
proof fn lemma_made<E: Fn(&Expr, &Record) -> bool>(
    a: Derived,
    b: Derived,
    r: Result<bool, Error>,
    c: Seq<char>,
    known: bool,
    making: Making,
    rows: RowsModel,
    eval: E,
    keeps: Keeps,
    t: Records,
)
    requires
        made_by(a, b, r, c, known, making, rows, eval),
        evaluates(eval, keeps),
        agrees_with(a, keeps, c, t),
        known ==> records_of(rows) == t,
        making matches Making::Named { name, cached, .. } ==> (known ==> of_the_records(
            cached,
            name,
            keeps,
            t,
        )),
    ensures
        agrees_with(b, keeps, c, t),
        agrees_elsewhere(a, b, c),
{
    match making {
        Making::Named { name, kind, cached } => {
            making_a_named_index_keeps_agreement(
                a,
                b,
                r,
                c,
                known,
                name,
                kind,
                cached,
                rows,
                eval,
                keeps,
                t,
            );
        },
        _ => {
            if r == Ok::<bool, Error>(true) {
                assert(one_more(a, b, keeps, c, t));
                making_an_index_keeps_agreement(a, b, keeps, c, t);
            } else {
                assert(b.indexes_of(c) == a.indexes_of(c));
                assert(b.array_of(c) == a.array_of(c));
                assert(b.columns_of(c) == a.columns_of(c));
            }
        },
    }
    assert forall|k: Keeps, other: Seq<char>, u: Records|
        other != c && #[trigger] agrees_with(a, k, other, u) implies agrees_with(b, k, other, u) by {
        assert(b.indexes_of(other) == a.indexes_of(other));
    }
}

proof fn lemma_query_results(
    a: Database,
    b: Database,
    key: u64,
    c: Seq<char>,
    all: Contents,
    home: Home,
    answers: Answers,
)
    requires
        results_true(a, all, home, answers),
        b.epochs == a.epochs,
        home(key) == c,
        results_after(
            a.result_cache,
            b.result_cache,
            key,
            c,
            epoch_of(a.epochs, c),
            answers(key, held(all, c)),
        ),
    ensures
        results_true(b, all, home, answers),
{
    let epoch = epoch_of(a.epochs, c);
    let rows = answers(key, held(all, c));
    let mid = choose|mid: ResultCache| #[trigger]
        asked_or_not(a.result_cache, mid, key, epoch) && (b.result_cache.model() == mid.model()
            || kept_rows(mid, b.result_cache, key, c, epoch, rows));
    let m = Database { result_cache: mid, ..a };
    lemma_no_more(a, m, all, home, answers);
    if b.result_cache.model() == mid.model() || mid.model().capacity == 0 {
        lemma_no_more(m, b, all, home, answers);
    } else {
        let e = choose|e: ResultEntry|
            #![trigger with_entry(mid.model(), key, e)]
            {
                &&& e.source() == c
                &&& e.epoch() == epoch
                &&& rows_model(e.rows()) == rows
                &&& b.result_cache.model() == trimmed(with_entry(mid.model(), key, e))
            };
        let y = b.result_cache.model();
        assert forall|k: u64| #[trigger] y.entries.contains_key(k) implies y.entries[k].source()
            == home(k) && (y.entries[k].epoch() == epoch_of(b.epochs, home(k)) ==> rows_model(
            y.entries[k].rows(),
        ) == answers(k, held(all, home(k)))) by {
            if k != key {
                assert(mid.model().entries.contains_key(k));
            }
        }
    }
}

/// Every step keeps a database truthful to the records there then are.
pub proof fn every_step_keeps_a_database_truthful<E: Fn(&Expr, &Record) -> bool>(
    a: Database,
    b: Database,
    s: Step,
    all: Contents,
    eval: E,
    keeps: Keeps,
    home: Home,
    answers: Answers,
)
    requires
        evaluates(eval, keeps),
        truthful(a, all, keeps, home, answers),
        follows_by(a, b, s, all, eval, home, answers),
    ensures
        truthful(b, after(all, s), keeps, home, answers),
{
    let now = after(all, s);
    match s {
        Step::Insert { collection, .. } => {
            lemma_bumped(a, b, collection, all, now, home, answers);
        },
        Step::Update { collection, .. } => {
            lemma_bumped(a, b, collection, all, now, home, answers);
        },
        Step::Delete { collection, .. } => {
            lemma_bumped(a, b, collection, all, now, home, answers);
        },
        Step::Batch { collection, rows } => {
            lemma_after_rows(all, collection, rows, rows.len() as int);
            lemma_bumped(a, b, collection, all, now, home, answers);
        },
        Step::Alter { collection, records } => {
            lemma_bumped(a, b, collection, all, now, home, answers);
        },
        Step::Drop { collection } => {
            lemma_bumped(a, b, collection, all, now, home, answers);
        },
        Step::Bump { collection } => {
            lemma_bumped(a, b, collection, all, now, home, answers);
        },
        Step::MakeIndex { collection, .. } => {
            if bumped(a.epochs, b.epochs, collection) && dropped_results(
                a.result_cache,
                b.result_cache,
                collection,
            ) {
                lemma_bumped(a, b, collection, all, now, home, answers);
            } else {
                lemma_no_more(a, b, all, home, answers);
            }
        },
        Step::Query { op, key } => {
            lemma_query_results(a, b, key, collection_of(op), all, home, answers);
        },
        _ => {
            lemma_no_more(a, b, all, home, answers);
        },
    }
    assert forall|c: Seq<char>| #[trigger] agrees_with(b.derived, keeps, c, held(now, c)) by {
        lemma_agrees_after(a, b, s, all, eval, keeps, home, answers, c);
    }
    assert forall|c: Seq<char>, id: u64| held(now, c).dom().contains(id) implies named_in_order(
        #[trigger] held(now, c)[id],
    ) by {
        if held(all, c).dom().contains(id) {
            assert(named_in_order(held(all, c)[id]));
        }
        if let Step::Batch { collection, rows } = s {
            if c == collection {
                lemma_rows_in_order(held(all, c), rows, rows.len() as int, id);
            }
        }
    }
}

/// What is derived from a collection agrees with its records after a step.
proof fn lemma_agrees_after<E: Fn(&Expr, &Record) -> bool>(
    a: Database,
    b: Database,
    s: Step,
    all: Contents,
    eval: E,
    keeps: Keeps,
    home: Home,
    answers: Answers,
    c: Seq<char>,
)
    requires
        evaluates(eval, keeps),
        forall|o: Seq<char>| #[trigger] agrees_with(a.derived, keeps, o, held(all, o)),
        follows_by(a, b, s, all, eval, home, answers),
    ensures
        agrees_with(b.derived, keeps, c, held(after(all, s), c)),
{
    let now = after(all, s);
    let t = held(all, c);
    assert(agrees_with(a.derived, keeps, c, t));
    match s {
        Step::Insert { collection, id, record } => {
            if c == collection {
                assert(held(now, c) == t.insert(id, record));
            }
        },
        Step::Update { collection, id, was, record } => {
            if c == collection {
                assert(held(now, c) == t.insert(id, record));
            }
        },
        Step::Delete { collection, id, was } => {
            if c == collection {
                assert(held(now, c) == t.remove(id));
            }
        },
        Step::Batch { collection, rows } => {
            lemma_after_rows(all, collection, rows, rows.len() as int);
            if c == collection {
                a_batch_keeps_agreement(
                    a.derived,
                    b.derived,
                    keeps,
                    c,
                    t,
                    rows,
                    rows.len() as int,
                );
            }
        },
        Step::Create { collection, schema, direct_lookup } => {
            creating_a_collection_keeps_agreement(
                a,
                b,
                collection,
                schema,
                direct_lookup,
                keeps,
                c,
                t,
            );
        },
        Step::Alter { collection, records } => {
            dropping_everything_keeps_agreement(
                a.derived,
                b.derived,
                keeps,
                collection,
                held(now, collection),
            );
        },
        Step::Drop { collection } => {
            dropping_everything_keeps_agreement(
                a.derived,
                b.derived,
                keeps,
                collection,
                held(now, collection),
            );
        },
        Step::MakeIndex { collection, known, making, rows, result } => {
            assert(agrees_with(a.derived, keeps, collection, held(all, collection)));
            lemma_made(
                a.derived,
                b.derived,
                result,
                collection,
                known,
                making,
                rows,
                eval,
                keeps,
                held(all, collection),
            );
        },
        Step::Change { action, presented, headroom, result } => {
            assert(presents(presented, c, t));
            a_change_keeps_agreement(
                Database { trials: b.trials, ..a },
                b,
                action,
                presented,
                headroom,
                eval,
                result,
                keeps,
                c,
                t,
            );
        },
        Step::Vacuum => {
            assert(b.derived.indexes_of(c) == a.derived.indexes_of(c));
            assert(b.derived.array_of(c) is None);
            assert(b.derived.columns_of(c) == a.derived.columns_of(c));
        },
        Step::Query { op, key } => {
            let (x, y) = (a.derived.views.views(), b.derived.views.views());
            assert(b.derived.indexes_of(c) == a.derived.indexes_of(c));
            assert(b.derived.array_of(c) == a.derived.array_of(c));
            assert(b.derived.columns_of(c) == a.derived.columns_of(c));
            assert forall|i: int| 0 <= i < y.len() && (#[trigger] y[i]).source()
                == c implies view_faithful(y[i], t) by {
                if i < x.len() {
                    assert(y[i] == x[i]);
                }
            }
        },
        Step::Bump { .. } => {},
        Step::Aside => {},
    }
}

// -- answers ------------------------------------------------------------------------------

/// The rows a read by identity found.
pub open spec fn rows_found(id: u64, x: Result<Option<Record>, Error>) -> RowsModel {
    match x {
        Ok(Some(rec)) => seq![(id, rec.model())],
        _ => Seq::empty(),
    }
}

/// Whether a query is answered with these rows: by whatever answers it, and by executing
/// it where nothing does.
pub open spec fn answered(
    db: Database,
    op: OpModel,
    shape: u64,
    key: u64,
    mode: QueryMode,
    t: Records,
    answers: Answers,
    shown: Shown,
    rows: RowsModel,
) -> bool {
    match stage(db, op, shape, key, mode) {
        Stage::Identity(id) => match db.derived.array_of(collection_of(op)) {
            Some(a) => exists|x: Result<Option<Record>, Error>| #[trigger]
                reads_record(a, id, x) && rows == rows_found(id, x) && (x matches Ok(Some(rec))
                    ==> named_in_order(rec.model())),
            None => rows == by_identity(t, id),
        },
        Stage::View(v) => rows == shown(answer_rows(v.def(), v.groups())),
        Stage::Kept(kept) => rows == kept,
        Stage::Plan => rows == answers(key, t),
    }
}

/// Whether the records of a collection that is addressed directly are as its layout
/// gives them back: no field is set to null, and no number in a signed field is unsigned.
pub open spec fn as_laid_out(db: Database, c: Seq<char>, t: Records) -> bool {
    db.derived.array_of(c) matches Some(a) ==> forall|id: u64, name: Seq<char>|
        t.dom().contains(id) ==> stored_field(a, t[id], name) == #[trigger] field_of(t[id], name)
}

/// A query is answered with what executing it over the records gives, whatever answers
/// it: a specialised path, a view, a kept result or the execution itself.
pub proof fn an_answer_is_what_executing_gives(
    db: Database,
    all: Contents,
    keeps: Keeps,
    home: Home,
    answers: Answers,
    shown: Shown,
    op: OpModel,
    shape: u64,
    key: u64,
    mode: QueryMode,
    rows: RowsModel,
)
    requires
        truthful(db, all, keeps, home, answers),
        home(key) == collection_of(op),
        executed_as_said(answers, shown, op, key),
        as_laid_out(db, collection_of(op), held(all, collection_of(op))),
        answered(
            db,
            op,
            shape,
            key,
            mode,
            held(all, collection_of(op)),
            answers,
            shown,
            rows,
        ),
    ensures
        rows == answers(key, held(all, collection_of(op))),
{
    let c = collection_of(op);
    let t = held(all, c);
    assert(agrees_with(db.derived, keeps, c, t));
    match stage(db, op, shape, key, mode) {
        Stage::Identity(id) => {
            assert(answers(key, t) == by_identity(t, id));
            if let Some(a) = db.derived.array_of(c) {
                let x = choose|x: Result<Option<Record>, Error>| #[trigger]
                    reads_record(a, id, x) && rows == rows_found(id, x) && (x matches Ok(Some(rec))
                        ==> named_in_order(rec.model()));
                assert(db.derived.direct.of(c) is Some);
                db.derived.direct.of(c)->Some_0.an_array_is_uniform(id);
                a_whole_read_is_of_the_record(a, t, id, x);
                if t.dom().contains(id) {
                    let rec = x->Ok_0->Some_0;
                    assert(named_in_order(held(all, c)[id]));
                    assert forall|n: Seq<char>| #[trigger]
                        field_of(rec.model(), n) == field_of(t[id], n) by {
                        assert(stored_field(a, t[id], n) == field_of(t[id], n));
                    }
                    fields_determine_a_record(rec.model(), t[id]);
                }
            }
        },
        Stage::View(v) => {
            let ids = lemma_view_of_records(db, keeps, t, op);
            assert(v.follows(listed(ids, t)));
            assert(answers(key, t) == answers(key, t));
        },
        Stage::Kept(kept) => {
            assert(db.result_cache.model().entries.contains_key(key));
        },
        Stage::Plan => {},
    }
}

// -- histories ------------------------------------------------------------------------------

/// The records there are after the first `n` steps.
pub open spec fn contents(start: Contents, steps: Seq<Step>, n: int) -> Contents
    decreases n,
{
    if n <= 0 {
        start
    } else {
        after(contents(start, steps, n - 1), steps[n - 1])
    }
}

/// Whether records stand as storage hands them over: the names of each in order.
pub open spec fn all_in_order(all: Contents) -> bool {
    forall|c: Seq<char>, id: u64|
        held(all, c).dom().contains(id) ==> named_in_order(#[trigger] held(all, c)[id])
}

/// Whether states are those of a database that was opened over some records with nothing
/// derived from them, and went through steps.
pub open spec fn lived<E: Fn(&Expr, &Record) -> bool>(
    start: Contents,
    states: Seq<Database>,
    steps: Seq<Step>,
    eval: E,
    home: Home,
    answers: Answers,
) -> bool {
    &&& all_in_order(start)
    &&& states.len() == steps.len() + 1
    &&& states[0].wf()
    &&& nothing_derived(states[0])
    &&& forall|i: int|
        0 <= i < steps.len() ==> follows_by(
            #[trigger] states[i],
            states[i + 1],
            steps[i],
            contents(start, steps, i),
            eval,
            home,
            answers,
        )
}

/// A database is truthful to the records it was opened over and what was written since,
/// after whatever it went through.
pub proof fn a_history_leaves_a_database_truthful<E: Fn(&Expr, &Record) -> bool>(
    start: Contents,
    states: Seq<Database>,
    steps: Seq<Step>,
    eval: E,
    keeps: Keeps,
    home: Home,
    answers: Answers,
    n: int,
)
    requires
        lived(start, states, steps, eval, home, answers),
        evaluates(eval, keeps),
        0 <= n <= steps.len(),
    ensures
        truthful(states[n], contents(start, steps, n), keeps, home, answers),
    decreases n,
{
    if n > 0 {
        a_history_leaves_a_database_truthful(
            start,
            states,
            steps,
            eval,
            keeps,
            home,
            answers,
            n - 1,
        );
        assert(follows_by(
            states[n - 1],
            states[n - 1 + 1],
            steps[n - 1],
            contents(start, steps, n - 1),
            eval,
            home,
            answers,
        ));
        every_step_keeps_a_database_truthful(
            states[n - 1],
            states[n],
            steps[n - 1],
            contents(start, steps, n - 1),
            eval,
            keeps,
            home,
            answers,
        );
    } else {
        assert forall|c: Seq<char>| #[trigger]
            agrees_with(states[0].derived, keeps, c, held(start, c)) by {}
    }
}

/// A write by what it writes: without what it was told there was, or how records were
/// addressed.
pub open spec fn plain(s: Step) -> Step {
    match s {
        Step::Update { collection, id, was, record } => Step::Update {
            collection,
            id,
            was: None,
            record,
        },
        Step::Delete { collection, id, was } => Step::Delete { collection, id, was: None },
        Step::Create { collection, schema, direct_lookup } => Step::Create {
            collection,
            schema,
            direct_lookup: false,
        },
        _ => s,
    }
}

/// The inserts a batch comes to.
pub open spec fn inserts(c: Seq<char>, rows: RowsModel) -> Seq<Step> {
    rows.map_values(|p: (u64, RecordModel)| Step::Insert { collection: c, id: p.0, record: p.1 })
}

/// What a step writes where there are these records. A batch counts as its inserts. A
/// schema that changed counts where storage then holds something else, and not where it
/// was frozen around the records there are.
pub open spec fn written_by(all: Contents, s: Step) -> Seq<Step> {
    match s {
        Step::Batch { collection, rows } => inserts(collection, rows),
        Step::Alter { collection, records } => if records == held(all, collection) {
            Seq::empty()
        } else {
            seq![s]
        },
        _ => if writes(s) {
            seq![plain(s)]
        } else {
            Seq::empty()
        },
    }
}

/// What was written, in order.
pub open spec fn written(start: Contents, steps: Seq<Step>) -> Seq<Step>
    decreases steps.len(),
{
    if steps.len() == 0 {
        Seq::empty()
    } else {
        let rest = steps.drop_last();
        written(start, rest) + written_by(contents(start, rest, rest.len() as int), steps.last())
    }
}

proof fn lemma_contents_prefix(start: Contents, a: Seq<Step>, b: Seq<Step>, n: int)
    requires
        0 <= n <= a.len(),
        n <= b.len(),
        forall|i: int| 0 <= i < n ==> a[i] == b[i],
    ensures
        contents(start, a, n) == contents(start, b, n),
    decreases n,
{
    if n > 0 {
        lemma_contents_prefix(start, a, b, n - 1);
        assert(a[n - 1] == b[n - 1]);
    }
}

proof fn lemma_contents_of_batch(
    start: Contents,
    v: Seq<Step>,
    c: Seq<char>,
    rows: RowsModel,
    n: int,
)
    requires
        0 <= n <= rows.len(),
    ensures
        contents(start, v + inserts(c, rows), v.len() + n) == after_rows(
            contents(start, v, v.len() as int),
            c,
            rows,
            n,
        ),
    decreases n,
{
    let w = v + inserts(c, rows);
    if n > 0 {
        lemma_contents_of_batch(start, v, c, rows, n - 1);
        assert(w[v.len() + n - 1] == inserts(c, rows)[n - 1]);
    } else {
        lemma_contents_prefix(start, w, v, v.len() as int);
    }
}

/// Writes alone decide what the records are.
pub proof fn writes_decide_what_there_is(start: Contents, steps: Seq<Step>)
    ensures
        contents(start, steps, steps.len() as int) == contents(
            start,
            written(start, steps),
            written(start, steps).len() as int,
        ),
    decreases steps.len(),
{
    if steps.len() > 0 {
        let n = steps.len() as int;
        let rest = steps.drop_last();
        let s = steps.last();
        writes_decide_what_there_is(start, rest);
        lemma_contents_prefix(start, steps, rest, n - 1);
        let v = written(start, rest);
        let before = contents(start, rest, n - 1);
        let w = v + written_by(before, s);
        if let Step::Batch { collection, rows } = s {
            lemma_contents_of_batch(start, v, collection, rows, rows.len() as int);
        } else {
            lemma_contents_prefix(start, w, v, v.len() as int);
            if written_by(before, s).len() > 0 {
                assert(w[v.len() as int] == plain(s));
            } else {
                assert(w =~= v);
            }
        }
    }
}

/// Two databases that hold the same records answer a query alike, whatever each has been
/// through and whatever answers it in each.
pub proof fn the_same_records_answer_alike(
    a: Database,
    b: Database,
    all: Contents,
    keeps: Keeps,
    home: Home,
    answers: Answers,
    shown: Shown,
    op: OpModel,
    shape: u64,
    key: u64,
    mode_a: QueryMode,
    mode_b: QueryMode,
    rows_a: RowsModel,
    rows_b: RowsModel,
)
    requires
        truthful(a, all, keeps, home, answers),
        truthful(b, all, keeps, home, answers),
        home(key) == collection_of(op),
        executed_as_said(answers, shown, op, key),
        ({
            let c = collection_of(op);
            let t = held(all, c);
            &&& as_laid_out(a, c, t)
            &&& as_laid_out(b, c, t)
            &&& answered(a, op, shape, key, mode_a, t, answers, shown, rows_a)
            &&& answered(b, op, shape, key, mode_b, t, answers, shown, rows_b)
        }),
    ensures
        rows_a == rows_b,
{
    an_answer_is_what_executing_gives(
        a,
        all,
        keeps,
        home,
        answers,
        shown,
        op,
        shape,
        key,
        mode_a,
        rows_a,
    );
    an_answer_is_what_executing_gives(
        b,
        all,
        keeps,
        home,
        answers,
        shown,
        op,
        shape,
        key,
        mode_b,
        rows_b,
    );
}

/// A query measured both ways has one answer: a structure on trial changes no rows,
/// whether it is shown or hidden, and whether the query is served, measured or neither.
pub proof fn a_query_measured_both_ways_has_one_answer(
    a: Database,
    b: Database,
    all: Contents,
    keeps: Keeps,
    home: Home,
    answers: Answers,
    shown: Shown,
    op: OpModel,
    shape: u64,
    key: u64,
    mode_a: QueryMode,
    mode_b: QueryMode,
    rows_a: RowsModel,
    rows_b: RowsModel,
)
    requires
        truthful(a, all, keeps, home, answers),
        b.wf(),
        b == (Database { trials: b.trials, ..a }),
        home(key) == collection_of(op),
        executed_as_said(answers, shown, op, key),
        ({
            let c = collection_of(op);
            let t = held(all, c);
            &&& as_laid_out(a, c, t)
            &&& answered(a, op, shape, key, mode_a, t, answers, shown, rows_a)
            &&& answered(b, op, shape, key, mode_b, t, answers, shown, rows_b)
        }),
    ensures
        rows_a == rows_b,
{
    the_same_records_answer_alike(
        a,
        b,
        all,
        keeps,
        home,
        answers,
        shown,
        op,
        shape,
        key,
        mode_a,
        mode_b,
        rows_a,
        rows_b,
    );
}

/// Optimization never changes an answer. Two databases begin with the same records, or
/// none, and are written the same: collections are created, altered and dropped, records
/// inserted one by one or together, replaced and deleted. In between indexes are made,
/// changes to how records are kept are carried out, schemas are frozen, pages are
/// vacuumed and queries are asked, any of them, as often and in whatever order. Then a
/// query has the same rows in the same order from both, whatever answers it in each.
pub proof fn optimization_never_changes_an_answer<E: Fn(&Expr, &Record) -> bool>(
    start: Contents,
    a: Seq<Database>,
    b: Seq<Database>,
    steps_a: Seq<Step>,
    steps_b: Seq<Step>,
    eval: E,
    keeps: Keeps,
    home: Home,
    answers: Answers,
    shown: Shown,
    op: OpModel,
    shape: u64,
    key: u64,
    mode_a: QueryMode,
    mode_b: QueryMode,
    rows_a: RowsModel,
    rows_b: RowsModel,
)
    requires
        lived(start, a, steps_a, eval, home, answers),
        lived(start, b, steps_b, eval, home, answers),
        evaluates(eval, keeps),
        written(start, steps_a) == written(start, steps_b),
        home(key) == collection_of(op),
        executed_as_said(answers, shown, op, key),
        ({
            let c = collection_of(op);
            let t = held(contents(start, steps_a, steps_a.len() as int), c);
            &&& as_laid_out(a.last(), c, t)
            &&& as_laid_out(b.last(), c, t)
            &&& answered(a.last(), op, shape, key, mode_a, t, answers, shown, rows_a)
            &&& answered(b.last(), op, shape, key, mode_b, t, answers, shown, rows_b)
        }),
    ensures
        rows_a == rows_b,
{
    let (m, n) = (steps_a.len() as int, steps_b.len() as int);
    writes_decide_what_there_is(start, steps_a);
    writes_decide_what_there_is(start, steps_b);
    let all = contents(start, steps_a, m);
    assert(all == contents(start, steps_b, n));
    a_history_leaves_a_database_truthful(start, a, steps_a, eval, keeps, home, answers, m);
    a_history_leaves_a_database_truthful(start, b, steps_b, eval, keeps, home, answers, n);
    the_same_records_answer_alike(
        a.last(),
        b.last(),
        all,
        keeps,
        home,
        answers,
        shown,
        op,
        shape,
        key,
        mode_a,
        mode_b,
        rows_a,
        rows_b,
    );
}

/// A database opened again answers as it did. It is opened over the records it was closed
/// with; its indexes come back, from cached entries that are of the records or from the
/// records; it may be tuned in any way, and as long as nothing is written a query has the
/// rows it had, in the order it had them.
pub proof fn a_database_opened_again_answers_as_it_did<E: Fn(&Expr, &Record) -> bool>(
    start: Contents,
    before: Seq<Database>,
    again: Seq<Database>,
    steps: Seq<Step>,
    since: Seq<Step>,
    eval: E,
    keeps: Keeps,
    home: Home,
    answers: Answers,
    shown: Shown,
    op: OpModel,
    shape: u64,
    key: u64,
    mode: QueryMode,
    mode_again: QueryMode,
    rows: RowsModel,
    rows_again: RowsModel,
)
    requires
        lived(start, before, steps, eval, home, answers),
        lived(contents(start, steps, steps.len() as int), again, since, eval, home, answers),
        evaluates(eval, keeps),
        written(contents(start, steps, steps.len() as int), since) == Seq::<Step>::empty(),
        home(key) == collection_of(op),
        executed_as_said(answers, shown, op, key),
        ({
            let c = collection_of(op);
            let t = held(contents(start, steps, steps.len() as int), c);
            &&& as_laid_out(before.last(), c, t)
            &&& as_laid_out(again.last(), c, t)
            &&& answered(before.last(), op, shape, key, mode, t, answers, shown, rows)
            &&& answered(again.last(), op, shape, key, mode_again, t, answers, shown, rows_again)
        }),
    ensures
        rows == rows_again,
{
    let (m, n) = (steps.len() as int, since.len() as int);
    let all = contents(start, steps, m);
    writes_decide_what_there_is(all, since);
    a_history_leaves_a_database_truthful(start, before, steps, eval, keeps, home, answers, m);
    a_history_leaves_a_database_truthful(all, again, since, eval, keeps, home, answers, n);
    the_same_records_answer_alike(
        before.last(),
        again.last(),
        all,
        keeps,
        home,
        answers,
        shown,
        op,
        shape,
        key,
        mode,
        mode_again,
        rows,
        rows_again,
    );
}

} // verus!
