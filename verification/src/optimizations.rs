//! The optimizations the engine has: what each is, when it is possible, what it
//! is expected to cost, and the changes that switch it on and off.
//!
//! Whether one is possible and whether it is wise are different questions. The
//! first is answered by `applicability`, the second by `estimate`, so that a
//! passing workload cannot veto an optimization for good.

use vstd::prelude::*;
use vstd::string::*;
use crate::action::{
    action_models, actions_text, describe_actions, Action, ActionModel, IndexKind,
};
use crate::double::{push_share, share_text};
use crate::text::{dec_text, push_dec, str_eq, texts};

verus! {

/// What an optimization is judged for.
#[derive(Clone, Copy, Debug, PartialEq, Eq, Structural)]
pub enum ScopeKind {
    Global,
    PerCollection,
    PerField,
}

/// What it takes to go back.
#[derive(Clone, Copy, Debug, PartialEq, Eq, Structural)]
pub enum Reversibility {
    Instant,
    RebuildRequired,
    Destructive,
}

/// What an optimization does to each of the three axes. More is better.
#[derive(Clone, Copy, Debug, PartialEq, Eq, Structural)]
pub struct AxisEffects {
    pub speed: i8,
    pub resources: i8,
    pub freedom: i8,
}

/// What an optimization says of itself.
#[derive(Clone, Copy, Debug)]
pub struct OptMeta {
    pub name: &'static str,
    pub summary: &'static str,
    pub scope_kind: ScopeKind,
    pub min_level: u8,
    pub axis_effects: AxisEffects,
    pub reversibility: Reversibility,
}

/// What an [`OptMeta`] says.
pub struct MetaModel {
    pub name: Seq<char>,
    pub summary: Seq<char>,
    pub scope_kind: ScopeKind,
    pub min_level: u8,
    pub axis_effects: AxisEffects,
    pub reversibility: Reversibility,
}

impl View for OptMeta {
    type V = MetaModel;

    open spec fn view(&self) -> MetaModel {
        MetaModel {
            name: self.name@,
            summary: self.summary@,
            scope_kind: self.scope_kind,
            min_level: self.min_level,
            axis_effects: self.axis_effects,
            reversibility: self.reversibility,
        }
    }
}

/// The optimizations there are, in the order they are registered.
#[derive(Clone, Copy, Debug, PartialEq, Eq, Structural)]
pub enum Builtin {
    PlanCache,
    ResultCache,
    BufferPool,
    AutoIndex,
    RecordCompression,
    ColumnStore,
    FreezeSchema,
    DirectLookup,
    Prefetch,
    MaterializedView,
}

/// What each optimization is.
pub open spec fn meta_of(b: Builtin) -> MetaModel {
    match b {
        Builtin::PlanCache => MetaModel {
            name: "plan_cache"@,
            summary: "reuse physical plans across queries of the same shape"@,
            scope_kind: ScopeKind::Global,
            min_level: 1,
            axis_effects: AxisEffects { speed: 2, resources: (-1) as i8, freedom: 0 },
            reversibility: Reversibility::Instant,
        },
        Builtin::ResultCache => MetaModel {
            name: "result_cache"@,
            summary: "serve repeated identical queries from memory"@,
            scope_kind: ScopeKind::Global,
            min_level: 1,
            axis_effects: AxisEffects { speed: 5, resources: (-4) as i8, freedom: 0 },
            reversibility: Reversibility::Instant,
        },
        Builtin::BufferPool => MetaModel {
            name: "buffer_pool"@,
            summary: "hold more pages in memory"@,
            scope_kind: ScopeKind::Global,
            min_level: 3,
            axis_effects: AxisEffects { speed: 4, resources: (-6) as i8, freedom: 0 },
            reversibility: Reversibility::Instant,
        },
        Builtin::AutoIndex => MetaModel {
            name: "auto_index"@,
            summary: "index fields that queries repeatedly filter on"@,
            scope_kind: ScopeKind::PerField,
            min_level: 2,
            axis_effects: AxisEffects { speed: 7, resources: (-3) as i8, freedom: 0 },
            reversibility: Reversibility::RebuildRequired,
        },
        Builtin::RecordCompression => MetaModel {
            name: "record_compression"@,
            summary: "compress stored records, trading CPU for storage and residency"@,
            scope_kind: ScopeKind::Global,
            min_level: 2,
            axis_effects: AxisEffects { speed: (-1) as i8, resources: 6, freedom: 0 },
            reversibility: Reversibility::RebuildRequired,
        },
        Builtin::ColumnStore => MetaModel {
            name: "column_store"@,
            summary: "keep a columnar copy for scans and aggregates over few fields"@,
            scope_kind: ScopeKind::PerCollection,
            min_level: 4,
            axis_effects: AxisEffects { speed: 6, resources: (-3) as i8, freedom: 0 },
            reversibility: Reversibility::RebuildRequired,
        },
        Builtin::FreezeSchema => MetaModel {
            name: "freeze_schema"@,
            summary: "raise a collection's schema to the most rigid its data supports"@,
            scope_kind: ScopeKind::PerCollection,
            min_level: 8,
            axis_effects: AxisEffects { speed: 6, resources: 4, freedom: (-9) as i8 },
            reversibility: Reversibility::Destructive,
        },
        Builtin::DirectLookup => MetaModel {
            name: "direct_lookup"@,
            summary: "address records arithmetically where the schema fixes their size"@,
            scope_kind: ScopeKind::PerCollection,
            min_level: 10,
            axis_effects: AxisEffects { speed: 9, resources: (-7) as i8, freedom: (-4) as i8 },
            reversibility: Reversibility::RebuildRequired,
        },
        Builtin::Prefetch => MetaModel {
            name: "prefetch"@,
            summary: "read ahead when page access turns out to be sequential"@,
            scope_kind: ScopeKind::Global,
            min_level: 3,
            axis_effects: AxisEffects { speed: 3, resources: (-1) as i8, freedom: 0 },
            reversibility: Reversibility::Instant,
        },
        Builtin::MaterializedView => MetaModel {
            name: "materialized_view"@,
            summary: "keep grouped counts up to date on write instead of recomputing them"@,
            scope_kind: ScopeKind::Global,
            min_level: 4,
            axis_effects: AxisEffects { speed: 7, resources: (-2) as i8, freedom: 0 },
            reversibility: Reversibility::RebuildRequired,
        },
    }
}

// -- what is known when deciding ----------------------------------------------

/// A collection whose records have one size: how many it holds, over how wide a
/// range of ids.
#[derive(Debug, PartialEq, Eq)]
pub struct FixedCollection {
    pub name: String,
    pub rows: u64,
    pub span: u64,
}

/// How often a field was filtered for equality, out of how often in all.
#[derive(Debug, PartialEq, Eq)]
pub struct Equality {
    pub collection: String,
    pub field: String,
    pub equal: u64,
    pub total: u64,
}

/// What is known when deciding.
#[derive(Debug, PartialEq, Eq)]
pub struct OptContext {
    /// Collections and how many rows each holds.
    pub collections: Vec<(String, usize)>,
    /// Fields and how often queries filtered on them.
    pub filtered_fields: Vec<(String, String, u64)>,
    pub fixed_size_collections: Vec<FixedCollection>,
    pub existing_indexes: Vec<(String, String, IndexKind)>,
    pub equality: Vec<Equality>,
    pub writes: u64,
    pub operations: u64,
    /// What is stored and what is derived take up, in bytes.
    pub current_bytes: u64,
}

pub struct FixedModel {
    pub name: Seq<char>,
    pub rows: u64,
    pub span: u64,
}

/// What an [`OptContext`] says.
pub struct ContextModel {
    pub collections: Seq<(Seq<char>, usize)>,
    pub filtered: Seq<(Seq<char>, Seq<char>, u64)>,
    pub fixed: Seq<FixedModel>,
    pub indexes: Seq<(Seq<char>, Seq<char>, IndexKind)>,
    pub equality: Seq<(Seq<char>, Seq<char>, u64, u64)>,
    pub writes: u64,
    pub operations: u64,
    pub current_bytes: u64,
}

impl View for OptContext {
    type V = ContextModel;

    open spec fn view(&self) -> ContextModel {
        ContextModel {
            collections: self.collections@.map_values(|c: (String, usize)| (c.0@, c.1)),
            filtered: self.filtered_fields@.map_values(
                |f: (String, String, u64)| (f.0@, f.1@, f.2),
            ),
            fixed: self.fixed_size_collections@.map_values(
                |f: FixedCollection| FixedModel { name: f.name@, rows: f.rows, span: f.span },
            ),
            indexes: self.existing_indexes@.map_values(
                |i: (String, String, IndexKind)| (i.0@, i.1@, i.2),
            ),
            equality: self.equality@.map_values(
                |e: Equality| (e.collection@, e.field@, e.equal, e.total),
            ),
            writes: self.writes,
            operations: self.operations,
            current_bytes: self.current_bytes,
        }
    }
}

/// How many rows a collection holds, as first listed. One that is not listed
/// holds none.
pub open spec fn rows_in(s: Seq<(Seq<char>, usize)>, name: Seq<char>) -> usize
    decreases s.len(),
{
    if s.len() == 0 {
        0
    } else if s[0].0 == name {
        s[0].1
    } else {
        rows_in(s.drop_first(), name)
    }
}

/// The rows of the largest collection.
pub open spec fn biggest(s: Seq<(Seq<char>, usize)>) -> usize
    decreases s.len(),
{
    if s.len() == 0 {
        0
    } else if s.last().1 > biggest(s.drop_last()) {
        s.last().1
    } else {
        biggest(s.drop_last())
    }
}

/// The rows of all collections.
pub open spec fn row_sum(s: Seq<(Seq<char>, usize)>) -> nat
    decreases s.len(),
{
    if s.len() == 0 {
        0
    } else {
        row_sum(s.drop_last()) + s.last().1 as nat
    }
}

proof fn lemma_row_sum(s: Seq<(Seq<char>, usize)>, i: int)
    requires
        0 <= i <= s.len(),
    ensures
        row_sum(s.take(i)) <= row_sum(s),
    decreases s.len() - i,
{
    if i < s.len() {
        assert(s.take(i + 1).drop_last() =~= s.take(i));
        lemma_row_sum(s, i + 1);
    } else {
        assert(s.take(i) =~= s);
    }
}

pub open spec fn indexed(
    s: Seq<(Seq<char>, Seq<char>, IndexKind)>,
    collection: Seq<char>,
    field: Seq<char>,
) -> Option<IndexKind>
    decreases s.len(),
{
    if s.len() == 0 {
        None
    } else if s[0].0 == collection && s[0].1 == field {
        Some(s[0].2)
    } else {
        indexed(s.drop_first(), collection, field)
    }
}

pub open spec fn equality_of(
    s: Seq<(Seq<char>, Seq<char>, u64, u64)>,
    collection: Seq<char>,
    field: Seq<char>,
) -> Option<(u64, u64)>
    decreases s.len(),
{
    if s.len() == 0 {
        None
    } else if s[0].0 == collection && s[0].1 == field {
        Some((s[0].2, s[0].3))
    } else {
        equality_of(s.drop_first(), collection, field)
    }
}

impl OptContext {
    pub fn rows_in(&self, name: &str) -> (n: usize)
        ensures
            n == rows_in(self@.collections, name@),
    {
        let ghost s = self@.collections;
        let mut i: usize = 0;
        assert(s.skip(0) =~= s);
        while i < self.collections.len()
            invariant
                i <= self.collections@.len(),
                s == self@.collections,
                s.len() == self.collections@.len(),
                rows_in(s, name@) == rows_in(s.skip(i as int), name@),
            decreases self.collections.len() - i,
        {
            let c = &self.collections[i];
            assert(s.skip(i as int)[0] == (c.0@, c.1));
            if str_eq(c.0.as_str(), name) {
                return c.1;
            }
            assert(s.skip(i as int).drop_first() =~= s.skip(i + 1));
            i += 1;
        }
        0
    }

    fn biggest(&self) -> (n: usize)
        ensures
            n == biggest(self@.collections),
    {
        let ghost s = self@.collections;
        let mut n: usize = 0;
        let mut i: usize = 0;
        assert(s.take(0) =~= Seq::empty());
        while i < self.collections.len()
            invariant
                i <= self.collections@.len(),
                s == self@.collections,
                s.len() == self.collections@.len(),
                n == biggest(s.take(i as int)),
            decreases self.collections.len() - i,
        {
            assert(s.take(i + 1).drop_last() =~= s.take(i as int));
            assert(s.take(i + 1).last() == (self.collections@[i as int].0@, self.collections@[i as int].1));
            if self.collections[i].1 > n {
                n = self.collections[i].1;
            }
            i += 1;
        }
        assert(s.take(i as int) =~= s);
        n
    }

    fn row_sum(&self) -> (n: usize)
        requires
            row_sum(self@.collections) <= usize::MAX,
        ensures
            n == row_sum(self@.collections),
    {
        let ghost s = self@.collections;
        let mut n: usize = 0;
        let mut i: usize = 0;
        assert(s.take(0) =~= Seq::empty());
        while i < self.collections.len()
            invariant
                i <= self.collections@.len(),
                s == self@.collections,
                s.len() == self.collections@.len(),
                row_sum(s) <= usize::MAX,
                n == row_sum(s.take(i as int)),
            decreases self.collections.len() - i,
        {
            assert(s.take(i + 1).drop_last() =~= s.take(i as int));
            assert(s.take(i + 1).last() == (self.collections@[i as int].0@, self.collections@[i as int].1));
            proof {
                lemma_row_sum(s, i + 1);
            }
            n = n + self.collections[i].1;
            i += 1;
        }
        assert(s.take(i as int) =~= s);
        n
    }

    /// The index a field has, if it has one.
    pub fn index_on(&self, collection: &str, field: &str) -> (r: Option<IndexKind>)
        ensures
            r == indexed(self@.indexes, collection@, field@),
    {
        let ghost s = self@.indexes;
        let mut i: usize = 0;
        assert(s.skip(0) =~= s);
        while i < self.existing_indexes.len()
            invariant
                i <= self.existing_indexes@.len(),
                s == self@.indexes,
                s.len() == self.existing_indexes@.len(),
                indexed(s, collection@, field@) == indexed(s.skip(i as int), collection@, field@),
            decreases self.existing_indexes.len() - i,
        {
            let x = &self.existing_indexes[i];
            assert(s.skip(i as int)[0] == (x.0@, x.1@, x.2));
            if str_eq(x.0.as_str(), collection) && str_eq(x.1.as_str(), field) {
                return Some(x.2);
            }
            assert(s.skip(i as int).drop_first() =~= s.skip(i + 1));
            i += 1;
        }
        None
    }

    fn equality_of(&self, collection: &str, field: &str) -> (r: Option<(u64, u64)>)
        ensures
            r == equality_of(self@.equality, collection@, field@),
    {
        let ghost s = self@.equality;
        let mut i: usize = 0;
        assert(s.skip(0) =~= s);
        while i < self.equality.len()
            invariant
                i <= self.equality@.len(),
                s == self@.equality,
                s.len() == self.equality@.len(),
                equality_of(s, collection@, field@) == equality_of(
                    s.skip(i as int),
                    collection@,
                    field@,
                ),
            decreases self.equality.len() - i,
        {
            let x = &self.equality[i];
            assert(s.skip(i as int)[0] == (x.collection@, x.field@, x.equal, x.total));
            if str_eq(x.collection.as_str(), collection) && str_eq(x.field.as_str(), field) {
                return Some((x.equal, x.total));
            }
            assert(s.skip(i as int).drop_first() =~= s.skip(i + 1));
            i += 1;
        }
        None
    }

    fn is_fixed_size(&self, name: &str) -> (r: bool)
        ensures
            r == is_fixed(self@.fixed, name@),
    {
        let ghost s = self@.fixed;
        let mut i: usize = 0;
        while i < self.fixed_size_collections.len()
            invariant
                i <= self.fixed_size_collections@.len(),
                s == self@.fixed,
                s.len() == self.fixed_size_collections@.len(),
                forall|k: int| 0 <= k < i ==> (#[trigger] s[k]).name != name@,
            decreases self.fixed_size_collections.len() - i,
        {
            if str_eq(self.fixed_size_collections[i].name.as_str(), name) {
                assert(s[i as int].name == name@);
                return true;
            }
            i += 1;
        }
        false
    }
}

pub open spec fn is_fixed(s: Seq<FixedModel>, name: Seq<char>) -> bool {
    exists|i: int| 0 <= i < s.len() && (#[trigger] s[i]).name == name
}

// -- scopes -------------------------------------------------------------------

/// The collection and field a scope names: what stands before and after its
/// first dot. A scope with nothing on one side names no field.
pub open spec fn scope_parts(s: Seq<char>) -> Option<(Seq<char>, Seq<char>)> {
    match first_dot(s) {
        Some(i) => if i == 0 || i == s.len() - 1 {
            None
        } else {
            Some((s.take(i), s.skip(i + 1)))
        },
        None => None,
    }
}

/// Where the first dot stands.
pub open spec fn first_dot(s: Seq<char>) -> Option<int>
    decreases s.len(),
{
    if s.len() == 0 {
        None
    } else {
        match first_dot(s.drop_last()) {
            Some(i) => Some(i),
            None => if s.last() == '.' {
                Some(s.len() - 1)
            } else {
                None
            },
        }
    }
}

pub proof fn lemma_first_dot(s: Seq<char>)
    ensures
        match first_dot(s) {
            Some(i) => 0 <= i < s.len() && s[i] == '.' && forall|k: int|
                0 <= k < i ==> #[trigger] s[k] != '.',
            None => forall|k: int| 0 <= k < s.len() ==> #[trigger] s[k] != '.',
        },
    decreases s.len(),
{
    if s.len() > 0 {
        let rest = s.drop_last();
        lemma_first_dot(rest);
        assert forall|k: int| 0 <= k < rest.len() implies #[trigger] s[k] == rest[k] by {}
    }
}

/// A scope that a collection and a field make names them, where the collection
/// has no dot and neither is empty.
pub proof fn a_scope_names_its_parts(collection: Seq<char>, field: Seq<char>)
    requires
        collection.len() > 0,
        field.len() > 0,
        !collection.contains('.'),
    ensures
        scope_parts(collection + "."@ + field) == Some((collection, field)),
{
    reveal_strlit(".");
    let s = collection + "."@ + field;
    let n = collection.len() as int;
    assert(s[n] == '.');
    lemma_first_dot(s);
    match first_dot(s) {
        Some(i) => {
            if i < n {
                assert(collection[i] == '.');
                assert(collection.contains('.'));
            }
            assert(i == n);
            assert(s.take(n) =~= collection);
            assert(s.skip(n + 1) =~= field);
        },
        None => {},
    }
}

pub fn split_scope(scope: &str) -> (r: Option<(String, String)>)
    ensures
        match scope_parts(scope@) {
            Some((c, f)) => r matches Some((x, y)) && x@ == c && y@ == f,
            None => r is None,
        },
{
    proof {
        lemma_first_dot(scope@);
    }
    let n: usize = scope.unicode_len();
    let mut i: usize = 0;
    while i < n
        invariant
            i <= n,
            n == scope@.len(),
            forall|k: int| 0 <= k < i ==> #[trigger] scope@[k] != '.',
            match first_dot(scope@) {
                Some(k) => i <= k < n && scope@[k] == '.' && forall|j: int|
                    0 <= j < k ==> #[trigger] scope@[j] != '.',
                None => forall|k: int| 0 <= k < scope@.len() ==> #[trigger] scope@[k] != '.',
            },
        decreases n - i,
    {
        if scope.get_char(i) == '.' {
            assert(first_dot(scope@) == Some(i as int));
            if i == 0 || i == n - 1 {
                return None;
            }
            let c = scope.substring_char(0, i);
            let f = scope.substring_char(i + 1, n);
            assert(c@ =~= scope@.take(i as int));
            assert(f@ =~= scope@.skip(i + 1));
            return Some((c.to_owned(), f.to_owned()));
        }
        i += 1;
    }
    None
}

/// The kind an ordinal stands for.
pub open spec fn kind_at(n: i64) -> Option<IndexKind> {
    if n == 0 {
        Some(IndexKind::Hash)
    } else if n == 1 {
        Some(IndexKind::BTree)
    } else if n == 2 {
        Some(IndexKind::Bitmap)
    } else {
        None
    }
}

/// The kind a decision asks for, if it asks for one there is.
pub open spec fn kind_asked(kind: Option<i64>) -> Option<IndexKind> {
    match kind {
        Some(n) => kind_at(n),
        None => None,
    }
}

pub fn index_kind_param(kind: Option<i64>) -> (r: Option<IndexKind>)
    ensures
        r == kind_asked(kind),
{
    match kind {
        Some(0) => Some(IndexKind::Hash),
        Some(1) => Some(IndexKind::BTree),
        Some(2) => Some(IndexKind::Bitmap),
        _ => None,
    }
}

/// The index a field's predicates can use: a hash index cannot answer a range,
/// so a field has one only where at least four in five filters are equalities,
/// or nothing is known.
pub open spec fn kind_suited(m: ContextModel, collection: Seq<char>, field: Seq<char>) -> IndexKind {
    match equality_of(m.equality, collection, field) {
        Some((equal, total)) => if 5 * equal >= 4 * total {
            IndexKind::Hash
        } else {
            IndexKind::BTree
        },
        None => IndexKind::Hash,
    }
}

pub fn index_kind_for(ctx: &OptContext, collection: &str, field: &str) -> (k: IndexKind)
    ensures
        k == kind_suited(ctx@, collection@, field@),
{
    match ctx.equality_of(collection, field) {
        Some((equal, total)) => {
            if 5 * equal as u128 >= 4 * total as u128 {
                IndexKind::Hash
            } else {
                IndexKind::BTree
            }
        },
        None => IndexKind::Hash,
    }
}

// -- whether it is possible ---------------------------------------------------

/// Whether an optimization is possible now, or why it is not. One that is
/// ineligible stays so whatever the workload does.
#[derive(Debug, PartialEq, Eq)]
pub enum Applicability {
    Applicable,
    NotYet(String),
    Ineligible(String),
}

/// What an [`Applicability`] says.
pub enum Verdict {
    Applicable,
    NotYet(Seq<char>),
    Ineligible(Seq<char>),
}

impl View for Applicability {
    type V = Verdict;

    open spec fn view(&self) -> Verdict {
        match self {
            Applicability::Applicable => Verdict::Applicable,
            Applicability::NotYet(s) => Verdict::NotYet(s@),
            Applicability::Ineligible(s) => Verdict::Ineligible(s@),
        }
    }
}

impl Applicability {
    pub fn is_applicable(&self) -> (r: bool)
        ensures
            r == (self@ is Applicable),
    {
        match self {
            Applicability::Applicable => true,
            _ => false,
        }
    }

    pub fn reason(&self) -> (r: Option<&str>)
        ensures
            match self@ {
                Verdict::Applicable => r is None,
                Verdict::NotYet(s) => r matches Some(t) && t@ == s,
                Verdict::Ineligible(s) => r matches Some(t) && t@ == s,
            },
    {
        match self {
            Applicability::Applicable => None,
            Applicability::NotYet(s) => Some(s.as_str()),
            Applicability::Ineligible(s) => Some(s.as_str()),
        }
    }
}

/// Below this, recomputing an aggregate is cheaper than keeping it.
pub const MIN_ROWS_FOR_VIEW: usize = 2000;

/// Below this, a scan is one read whether or not anything reads ahead.
pub const MIN_ROWS_FOR_PREFETCH: usize = 5000;

pub const MIN_ROWS_FOR_INDEX: usize = 1000;

pub const MIN_QUERIES_FOR_INDEX: u64 = 8;

/// Below this, the time spent compressing outweighs the bytes saved.
pub const MIN_ROWS_FOR_COMPRESSION: usize = 500;

/// Below this, a scan is cheap enough that a second copy is not worth its memory.
pub const MIN_ROWS_FOR_COLUMNS: usize = 2000;

/// How many records must agree before a shape is called settled.
pub const MIN_ROWS_TO_FREEZE: usize = 1000;

pub const DEFAULT_POOL_PAGES: usize = 1024;

pub const LARGE_POOL_PAGES: usize = 8192;

pub const PAGE_BYTES: i64 = 8192;

pub const PLAN_CACHE_ENTRIES: usize = 512;

pub const RESULT_CACHE_ENTRIES: usize = 256;

/// Whether a field is worth an index: filtered often enough, on a collection
/// large enough, and without one.
pub open spec fn worth_indexing(m: ContextModel, f: (Seq<char>, Seq<char>, u64)) -> bool {
    f.2 >= MIN_QUERIES_FOR_INDEX && rows_in(m.collections, f.0) >= MIN_ROWS_FOR_INDEX && indexed(
        m.indexes,
        f.0,
        f.1,
    ) is None
}

/// The fields worth indexing among the first `n` filtered on.
pub open spec fn index_candidates(m: ContextModel, n: int) -> Seq<(Seq<char>, Seq<char>)>
    decreases n,
{
    if n <= 0 {
        Seq::empty()
    } else if worth_indexing(m, m.filtered[n - 1]) {
        index_candidates(m, n - 1).push((m.filtered[n - 1].0, m.filtered[n - 1].1))
    } else {
        index_candidates(m, n - 1)
    }
}

/// The field filtered on most often, the last of them among equals.
pub open spec fn busiest(s: Seq<(Seq<char>, Seq<char>, u64)>) -> (Seq<char>, Seq<char>, u64)
    decreases s.len(),
{
    if s.len() <= 1 || s.last().2 >= busiest(s.drop_last()).2 {
        s.last()
    } else {
        busiest(s.drop_last())
    }
}

/// The collections loose enough and large enough to freeze, among the first `n`.
pub open spec fn freezable(m: ContextModel, n: int) -> Seq<Seq<char>>
    decreases n,
{
    if n <= 0 {
        Seq::empty()
    } else if m.collections[n - 1].1 >= MIN_ROWS_TO_FREEZE && !is_fixed(
        m.fixed,
        m.collections[n - 1].0,
    ) {
        freezable(m, n - 1).push(m.collections[n - 1].0)
    } else {
        freezable(m, n - 1)
    }
}

/// How dense a collection's ids are. A range of nothing is not dense.
pub open spec fn density(f: FixedModel) -> (u64, u64) {
    if f.span == 0 {
        (0, 1)
    } else {
        (f.rows, f.span)
    }
}

/// Whether fewer than half of a collection's ids are used.
pub open spec fn sparse(f: FixedModel) -> bool {
    2 * density(f).0 < density(f).1
}

/// The collection with the least dense ids, the first of them among equals.
pub open spec fn sparsest(s: Seq<FixedModel>) -> FixedModel
    decreases s.len(),
{
    if s.len() <= 1 {
        s.last()
    } else {
        let best = sparsest(s.drop_last());
        let last = s.last();
        if density(last).0 * density(best).1 < density(best).0 * density(last).1 {
            last
        } else {
            best
        }
    }
}

pub open spec fn too_small_for_view(n: nat) -> Seq<char> {
    "the largest collection holds "@ + dec_text(n)
        + " rows, below the 2000 at which maintaining a total beats recomputing it"@
}

pub open spec fn too_small_for_prefetch(n: nat) -> Seq<char> {
    "the largest collection holds "@ + dec_text(n)
        + " rows, below the 5000 at which reading ahead pays"@
}

pub open spec fn too_small_for_columns(n: nat) -> Seq<char> {
    "largest collection holds "@ + dec_text(n)
        + " rows, below the 2000 at which a second copy pays"@
}

pub open spec fn too_small_for_compression(n: nat) -> Seq<char> {
    "only "@ + dec_text(n)
        + " rows stored; compression's CPU cost is not worth it below 500"@
}

pub open spec fn no_index_yet(m: ContextModel) -> Seq<char> {
    let (c, f, n) = busiest(m.filtered);
    if indexed(m.indexes, c, f) is Some {
        c + "."@ + f + " is already indexed"@
    } else if n < MIN_QUERIES_FOR_INDEX {
        c + "."@ + f + " filtered only "@ + dec_text(n as nat) + " times, below the 8 needed"@
    } else {
        c + " holds "@ + dec_text(rows_in(m.collections, c) as nat)
            + " rows, below the 1000 at which an index pays"@
    }
}

pub open spec fn too_sparse(f: FixedModel) -> Seq<char> {
    f.name + " ids are only "@ + share_text(density(f).0, density(f).1)
        + " dense, below the 50% at which a flat array pays"@
}

/// Whether an optimization is possible.
pub open spec fn verdict(b: Builtin, m: ContextModel) -> Verdict {
    match b {
        Builtin::PlanCache => Verdict::Applicable,
        Builtin::ResultCache => Verdict::Applicable,
        Builtin::BufferPool => Verdict::Applicable,
        Builtin::AutoIndex => if m.filtered.len() == 0 {
            Verdict::NotYet("no queries have filtered on any field yet"@)
        } else if index_candidates(m, m.filtered.len() as int).len() == 0 {
            Verdict::NotYet(no_index_yet(m))
        } else {
            Verdict::Applicable
        },
        Builtin::RecordCompression => if row_sum(m.collections) < MIN_ROWS_FOR_COMPRESSION {
            Verdict::NotYet(too_small_for_compression(row_sum(m.collections)))
        } else {
            Verdict::Applicable
        },
        Builtin::ColumnStore => if biggest(m.collections) < MIN_ROWS_FOR_COLUMNS {
            Verdict::NotYet(too_small_for_columns(biggest(m.collections) as nat))
        } else {
            Verdict::Applicable
        },
        Builtin::FreezeSchema => if freezable(m, m.collections.len() as int).len() == 0 {
            Verdict::NotYet("no collection is both loose and larger than 1000 rows"@)
        } else {
            Verdict::Applicable
        },
        Builtin::DirectLookup => if m.fixed.len() == 0 {
            Verdict::Ineligible(
                "no collection has a fixed-size schema; records must have a constant stride"@,
            )
        } else if forall|i: int| 0 <= i < m.fixed.len() ==> sparse(#[trigger] m.fixed[i]) {
            Verdict::NotYet(too_sparse(sparsest(m.fixed)))
        } else {
            Verdict::Applicable
        },
        Builtin::Prefetch => if biggest(m.collections) < MIN_ROWS_FOR_PREFETCH {
            Verdict::NotYet(too_small_for_prefetch(biggest(m.collections) as nat))
        } else {
            Verdict::Applicable
        },
        Builtin::MaterializedView => if biggest(m.collections) < MIN_ROWS_FOR_VIEW {
            Verdict::NotYet(too_small_for_view(biggest(m.collections) as nat))
        } else {
            Verdict::Applicable
        },
    }
}

// -- what it is expected to cost ----------------------------------------------

/// A number as one whole number over another.
#[derive(Clone, Copy, Debug, PartialEq, Eq, Structural)]
pub struct Ratio {
    pub num: u128,
    pub den: u128,
}

/// What building takes: rows to read, at so many a second.
#[derive(Clone, Copy, Debug, PartialEq, Eq, Structural)]
pub struct BuildCost {
    pub rows_read: u64,
    pub rows_per_second: u64,
    pub online: bool,
}

/// What an optimization is expected to do: latencies as a share of what they
/// are, and what is spent for it.
#[derive(Clone, Copy, Debug, PartialEq, Eq, Structural)]
pub struct CostEstimate {
    pub p50_delta: Ratio,
    pub p99_delta: Ratio,
    pub ram_bytes: i64,
    pub storage_bytes: i64,
    pub io_ops: i64,
    pub cpu_frac: Ratio,
    pub maintenance: Ratio,
    pub confidence: Ratio,
    pub build: Option<BuildCost>,
}

pub open spec fn less_than_one(r: Ratio) -> bool {
    r.num < r.den
}

impl CostEstimate {
    /// Whether either latency is expected to fall.
    pub fn helps_latency(&self) -> (r: bool)
        ensures
            r == (less_than_one(self.p50_delta) || less_than_one(self.p99_delta)),
    {
        self.p50_delta.num < self.p50_delta.den || self.p99_delta.num < self.p99_delta.den
    }

    /// Whether memory or storage is expected to grow.
    pub fn costs_resources(&self) -> (r: bool)
        ensures
            r == (self.ram_bytes > 0 || self.storage_bytes > 0),
    {
        self.ram_bytes > 0 || self.storage_bytes > 0
    }
}

pub open spec fn hundredths(n: u128) -> Ratio {
    Ratio { num: n, den: 100 }
}

fn percent(n: u128) -> (r: Ratio)
    ensures
        r == hundredths(n),
{
    Ratio { num: n, den: 100 }
}

/// How much of the workload reads, as a share. Nothing done counts as reading.
pub open spec fn reading(m: ContextModel) -> (u64, u64) {
    if m.operations == 0 || m.writes > m.operations {
        (1, 1)
    } else {
        ((m.operations - m.writes) as u64, m.operations)
    }
}

/// A latency that falls by a part of the share of reads.
pub open spec fn relieved(m: ContextModel, part: int, whole: int) -> Ratio {
    let (reads, all) = reading(m);
    Ratio { num: (whole * all - part * reads) as u128, den: (whole * all) as u128 }
}

fn relief(ctx: &OptContext, part: u64, whole: u64) -> (r: Ratio)
    requires
        part <= whole <= 100,
    ensures
        r == relieved(ctx@, part as int, whole as int),
{
    let (reads, all): (u64, u64) = ctx.reading();
    assert(part * reads <= whole * all <= 100 * u64::MAX) by (nonlinear_arith)
        requires
            part <= whole <= 100,
            reads <= all <= u64::MAX,
    ;
    Ratio {
        num: whole as u128 * all as u128 - part as u128 * reads as u128,
        den: whole as u128 * all as u128,
    }
}

impl OptContext {
    fn reading(&self) -> (r: (u64, u64))
        ensures
            r == reading(self@),
            r.0 <= r.1,
    {
        if self.operations == 0 || self.writes > self.operations {
            (1, 1)
        } else {
            (self.operations - self.writes, self.operations)
        }
    }
}

/// An estimate of latencies alone.
pub open spec fn faster(p50: Ratio, p99: Ratio, confidence: u128) -> CostEstimate {
    CostEstimate {
        p50_delta: p50,
        p99_delta: p99,
        ram_bytes: 0,
        storage_bytes: 0,
        io_ops: 0,
        cpu_frac: hundredths(0),
        maintenance: hundredths(0),
        confidence: hundredths(confidence),
        build: None,
    }
}

fn latency(p50: Ratio, p99: Ratio, confidence: u128) -> (e: CostEstimate)
    ensures
        e == faster(p50, p99, confidence),
{
    CostEstimate {
        p50_delta: p50,
        p99_delta: p99,
        ram_bytes: 0,
        storage_bytes: 0,
        io_ops: 0,
        cpu_frac: percent(0),
        maintenance: percent(0),
        confidence: percent(confidence),
        build: None,
    }
}

/// The rows of the candidates' collections.
pub open spec fn candidate_rows(m: ContextModel, s: Seq<(Seq<char>, Seq<char>)>) -> nat
    decreases s.len(),
{
    if s.len() == 0 {
        0
    } else {
        candidate_rows(m, s.drop_last()) + rows_in(m.collections, s.last().0) as nat
    }
}

/// The rows of the collections of fixed size.
pub open spec fn fixed_rows(m: ContextModel, n: int) -> nat
    decreases n,
{
    if n <= 0 {
        0
    } else {
        fixed_rows(m, n - 1) + rows_in(m.collections, m.fixed[n - 1].name) as nat
    }
}

/// The rows an optimization's cost is reckoned by.
pub open spec fn rows_touched(b: Builtin, m: ContextModel) -> nat {
    match b {
        Builtin::AutoIndex => candidate_rows(m, index_candidates(m, m.filtered.len() as int)),
        Builtin::RecordCompression => row_sum(m.collections),
        Builtin::ColumnStore => row_sum(m.collections),
        Builtin::FreezeSchema => row_sum(m.collections),
        Builtin::DirectLookup => fixed_rows(m, m.fixed.len() as int),
        _ => 0,
    }
}

/// Whether costs reckoned by rows fit the numbers they are kept in.
pub open spec fn reckonable(b: Builtin, m: ContextModel) -> bool {
    rows_touched(b, m) <= usize::MAX && rows_touched(b, m) * 64 <= i64::MAX
}

/// What an optimization is expected to cost.
pub open spec fn estimated(b: Builtin, m: ContextModel) -> CostEstimate {
    let rows = rows_touched(b, m);
    let (reads, all) = reading(m);
    match b {
        Builtin::PlanCache => CostEstimate {
            ram_bytes: 2_097_152,
            ..faster(hundredths(95), hundredths(95), 40)
        },
        Builtin::ResultCache => CostEstimate {
            ram_bytes: 1_048_576,
            maintenance: hundredths(2),
            ..faster(relieved(m, 5, 10), relieved(m, 3, 10), 35)
        },
        Builtin::BufferPool => CostEstimate {
            ram_bytes: 58_720_256,
            ..faster(hundredths(80), hundredths(70), 50)
        },
        Builtin::AutoIndex => CostEstimate {
            ram_bytes: (rows * 64) as i64,
            maintenance: hundredths(10),
            build: Some(
                BuildCost { rows_read: rows as u64, rows_per_second: 1_000_000, online: true },
            ),
            ..faster(hundredths(30), hundredths(25), 60)
        },
        Builtin::RecordCompression => CostEstimate {
            ram_bytes: (-(rows * 16)) as i64,
            storage_bytes: (-(rows * 48)) as i64,
            io_ops: (-(rows / 100)) as i64,
            cpu_frac: hundredths(8),
            maintenance: hundredths(6),
            build: Some(
                BuildCost { rows_read: rows as u64, rows_per_second: 500_000, online: false },
            ),
            ..faster(hundredths(105), hundredths(108), 30)
        },
        Builtin::ColumnStore => CostEstimate {
            ram_bytes: (rows * 24) as i64,
            maintenance: Ratio {
                num: (12 * all + 30 * (all - reads)) as u128,
                den: (100 * all) as u128,
            },
            build: Some(
                BuildCost { rows_read: rows as u64, rows_per_second: 1_000_000, online: true },
            ),
            ..faster(relieved(m, 10, 20), relieved(m, 11, 20), 40)
        },
        Builtin::FreezeSchema => CostEstimate {
            storage_bytes: (-(rows * 16)) as i64,
            build: Some(
                BuildCost { rows_read: rows as u64, rows_per_second: 200_000, online: false },
            ),
            ..faster(hundredths(70), hundredths(65), 25)
        },
        Builtin::DirectLookup => CostEstimate {
            ram_bytes: (rows * 64) as i64,
            maintenance: hundredths(15),
            build: Some(
                BuildCost { rows_read: rows as u64, rows_per_second: 2_000_000, online: true },
            ),
            ..faster(hundredths(40), hundredths(35), 50)
        },
        Builtin::Prefetch => faster(relieved(m, 25, 100), relieved(m, 25, 100), 40),
        Builtin::MaterializedView => CostEstimate {
            maintenance: hundredths(3),
            ..faster(relieved(m, 50, 100), relieved(m, 50, 100), 35)
        },
    }
}

// -- switching it on and off --------------------------------------------------

/// Changes to make, and those that take them back.
#[derive(Debug, PartialEq, Eq)]
pub struct ChangePlan {
    pub apply: Vec<Action>,
    pub revert: Vec<Action>,
}

/// What a [`ChangePlan`] does.
#[verifier::ext_equal]
pub struct PlanModel {
    pub apply: Seq<ActionModel>,
    pub revert: Seq<ActionModel>,
}

impl View for ChangePlan {
    type V = PlanModel;

    open spec fn view(&self) -> PlanModel {
        PlanModel { apply: action_models(self.apply@), revert: action_models(self.revert@) }
    }
}

impl ChangePlan {
    /// What the plan does, in words.
    pub fn describe(&self) -> (s: String)
        ensures
            s@ == actions_text(self@.apply),
    {
        describe_actions(&self.apply)
    }
}

pub open spec fn nothing_to_do() -> PlanModel {
    PlanModel { apply: Seq::empty(), revert: Seq::empty() }
}

pub open spec fn there_and_back(a: ActionModel, b: ActionModel) -> PlanModel {
    PlanModel { apply: seq![a], revert: seq![b] }
}

pub open spec fn there_only(a: ActionModel) -> PlanModel {
    PlanModel { apply: seq![a], revert: Seq::empty() }
}

fn idle() -> (p: ChangePlan)
    ensures
        p@ == nothing_to_do(),
{
    let p = ChangePlan { apply: Vec::new(), revert: Vec::new() };
    assert(p@ =~= nothing_to_do());
    p
}

fn both_ways(a: Action, b: Action) -> (p: ChangePlan)
    ensures
        p@ == there_and_back(a@, b@),
{
    let p = ChangePlan { apply: vec![a], revert: vec![b] };
    assert(p@ =~= there_and_back(a@, b@));
    p
}

fn one_way(a: Action) -> (p: ChangePlan)
    ensures
        p@ == there_only(a@),
{
    let p = ChangePlan { apply: vec![a], revert: Vec::new() };
    assert(p@ =~= there_only(a@));
    p
}

/// The change that takes a change back, where there is one.
pub open spec fn inverse(a: ActionModel) -> Option<ActionModel> {
    match a {
        ActionModel::CreateIndex { collection, field, kind } => Some(
            ActionModel::DropIndex { collection, field, kind },
        ),
        ActionModel::DropIndex { collection, field, kind } => Some(
            ActionModel::CreateIndex { collection, field, kind },
        ),
        ActionModel::SetBufferPoolPages(_) => Some(
            ActionModel::SetBufferPoolPages(DEFAULT_POOL_PAGES),
        ),
        ActionModel::SetPlanCacheEntries(_) => Some(ActionModel::SetPlanCacheEntries(0)),
        ActionModel::SetResultCacheEntries(_) => Some(ActionModel::SetResultCacheEntries(0)),
        ActionModel::SetDirectLookup(on) => Some(ActionModel::SetDirectLookup(!on)),
        ActionModel::SetColumnStore(on) => Some(ActionModel::SetColumnStore(!on)),
        ActionModel::SetMaterializedViews(on) => Some(ActionModel::SetMaterializedViews(!on)),
        ActionModel::SetRecordCompression(on) => Some(ActionModel::SetRecordCompression(!on)),
        ActionModel::SetPrefetch(on) => Some(ActionModel::SetPrefetch(!on)),
        _ => None,
    }
}

/// What switching an optimization on for a scope does. A kind of index that was
/// asked for goes before the one that suits the field.
pub open spec fn enabling(b: Builtin, m: ContextModel, scope: Seq<char>, kind: Option<i64>) -> PlanModel {
    match b {
        Builtin::PlanCache => there_and_back(
            ActionModel::SetPlanCacheEntries(PLAN_CACHE_ENTRIES),
            ActionModel::SetPlanCacheEntries(0),
        ),
        Builtin::ResultCache => there_and_back(
            ActionModel::SetResultCacheEntries(RESULT_CACHE_ENTRIES),
            ActionModel::SetResultCacheEntries(0),
        ),
        Builtin::BufferPool => there_and_back(
            ActionModel::SetBufferPoolPages(LARGE_POOL_PAGES),
            ActionModel::SetBufferPoolPages(DEFAULT_POOL_PAGES),
        ),
        Builtin::AutoIndex => match scope_parts(scope) {
            None => nothing_to_do(),
            Some((collection, field)) => {
                let k = match kind_asked(kind) {
                    Some(k) => k,
                    None => kind_suited(m, collection, field),
                };
                there_and_back(
                    ActionModel::CreateIndex { collection, field, kind: k },
                    ActionModel::DropIndex { collection, field, kind: k },
                )
            },
        },
        Builtin::RecordCompression => there_and_back(
            ActionModel::SetRecordCompression(true),
            ActionModel::SetRecordCompression(false),
        ),
        Builtin::ColumnStore => there_and_back(
            ActionModel::SetColumnStore(true),
            ActionModel::SetColumnStore(false),
        ),
        Builtin::FreezeSchema => there_only(ActionModel::FreezeSchema { collection: scope }),
        Builtin::DirectLookup => there_and_back(
            ActionModel::SetDirectLookup(true),
            ActionModel::SetDirectLookup(false),
        ),
        Builtin::Prefetch => there_and_back(
            ActionModel::SetPrefetch(true),
            ActionModel::SetPrefetch(false),
        ),
        Builtin::MaterializedView => there_and_back(
            ActionModel::SetMaterializedViews(true),
            ActionModel::SetMaterializedViews(false),
        ),
    }
}

/// What switching an optimization off for a scope does: only that scope's index
/// goes, as the kind it has.
pub open spec fn disabling(b: Builtin, m: ContextModel, scope: Seq<char>) -> PlanModel {
    match b {
        Builtin::PlanCache => there_only(ActionModel::SetPlanCacheEntries(0)),
        Builtin::ResultCache => there_only(ActionModel::SetResultCacheEntries(0)),
        Builtin::BufferPool => there_only(ActionModel::SetBufferPoolPages(DEFAULT_POOL_PAGES)),
        Builtin::AutoIndex => match scope_parts(scope) {
            None => nothing_to_do(),
            Some((collection, field)) => there_only(
                ActionModel::DropIndex {
                    collection,
                    field,
                    kind: match indexed(m.indexes, collection, field) {
                        Some(k) => k,
                        None => kind_suited(m, collection, field),
                    },
                },
            ),
        },
        Builtin::RecordCompression => there_only(ActionModel::SetRecordCompression(false)),
        Builtin::ColumnStore => there_only(ActionModel::SetColumnStore(false)),
        Builtin::FreezeSchema => nothing_to_do(),
        Builtin::DirectLookup => there_only(ActionModel::SetDirectLookup(false)),
        Builtin::Prefetch => there_and_back(
            ActionModel::SetPrefetch(false),
            ActionModel::SetPrefetch(true),
        ),
        Builtin::MaterializedView => there_and_back(
            ActionModel::SetMaterializedViews(false),
            ActionModel::SetMaterializedViews(true),
        ),
    }
}

/// Every optimization that is not declared destructive plans changes it can take
/// back, each by its exact inverse.
pub proof fn every_optimization_plans_a_reversible_change(
    b: Builtin,
    m: ContextModel,
    scope: Seq<char>,
    kind: Option<i64>,
)
    requires
        meta_of(b).reversibility != Reversibility::Destructive,
    ensures
        ({
            let p = enabling(b, m, scope, kind);
            &&& p.revert.len() == p.apply.len()
            &&& forall|i: int|
                0 <= i < p.apply.len() ==> inverse(#[trigger] p.apply[i]) == Some(p.revert[i])
        }),
{
}

/// Switching off does what taking the switching-on back does, once an index of
/// the kind that was created is there.
pub proof fn switching_off_takes_switching_on_back(
    b: Builtin,
    before: ContextModel,
    after: ContextModel,
    scope: Seq<char>,
    kind: Option<i64>,
)
    requires
        meta_of(b).reversibility != Reversibility::Destructive,
        b == Builtin::AutoIndex ==> (scope_parts(scope) matches Some((c, f)) ==> indexed(
            after.indexes,
            c,
            f,
        ) == Some(
            match kind_asked(kind) {
                Some(k) => k,
                None => kind_suited(before, c, f),
            },
        )),
    ensures
        disabling(b, after, scope).apply == enabling(b, before, scope, kind).revert,
{
}

/// A heavier share of writes lowers what a result cache is expected to save, and
/// never makes it impossible.
pub proof fn writes_lower_an_estimate_without_a_veto(a: ContextModel, b: ContextModel)
    requires
        a.operations > 0,
        b.operations > 0,
        a.writes <= a.operations,
        b.writes <= b.operations,
        a.writes * b.operations < b.writes * a.operations,
    ensures
        ({
            let x = estimated(Builtin::ResultCache, a).p50_delta;
            let y = estimated(Builtin::ResultCache, b).p50_delta;
            x.num * y.den < y.num * x.den
        }),
        verdict(Builtin::ResultCache, b) is Applicable,
{
    let (p, q) = (a.operations as int, b.operations as int);
    let (w, v) = (a.writes as int, b.writes as int);
    assert(10 * p - 5 * (p - w) == 5 * p + 5 * w);
    assert((5 * p + 5 * w) * (10 * q) < (5 * q + 5 * v) * (10 * p)) by (nonlinear_arith)
        requires
            w * q < v * p,
    ;
    assert(estimated(Builtin::ResultCache, a).p50_delta == Ratio {
        num: (10 * p - 5 * (p - w)) as u128,
        den: (10 * p) as u128,
    });
    assert(estimated(Builtin::ResultCache, b).p50_delta == Ratio {
        num: (10 * q - 5 * (q - v)) as u128,
        den: (10 * q) as u128,
    });
}

pub open spec fn pair_texts(s: Seq<(String, String)>) -> Seq<(Seq<char>, Seq<char>)> {
    s.map_values(|p: (String, String)| (p.0@, p.1@))
}

impl View for FixedCollection {
    type V = FixedModel;

    open spec fn view(&self) -> FixedModel {
        FixedModel { name: self.name@, rows: self.rows, span: self.span }
    }
}

impl FixedCollection {
    fn density(&self) -> (r: (u64, u64))
        ensures
            r == density(self@),
            r.1 > 0,
    {
        if self.span == 0 {
            (0, 1)
        } else {
            (self.rows, self.span)
        }
    }
}

fn fixed_row_sum(ctx: &OptContext) -> (n: usize)
    requires
        fixed_rows(ctx@, ctx@.fixed.len() as int) <= usize::MAX,
    ensures
        n == fixed_rows(ctx@, ctx@.fixed.len() as int),
{
    let ghost m = ctx@;
    let mut n: usize = 0;
    let mut i: usize = 0;
    while i < ctx.fixed_size_collections.len()
        invariant
            i <= ctx.fixed_size_collections@.len(),
            m == ctx@,
            m.fixed.len() == ctx.fixed_size_collections@.len(),
            fixed_rows(m, m.fixed.len() as int) <= usize::MAX,
            n == fixed_rows(m, i as int),
        decreases ctx.fixed_size_collections.len() - i,
    {
        assert(m.fixed[i as int].name == ctx.fixed_size_collections@[i as int].name@);
        proof {
            lemma_fixed_rows(m, i + 1);
        }
        n = n + ctx.rows_in(ctx.fixed_size_collections[i].name.as_str());
        i += 1;
    }
    n
}

proof fn lemma_fixed_rows(m: ContextModel, i: int)
    requires
        0 <= i <= m.fixed.len(),
    ensures
        fixed_rows(m, i) <= fixed_rows(m, m.fixed.len() as int),
    decreases m.fixed.len() - i,
{
    if i < m.fixed.len() {
        lemma_fixed_rows(m, i + 1);
    }
}

fn candidate_row_sum(ctx: &OptContext, pairs: &Vec<(String, String)>) -> (n: usize)
    requires
        candidate_rows(ctx@, pair_texts(pairs@)) <= usize::MAX,
    ensures
        n == candidate_rows(ctx@, pair_texts(pairs@)),
{
    let ghost m = ctx@;
    let ghost s = pair_texts(pairs@);
    let mut n: usize = 0;
    let mut i: usize = 0;
    assert(s.take(0) =~= Seq::empty());
    while i < pairs.len()
        invariant
            i <= pairs@.len(),
            m == ctx@,
            s == pair_texts(pairs@),
            candidate_rows(m, s) <= usize::MAX,
            n == candidate_rows(m, s.take(i as int)),
        decreases pairs.len() - i,
    {
        proof {
            assert(s.take(i + 1).drop_last() =~= s.take(i as int));
            assert(s.take(i + 1).last() == (pairs@[i as int].0@, pairs@[i as int].1@));
            lemma_candidate_rows(m, s, i + 1);
        }
        n = n + ctx.rows_in(pairs[i].0.as_str());
        i += 1;
    }
    assert(s.take(i as int) =~= s);
    n
}

proof fn lemma_candidate_rows(m: ContextModel, s: Seq<(Seq<char>, Seq<char>)>, i: int)
    requires
        0 <= i <= s.len(),
    ensures
        candidate_rows(m, s.take(i)) <= candidate_rows(m, s),
    decreases s.len() - i,
{
    if i < s.len() {
        assert(s.take(i + 1).drop_last() =~= s.take(i));
        lemma_candidate_rows(m, s, i + 1);
    } else {
        assert(s.take(i) =~= s);
    }
}

// -- the optimizations --------------------------------------------------------

/// Reuse physical plans across queries of one shape.
pub struct PlanCacheOpt;

impl PlanCacheOpt {
    pub fn meta(&self) -> (m: OptMeta)
        ensures
            m@ == meta_of(Builtin::PlanCache),
    {
        OptMeta {
            name: "plan_cache",
            summary: "reuse physical plans across queries of the same shape",
            scope_kind: ScopeKind::Global,
            min_level: 1,
            axis_effects: AxisEffects { speed: 2, resources: -1, freedom: 0 },
            reversibility: Reversibility::Instant,
        }
    }

    pub fn applicability(&self, ctx: &OptContext) -> (a: Applicability)
        ensures
            a@ == verdict(Builtin::PlanCache, ctx@),
    {
        Applicability::Applicable
    }

    pub fn estimate(&self, ctx: &OptContext) -> (e: CostEstimate)
        ensures
            e == estimated(Builtin::PlanCache, ctx@),
    {
        CostEstimate { ram_bytes: 2_097_152, ..latency(percent(95), percent(95), 40) }
    }

    pub fn plan_enable(&self, ctx: &OptContext, scope: &str, kind: Option<i64>) -> (p: ChangePlan)
        ensures
            p@ == enabling(Builtin::PlanCache, ctx@, scope@, kind),
    {
        both_ways(
            Action::SetPlanCacheEntries(PLAN_CACHE_ENTRIES),
            Action::SetPlanCacheEntries(0),
        )
    }

    pub fn plan_disable(&self, ctx: &OptContext, scope: &str) -> (p: ChangePlan)
        ensures
            p@ == disabling(Builtin::PlanCache, ctx@, scope@),
    {
        one_way(Action::SetPlanCacheEntries(0))
    }
}

/// Serve repeated identical queries from memory. Always possible: whether it is
/// wise under a heavy write load is for the estimate to say.
pub struct ResultCacheOpt;

impl ResultCacheOpt {
    pub fn meta(&self) -> (m: OptMeta)
        ensures
            m@ == meta_of(Builtin::ResultCache),
    {
        OptMeta {
            name: "result_cache",
            summary: "serve repeated identical queries from memory",
            scope_kind: ScopeKind::Global,
            min_level: 1,
            axis_effects: AxisEffects { speed: 5, resources: -4, freedom: 0 },
            reversibility: Reversibility::Instant,
        }
    }

    pub fn applicability(&self, ctx: &OptContext) -> (a: Applicability)
        ensures
            a@ == verdict(Builtin::ResultCache, ctx@),
    {
        Applicability::Applicable
    }

    pub fn estimate(&self, ctx: &OptContext) -> (e: CostEstimate)
        ensures
            e == estimated(Builtin::ResultCache, ctx@),
    {
        CostEstimate {
            ram_bytes: 1_048_576,
            maintenance: percent(2),
            ..latency(relief(ctx, 5, 10), relief(ctx, 3, 10), 35)
        }
    }

    pub fn plan_enable(&self, ctx: &OptContext, scope: &str, kind: Option<i64>) -> (p: ChangePlan)
        ensures
            p@ == enabling(Builtin::ResultCache, ctx@, scope@, kind),
    {
        both_ways(
            Action::SetResultCacheEntries(RESULT_CACHE_ENTRIES),
            Action::SetResultCacheEntries(0),
        )
    }

    pub fn plan_disable(&self, ctx: &OptContext, scope: &str) -> (p: ChangePlan)
        ensures
            p@ == disabling(Builtin::ResultCache, ctx@, scope@),
    {
        one_way(Action::SetResultCacheEntries(0))
    }
}

/// Hold more pages in memory.
pub struct BufferPoolOpt;

impl BufferPoolOpt {
    pub fn meta(&self) -> (m: OptMeta)
        ensures
            m@ == meta_of(Builtin::BufferPool),
    {
        OptMeta {
            name: "buffer_pool",
            summary: "hold more pages in memory",
            scope_kind: ScopeKind::Global,
            min_level: 3,
            axis_effects: AxisEffects { speed: 4, resources: -6, freedom: 0 },
            reversibility: Reversibility::Instant,
        }
    }

    pub fn applicability(&self, ctx: &OptContext) -> (a: Applicability)
        ensures
            a@ == verdict(Builtin::BufferPool, ctx@),
    {
        Applicability::Applicable
    }

    pub fn estimate(&self, ctx: &OptContext) -> (e: CostEstimate)
        ensures
            e == estimated(Builtin::BufferPool, ctx@),
    {
        CostEstimate {
            ram_bytes: (LARGE_POOL_PAGES as i64 - DEFAULT_POOL_PAGES as i64) * PAGE_BYTES,
            ..latency(percent(80), percent(70), 50)
        }
    }

    pub fn plan_enable(&self, ctx: &OptContext, scope: &str, kind: Option<i64>) -> (p: ChangePlan)
        ensures
            p@ == enabling(Builtin::BufferPool, ctx@, scope@, kind),
    {
        both_ways(
            Action::SetBufferPoolPages(LARGE_POOL_PAGES),
            Action::SetBufferPoolPages(DEFAULT_POOL_PAGES),
        )
    }

    pub fn plan_disable(&self, ctx: &OptContext, scope: &str) -> (p: ChangePlan)
        ensures
            p@ == disabling(Builtin::BufferPool, ctx@, scope@),
    {
        one_way(Action::SetBufferPoolPages(DEFAULT_POOL_PAGES))
    }
}

/// Index the fields that queries keep filtering on, one scope per field.
pub struct AutoIndexOpt;

impl AutoIndexOpt {
    pub fn meta(&self) -> (m: OptMeta)
        ensures
            m@ == meta_of(Builtin::AutoIndex),
    {
        OptMeta {
            name: "auto_index",
            summary: "index fields that queries repeatedly filter on",
            scope_kind: ScopeKind::PerField,
            min_level: 2,
            axis_effects: AxisEffects { speed: 7, resources: -3, freedom: 0 },
            reversibility: Reversibility::RebuildRequired,
        }
    }

    /// The fields worth indexing.
    fn candidates(ctx: &OptContext) -> (out: Vec<(String, String)>)
        ensures
            pair_texts(out@) == index_candidates(ctx@, ctx@.filtered.len() as int),
    {
        let ghost m = ctx@;
        let mut out: Vec<(String, String)> = Vec::new();
        let mut i: usize = 0;
        assert(pair_texts(out@) =~= Seq::empty());
        while i < ctx.filtered_fields.len()
            invariant
                i <= ctx.filtered_fields@.len(),
                m == ctx@,
                m.filtered.len() == ctx.filtered_fields@.len(),
                pair_texts(out@) == index_candidates(m, i as int),
            decreases ctx.filtered_fields.len() - i,
        {
            let f = &ctx.filtered_fields[i];
            assert(m.filtered[i as int] == (f.0@, f.1@, f.2));
            if f.2 >= MIN_QUERIES_FOR_INDEX && ctx.rows_in(f.0.as_str()) >= MIN_ROWS_FOR_INDEX
                && ctx.index_on(f.0.as_str(), f.1.as_str()).is_none() {
                let ghost before = pair_texts(out@);
                out.push((f.0.clone(), f.1.clone()));
                assert(pair_texts(out@) =~= before.push((f.0@, f.1@)));
            }
            i += 1;
        }
        out
    }

    /// One scope per field worth indexing, so each index stands on its own
    /// evidence.
    pub fn candidate_scopes(&self, ctx: &OptContext) -> (out: Vec<String>)
        ensures
            texts(out@) == index_candidates(ctx@, ctx@.filtered.len() as int).map_values(
                |p: (Seq<char>, Seq<char>)| p.0 + "."@ + p.1,
            ),
    {
        let pairs = AutoIndexOpt::candidates(ctx);
        let ghost want = pair_texts(pairs@).map_values(
            |p: (Seq<char>, Seq<char>)| p.0 + "."@ + p.1,
        );
        let mut out: Vec<String> = Vec::new();
        let mut i: usize = 0;
        while i < pairs.len()
            invariant
                i <= pairs@.len(),
                want == pair_texts(pairs@).map_values(
                    |p: (Seq<char>, Seq<char>)| p.0 + "."@ + p.1,
                ),
                out@.len() == i,
                forall|k: int| 0 <= k < i ==> (#[trigger] out@[k])@ == want[k],
            decreases pairs.len() - i,
        {
            let mut s = pairs[i].0.clone();
            s.append(".");
            s.append(pairs[i].1.as_str());
            out.push(s);
            i += 1;
        }
        assert(texts(out@) =~= want);
        out
    }

    pub fn applicability(&self, ctx: &OptContext) -> (a: Applicability)
        ensures
            a@ == verdict(Builtin::AutoIndex, ctx@),
    {
        let ghost m = ctx@;
        let all = &ctx.filtered_fields;
        if all.len() == 0 {
            return Applicability::NotYet("no queries have filtered on any field yet".to_owned());
        }
        let pairs = AutoIndexOpt::candidates(ctx);
        assert(pair_texts(pairs@).len() == pairs@.len());
        if pairs.len() > 0 {
            return Applicability::Applicable;
        }
        let mut best: usize = 0;
        let mut i: usize = 0;
        while i < all.len()
            invariant
                i <= all@.len(),
                *all == ctx.filtered_fields,
                m == ctx@,
                m.filtered.len() == all@.len(),
                best < all@.len(),
                i > 0 ==> m.filtered[best as int] == busiest(m.filtered.take(i as int)),
            decreases all.len() - i,
        {
            proof {
                let next = m.filtered.take(i + 1);
                assert(next.drop_last() =~= m.filtered.take(i as int));
                assert(next.last() == m.filtered[i as int]);
                assert(m.filtered[i as int].2 == all@[i as int].2);
                assert(m.filtered[best as int].2 == all@[best as int].2);
            }
            if i == 0 || all[i].2 >= all[best].2 {
                best = i;
            }
            i += 1;
        }
        assert(m.filtered.take(i as int) =~= m.filtered);
        let f = &all[best];
        assert(m.filtered[best as int] == (f.0@, f.1@, f.2));
        let mut s = f.0.clone();
        if ctx.index_on(f.0.as_str(), f.1.as_str()).is_some() {
            s.append(".");
            s.append(f.1.as_str());
            s.append(" is already indexed");
        } else if f.2 < MIN_QUERIES_FOR_INDEX {
            s.append(".");
            s.append(f.1.as_str());
            s.append(" filtered only ");
            push_dec(&mut s, f.2);
            s.append(" times, below the 8 needed");
        } else {
            s.append(" holds ");
            push_dec(&mut s, ctx.rows_in(f.0.as_str()) as u64);
            s.append(" rows, below the 1000 at which an index pays");
        }
        Applicability::NotYet(s)
    }

    pub fn estimate(&self, ctx: &OptContext) -> (e: CostEstimate)
        requires
            reckonable(Builtin::AutoIndex, ctx@),
        ensures
            e == estimated(Builtin::AutoIndex, ctx@),
    {
        let pairs = AutoIndexOpt::candidates(ctx);
        let rows: i64 = candidate_row_sum(ctx, &pairs) as i64;
        CostEstimate {
            ram_bytes: rows * 64,
            maintenance: percent(10),
            build: Some(
                BuildCost { rows_read: rows as u64, rows_per_second: 1_000_000, online: true },
            ),
            ..latency(percent(30), percent(25), 60)
        }
    }

    pub fn plan_enable(&self, ctx: &OptContext, scope: &str, kind: Option<i64>) -> (p: ChangePlan)
        ensures
            p@ == enabling(Builtin::AutoIndex, ctx@, scope@, kind),
    {
        match split_scope(scope) {
            None => idle(),
            Some((collection, field)) => {
                let k = match index_kind_param(kind) {
                    Some(k) => k,
                    None => index_kind_for(ctx, collection.as_str(), field.as_str()),
                };
                both_ways(
                    Action::CreateIndex {
                        collection: collection.clone(),
                        field: field.clone(),
                        kind: k,
                    },
                    Action::DropIndex { collection, field, kind: k },
                )
            },
        }
    }

    pub fn plan_disable(&self, ctx: &OptContext, scope: &str) -> (p: ChangePlan)
        ensures
            p@ == disabling(Builtin::AutoIndex, ctx@, scope@),
    {
        match split_scope(scope) {
            None => idle(),
            Some((collection, field)) => {
                let kind = match ctx.index_on(collection.as_str(), field.as_str()) {
                    Some(k) => k,
                    None => index_kind_for(ctx, collection.as_str(), field.as_str()),
                };
                one_way(Action::DropIndex { collection, field, kind })
            },
        }
    }
}

/// Compress stored records: the trade in the other direction, time for space.
pub struct RecordCompressionOpt;

impl RecordCompressionOpt {
    pub fn meta(&self) -> (m: OptMeta)
        ensures
            m@ == meta_of(Builtin::RecordCompression),
    {
        OptMeta {
            name: "record_compression",
            summary: "compress stored records, trading CPU for storage and residency",
            scope_kind: ScopeKind::Global,
            min_level: 2,
            axis_effects: AxisEffects { speed: -1, resources: 6, freedom: 0 },
            reversibility: Reversibility::RebuildRequired,
        }
    }

    pub fn applicability(&self, ctx: &OptContext) -> (a: Applicability)
        requires
            row_sum(ctx@.collections) <= usize::MAX,
        ensures
            a@ == verdict(Builtin::RecordCompression, ctx@),
    {
        let n: usize = ctx.row_sum();
        if n < MIN_ROWS_FOR_COMPRESSION {
            let mut s = "only ".to_owned();
            push_dec(&mut s, n as u64);
            s.append(" rows stored; compression's CPU cost is not worth it below 500");
            return Applicability::NotYet(s);
        }
        Applicability::Applicable
    }

    pub fn estimate(&self, ctx: &OptContext) -> (e: CostEstimate)
        requires
            reckonable(Builtin::RecordCompression, ctx@),
        ensures
            e == estimated(Builtin::RecordCompression, ctx@),
    {
        let rows: i64 = ctx.row_sum() as i64;
        CostEstimate {
            ram_bytes: -(rows * 16),
            storage_bytes: -(rows * 48),
            io_ops: -(rows / 100),
            cpu_frac: percent(8),
            maintenance: percent(6),
            build: Some(
                BuildCost { rows_read: rows as u64, rows_per_second: 500_000, online: false },
            ),
            ..latency(percent(105), percent(108), 30)
        }
    }

    pub fn plan_enable(&self, ctx: &OptContext, scope: &str, kind: Option<i64>) -> (p: ChangePlan)
        ensures
            p@ == enabling(Builtin::RecordCompression, ctx@, scope@, kind),
    {
        both_ways(Action::SetRecordCompression(true), Action::SetRecordCompression(false))
    }

    pub fn plan_disable(&self, ctx: &OptContext, scope: &str) -> (p: ChangePlan)
        ensures
            p@ == disabling(Builtin::RecordCompression, ctx@, scope@),
    {
        one_way(Action::SetRecordCompression(false))
    }
}

/// Keep a columnar copy for scans and aggregates over few fields.
pub struct ColumnStoreOpt;

impl ColumnStoreOpt {
    pub fn meta(&self) -> (m: OptMeta)
        ensures
            m@ == meta_of(Builtin::ColumnStore),
    {
        OptMeta {
            name: "column_store",
            summary: "keep a columnar copy for scans and aggregates over few fields",
            scope_kind: ScopeKind::PerCollection,
            min_level: 4,
            axis_effects: AxisEffects { speed: 6, resources: -3, freedom: 0 },
            reversibility: Reversibility::RebuildRequired,
        }
    }

    pub fn applicability(&self, ctx: &OptContext) -> (a: Applicability)
        ensures
            a@ == verdict(Builtin::ColumnStore, ctx@),
    {
        let n: usize = ctx.biggest();
        if n < MIN_ROWS_FOR_COLUMNS {
            let mut s = "largest collection holds ".to_owned();
            push_dec(&mut s, n as u64);
            s.append(" rows, below the 2000 at which a second copy pays");
            return Applicability::NotYet(s);
        }
        Applicability::Applicable
    }

    pub fn estimate(&self, ctx: &OptContext) -> (e: CostEstimate)
        requires
            reckonable(Builtin::ColumnStore, ctx@),
        ensures
            e == estimated(Builtin::ColumnStore, ctx@),
    {
        let rows: i64 = ctx.row_sum() as i64;
        let (reads, all): (u64, u64) = ctx.reading();
        CostEstimate {
            ram_bytes: rows * 24,
            maintenance: Ratio {
                num: 12 * all as u128 + 30 * (all - reads) as u128,
                den: 100 * all as u128,
            },
            build: Some(
                BuildCost { rows_read: rows as u64, rows_per_second: 1_000_000, online: true },
            ),
            ..latency(relief(ctx, 10, 20), relief(ctx, 11, 20), 40)
        }
    }

    pub fn plan_enable(&self, ctx: &OptContext, scope: &str, kind: Option<i64>) -> (p: ChangePlan)
        ensures
            p@ == enabling(Builtin::ColumnStore, ctx@, scope@, kind),
    {
        both_ways(Action::SetColumnStore(true), Action::SetColumnStore(false))
    }

    pub fn plan_disable(&self, ctx: &OptContext, scope: &str) -> (p: ChangePlan)
        ensures
            p@ == disabling(Builtin::ColumnStore, ctx@, scope@),
    {
        one_way(Action::SetColumnStore(false))
    }
}

/// Raise a collection's schema to the most rigid its data supports. Records
/// written under it were constrained by it, and that cannot be undone.
pub struct FreezeSchemaOpt;

impl FreezeSchemaOpt {
    pub fn meta(&self) -> (m: OptMeta)
        ensures
            m@ == meta_of(Builtin::FreezeSchema),
    {
        OptMeta {
            name: "freeze_schema",
            summary: "raise a collection's schema to the most rigid its data supports",
            scope_kind: ScopeKind::PerCollection,
            min_level: 8,
            axis_effects: AxisEffects { speed: 6, resources: 4, freedom: -9 },
            reversibility: Reversibility::Destructive,
        }
    }

    /// The collections loose enough and large enough.
    pub fn candidate_scopes(&self, ctx: &OptContext) -> (out: Vec<String>)
        ensures
            texts(out@) == freezable(ctx@, ctx@.collections.len() as int),
    {
        let ghost m = ctx@;
        let mut out: Vec<String> = Vec::new();
        let mut i: usize = 0;
        assert(texts(out@) =~= Seq::empty());
        while i < ctx.collections.len()
            invariant
                i <= ctx.collections@.len(),
                m == ctx@,
                m.collections.len() == ctx.collections@.len(),
                texts(out@) == freezable(m, i as int),
            decreases ctx.collections.len() - i,
        {
            let c = &ctx.collections[i];
            assert(m.collections[i as int] == (c.0@, c.1));
            if c.1 >= MIN_ROWS_TO_FREEZE && !ctx.is_fixed_size(c.0.as_str()) {
                let ghost before = texts(out@);
                out.push(c.0.clone());
                assert(texts(out@) =~= before.push(c.0@));
            }
            i += 1;
        }
        out
    }

    pub fn applicability(&self, ctx: &OptContext) -> (a: Applicability)
        ensures
            a@ == verdict(Builtin::FreezeSchema, ctx@),
    {
        let scopes = self.candidate_scopes(ctx);
        assert(texts(scopes@).len() == scopes@.len());
        if scopes.len() == 0 {
            return Applicability::NotYet(
                "no collection is both loose and larger than 1000 rows".to_owned(),
            );
        }
        Applicability::Applicable
    }

    pub fn estimate(&self, ctx: &OptContext) -> (e: CostEstimate)
        requires
            reckonable(Builtin::FreezeSchema, ctx@),
        ensures
            e == estimated(Builtin::FreezeSchema, ctx@),
    {
        let rows: i64 = ctx.row_sum() as i64;
        CostEstimate {
            storage_bytes: -(rows * 16),
            build: Some(
                BuildCost { rows_read: rows as u64, rows_per_second: 200_000, online: false },
            ),
            ..latency(percent(70), percent(65), 25)
        }
    }

    pub fn plan_enable(&self, ctx: &OptContext, scope: &str, kind: Option<i64>) -> (p: ChangePlan)
        ensures
            p@ == enabling(Builtin::FreezeSchema, ctx@, scope@, kind),
    {
        one_way(Action::FreezeSchema { collection: scope.to_owned() })
    }

    pub fn plan_disable(&self, ctx: &OptContext, scope: &str) -> (p: ChangePlan)
        ensures
            p@ == disabling(Builtin::FreezeSchema, ctx@, scope@),
    {
        idle()
    }
}

/// Address records arithmetically where the schema fixes their size. It costs
/// freedom: it only works while the schema stays of fixed width.
pub struct DirectLookupOpt;

impl DirectLookupOpt {
    pub fn meta(&self) -> (m: OptMeta)
        ensures
            m@ == meta_of(Builtin::DirectLookup),
    {
        OptMeta {
            name: "direct_lookup",
            summary: "address records arithmetically where the schema fixes their size",
            scope_kind: ScopeKind::PerCollection,
            min_level: 10,
            axis_effects: AxisEffects { speed: 9, resources: -7, freedom: -4 },
            reversibility: Reversibility::RebuildRequired,
        }
    }

    pub fn applicability(&self, ctx: &OptContext) -> (a: Applicability)
        ensures
            a@ == verdict(Builtin::DirectLookup, ctx@),
    {
        let ghost s = ctx@.fixed;
        let all = &ctx.fixed_size_collections;
        if all.len() == 0 {
            return Applicability::Ineligible(
                "no collection has a fixed-size schema; records must have a constant stride".to_owned(),
            );
        }
        let mut worst: usize = 0;
        let mut i: usize = 0;
        while i < all.len()
            invariant
                i <= all@.len(),
                *all == ctx.fixed_size_collections,
                s == ctx@.fixed,
                s.len() == all@.len(),
                worst < all@.len(),
                i > 0 ==> s[worst as int] == sparsest(s.take(i as int)),
                forall|k: int| 0 <= k < i ==> sparse(#[trigger] s[k]),
            decreases all.len() - i,
        {
            let (rows, span): (u64, u64) = all[i].density();
            assert(s[i as int] == all@[i as int]@);
            if 2 * rows as u128 >= span as u128 {
                assert(!sparse(s[i as int]));
                return Applicability::Applicable;
            }
            let (least, range): (u64, u64) = all[worst].density();
            assert(s[worst as int] == all@[worst as int]@);
            proof {
                assert(s.take(i + 1).drop_last() =~= s.take(i as int));
                assert(s.take(i + 1).last() == s[i as int]);
                assert(rows * range <= u64::MAX * u64::MAX && least * span <= u64::MAX * u64::MAX)
                    by (nonlinear_arith)
                    requires
                        rows <= u64::MAX,
                        range <= u64::MAX,
                        least <= u64::MAX,
                        span <= u64::MAX,
                ;
            }
            if i == 0 {
                worst = 0;
            } else if (rows as u128 * range as u128) < least as u128 * span as u128 {
                worst = i;
            }
            i += 1;
        }
        assert(s.take(i as int) =~= s);
        let f = &all[worst];
        assert(s[worst as int] == f@);
        let (rows, span): (u64, u64) = f.density();
        let mut t = f.name.clone();
        t.append(" ids are only ");
        push_share(&mut t, rows, span);
        t.append(" dense, below the 50% at which a flat array pays");
        Applicability::NotYet(t)
    }

    pub fn estimate(&self, ctx: &OptContext) -> (e: CostEstimate)
        requires
            reckonable(Builtin::DirectLookup, ctx@),
        ensures
            e == estimated(Builtin::DirectLookup, ctx@),
    {
        let rows: i64 = fixed_row_sum(ctx) as i64;
        CostEstimate {
            ram_bytes: rows * 64,
            maintenance: percent(15),
            build: Some(
                BuildCost { rows_read: rows as u64, rows_per_second: 2_000_000, online: true },
            ),
            ..latency(percent(40), percent(35), 50)
        }
    }

    pub fn plan_enable(&self, ctx: &OptContext, scope: &str, kind: Option<i64>) -> (p: ChangePlan)
        ensures
            p@ == enabling(Builtin::DirectLookup, ctx@, scope@, kind),
    {
        both_ways(Action::SetDirectLookup(true), Action::SetDirectLookup(false))
    }

    pub fn plan_disable(&self, ctx: &OptContext, scope: &str) -> (p: ChangePlan)
        ensures
            p@ == disabling(Builtin::DirectLookup, ctx@, scope@),
    {
        one_way(Action::SetDirectLookup(false))
    }
}

/// Read ahead when page access turns out to be sequential.
pub struct PrefetchOpt;

impl PrefetchOpt {
    pub fn meta(&self) -> (m: OptMeta)
        ensures
            m@ == meta_of(Builtin::Prefetch),
    {
        OptMeta {
            name: "prefetch",
            summary: "read ahead when page access turns out to be sequential",
            scope_kind: ScopeKind::Global,
            min_level: 3,
            axis_effects: AxisEffects { speed: 3, resources: -1, freedom: 0 },
            reversibility: Reversibility::Instant,
        }
    }

    pub fn applicability(&self, ctx: &OptContext) -> (a: Applicability)
        ensures
            a@ == verdict(Builtin::Prefetch, ctx@),
    {
        let n: usize = ctx.biggest();
        if n < MIN_ROWS_FOR_PREFETCH {
            let mut s = "the largest collection holds ".to_owned();
            push_dec(&mut s, n as u64);
            s.append(" rows, below the 5000 at which reading ahead pays");
            return Applicability::NotYet(s);
        }
        Applicability::Applicable
    }

    pub fn estimate(&self, ctx: &OptContext) -> (e: CostEstimate)
        ensures
            e == estimated(Builtin::Prefetch, ctx@),
    {
        latency(relief(ctx, 25, 100), relief(ctx, 25, 100), 40)
    }

    pub fn plan_enable(&self, ctx: &OptContext, scope: &str, kind: Option<i64>) -> (p: ChangePlan)
        ensures
            p@ == enabling(Builtin::Prefetch, ctx@, scope@, kind),
    {
        both_ways(Action::SetPrefetch(true), Action::SetPrefetch(false))
    }

    pub fn plan_disable(&self, ctx: &OptContext, scope: &str) -> (p: ChangePlan)
        ensures
            p@ == disabling(Builtin::Prefetch, ctx@, scope@),
    {
        both_ways(Action::SetPrefetch(false), Action::SetPrefetch(true))
    }
}

/// Keep grouped counts up to date on write instead of recomputing them.
pub struct MaterializedViewOpt;

impl MaterializedViewOpt {
    pub fn meta(&self) -> (m: OptMeta)
        ensures
            m@ == meta_of(Builtin::MaterializedView),
    {
        OptMeta {
            name: "materialized_view",
            summary: "keep grouped counts up to date on write instead of recomputing them",
            scope_kind: ScopeKind::Global,
            min_level: 4,
            axis_effects: AxisEffects { speed: 7, resources: -2, freedom: 0 },
            reversibility: Reversibility::RebuildRequired,
        }
    }

    pub fn applicability(&self, ctx: &OptContext) -> (a: Applicability)
        ensures
            a@ == verdict(Builtin::MaterializedView, ctx@),
    {
        let n: usize = ctx.biggest();
        if n < MIN_ROWS_FOR_VIEW {
            let mut s = "the largest collection holds ".to_owned();
            push_dec(&mut s, n as u64);
            s.append(" rows, below the 2000 at which maintaining a total beats recomputing it");
            return Applicability::NotYet(s);
        }
        Applicability::Applicable
    }

    pub fn estimate(&self, ctx: &OptContext) -> (e: CostEstimate)
        ensures
            e == estimated(Builtin::MaterializedView, ctx@),
    {
        CostEstimate {
            maintenance: percent(3),
            ..latency(relief(ctx, 50, 100), relief(ctx, 50, 100), 35)
        }
    }

    pub fn plan_enable(&self, ctx: &OptContext, scope: &str, kind: Option<i64>) -> (p: ChangePlan)
        ensures
            p@ == enabling(Builtin::MaterializedView, ctx@, scope@, kind),
    {
        both_ways(Action::SetMaterializedViews(true), Action::SetMaterializedViews(false))
    }

    pub fn plan_disable(&self, ctx: &OptContext, scope: &str) -> (p: ChangePlan)
        ensures
            p@ == disabling(Builtin::MaterializedView, ctx@, scope@),
    {
        both_ways(Action::SetMaterializedViews(false), Action::SetMaterializedViews(true))
    }
}

/// Every optimization, in the order they are registered.
pub open spec fn builtins() -> Seq<Builtin> {
    seq![
        Builtin::PlanCache,
        Builtin::ResultCache,
        Builtin::BufferPool,
        Builtin::AutoIndex,
        Builtin::RecordCompression,
        Builtin::ColumnStore,
        Builtin::FreezeSchema,
        Builtin::DirectLookup,
        Builtin::Prefetch,
        Builtin::MaterializedView,
    ]
}

pub fn register_builtins() -> (out: Vec<Builtin>)
    ensures
        out@ == builtins(),
{
    let out: Vec<Builtin> = vec![
        Builtin::PlanCache,
        Builtin::ResultCache,
        Builtin::BufferPool,
        Builtin::AutoIndex,
        Builtin::RecordCompression,
        Builtin::ColumnStore,
        Builtin::FreezeSchema,
        Builtin::DirectLookup,
        Builtin::Prefetch,
        Builtin::MaterializedView,
    ];
    assert(out@ =~= builtins());
    out
}

/// Optimizations that are spoken of but not there, each with why. There are none.
pub fn not_yet_implemented() -> (out: Vec<(&'static str, &'static str)>)
    ensures
        out@.len() == 0,
{
    Vec::new()
}

/// The first optimization of that name.
pub open spec fn named_among(s: Seq<Builtin>, name: Seq<char>) -> Option<Builtin>
    decreases s.len(),
{
    if s.len() == 0 {
        None
    } else if meta_of(s[0]).name == name {
        Some(s[0])
    } else {
        named_among(s.skip(1), name)
    }
}

/// The registered optimization of that name.
pub open spec fn registered(name: Seq<char>) -> Option<Builtin> {
    named_among(builtins(), name)
}

impl Builtin {
    /// Find a registered optimization by its name.
    pub fn named(name: &str) -> (r: Option<Builtin>)
        ensures
            r == registered(name@),
    {
        let all = register_builtins();
        let ghost s = all@;
        assert(s.skip(0) =~= s);
        let mut i: usize = 0;
        while i < all.len()
            invariant
                i <= all@.len(),
                s == all@,
                s == builtins(),
                named_among(s, name@) == named_among(s.skip(i as int), name@),
            decreases all@.len() - i,
        {
            assert(s.skip(i as int)[0] == s[i as int]);
            assert(s.skip(i as int).skip(1) =~= s.skip(i + 1));
            let b = all[i];
            if str_eq(b.meta().name, name) {
                return Some(b);
            }
            i += 1;
        }
        None
    }

    pub fn meta(&self) -> (m: OptMeta)
        ensures
            m@ == meta_of(*self),
    {
        match self {
            Builtin::PlanCache => PlanCacheOpt.meta(),
            Builtin::ResultCache => ResultCacheOpt.meta(),
            Builtin::BufferPool => BufferPoolOpt.meta(),
            Builtin::AutoIndex => AutoIndexOpt.meta(),
            Builtin::RecordCompression => RecordCompressionOpt.meta(),
            Builtin::ColumnStore => ColumnStoreOpt.meta(),
            Builtin::FreezeSchema => FreezeSchemaOpt.meta(),
            Builtin::DirectLookup => DirectLookupOpt.meta(),
            Builtin::Prefetch => PrefetchOpt.meta(),
            Builtin::MaterializedView => MaterializedViewOpt.meta(),
        }
    }

    /// Whether the optimization is possible now.
    pub fn applicability(&self, ctx: &OptContext) -> (a: Applicability)
        requires
            row_sum(ctx@.collections) <= usize::MAX,
        ensures
            a@ == verdict(*self, ctx@),
    {
        match self {
            Builtin::PlanCache => PlanCacheOpt.applicability(ctx),
            Builtin::ResultCache => ResultCacheOpt.applicability(ctx),
            Builtin::BufferPool => BufferPoolOpt.applicability(ctx),
            Builtin::AutoIndex => AutoIndexOpt.applicability(ctx),
            Builtin::RecordCompression => RecordCompressionOpt.applicability(ctx),
            Builtin::ColumnStore => ColumnStoreOpt.applicability(ctx),
            Builtin::FreezeSchema => FreezeSchemaOpt.applicability(ctx),
            Builtin::DirectLookup => DirectLookupOpt.applicability(ctx),
            Builtin::Prefetch => PrefetchOpt.applicability(ctx),
            Builtin::MaterializedView => MaterializedViewOpt.applicability(ctx),
        }
    }

    /// What the optimization is expected to cost.
    pub fn estimate(&self, ctx: &OptContext) -> (e: CostEstimate)
        requires
            reckonable(*self, ctx@),
        ensures
            e == estimated(*self, ctx@),
    {
        match self {
            Builtin::PlanCache => PlanCacheOpt.estimate(ctx),
            Builtin::ResultCache => ResultCacheOpt.estimate(ctx),
            Builtin::BufferPool => BufferPoolOpt.estimate(ctx),
            Builtin::AutoIndex => AutoIndexOpt.estimate(ctx),
            Builtin::RecordCompression => RecordCompressionOpt.estimate(ctx),
            Builtin::ColumnStore => ColumnStoreOpt.estimate(ctx),
            Builtin::FreezeSchema => FreezeSchemaOpt.estimate(ctx),
            Builtin::DirectLookup => DirectLookupOpt.estimate(ctx),
            Builtin::Prefetch => PrefetchOpt.estimate(ctx),
            Builtin::MaterializedView => MaterializedViewOpt.estimate(ctx),
        }
    }

    /// The changes that switch the optimization on for a scope.
    pub fn plan_enable(&self, ctx: &OptContext, scope: &str, kind: Option<i64>) -> (p: ChangePlan)
        ensures
            p@ == enabling(*self, ctx@, scope@, kind),
    {
        match self {
            Builtin::PlanCache => PlanCacheOpt.plan_enable(ctx, scope, kind),
            Builtin::ResultCache => ResultCacheOpt.plan_enable(ctx, scope, kind),
            Builtin::BufferPool => BufferPoolOpt.plan_enable(ctx, scope, kind),
            Builtin::AutoIndex => AutoIndexOpt.plan_enable(ctx, scope, kind),
            Builtin::RecordCompression => RecordCompressionOpt.plan_enable(ctx, scope, kind),
            Builtin::ColumnStore => ColumnStoreOpt.plan_enable(ctx, scope, kind),
            Builtin::FreezeSchema => FreezeSchemaOpt.plan_enable(ctx, scope, kind),
            Builtin::DirectLookup => DirectLookupOpt.plan_enable(ctx, scope, kind),
            Builtin::Prefetch => PrefetchOpt.plan_enable(ctx, scope, kind),
            Builtin::MaterializedView => MaterializedViewOpt.plan_enable(ctx, scope, kind),
        }
    }

    /// The changes that switch the optimization off for a scope.
    pub fn plan_disable(&self, ctx: &OptContext, scope: &str) -> (p: ChangePlan)
        ensures
            p@ == disabling(*self, ctx@, scope@),
    {
        match self {
            Builtin::PlanCache => PlanCacheOpt.plan_disable(ctx, scope),
            Builtin::ResultCache => ResultCacheOpt.plan_disable(ctx, scope),
            Builtin::BufferPool => BufferPoolOpt.plan_disable(ctx, scope),
            Builtin::AutoIndex => AutoIndexOpt.plan_disable(ctx, scope),
            Builtin::RecordCompression => RecordCompressionOpt.plan_disable(ctx, scope),
            Builtin::ColumnStore => ColumnStoreOpt.plan_disable(ctx, scope),
            Builtin::FreezeSchema => FreezeSchemaOpt.plan_disable(ctx, scope),
            Builtin::DirectLookup => DirectLookupOpt.plan_disable(ctx, scope),
            Builtin::Prefetch => PrefetchOpt.plan_disable(ctx, scope),
            Builtin::MaterializedView => MaterializedViewOpt.plan_disable(ctx, scope),
        }
    }
}

// -- what is decided ---------------------------------------------------------------

/// Whether some collection has at least so many rows.
pub open spec fn one_holds(s: Seq<(Seq<char>, usize)>, n: int) -> bool {
    exists|i: int| 0 <= i < s.len() && (#[trigger] s[i]).1 >= n
}

proof fn lemma_biggest(s: Seq<(Seq<char>, usize)>)
    ensures
        forall|i: int| 0 <= i < s.len() ==> (#[trigger] s[i]).1 <= biggest(s),
        s.len() > 0 ==> exists|i: int| 0 <= i < s.len() && (#[trigger] s[i]).1 == biggest(s),
        s.len() == 0 ==> biggest(s) == 0,
    decreases s.len(),
{
    if s.len() > 0 {
        let rest = s.drop_last();
        lemma_biggest(rest);
        assert forall|i: int| 0 <= i < s.len() implies (#[trigger] s[i]).1 <= biggest(s) by {
            if i < rest.len() {
                assert(rest[i] == s[i]);
            }
        }
        if s.last().1 > biggest(rest) || rest.len() == 0 {
            assert(s[s.len() - 1].1 == biggest(s));
        } else {
            let i = choose|i: int| 0 <= i < rest.len() && (#[trigger] rest[i]).1 == biggest(rest);
            assert(s[i].1 == biggest(s));
        }
    }
}

proof fn lemma_one_holds(s: Seq<(Seq<char>, usize)>, n: int)
    requires
        n > 0,
    ensures
        biggest(s) >= n <==> one_holds(s, n),
{
    lemma_biggest(s);
    if biggest(s) >= n {
        let i = choose|i: int| 0 <= i < s.len() && (#[trigger] s[i]).1 == biggest(s);
        assert(s[i].1 >= n);
    }
}

/// Whether an index on a field is listed.
pub open spec fn has_index_on(
    s: Seq<(Seq<char>, Seq<char>, IndexKind)>,
    collection: Seq<char>,
    field: Seq<char>,
) -> bool {
    exists|i: int|
        0 <= i < s.len() && (#[trigger] s[i]).0 == collection && s[i].1 == field
}

/// What is known of a collection, an index or a field's filters is what is first listed
/// of it.
pub proof fn the_first_listed_is_what_is_known(
    m: ContextModel,
    collection: Seq<char>,
    field: Seq<char>,
    i: int,
)
    ensures
        0 <= i < m.collections.len() && m.collections[i].0 == collection && (forall|k: int|
            0 <= k < i ==> (#[trigger] m.collections[k]).0 != collection) ==> rows_in(
            m.collections,
            collection,
        ) == m.collections[i].1,
        (forall|k: int| 0 <= k < m.collections.len() ==> (#[trigger] m.collections[k]).0 != collection)
            ==> rows_in(m.collections, collection) == 0,
        indexed(m.indexes, collection, field) is Some <==> has_index_on(m.indexes, collection, field),
        indexed(m.indexes, collection, field) matches Some(k) ==> m.indexes.contains(
            (collection, field, k),
        ),
        equality_of(m.equality, collection, field) matches Some((equal, total))
            ==> m.equality.contains((collection, field, equal, total)),
        equality_of(m.equality, collection, field) is None <==> forall|k: int|
            0 <= k < m.equality.len() ==> (#[trigger] m.equality[k]).0 != collection
                || m.equality[k].1 != field,
{
    lemma_rows_in(m.collections, collection, i);
    lemma_indexed(m.indexes, collection, field);
    lemma_equality_of(m.equality, collection, field);
}

proof fn lemma_rows_in(s: Seq<(Seq<char>, usize)>, name: Seq<char>, i: int)
    ensures
        0 <= i < s.len() && s[i].0 == name && (forall|k: int|
            0 <= k < i ==> (#[trigger] s[k]).0 != name) ==> rows_in(s, name) == s[i].1,
        (forall|k: int| 0 <= k < s.len() ==> (#[trigger] s[k]).0 != name) ==> rows_in(s, name) == 0,
    decreases s.len(),
{
    if s.len() > 0 {
        let rest = s.drop_first();
        lemma_rows_in(rest, name, i - 1);
        assert forall|k: int| 0 <= k < rest.len() implies #[trigger] rest[k] == s[k + 1] by {}
        if i > 0 && 0 <= i < s.len() && s[i].0 == name && (forall|k: int|
            0 <= k < i ==> (#[trigger] s[k]).0 != name) {
            assert(s[0].0 != name);
            assert(rest[i - 1] == s[i]);
        }
    }
}

proof fn lemma_indexed(
    s: Seq<(Seq<char>, Seq<char>, IndexKind)>,
    collection: Seq<char>,
    field: Seq<char>,
)
    ensures
        indexed(s, collection, field) is Some <==> has_index_on(s, collection, field),
        indexed(s, collection, field) matches Some(k) ==> s.contains((collection, field, k)),
    decreases s.len(),
{
    if s.len() > 0 {
        let rest = s.drop_first();
        lemma_indexed(rest, collection, field);
        if s[0].0 == collection && s[0].1 == field {
            assert(s[0] == (collection, field, s[0].2));
        } else {
            if has_index_on(s, collection, field) {
                let i = choose|i: int|
                    0 <= i < s.len() && (#[trigger] s[i]).0 == collection && s[i].1 == field;
                assert(rest[i - 1] == s[i]);
            }
            if has_index_on(rest, collection, field) {
                let i = choose|i: int|
                    0 <= i < rest.len() && (#[trigger] rest[i]).0 == collection && rest[i].1 == field;
                assert(s[i + 1] == rest[i]);
                let k = indexed(rest, collection, field)->Some_0;
                let j = choose|j: int| 0 <= j < rest.len() && rest[j] == (collection, field, k);
                assert(s[j + 1] == (collection, field, k));
            }
        }
    }
}

proof fn lemma_equality_of(
    s: Seq<(Seq<char>, Seq<char>, u64, u64)>,
    collection: Seq<char>,
    field: Seq<char>,
)
    ensures
        equality_of(s, collection, field) matches Some((equal, total)) ==> s.contains(
            (collection, field, equal, total),
        ),
        equality_of(s, collection, field) is None <==> forall|k: int|
            0 <= k < s.len() ==> (#[trigger] s[k]).0 != collection || s[k].1 != field,
    decreases s.len(),
{
    if s.len() > 0 {
        let rest = s.drop_first();
        lemma_equality_of(rest, collection, field);
        assert forall|k: int| 0 <= k < rest.len() implies #[trigger] rest[k] == s[k + 1] by {}
        assert forall|k: int| 0 < k < s.len() implies #[trigger] s[k] == rest[k - 1] by {}
        if s[0].0 == collection && s[0].1 == field {
            assert(s[0] == (collection, field, s[0].2, s[0].3));
        } else if let Some((equal, total)) = equality_of(rest, collection, field) {
            let j = choose|j: int|
                0 <= j < rest.len() && rest[j] == (collection, field, equal, total);
            assert(s[j + 1] == rest[j]);
        }
    }
}

/// Whether a field that is filtered on is worth an index: at least eight queries filtered
/// on it, its collection has at least a thousand rows, and no index is on it.
pub open spec fn pays_to_index(m: ContextModel, f: (Seq<char>, Seq<char>, u64)) -> bool {
    f.2 >= 8 && rows_in(m.collections, f.0) >= 1000 && !has_index_on(m.indexes, f.0, f.1)
}

/// The fields proposed for an index are those worth one, each time they are listed, in
/// their order.
pub proof fn the_fields_proposed_are_those_worth_an_index(m: ContextModel, n: int)
    requires
        0 <= n <= m.filtered.len(),
    ensures
        index_candidates(m, n) == m.filtered.take(n).filter(
            |f: (Seq<char>, Seq<char>, u64)| pays_to_index(m, f),
        ).map_values(|f: (Seq<char>, Seq<char>, u64)| (f.0, f.1)),
    decreases n,
{
    reveal(Seq::filter);
    let pays = |f: (Seq<char>, Seq<char>, u64)| pays_to_index(m, f);
    let pair = |f: (Seq<char>, Seq<char>, u64)| (f.0, f.1);
    let s = m.filtered.take(n);
    if n > 0 {
        the_fields_proposed_are_those_worth_an_index(m, n - 1);
        let f = m.filtered[n - 1];
        assert(s.drop_last() =~= m.filtered.take(n - 1));
        lemma_indexed(m.indexes, f.0, f.1);
        assert(worth_indexing(m, f) == pays(f));
        let before = m.filtered.take(n - 1).filter(pays);
        if pays(f) {
            assert(s.filter(pays) == before.push(f));
            assert(before.push(f).map_values(pair) =~= before.map_values(pair).push((f.0, f.1)));
        } else {
            assert(s.filter(pays) == before);
        }
    } else {
        assert(s.filter(pays).map_values(pair) =~= Seq::empty());
    }
}

/// When an optimization is possible: caching plans and results and a larger pool always,
/// an index where some field is worth one, compression from five hundred rows in all,
/// columnar copies and maintained views from two thousand rows in one collection, reading
/// ahead from five thousand, freezing where a collection of a thousand rows is not fixed
/// yet, and arrays where a fixed collection uses at least half of its range of ids. Arrays
/// alone are ever ruled out, where no collection is fixed.
pub proof fn an_optimization_is_possible_where_it_pays(b: Builtin, m: ContextModel)
    ensures
        verdict(b, m) is Applicable <==> match b {
            Builtin::PlanCache | Builtin::ResultCache | Builtin::BufferPool => true,
            Builtin::AutoIndex => exists|i: int|
                0 <= i < m.filtered.len() && pays_to_index(m, #[trigger] m.filtered[i]),
            Builtin::RecordCompression => row_sum(m.collections) >= 500,
            Builtin::ColumnStore | Builtin::MaterializedView => one_holds(m.collections, 2000),
            Builtin::Prefetch => one_holds(m.collections, 5000),
            Builtin::FreezeSchema => exists|i: int|
                0 <= i < m.collections.len() && (#[trigger] m.collections[i]).1 >= 1000 && !(exists|
                    k: int,
                |
                    0 <= k < m.fixed.len() && (#[trigger] m.fixed[k]).name == m.collections[i].0),
            Builtin::DirectLookup => exists|i: int|
                0 <= i < m.fixed.len() && (#[trigger] m.fixed[i]).span > 0 && 2 * m.fixed[i].rows
                    >= m.fixed[i].span,
        },
        verdict(b, m) is Ineligible <==> b is DirectLookup && m.fixed.len() == 0,
{
    lemma_one_holds(m.collections, 2000);
    lemma_one_holds(m.collections, 5000);
    lemma_index_candidates(m, m.filtered.len() as int);
    lemma_freezable(m, m.collections.len() as int);
    assert forall|i: int| 0 <= i < m.fixed.len() implies (sparse(#[trigger] m.fixed[i]) <==> !(
    m.fixed[i].span > 0 && 2 * m.fixed[i].rows >= m.fixed[i].span)) by {}
}

proof fn lemma_index_candidates(m: ContextModel, n: int)
    requires
        0 <= n <= m.filtered.len(),
    ensures
        index_candidates(m, n).len() > 0 <==> exists|i: int|
            0 <= i < n && pays_to_index(m, #[trigger] m.filtered[i]),
    decreases n,
{
    if n > 0 {
        lemma_index_candidates(m, n - 1);
        let f = m.filtered[n - 1];
        lemma_indexed(m.indexes, f.0, f.1);
        assert(worth_indexing(m, f) == pays_to_index(m, f));
    }
}

proof fn lemma_freezable(m: ContextModel, n: int)
    requires
        0 <= n <= m.collections.len(),
    ensures
        freezable(m, n).len() > 0 <==> exists|i: int|
            0 <= i < n && (#[trigger] m.collections[i]).1 >= 1000 && !(exists|k: int|
                0 <= k < m.fixed.len() && (#[trigger] m.fixed[k]).name == m.collections[i].0),
    decreases n,
{
    if n > 0 {
        lemma_freezable(m, n - 1);
        assert(m.collections[n - 1] == m.collections[n - 1]);
    }
}

/// The kind of an index follows how its field is filtered: one that cannot answer ranges
/// only where at least four in five filters are for equality, or nothing is known of them.
pub proof fn a_field_filtered_by_range_gets_an_ordered_index(
    m: ContextModel,
    collection: Seq<char>,
    field: Seq<char>,
)
    ensures
        match equality_of(m.equality, collection, field) {
            None => kind_suited(m, collection, field) is Hash,
            Some((equal, total)) => {
                &&& 100 * equal >= 80 * total ==> kind_suited(m, collection, field) is Hash
                &&& 100 * equal < 80 * total ==> kind_suited(m, collection, field) is BTree
            },
        },
        kind_asked(Some(0)) == Some(IndexKind::Hash),
        kind_asked(Some(1)) == Some(IndexKind::BTree),
        kind_asked(Some(2)) == Some(IndexKind::Bitmap),
        kind_asked(None) is None,
{
}

/// What switching an optimization on does: it gives a cache room or the pool more than it
/// has, makes an index on the field the scope names, of the kind that was asked for or
/// that suits it, freezes the collection the scope names, or switches its one structure
/// on. And what switching it off does: the reverse, for that scope alone; freezing is not
/// taken back.
pub proof fn switching_on_and_off_do_what_they_say(
    b: Builtin,
    m: ContextModel,
    scope: Seq<char>,
    kind: Option<i64>,
)
    ensures
        ({
            let on = enabling(b, m, scope, kind).apply;
            let off = disabling(b, m, scope).apply;
            match b {
                Builtin::PlanCache => on.len() == 1 && (on[0] matches ActionModel::SetPlanCacheEntries(
                    n,
                ) && n > 0) && off == seq![ActionModel::SetPlanCacheEntries(0)],
                Builtin::ResultCache => on.len() == 1 && (on[0] matches
                    ActionModel::SetResultCacheEntries(n) && n > 0) && off
                    == seq![ActionModel::SetResultCacheEntries(0)],
                Builtin::BufferPool => on.len() == 1 && off.len() == 1 && match (on[0], off[0]) {
                    (
                        ActionModel::SetBufferPoolPages(more),
                        ActionModel::SetBufferPoolPages(less),
                    ) => more > less > 0,
                    _ => false,
                },
                Builtin::AutoIndex => match scope_parts(scope) {
                    None => on.len() == 0 && off.len() == 0,
                    Some((c, f)) => {
                        &&& on.len() == 1 && (on[0] matches ActionModel::CreateIndex {
                            collection,
                            field,
                            kind: k,
                        } && collection == c && field == f && match kind {
                            Some(0) => k is Hash,
                            Some(1) => k is BTree,
                            Some(2) => k is Bitmap,
                            _ => k == kind_suited(m, c, f),
                        })
                        &&& off.len() == 1 && (off[0] matches ActionModel::DropIndex {
                            collection,
                            field,
                            kind: k,
                        } && collection == c && field == f && (indexed(m.indexes, c, f) matches Some(
                            had,
                        ) ==> k == had))
                    },
                },
                Builtin::RecordCompression => on == seq![ActionModel::SetRecordCompression(true)]
                    && off == seq![ActionModel::SetRecordCompression(false)],
                Builtin::ColumnStore => on == seq![ActionModel::SetColumnStore(true)] && off
                    == seq![ActionModel::SetColumnStore(false)],
                Builtin::FreezeSchema => on.len() == 1 && (on[0] matches ActionModel::FreezeSchema {
                    collection,
                } && collection == scope) && off.len() == 0,
                Builtin::DirectLookup => on == seq![ActionModel::SetDirectLookup(true)] && off
                    == seq![ActionModel::SetDirectLookup(false)],
                Builtin::Prefetch => on == seq![ActionModel::SetPrefetch(true)] && off
                    == seq![ActionModel::SetPrefetch(false)],
                Builtin::MaterializedView => on == seq![ActionModel::SetMaterializedViews(true)]
                    && off == seq![ActionModel::SetMaterializedViews(false)],
            }
        }),
{
}

/// Latency is expected to fall with every optimization but compression, which spends time
/// to save storage; and of caches, copies, views and reading ahead the less is expected,
/// the less of the workload reads: where everything writes, nothing.
pub proof fn what_is_expected_follows_the_workload(b: Builtin, m: ContextModel)
    requires
        m.operations > 0,
        m.writes <= m.operations,
        reckonable(b, m),
    ensures
        ({
            let e = estimated(b, m);
            &&& e.p50_delta.den > 0 && e.p99_delta.den > 0 && e.confidence.num < e.confidence.den
            &&& b is RecordCompression ==> e.p50_delta.num > e.p50_delta.den && e.storage_bytes
                == -48 * row_sum(m.collections) && e.cpu_frac.num > 0
            &&& b is PlanCache || b is BufferPool || b is AutoIndex || b is FreezeSchema
                || b is DirectLookup ==> e.p50_delta.num < e.p50_delta.den && e.p99_delta.num
                < e.p99_delta.den
            &&& b is ResultCache || b is ColumnStore || b is Prefetch || b is MaterializedView ==> {
                &&& m.writes < m.operations ==> e.p50_delta.num < e.p50_delta.den && e.p99_delta.num
                    < e.p99_delta.den
                &&& m.writes == m.operations ==> e.p50_delta.num == e.p50_delta.den
                    && e.p99_delta.num == e.p99_delta.den
            }
            &&& b is ColumnStore ==> e.ram_bytes == 24 * row_sum(m.collections)
            &&& b is AutoIndex ==> e.ram_bytes == 64 * candidate_rows(
                m,
                index_candidates(m, m.filtered.len() as int),
            )
            &&& e.build is Some <==> b is AutoIndex || b is RecordCompression || b is ColumnStore
                || b is FreezeSchema || b is DirectLookup
            &&& e.build matches Some(c) ==> c.rows_read == rows_touched(b, m) && (c.online <==> !(
            b is RecordCompression || b is FreezeSchema))
        }),
{
    let (p, w) = (m.operations as int, m.writes as int);
    assert(reading(m) == ((p - w) as u64, m.operations));
    assert forall|part: int, whole: int|
        #![trigger relieved(m, part, whole)]
        0 < part <= whole <= 100 implies {
        let r = relieved(m, part, whole);
        &&& r.num == whole * p - part * (p - w)
        &&& r.den == whole * p
        &&& r.den > 0
        &&& w < p ==> r.num < r.den
        &&& w == p ==> r.num == r.den
    } by {
        assert(0 <= part * (p - w) <= whole * p <= 100 * u64::MAX) by (nonlinear_arith)
            requires
                0 < part <= whole <= 100,
                0 <= w <= p <= u64::MAX,
        ;
        assert(whole * p > 0) by (nonlinear_arith)
            requires
                0 < whole,
                p > 0,
        ;
        if w < p {
            assert(part * (p - w) > 0) by (nonlinear_arith)
                requires
                    part > 0,
                    w < p,
            ;
        } else {
            assert(part * (p - w) == 0) by (nonlinear_arith)
                requires
                    p == w,
            ;
        }
    }
}

/// The rows that are summed are those of every collection, and the field that is busiest
/// is one that no other is filtered on more often than.
pub proof fn rows_add_up_and_the_busiest_leads(
    s: Seq<(Seq<char>, usize)>,
    c: (Seq<char>, usize),
    f: Seq<(Seq<char>, Seq<char>, u64)>,
)
    ensures
        row_sum(Seq::empty()) == 0,
        row_sum(s.push(c)) == row_sum(s) + c.1,
        f.len() > 0 ==> f.contains(busiest(f)) && forall|i: int|
            0 <= i < f.len() ==> (#[trigger] f[i]).2 <= busiest(f).2,
    decreases f.len(),
{
    assert(s.push(c).drop_last() =~= s);
    if f.len() > 0 {
        let rest = f.drop_last();
        rows_add_up_and_the_busiest_leads(s, c, rest);
        assert(f[f.len() - 1] == f.last());
        if f.len() > 1 {
            let j = choose|j: int| 0 <= j < rest.len() && rest[j] == busiest(rest);
            assert(f[j] == rest[j]);
            assert forall|i: int| 0 <= i < f.len() implies (#[trigger] f[i]).2 <= busiest(f).2 by {
                if i < rest.len() {
                    assert(rest[i] == f[i]);
                }
            }
        }
    }
}

/// Every optimization is registered, under its own name.
pub proof fn every_optimization_goes_by_its_name(b: Builtin)
    ensures
        registered(meta_of(b).name) == Some(b),
{
    reveal_strlit("plan_cache");
    reveal_strlit("result_cache");
    reveal_strlit("buffer_pool");
    reveal_strlit("auto_index");
    reveal_strlit("record_compression");
    reveal_strlit("column_store");
    reveal_strlit("freeze_schema");
    reveal_strlit("direct_lookup");
    reveal_strlit("prefetch");
    reveal_strlit("materialized_view");
    assert("plan_cache"@.len() == 10 && "plan_cache"@[0] == 'p');
    assert("result_cache"@.len() == 12 && "result_cache"@[0] == 'r');
    assert("buffer_pool"@.len() == 11);
    assert("auto_index"@.len() == 10 && "auto_index"@[0] == 'a');
    assert("record_compression"@.len() == 18);
    assert("column_store"@.len() == 12 && "column_store"@[0] == 'c');
    assert("freeze_schema"@.len() == 13 && "freeze_schema"@[0] == 'f');
    assert("direct_lookup"@.len() == 13 && "direct_lookup"@[0] == 'd');
    assert("prefetch"@.len() == 8);
    assert("materialized_view"@.len() == 17);
    let s = builtins();
    let name = meta_of(b).name;
    assert(s.skip(0) =~= s);
    lemma_named_next(s, 0, name);
    lemma_named_next(s, 1, name);
    lemma_named_next(s, 2, name);
    lemma_named_next(s, 3, name);
    lemma_named_next(s, 4, name);
    lemma_named_next(s, 5, name);
    lemma_named_next(s, 6, name);
    lemma_named_next(s, 7, name);
    lemma_named_next(s, 8, name);
    lemma_named_next(s, 9, name);
}

proof fn lemma_named_next(s: Seq<Builtin>, k: int, name: Seq<char>)
    requires
        0 <= k < s.len(),
    ensures
        named_among(s.skip(k), name) == if meta_of(s[k]).name == name {
            Some(s[k])
        } else {
            named_among(s.skip(k + 1), name)
        },
{
    assert(s.skip(k)[0] == s[k]);
    assert(s.skip(k).skip(1) =~= s.skip(k + 1));
}

/// Of collections whose ids are sparse the one named has the fewest of its ids in use, for
/// how wide they range: no other has fewer.
pub proof fn the_least_dense_collection_is_named(s: Seq<FixedModel>, i: int)
    requires
        0 <= i < s.len(),
    ensures
        s.contains(sparsest(s)),
        density(sparsest(s)).0 * density(s[i]).1 <= density(s[i]).0 * density(sparsest(s)).1,
        s[i].span > 0 ==> density(s[i]) == (s[i].rows, s[i].span),
        s[i].span == 0 ==> density(s[i]) == (0u64, 1u64),
    decreases s.len(),
{
    if s.len() == 1 {
        assert(s[0] == s.last());
        assert(s.contains(s[0]));
    } else {
        let rest = s.drop_last();
        let (best, last) = (sparsest(rest), s.last());
        the_least_dense_collection_is_named(rest, 0);
        let k = choose|k: int| 0 <= k < rest.len() && rest[k] == best;
        assert(s[k] == best);
        assert(s[s.len() - 1] == last);
        if i < rest.len() {
            the_least_dense_collection_is_named(rest, i);
            assert(rest[i] == s[i]);
            let (a, b) = (density(best).0 as int, density(best).1 as int);
            let (c, d) = (density(s[i]).0 as int, density(s[i]).1 as int);
            let (e, f) = (density(last).0 as int, density(last).1 as int);
            assert(a * d <= c * b);
            if e * b < a * f {
                assert(e * d <= c * f) by (nonlinear_arith)
                    requires
                        a * d <= c * b,
                        e * b < a * f,
                        b > 0,
                        d > 0,
                        f > 0,
                {
                    assert((e * b) * d <= (a * f) * d);
                    assert((a * d) * f <= (c * b) * f);
                    assert((e * d) * b <= (c * f) * b);
                }
            }
        }
    }
}

} // verus!
