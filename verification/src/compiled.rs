//! Specialised paths for hot query shapes.
//!
//! A shape seen often enough is answered by the smallest sequence of operations
//! that answers it, decided once and not on every call.

use std::collections::HashMap;
use vstd::prelude::*;
use vstd::std_specs::hash::*;
use vstd::string::*;
use crate::caches::{tick, ticked};
use crate::plan::{LogicalOp, OpModel};

verus! {

broadcast use vstd::std_specs::hash::group_hash_axioms;

/// A specialised way to answer one query shape.
#[derive(Debug, PartialEq, Eq)]
pub enum CompiledPath {
    /// One record by identity, straight from a directly-addressed array.
    DirectById { collection: String },
    /// One record by identity through the page directory.
    HeapById { collection: String },
}

/// What a [`CompiledPath`] does.
pub enum PathModel {
    DirectById(Seq<char>),
    HeapById(Seq<char>),
}

impl View for CompiledPath {
    type V = PathModel;

    open spec fn view(&self) -> PathModel {
        match self {
            CompiledPath::DirectById { collection } => PathModel::DirectById(collection@),
            CompiledPath::HeapById { collection } => PathModel::HeapById(collection@),
        }
    }
}

impl CompiledPath {
    /// The work this path does, in words.
    pub fn describe(&self) -> (s: String)
        ensures
            s@ == match self@ {
                PathModel::DirectById(c) => c + ": id -> address -> record"@,
                PathModel::HeapById(c) => c + ": id -> page directory -> record"@,
            },
    {
        match self {
            CompiledPath::DirectById { collection } => {
                let mut s = collection.clone();
                s.append(": id -> address -> record");
                s
            },
            CompiledPath::HeapById { collection } => {
                let mut s = collection.clone();
                s.append(": id -> page directory -> record");
                s
            },
        }
    }
}

/// Calls of one shape before specialising it.
pub const HOT_THRESHOLD: u64 = 256;

/// What can be specialised, and what has been.
pub struct CompiledPaths {
    paths: HashMap<u64, CompiledPath>,
    counts: HashMap<u64, u64>,
    hits: u64,
    compilations: u64,
}

/// What [`CompiledPaths`] hold.
pub struct CompiledModel {
    /// The path installed for a shape.
    pub paths: Map<u64, CompiledPath>,
    /// How often a shape without a path was seen.
    pub counts: Map<u64, u64>,
    pub hits: u64,
    pub compilations: u64,
}

/// The specialisation that fits a plan: only one record by identity qualifies,
/// because only there can the general path be skipped outright.
pub open spec fn specialisation(op: OpModel, has_direct_array: bool) -> Option<PathModel> {
    match op {
        OpModel::GetById { collection, .. } => Some(
            if has_direct_array {
                PathModel::DirectById(collection)
            } else {
                PathModel::HeapById(collection)
            },
        ),
        _ => None,
    }
}

/// How often a shape was seen.
pub open spec fn seen_count(m: CompiledModel, shape: u64) -> u64 {
    if m.counts.contains_key(shape) {
        m.counts[shape]
    } else {
        0
    }
}

impl View for CompiledPaths {
    type V = CompiledModel;

    closed spec fn view(&self) -> CompiledModel {
        CompiledModel {
            paths: self.paths@,
            counts: self.counts@,
            hits: self.hits,
            compilations: self.compilations,
        }
    }
}

/// Before anything was compiled.
pub open spec fn no_paths_yet() -> CompiledModel {
    CompiledModel { paths: Map::empty(), counts: Map::empty(), hits: 0, compilations: 0 }
}

impl CompiledPaths {
    pub fn new() -> (c: CompiledPaths)
        ensures
            c@ == no_paths_yet(),
    {
        let c = CompiledPaths {
            paths: HashMap::new(),
            counts: HashMap::new(),
            hits: 0,
            compilations: 0,
        };
        assert(c@.paths =~= Map::empty());
        assert(c@.counts =~= Map::empty());
        c
    }

    /// The path installed for a shape; finding one counts as a hit.
    pub fn get(&mut self, shape: u64) -> (r: Option<&CompiledPath>)
        ensures
            match r {
                Some(p) => old(self)@.paths.contains_key(shape) && *p == old(self)@.paths[shape],
                None => !old(self)@.paths.contains_key(shape),
            },
            final(self)@ == if old(self)@.paths.contains_key(shape) {
                CompiledModel { hits: ticked(old(self)@.hits), ..old(self)@ }
            } else {
                old(self)@
            },
    {
        if self.paths.contains_key(&shape) {
            self.hits = tick(self.hits);
        }
        self.paths.get(&shape)
    }

    pub fn len(&self) -> (n: usize)
        ensures
            n == self@.paths.len(),
    {
        self.paths.len()
    }

    pub fn is_empty(&self) -> (r: bool)
        ensures
            r == (self@.paths.len() == 0),
    {
        self.paths.len() == 0
    }

    pub fn hits(&self) -> (n: u64)
        ensures
            n == self@.hits,
    {
        self.hits
    }

    pub fn compilations(&self) -> (n: u64)
        ensures
            n == self@.compilations,
    {
        self.compilations
    }

    /// Note a call, reporting whether the shape has become worth specialising. A
    /// shape that has a path is no longer counted.
    pub fn observe(&mut self, shape: u64) -> (hot: bool)
        ensures
            old(self)@.paths.contains_key(shape) ==> !hot && final(self)@ == old(self)@,
            !old(self)@.paths.contains_key(shape) ==> {
                let n = ticked(seen_count(old(self)@, shape));
                &&& hot == (n >= HOT_THRESHOLD)
                &&& final(self)@ == (CompiledModel {
                    counts: old(self)@.counts.insert(shape, n),
                    ..old(self)@
                })
            },
    {
        if self.paths.contains_key(&shape) {
            return false;
        }
        let before: u64 = match self.counts.get(&shape) {
            Some(n) => *n,
            None => 0,
        };
        let n: u64 = tick(before);
        self.counts.insert(shape, n);
        n >= HOT_THRESHOLD
    }

    pub fn install(&mut self, shape: u64, path: CompiledPath)
        ensures
            final(self)@ == (CompiledModel {
                paths: old(self)@.paths.insert(shape, path),
                counts: old(self)@.counts.remove(shape),
                hits: old(self)@.hits,
                compilations: ticked(old(self)@.compilations),
            }),
    {
        self.paths.insert(shape, path);
        self.counts.remove(&shape);
        self.compilations = tick(self.compilations);
    }

    /// Drop every specialisation: a path encodes a decision about what exists,
    /// and one that reaches for a structure that is gone is wrong.
    pub fn clear(&mut self)
        ensures
            final(self)@ == (CompiledModel {
                paths: Map::empty(),
                counts: Map::empty(),
                ..old(self)@
            }),
    {
        self.paths.clear();
        self.counts.clear();
        assert(self@.paths =~= Map::empty());
        assert(self@.counts =~= Map::empty());
    }

    /// The specialisation that fits a plan, if any, given whether the collection
    /// it reads has a directly-addressed array.
    pub fn candidate(op: &LogicalOp, has_direct_array: bool) -> (r: Option<CompiledPath>)
        ensures
            match specialisation(op.model(), has_direct_array) {
                Some(m) => r matches Some(p) && p@ == m,
                None => r is None,
            },
    {
        match op {
            LogicalOp::GetById { collection, .. } => {
                if has_direct_array {
                    Some(CompiledPath::DirectById { collection: collection.clone() })
                } else {
                    Some(CompiledPath::HeapById { collection: collection.clone() })
                }
            },
            _ => None,
        }
    }
}

/// Only reading one record by its identity is specialised, and always for the collection
/// it reads: through its array where it has one, and through the page directory where
/// not.
pub proof fn only_a_read_by_identity_is_specialised(op: OpModel, has_direct_array: bool)
    ensures
        specialisation(op, has_direct_array) is Some <==> op is GetById,
        op matches OpModel::GetById { collection, .. } ==> {
            &&& has_direct_array ==> specialisation(op, true) == Some(
                PathModel::DirectById(collection),
            )
            &&& !has_direct_array ==> specialisation(op, false) == Some(
                PathModel::HeapById(collection),
            )
        },
{
}

} // verus!
