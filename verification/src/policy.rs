//! Who decides what is optimized.

use vstd::prelude::*;

verus! {

/// Who decides: a level with exceptions to it, or the workload.
pub enum Mode<O> {
    Manual { level: u8, overrides: Vec<O> },
    Adaptive,
}

/// What the owner of a database asks of it.
pub struct Policy<O> {
    pub mode: Mode<O>,
}

impl<O> Policy<O> {
    /// The exceptions that are asked for.
    pub open spec fn excepted(self) -> Seq<O> {
        match self.mode {
            Mode::Manual { overrides, .. } => overrides@,
            Mode::Adaptive => Seq::empty(),
        }
    }

    /// The same policy at a level: exceptions that were asked for stay.
    pub fn set_level(self, level: u8) -> (p: Policy<O>)
        ensures
            p.mode matches Mode::Manual { level: l, overrides } && l == level && overrides@
                == self.excepted(),
    {
        let overrides: Vec<O> = match self.mode {
            Mode::Manual { overrides, .. } => overrides,
            Mode::Adaptive => Vec::new(),
        };
        Policy { mode: Mode::Manual { level, overrides } }
    }

    /// The exceptions to be looked up before a database opens, where there is a level
    /// for them to be exceptions to.
    pub fn overrides(&self) -> (r: Option<&Vec<O>>)
        ensures
            r is Some <==> self.mode is Manual,
            r matches Some(o) ==> o@ == self.excepted(),
    {
        match &self.mode {
            Mode::Manual { overrides, .. } => Some(overrides),
            Mode::Adaptive => None,
        }
    }

    /// Whether what was counted fades: only where decisions are made from it.
    pub fn forgets(&self) -> (r: bool)
        ensures
            r == self.mode is Adaptive,
    {
        match &self.mode {
            Mode::Manual { .. } => false,
            Mode::Adaptive => true,
        }
    }
}

} // verus!
