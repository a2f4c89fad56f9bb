//! Who writes, what is shared, and by which rules.
use crate::engine::hashing::{feed_text, text_writes};
use std::collections::hash_map::DefaultHasher;
use std::hash::Hasher;
use vstd::prelude::*;
use vstd::std_specs::hash::DefaultHasherAdditionalSpecFns;

verus! {

/// Who made an operation. Each writer needs its own.
#[derive(Clone, Copy, PartialEq, Eq, Debug, Hash, PartialOrd, Ord, Structural)]
pub struct AgentId(pub u64);

impl AgentId {
    /// An identity made from a name.
    pub fn from_name(name: &str) -> (r: Self)
        ensures
            r.0 == DefaultHasher::spec_finish(text_writes(name@)),
    {
        let mut h = DefaultHasher::new();
        feed_text(&mut h, name);
        assert(h@ =~= text_writes(name@));
        AgentId(h.finish())
    }
}

/// Which object is shared. Being secret, it is what gives access to it.
#[derive(Clone, Copy, PartialEq, Eq, Debug, Hash, Structural)]
pub struct DocId(pub u64);

/// By which rules the object is governed.
#[derive(Clone, Copy, PartialEq, Eq, Debug, Hash, Structural)]
pub struct RuleFingerprint(pub u64);

/// What invites a peer.
#[derive(Clone, Copy, Debug)]
pub struct Ticket {
    pub doc: DocId,
    pub rule: RuleFingerprint,
}

} // verus!
