//! The ordering constraints of a system within a schedule.
use vstd::prelude::*;
use crate::collections::{UuidSet, uuid_set_elements};
use crate::uuid::Uuid;

verus! {

/// A collection of constraints that a system must satisfy before/after running.
pub struct SystemConfig {
    /// The tags associated with the system.
    pub tags: UuidSet,
    /// The system must run before any system with these tags.
    pub run_before: UuidSet,
    /// The system must run after any system with these tags.
    pub run_after: UuidSet,
}

impl SystemConfig {
    /// The values of the tags of the system.
    pub open spec fn tag_set(&self) -> Set<u128> {
        uuid_set_elements(self.tags)
    }

    /// The values of the tags of the systems that the system must run before.
    pub open spec fn before_set(&self) -> Set<u128> {
        uuid_set_elements(self.run_before)
    }

    /// The values of the tags of the systems that the system must run after.
    pub open spec fn after_set(&self) -> Set<u128> {
        uuid_set_elements(self.run_after)
    }

    /// Creates a configuration without constraints.
    pub fn new() -> (r: Self)
        ensures
            r.tag_set() == Set::<u128>::empty(),
            r.before_set() == Set::<u128>::empty(),
            r.after_set() == Set::<u128>::empty(),
    {
        SystemConfig { tags: UuidSet::new(), run_before: UuidSet::new(), run_after: UuidSet::new() }
    }

    /// Adds a tag to the system.
    pub fn tag(self, tag: Uuid) -> (r: Self)
        ensures
            r.tag_set() == self.tag_set().insert(tag.spec_value()),
            r.before_set() == self.before_set(),
            r.after_set() == self.after_set(),
    {
        let mut this = self;
        this.tags.insert(tag.as_u128());
        this
    }

    /// Indicates that the system must run before the systems with the provided tag.
    pub fn run_before(self, tag: Uuid) -> (r: Self)
        ensures
            r.tag_set() == self.tag_set(),
            r.before_set() == self.before_set().insert(tag.spec_value()),
            r.after_set() == self.after_set(),
    {
        let mut this = self;
        this.run_before.insert(tag.as_u128());
        this
    }

    /// Indicates that the system must run after the systems with the provided tag.
    pub fn run_after(self, tag: Uuid) -> (r: Self)
        ensures
            r.tag_set() == self.tag_set(),
            r.before_set() == self.before_set(),
            r.after_set() == self.after_set().insert(tag.spec_value()),
    {
        let mut this = self;
        this.run_after.insert(tag.as_u128());
        this
    }
}

impl Default for SystemConfig {
    fn default() -> (r: Self)
        ensures
            r.tag_set() == Set::<u128>::empty(),
            r.before_set() == Set::<u128>::empty(),
            r.after_set() == Set::<u128>::empty(),
    {
        SystemConfig::new()
    }
}

/// Whether the system configured by `a` must run before the one configured by `b`: `a` must
/// run before a tag of `b`, or `b` must run after a tag of `a`.
pub open spec fn runs_before(a: SystemConfig, b: SystemConfig) -> bool {
    exists|t: u128|
        #![trigger a.before_set().contains(t)]
        #![trigger b.after_set().contains(t)]
        (a.before_set().contains(t) && b.tag_set().contains(t)) || (b.after_set().contains(t)
            && a.tag_set().contains(t))
}

} // verus!
