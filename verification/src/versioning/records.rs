//! What is kept about versions.
use crate::table::Table;
use crate::values::{Address, Symbol};
use vstd::prelude::*;

verus! {

/// Where a version stands.
#[derive(Clone, Copy, PartialEq, Eq, Structural, Debug)]
pub enum VersionStatus {
    /// Not active yet.
    Proposed,
    /// The one in use.
    Active,
    /// Replaced by another.
    Superseded,
    /// Given up for the one before it.
    RolledBack,
    /// Never to be active.
    Frozen,
}

/// A version.
pub struct VersionMetadata {
    pub version: u32,
    pub status: VersionStatus,
    pub migration_steps: Vec<Symbol>,
    pub proposer: Address,
    pub proposed_at: u64,
    pub activated_at: u64,
}

/// A move from one version to another.
#[derive(Clone, Copy, PartialEq, Eq, Structural, Debug)]
pub struct MigrationRecord {
    pub from_version: u32,
    pub to_version: u32,
    pub migrator: Address,
    pub timestamp: u64,
    pub success: bool,
    pub items_migrated: u64,
}

/// What is made known about a move.
#[derive(Clone, Copy, PartialEq, Eq, Structural, Debug)]
pub enum MigrationNotice {
    Step { from_version: u32, to_version: u32, step: Symbol },
    Migrated(MigrationRecord),
    RolledBack(MigrationRecord),
}

/// The versions of a contract.
pub struct VersionStore {
    pub metadata: Table<u32, VersionMetadata>,
    pub current_version: Option<u32>,
    pub migrations: Table<(u32, u32), MigrationRecord>,
    /// What is still to be made known, in order.
    pub outbox: Vec<MigrationNotice>,
}

/// The versions of a contract as a value.
#[verifier::ext_equal]
pub struct VersionLedger {
    pub metadata: Map<u32, VersionMetadata>,
    pub current_version: Option<u32>,
    pub migrations: Map<(u32, u32), MigrationRecord>,
    pub outbox: Seq<MigrationNotice>,
}

impl View for VersionStore {
    type V = VersionLedger;

    open spec fn view(&self) -> VersionLedger {
        VersionLedger {
            metadata: self.metadata@,
            current_version: self.current_version,
            migrations: self.migrations@,
            outbox: self.outbox@,
        }
    }
}

impl VersionLedger {
    /// The version in use; 0 where there is none.
    pub open spec fn current(self) -> u32 {
        match self.current_version {
            Some(version) => version,
            None => 0,
        }
    }
}

impl VersionStore {
    /// A contract without versions.
    pub fn new() -> (store: Self)
        ensures
            store@ == (VersionLedger {
                metadata: Map::empty(),
                current_version: None,
                migrations: Map::empty(),
                outbox: Seq::empty(),
            }),
    {
        VersionStore {
            metadata: Table::new(),
            current_version: None,
            migrations: Table::new(),
            outbox: Vec::new(),
        }
    }
}

} // verus!
