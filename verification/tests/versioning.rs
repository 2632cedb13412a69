use astraport::values::{Address, Symbol};
use astraport::versioning::migration::{
    check_compatibility, execute_migration, execute_rollback, MigrationError,
};
use astraport::versioning::records::{
    MigrationNotice, VersionMetadata, VersionStatus, VersionStore,
};

fn address(n: u128) -> Address {
    Address { is_contract: false, hi: 4, lo: n }
}

fn step(text: &str) -> Symbol {
    Symbol::from_text(text)
}

fn version(version: u32, status: VersionStatus, steps: Vec<Symbol>) -> VersionMetadata {
    VersionMetadata {
        version,
        status,
        migration_steps: steps,
        proposer: address(1),
        proposed_at: 1,
        activated_at: 0,
    }
}

fn store() -> VersionStore {
    let mut store = VersionStore::new();
    store.metadata.set(1, version(1, VersionStatus::Proposed, vec![step("init")]));
    store.metadata.set(2, version(2, VersionStatus::Proposed, vec![step("a"), step("b")]));
    store.metadata.set(3, version(3, VersionStatus::Frozen, vec![step("a")]));
    store.metadata.set(4, version(4, VersionStatus::Proposed, vec![]));
    store
}

#[test]
fn the_first_version_follows_none() {
    let mut store = store();
    let record = execute_migration(&mut store, 0, 1, address(2), 50).unwrap();
    assert_eq!(record.items_migrated, 1);
    assert_eq!(record.timestamp, 50);
    assert!(record.success);
    assert_eq!(store.current_version, Some(1));
    assert_eq!(store.metadata.get(&1).unwrap().status, VersionStatus::Active);
    assert_eq!(store.metadata.get(&1).unwrap().activated_at, 50);
}

#[test]
fn a_migration_supersedes_the_version_before() {
    let mut store = store();
    execute_migration(&mut store, 0, 1, address(2), 50).unwrap();
    store.outbox.clear();
    let record = execute_migration(&mut store, 1, 2, address(2), 60).unwrap();
    assert_eq!(store.metadata.get(&1).unwrap().status, VersionStatus::Superseded);
    assert_eq!(store.metadata.get(&2).unwrap().status, VersionStatus::Active);
    assert_eq!(store.migrations.get(&(1, 2)), Some(&record));
    assert_eq!(
        store.outbox,
        vec![
            MigrationNotice::Step { from_version: 1, to_version: 2, step: step("a") },
            MigrationNotice::Step { from_version: 1, to_version: 2, step: step("b") },
            MigrationNotice::Migrated(record),
        ]
    );
}

#[test]
fn a_rollback_restores_the_version_before() {
    let mut store = store();
    execute_migration(&mut store, 0, 1, address(2), 50).unwrap();
    execute_migration(&mut store, 1, 2, address(2), 60).unwrap();
    let record = execute_rollback(&mut store, 2, 1, address(3), 70).unwrap();
    assert_eq!(record.items_migrated, 0);
    assert_eq!(record.migrator, address(3));
    assert_eq!(store.current_version, Some(1));
    assert_eq!(store.metadata.get(&1).unwrap().status, VersionStatus::Active);
    assert_eq!(store.metadata.get(&1).unwrap().activated_at, 70);
    assert_eq!(store.metadata.get(&2).unwrap().status, VersionStatus::RolledBack);
    assert_eq!(store.outbox.last(), Some(&MigrationNotice::RolledBack(record)));
}

#[test]
fn a_migration_is_refused_for_a_reason() {
    let mut store = store();
    assert_eq!(check_compatibility(&store, 1, 1), Err(MigrationError::IncompatibleVersion));
    assert_eq!(check_compatibility(&store, 0, 9), Err(MigrationError::TargetVersionNotFound));
    assert_eq!(check_compatibility(&store, 9, 1), Err(MigrationError::TargetVersionNotFound));
    assert_eq!(check_compatibility(&store, 0, 3), Err(MigrationError::InvalidTargetStatus));
    assert_eq!(check_compatibility(&store, 0, 4), Err(MigrationError::NoMigrationSteps));
    assert_eq!(check_compatibility(&store, 1, 2), Err(MigrationError::NotCurrentVersion));
    execute_migration(&mut store, 0, 1, address(2), 50).unwrap();
    assert_eq!(check_compatibility(&store, 1, 3), Err(MigrationError::InvalidTargetStatus));
    assert_eq!(check_compatibility(&store, 1, 4), Err(MigrationError::NoMigrationSteps));
    assert_eq!(check_compatibility(&store, 1, 2), Ok(()));
    assert_eq!(
        execute_migration(&mut store, 1, 4, address(2), 60),
        Err(MigrationError::NoMigrationSteps)
    );
    assert_eq!(store.current_version, Some(1));
}

#[test]
fn a_rollback_is_refused_for_a_reason() {
    let mut store = store();
    execute_migration(&mut store, 0, 1, address(2), 50).unwrap();
    assert_eq!(
        execute_rollback(&mut store, 1, 9, address(2), 60),
        Err(MigrationError::TargetVersionNotFound)
    );
    assert_eq!(
        execute_rollback(&mut store, 2, 1, address(2), 60),
        Err(MigrationError::InvalidTargetStatus)
    );
    assert_eq!(
        execute_rollback(&mut store, 1, 2, address(2), 60),
        Err(MigrationError::InvalidTargetStatus)
    );
}

#[test]
fn migration_error_codes() {
    assert_eq!(MigrationError::TargetVersionNotFound.code(), 1);
    assert_eq!(MigrationError::InvalidTargetStatus.code(), 2);
    assert_eq!(MigrationError::NotCurrentVersion.code(), 3);
    assert_eq!(MigrationError::VersionFrozen.code(), 4);
    assert_eq!(MigrationError::MigrationAlreadyRecorded.code(), 5);
    assert_eq!(MigrationError::IncompatibleVersion.code(), 6);
    assert_eq!(MigrationError::NoMigrationSteps.code(), 7);
}
