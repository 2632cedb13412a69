//! Migration from one version to another, and back.
use crate::values::{Address, Symbol};
use crate::versioning::records::{
    MigrationNotice, MigrationRecord, VersionLedger, VersionMetadata, VersionStatus, VersionStore,
};
use vstd::prelude::*;

verus! {

/// Why a migration was refused.
#[derive(Clone, Copy, PartialEq, Eq, PartialOrd, Ord, Structural, Debug)]
pub enum MigrationError {
    /// A version is not known.
    TargetVersionNotFound,
    /// A version does not have the status that the move takes.
    InvalidTargetStatus,
    /// The version to leave is not the one in use.
    NotCurrentVersion,
    /// The version is frozen.
    VersionFrozen,
    /// The move has been recorded already.
    MigrationAlreadyRecorded,
    /// A version does not lead to itself.
    IncompatibleVersion,
    /// The version says nothing about how to reach it.
    NoMigrationSteps,
}

impl MigrationError {
    /// The number of the error.
    pub open spec fn number(self) -> u32 {
        match self {
            MigrationError::TargetVersionNotFound => 1,
            MigrationError::InvalidTargetStatus => 2,
            MigrationError::NotCurrentVersion => 3,
            MigrationError::VersionFrozen => 4,
            MigrationError::MigrationAlreadyRecorded => 5,
            MigrationError::IncompatibleVersion => 6,
            MigrationError::NoMigrationSteps => 7,
        }
    }

    /// The number of the error.
    pub fn code(self) -> (n: u32)
        ensures
            n == self.number(),
    {
        match self {
            MigrationError::TargetVersionNotFound => 1,
            MigrationError::InvalidTargetStatus => 2,
            MigrationError::NotCurrentVersion => 3,
            MigrationError::VersionFrozen => 4,
            MigrationError::MigrationAlreadyRecorded => 5,
            MigrationError::IncompatibleVersion => 6,
            MigrationError::NoMigrationSteps => 7,
        }
    }
}

/// The announcements of the first `n` steps of a migration.
pub open spec fn announced(from_version: u32, to_version: u32, steps: Seq<Symbol>) -> Seq<
    MigrationNotice,
> {
    Seq::new(
        steps.len(),
        |i: int| MigrationNotice::Step { from_version, to_version, step: steps[i] },
    )
}

impl VersionLedger {
    /// Whether one version can follow another. The first version follows
    /// version 0, which there is not.
    pub open spec fn compatible(self, from_version: u32, to_version: u32) -> Result<
        (),
        MigrationError,
    > {
        if from_version == to_version {
            Err(MigrationError::IncompatibleVersion)
        } else if !self.metadata.contains_key(to_version) {
            Err(MigrationError::TargetVersionNotFound)
        } else {
            let target = self.metadata[to_version];
            if from_version == 0 {
                if target.status != VersionStatus::Proposed {
                    Err(MigrationError::InvalidTargetStatus)
                } else if target.migration_steps@.len() == 0 {
                    Err(MigrationError::NoMigrationSteps)
                } else {
                    Ok(())
                }
            } else if !self.metadata.contains_key(from_version) {
                Err(MigrationError::TargetVersionNotFound)
            } else if target.status != VersionStatus::Proposed && target.status
                != VersionStatus::Superseded {
                Err(MigrationError::InvalidTargetStatus)
            } else if from_version != self.current() {
                Err(MigrationError::NotCurrentVersion)
            } else if target.migration_steps@.len() == 0 {
                Err(MigrationError::NoMigrationSteps)
            } else {
                Ok(())
            }
        }
    }

    /// The record of a migration.
    pub open spec fn migration(
        self,
        from_version: u32,
        to_version: u32,
        migrator: Address,
        now: u64,
    ) -> MigrationRecord {
        MigrationRecord {
            from_version,
            to_version,
            migrator,
            timestamp: now,
            success: true,
            items_migrated: self.metadata[to_version].migration_steps@.len() as u64,
        }
    }

    /// The versions once the old one, if there is one, has a status and the
    /// new one is active.
    pub open spec fn switched(
        self,
        old_version: u32,
        old_status: VersionStatus,
        new_version: u32,
        now: u64,
    ) -> Map<u32, VersionMetadata> {
        let left = if old_version > 0 {
            self.metadata.insert(
                old_version,
                VersionMetadata { status: old_status, ..self.metadata[old_version] },
            )
        } else {
            self.metadata
        };
        left.insert(
            new_version,
            VersionMetadata {
                status: VersionStatus::Active,
                activated_at: now,
                ..self.metadata[new_version]
            },
        )
    }

    /// The state after a migration.
    pub open spec fn migrated(
        self,
        from_version: u32,
        to_version: u32,
        migrator: Address,
        now: u64,
    ) -> VersionLedger {
        let record = self.migration(from_version, to_version, migrator, now);
        VersionLedger {
            metadata: self.switched(from_version, VersionStatus::Superseded, to_version, now),
            current_version: Some(to_version),
            migrations: self.migrations.insert((from_version, to_version), record),
            outbox: (self.outbox + announced(
                from_version,
                to_version,
                self.metadata[to_version].migration_steps@,
            )).push(MigrationNotice::Migrated(record)),
        }
    }

    /// Whether one version can be given up for another.
    pub open spec fn reversible(self, current_version: u32, previous_version: u32) -> Result<
        (),
        MigrationError,
    > {
        if !self.metadata.contains_key(current_version) || !self.metadata.contains_key(
            previous_version,
        ) {
            Err(MigrationError::TargetVersionNotFound)
        } else if self.metadata[current_version].status != VersionStatus::Active {
            Err(MigrationError::InvalidTargetStatus)
        } else if self.metadata[previous_version].status != VersionStatus::Superseded {
            Err(MigrationError::InvalidTargetStatus)
        } else {
            Ok(())
        }
    }

    /// The state after a rollback.
    pub open spec fn rolled_back(
        self,
        current_version: u32,
        previous_version: u32,
        admin: Address,
        now: u64,
    ) -> VersionLedger {
        let record = rollback_record(current_version, previous_version, admin, now);
        VersionLedger {
            metadata: self.metadata.insert(
                current_version,
                VersionMetadata {
                    status: VersionStatus::RolledBack,
                    ..self.metadata[current_version]
                },
            ).insert(
                previous_version,
                VersionMetadata {
                    status: VersionStatus::Active,
                    activated_at: now,
                    ..self.metadata[previous_version]
                },
            ),
            current_version: Some(previous_version),
            migrations: self.migrations.insert((current_version, previous_version), record),
            outbox: self.outbox.push(MigrationNotice::RolledBack(record)),
        }
    }

    /// Whether the version in use is the one that is active, and no version
    /// has the number that stands for none.
    pub open spec fn one_active(self) -> bool {
        &&& !self.metadata.contains_key(0)
        &&& forall|v: u32|
            self.metadata.contains_key(v) && (#[trigger] self.metadata[v]).status
                == VersionStatus::Active ==> v == self.current()
        &&& self.current() > 0 ==> self.metadata.contains_key(self.current())
            && self.metadata[self.current()].status == VersionStatus::Active
    }
}

/// The record of a rollback, which migrates nothing.
pub open spec fn rollback_record(
    current_version: u32,
    previous_version: u32,
    admin: Address,
    now: u64,
) -> MigrationRecord {
    MigrationRecord {
        from_version: current_version,
        to_version: previous_version,
        migrator: admin,
        timestamp: now,
        success: true,
        items_migrated: 0,
    }
}

/// Whether one version can follow another, or why it cannot.
pub fn check_compatibility(store: &VersionStore, from_version: u32, to_version: u32) -> (r: Result<
    (),
    MigrationError,
>)
    ensures
        r == store@.compatible(from_version, to_version),
{
    if from_version == to_version {
        return Err(MigrationError::IncompatibleVersion);
    }
    let target = match store.metadata.get(&to_version) {
        Some(target) => target,
        None => return Err(MigrationError::TargetVersionNotFound),
    };
    if from_version == 0 {
        if target.status != VersionStatus::Proposed {
            return Err(MigrationError::InvalidTargetStatus);
        }
        if target.migration_steps.len() == 0 {
            return Err(MigrationError::NoMigrationSteps);
        }
        return Ok(());
    }
    if store.metadata.get(&from_version).is_none() {
        return Err(MigrationError::TargetVersionNotFound);
    }
    if target.status != VersionStatus::Proposed && target.status != VersionStatus::Superseded {
        return Err(MigrationError::InvalidTargetStatus);
    }
    let current = match store.current_version {
        Some(version) => version,
        None => 0,
    };
    if from_version != current {
        return Err(MigrationError::NotCurrentVersion);
    }
    if target.migration_steps.len() == 0 {
        return Err(MigrationError::NoMigrationSteps);
    }
    Ok(())
}

/// Move from one version to another: announce the steps of the new version,
/// make it the active one in place of the old one, and record the move.
pub fn execute_migration(
    store: &mut VersionStore,
    from_version: u32,
    to_version: u32,
    migrator: Address,
    now: u64,
) -> (r: Result<MigrationRecord, MigrationError>)
    ensures
        match old(store)@.compatible(from_version, to_version) {
            Ok(_) => r == Ok::<MigrationRecord, MigrationError>(
                old(store)@.migration(from_version, to_version, migrator, now),
            ) && final(store)@ == old(store)@.migrated(from_version, to_version, migrator, now),
            Err(e) => r == Err::<MigrationRecord, MigrationError>(e) && final(store)@ == old(
                store,
            )@,
        },
{
    match check_compatibility(store, from_version, to_version) {
        Ok(_) => {},
        Err(e) => return Err(e),
    }
    let ghost before = store@;
    let mut items: u64 = 0;
    if let Some(mut target) = store.metadata.take(&to_version) {
        let ghost steps = target.migration_steps@;
        let ghost notices = announced(from_version, to_version, steps);
        let mut i: usize = 0;
        assert(store.outbox@ =~= before.outbox + notices.take(0));
        while i < target.migration_steps.len()
            invariant
                i <= target.migration_steps@.len(),
                steps == target.migration_steps@,
                notices == announced(from_version, to_version, steps),
                target == before.metadata[to_version],
                store@ == (VersionLedger {
                    metadata: before.metadata.remove(to_version),
                    outbox: before.outbox + notices.take(i as int),
                    ..before
                }),
            decreases target.migration_steps@.len() - i,
        {
            let step = target.migration_steps[i];
            store.outbox.push(MigrationNotice::Step { from_version, to_version, step });
            i += 1;
            assert(notices.take(i as int) =~= notices.take(i - 1).push(notices[i - 1]));
            assert(store.outbox@ =~= before.outbox + notices.take(i as int));
        }
        assert(notices.take(i as int) =~= notices);
        items = target.migration_steps.len() as u64;
        if from_version > 0 {
            if let Some(mut source) = store.metadata.take(&from_version) {
                source.status = VersionStatus::Superseded;
                store.metadata.set(from_version, source);
            }
        }
        target.status = VersionStatus::Active;
        target.activated_at = now;
        store.metadata.set(to_version, target);
        assert(store.metadata@ =~= before.switched(
            from_version,
            VersionStatus::Superseded,
            to_version,
            now,
        ));
    }
    store.current_version = Some(to_version);
    let record = MigrationRecord {
        from_version,
        to_version,
        migrator,
        timestamp: now,
        success: true,
        items_migrated: items,
    };
    store.migrations.set((from_version, to_version), record);
    store.outbox.push(MigrationNotice::Migrated(record));
    Ok(record)
}

/// Give up the active version for one that it superseded.
pub fn execute_rollback(
    store: &mut VersionStore,
    current_version: u32,
    previous_version: u32,
    admin: Address,
    now: u64,
) -> (r: Result<MigrationRecord, MigrationError>)
    ensures
        match old(store)@.reversible(current_version, previous_version) {
            Ok(_) => r == Ok::<MigrationRecord, MigrationError>(
                rollback_record(current_version, previous_version, admin, now),
            ) && final(store)@ == old(store)@.rolled_back(
                current_version,
                previous_version,
                admin,
                now,
            ),
            Err(e) => r == Err::<MigrationRecord, MigrationError>(e) && final(store)@ == old(
                store,
            )@,
        },
{
    let ghost before = store@;
    let current_status = match store.metadata.get(&current_version) {
        Some(current) => current.status,
        None => return Err(MigrationError::TargetVersionNotFound),
    };
    let previous_status = match store.metadata.get(&previous_version) {
        Some(previous) => previous.status,
        None => return Err(MigrationError::TargetVersionNotFound),
    };
    if current_status != VersionStatus::Active {
        return Err(MigrationError::InvalidTargetStatus);
    }
    if previous_status != VersionStatus::Superseded {
        return Err(MigrationError::InvalidTargetStatus);
    }
    if let Some(mut current) = store.metadata.take(&current_version) {
        current.status = VersionStatus::RolledBack;
        store.metadata.set(current_version, current);
    }
    if let Some(mut previous) = store.metadata.take(&previous_version) {
        previous.status = VersionStatus::Active;
        previous.activated_at = now;
        store.metadata.set(previous_version, previous);
    }
    store.current_version = Some(previous_version);
    let record = MigrationRecord {
        from_version: current_version,
        to_version: previous_version,
        migrator: admin,
        timestamp: now,
        success: true,
        items_migrated: 0,
    };
    store.migrations.set((current_version, previous_version), record);
    store.outbox.push(MigrationNotice::RolledBack(record));
    assert(store@ =~= before.rolled_back(current_version, previous_version, admin, now));
    Ok(record)
}

/// A migration leaves one version active, the one in use. The first version
/// is taken up while none is in use.
pub proof fn migration_keeps_one_active(
    ledger: VersionLedger,
    from_version: u32,
    to_version: u32,
    migrator: Address,
    now: u64,
)
    requires
        ledger.one_active(),
        ledger.compatible(from_version, to_version) is Ok,
        from_version == 0 ==> ledger.current() == 0,
    ensures
        ledger.migrated(from_version, to_version, migrator, now).one_active(),
        ledger.migrated(from_version, to_version, migrator, now).current() == to_version,
{
    let after = ledger.migrated(from_version, to_version, migrator, now);
    assert forall|v: u32|
        after.metadata.contains_key(v) && (#[trigger] after.metadata[v]).status
            == VersionStatus::Active implies v == after.current() by {
        if v != to_version && v != from_version {
            assert(ledger.metadata[v].status == VersionStatus::Active);
        }
    }
}

/// A rollback leaves one version active, the one in use.
pub proof fn rollback_keeps_one_active(
    ledger: VersionLedger,
    current_version: u32,
    previous_version: u32,
    admin: Address,
    now: u64,
)
    requires
        ledger.one_active(),
        ledger.reversible(current_version, previous_version) is Ok,
    ensures
        ledger.rolled_back(current_version, previous_version, admin, now).one_active(),
        ledger.rolled_back(current_version, previous_version, admin, now).current()
            == previous_version,
{
    let after = ledger.rolled_back(current_version, previous_version, admin, now);
    assert forall|v: u32|
        after.metadata.contains_key(v) && (#[trigger] after.metadata[v]).status
            == VersionStatus::Active implies v == after.current() by {
        if v != previous_version && v != current_version {
            assert(ledger.metadata[v].status == VersionStatus::Active);
        }
    }
}

/// A migration can be rolled back at once: the old version is active and in
/// use again, the new one is rolled back, and no other version has changed.
pub proof fn rolling_back_undoes_migrating(
    ledger: VersionLedger,
    from_version: u32,
    to_version: u32,
    migrator: Address,
    now: u64,
    later: u64,
)
    requires
        from_version > 0,
        ledger.compatible(from_version, to_version) is Ok,
    ensures
        ({
            let there = ledger.migrated(from_version, to_version, migrator, now);
            let back = there.rolled_back(to_version, from_version, migrator, later);
            &&& there.reversible(to_version, from_version) is Ok
            &&& back.current() == from_version
            &&& back.metadata[from_version] == (VersionMetadata {
                status: VersionStatus::Active,
                activated_at: later,
                ..ledger.metadata[from_version]
            })
            &&& back.metadata[to_version].status == VersionStatus::RolledBack
            &&& back.metadata.dom() == ledger.metadata.dom()
            &&& forall|v: u32|
                v != from_version && v != to_version && ledger.metadata.contains_key(v)
                    ==> #[trigger] back.metadata[v] == ledger.metadata[v]
        }),
{
    let there = ledger.migrated(from_version, to_version, migrator, now);
    let back = there.rolled_back(to_version, from_version, migrator, later);
    assert(back.metadata.dom() =~= ledger.metadata.dom());
}

/// A move is allowed only to a known version other than the one that is left,
/// with steps that lead to it, and which is proposed or was superseded; the
/// version that is left must be known and in use. The first version, which
/// follows none, must be proposed. All such moves are allowed, and a frozen or
/// rolled-back version is never taken up.
pub proof fn moves_are_allowed_exactly(ledger: VersionLedger, from_version: u32, to_version: u32)
    ensures
        ({
            let target = ledger.metadata[to_version];
            ledger.compatible(from_version, to_version) is Ok <==> {
                &&& from_version != to_version
                &&& ledger.metadata.contains_key(to_version)
                &&& target.migration_steps@.len() > 0
                &&& target.status == VersionStatus::Proposed || (target.status
                    == VersionStatus::Superseded && from_version > 0)
                &&& from_version > 0 ==> ledger.metadata.contains_key(from_version)
                    && ledger.current_version == Some(from_version)
            }
        }),
        from_version == to_version ==> ledger.compatible(from_version, to_version) == Err::<
            (),
            MigrationError,
        >(MigrationError::IncompatibleVersion),
        from_version != to_version && !ledger.metadata.contains_key(to_version)
            ==> ledger.compatible(from_version, to_version) == Err::<(), MigrationError>(
            MigrationError::TargetVersionNotFound,
        ),
        ledger.compatible(from_version, to_version) == Err::<(), MigrationError>(
            MigrationError::NotCurrentVersion,
        ) ==> ledger.current_version != Some(from_version),
        ledger.compatible(from_version, to_version) == Err::<(), MigrationError>(
            MigrationError::NoMigrationSteps,
        ) ==> ledger.metadata[to_version].migration_steps@.len() == 0,
        ledger.compatible(from_version, to_version) == Err::<(), MigrationError>(
            MigrationError::InvalidTargetStatus,
        ) ==> ledger.metadata[to_version].status != VersionStatus::Proposed,
{
}

/// A migration puts the new version in use and active from that moment, and
/// the one that it follows is superseded; nothing else about the versions
/// changes. Each step is announced in order, and then the move, whose record
/// tells who made it, when, and of how many steps.
pub proof fn a_migration_takes_every_step(
    ledger: VersionLedger,
    from_version: u32,
    to_version: u32,
    migrator: Address,
    now: u64,
    other: u32,
)
    requires
        ledger.compatible(from_version, to_version) is Ok,
        ledger.metadata[to_version].migration_steps@.len() <= u64::MAX,
    ensures
        ({
            let after = ledger.migrated(from_version, to_version, migrator, now);
            let steps = ledger.metadata[to_version].migration_steps@;
            let record = ledger.migration(from_version, to_version, migrator, now);
            let n = ledger.outbox.len() as int;
            &&& after.current_version == Some(to_version)
            &&& after.metadata[to_version].status == VersionStatus::Active
            &&& after.metadata[to_version].activated_at == now
            &&& after.metadata[to_version].migration_steps@ == steps
            &&& from_version > 0 ==> after.metadata[from_version].status
                == VersionStatus::Superseded
            &&& other != to_version && (other != from_version || from_version == 0)
                ==> after.metadata.contains_key(other) == ledger.metadata.contains_key(other)
                && after.metadata[other] == ledger.metadata[other]
            &&& record.from_version == from_version && record.to_version == to_version
                && record.migrator == migrator && record.timestamp == now && record.success
                && record.items_migrated == steps.len()
            &&& after.migrations.contains_key((from_version, to_version)) && after.migrations[(
                from_version,
                to_version,
            )] == record
            &&& after.outbox.len() == n + steps.len() + 1
            &&& after.outbox.take(n) == ledger.outbox
            &&& forall|i: int|
                0 <= i < steps.len() ==> #[trigger] after.outbox[n + i] == (MigrationNotice::Step {
                    from_version,
                    to_version,
                    step: steps[i],
                })
            &&& after.outbox.last() == MigrationNotice::Migrated(record)
        }),
{
    let after = ledger.migrated(from_version, to_version, migrator, now);
    assert(after.outbox.take(ledger.outbox.len() as int) =~= ledger.outbox);
}

/// Only the active version can be given up, and only for one that was
/// superseded. That one is then in use and active from that moment, the other
/// is rolled back, and the move is recorded and announced.
pub proof fn a_rollback_restores_a_superseded_version(
    ledger: VersionLedger,
    current_version: u32,
    previous_version: u32,
    admin: Address,
    now: u64,
    other: u32,
)
    ensures
        ledger.reversible(current_version, previous_version) is Ok <==> {
            &&& ledger.metadata.contains_key(current_version)
            &&& ledger.metadata.contains_key(previous_version)
            &&& ledger.metadata[current_version].status == VersionStatus::Active
            &&& ledger.metadata[previous_version].status == VersionStatus::Superseded
        },
        ledger.reversible(current_version, previous_version) == Err::<(), MigrationError>(
            MigrationError::TargetVersionNotFound,
        ) <==> !(ledger.metadata.contains_key(current_version) && ledger.metadata.contains_key(
            previous_version,
        )),
        ledger.reversible(current_version, previous_version) is Ok ==> {
            let after = ledger.rolled_back(current_version, previous_version, admin, now);
            let record = rollback_record(current_version, previous_version, admin, now);
            &&& after.current_version == Some(previous_version)
            &&& after.metadata[previous_version].status == VersionStatus::Active
            &&& after.metadata[previous_version].activated_at == now
            &&& after.metadata[current_version].status == VersionStatus::RolledBack
            &&& other != previous_version && other != current_version
                ==> after.metadata.contains_key(other) == ledger.metadata.contains_key(other)
                && after.metadata[other] == ledger.metadata[other]
            &&& record.from_version == current_version && record.to_version == previous_version
                && record.migrator == admin && record.timestamp == now && record.success
                && record.items_migrated == 0
            &&& after.migrations[(current_version, previous_version)] == record
            &&& after.outbox == ledger.outbox.push(MigrationNotice::RolledBack(record))
        },
{
}

} // verus!
