//! The migrator: brings a store's format up to the tool's version.
//!
//! The version marker records the format version of a store; a store without
//! a marker is fresh, at version 0. A store at the tool's version is left
//! alone. A newer store is refused. An older store is taken through the
//! registered steps, one version at a time, and the marker is moved on after
//! each step that succeeded.

use crate::datastore::{Datastore, Objects};
use crate::error::{MigrationError, StoreError};
use crate::keys::{version_key, version_key_bytes};
use vstd::bytes::{
    lemma_auto_spec_u64_to_from_le_bytes, spec_u64_from_le_bytes, u64_from_le_bytes, u64_to_le_bytes,
};
use vstd::prelude::*;

verus! {

/// One migration step: it rewrites a store of one version into the layout of
/// the next. A step leaves the version marker alone, and must be safe to
/// apply again, in a later session, to a store that it has rewritten in part.
/// Applying a step uses it up: within one migration no step is applied twice.
pub trait Migration {
    /// The version that the step leads on from.
    open spec fn source(&self) -> u64 {
        arbitrary()
    }

    /// Whether the step never fails on a store that never fails. A step
    /// that cannot promise that says no.
    open spec fn sure(&self) -> bool {
        false
    }

    /// The version that the step leads on from.
    fn source_version(&self) -> (version: u64)
        ensures
            version == self.source(),
    ;

    /// Rewrites the store.
    fn apply<D: Datastore>(self, store: &mut D) -> (res: Result<(), StoreError>)
        requires
            old(store).valid(),
        ensures
            final(store).valid(),
            final(store).writes() >= old(store).writes(),
            final(store).dependable() == old(store).dependable(),
            final(store).prepared() == old(store).prepared(),
            self.sure() && old(store).dependable() ==> res is Ok,
            final(store).objects().contains_key(version_key()) == old(store).objects().contains_key(version_key()),
            old(store).objects().contains_key(version_key()) ==> final(store).objects()[version_key()]
                == old(store).objects()[version_key()],
    ;
}

/// A step for a version whose layout is that of the one before: it rewrites
/// nothing, and only lets the marker move on.
#[derive(Clone, Copy, Debug, PartialEq, Eq, Structural)]
pub struct VersionBump {
    pub from: u64,
}

impl Migration for VersionBump {
    open spec fn source(&self) -> u64 {
        self.from
    }

    open spec fn sure(&self) -> bool {
        true
    }

    fn source_version(&self) -> (version: u64) {
        self.from
    }

    fn apply<D: Datastore>(self, store: &mut D) -> (res: Result<(), StoreError>)
        ensures
            res is Ok,
            final(store).objects() == old(store).objects(),
            final(store).writes() == old(store).writes(),
    {
        Ok(())
    }
}

/// What a successful migration did.
#[derive(Clone, Copy, Debug, PartialEq, Eq, Structural)]
pub struct MigrationReport {
    /// The version that the store was at.
    pub from: u64,
    /// The version that the store is at now.
    pub to: u64,
    /// The number of steps that were run.
    pub steps: u64,
}

/// The version that a marker object stands for: 0 where there is none, `None`
/// where it is not eight bytes long.
pub open spec fn marker_version(marker: Option<Seq<u8>>) -> Option<u64> {
    match marker {
        None => Some(0),
        Some(bytes) => if bytes.len() == 8 {
            Some(spec_u64_from_le_bytes(bytes))
        } else {
            None
        },
    }
}

/// The version that a store is at.
pub open spec fn stored_version(objects: Objects) -> Option<u64> {
    marker_version(
        if objects.contains_key(version_key()) {
            Some(objects[version_key()])
        } else {
            None
        },
    )
}

/// Reads the version off the marker object and holds it against the tool's:
/// the step from `Unchecked` to `Checked`.
pub fn check_version(marker: &Option<Vec<u8>>, current: u64) -> (res: Result<u64, MigrationError>)
    ensures
        res == match marker_version(
            match *marker {
                Some(bytes) => Some(bytes@),
                None => None,
            },
        ) {
            None => Err::<u64, MigrationError>(MigrationError::CorruptMarker),
            Some(stored) => if stored > current {
                Err(MigrationError::StoreTooNew { stored, current })
            } else {
                Ok(stored)
            },
        },
{
    let stored = match marker {
        None => 0,
        Some(bytes) => {
            if bytes.len() != 8 {
                return Err(MigrationError::CorruptMarker);
            }
            u64_from_le_bytes(bytes.as_slice())
        },
    };
    if stored > current {
        Err(MigrationError::StoreTooNew { stored, current })
    } else {
        Ok(stored)
    }
}

/// The index of the first of the first `n` steps that leads on from
/// `version`.
pub open spec fn first_step<M: Migration>(steps: Seq<M>, version: u64, n: int) -> Option<int>
    decreases n,
{
    if n <= 0 {
        None
    } else {
        match first_step(steps, version, n - 1) {
            Some(j) => Some(j),
            None => if steps[n - 1].source() == version {
                Some(n - 1)
            } else {
                None
            },
        }
    }
}

/// `first_step` finds the least index of a step that leads on from `version`.
pub proof fn lemma_first_step<M: Migration>(steps: Seq<M>, version: u64, n: int)
    requires
        0 <= n <= steps.len(),
    ensures
        match first_step(steps, version, n) {
            Some(j) => 0 <= j < n && steps[j].source() == version && forall|k: int|
                0 <= k < j ==> (#[trigger] steps[k]).source() != version,
            None => forall|k: int| 0 <= k < n ==> (#[trigger] steps[k]).source() != version,
        },
    decreases n,
{
    if n > 0 {
        lemma_first_step(steps, version, n - 1);
    }
}

/// The first step that leads on from `version`, if one is registered.
pub fn find_step<M: Migration>(steps: &Vec<M>, version: u64) -> (found: Option<usize>)
    ensures
        match found {
            Some(j) => first_step(steps@, version, steps.len() as int) == Some(j as int) && j
                < steps.len(),
            None => first_step(steps@, version, steps.len() as int) is None,
        },
{
    let mut j: usize = 0;
    while j < steps.len()
        invariant
            j <= steps.len(),
            first_step(steps@, version, j as int) is None,
        decreases steps.len() - j,
    {
        if steps[j].source_version() == version {
            proof {
                lemma_first_step_stays(steps@, version, j + 1, steps.len() as int);
            }
            return Some(j);
        }
        j += 1;
    }
    None
}

/// A step found among the first `n` is still the first among more.
pub proof fn lemma_first_step_stays<M: Migration>(steps: Seq<M>, version: u64, n: int, m: int)
    requires
        0 <= n <= m,
        first_step(steps, version, n) is Some,
    ensures
        first_step(steps, version, m) == first_step(steps, version, n),
    decreases m - n,
{
    if n < m {
        lemma_first_step_stays(steps, version, n, m - 1);
    }
}

/// Whether a step is registered for each version from `from` up to, and
/// without, `to`.
pub open spec fn covered<M: Migration>(steps: Seq<M>, from: u64, to: u64) -> bool {
    forall|version: u64|
        from <= version < to ==> (#[trigger] first_step(steps, version, steps.len() as int)) is Some
}

/// Whether no step ever fails on a store that never fails.
pub open spec fn all_sure<M: Migration>(steps: Seq<M>) -> bool {
    forall|i: int| 0 <= i < steps.len() ==> (#[trigger] steps[i]).sure()
}

/// Which steps the outcome of a migration shows to be registered: after a
/// success one for each version that was passed, after a failure one for
/// each version before the one that the failure names, and for that one a
/// step exactly where the step failed.
pub open spec fn stepped<M: Migration>(
    before: Objects,
    steps: Seq<M>,
    current: u64,
    res: Result<MigrationReport, MigrationError>,
) -> bool {
    match res {
        Ok(report) => covered(steps, report.from, current),
        Err(MigrationError::MissingStep { version }) => covered(
            steps,
            stored_version(before).unwrap(),
            version,
        ) && first_step(steps, version, steps.len() as int) is None,
        Err(MigrationError::StepFailed { version, cause }) => covered(
            steps,
            stored_version(before).unwrap(),
            version,
        ) && first_step(steps, version, steps.len() as int) is Some,
        Err(_) => true,
    }
}

/// Whether a step that leads on from `version` is registered.
pub open spec fn has_step<M: Migration>(steps: Seq<M>, version: u64) -> bool {
    first_step(steps, version, steps.len() as int) is Some
}

/// Taking a step out of the registry leaves the steps that lead on from
/// other versions.
pub proof fn lemma_step_taken<M: Migration>(steps: Seq<M>, j: int, version: u64)
    requires
        0 <= j < steps.len(),
        steps[j].source() != version,
    ensures
        has_step(steps.remove(j), version) == has_step(steps, version),
{
    let left = steps.remove(j);
    lemma_first_step(steps, version, steps.len() as int);
    lemma_first_step(left, version, left.len() as int);
    if let Some(k) = first_step(steps, version, steps.len() as int) {
        let at = if k < j {
            k
        } else {
            k - 1
        };
        assert(left[at] == steps[k]);
    }
    if let Some(k) = first_step(left, version, left.len() as int) {
        let at = if k < j {
            k
        } else {
            k + 1
        };
        assert(steps[at] == left[k]);
    }
}

/// How a store and the outcome of a migration to version `current` relate.
pub open spec fn migrated(
    before: Objects,
    writes_before: nat,
    after: Objects,
    writes_after: nat,
    current: u64,
    res: Result<MigrationReport, MigrationError>,
) -> bool {
    let unchanged = after == before && writes_after == writes_before;
    &&& writes_after >= writes_before
    &&& match res {
        Ok(report) => {
            &&& stored_version(before) == Some(report.from)
            &&& report.from <= current
            &&& report.to == current
            &&& report.steps == current - report.from
            &&& stored_version(after) == Some(current)
            &&& report.from == current ==> unchanged
        },
        Err(MigrationError::StoreTooNew { stored, current: tool }) => {
            &&& stored_version(before) == Some(stored)
            &&& stored > current
            &&& tool == current
            &&& unchanged
        },
        Err(MigrationError::CorruptMarker) => stored_version(before) is None && unchanged,
        Err(MigrationError::MissingStep { version }) => {
            &&& stored_version(before) is Some
            &&& stored_version(before).unwrap() <= version < current
            &&& stored_version(after) == Some(version)
        },
        Err(MigrationError::StepFailed { version, cause }) => {
            &&& stored_version(before) is Some
            &&& stored_version(before).unwrap() <= version < current
            &&& stored_version(after) == Some(version)
        },
        Err(MigrationError::Store(cause)) => unchanged || {
            &&& stored_version(before) is Some
            &&& stored_version(after) is Some
            &&& stored_version(before).unwrap() <= stored_version(after).unwrap() < current
        },
    }
}

/// After a migration that succeeded, a second one
/// writes nothing and leaves every object, the version marker among them, as
/// it is; it fails only where the store fails to answer.
pub proof fn lemma_second_migration_writes_nothing(
    first: Objects,
    first_writes: nat,
    second: Objects,
    second_writes: nat,
    third: Objects,
    third_writes: nat,
    current: u64,
    res1: Result<MigrationReport, MigrationError>,
    res2: Result<MigrationReport, MigrationError>,
)
    requires
        migrated(first, first_writes, second, second_writes, current, res1),
        res1 is Ok,
        migrated(second, second_writes, third, third_writes, current, res2),
    ensures
        third_writes == second_writes,
        third == second,
        stored_version(third) == Some(current),
        res2 is Ok || res2 is Err && res2->Err_0 is Store,
        res2 is Ok ==> res2->Ok_0.steps == 0,
{
}

/// What follows a step that led on from `version`: after a success the
/// version that the marker moves on to, after a failure the end of the
/// migration. A step that failed is not tried again.
pub fn after_step(version: u64, outcome: Result<(), StoreError>) -> (res: Result<
    u64,
    MigrationError,
>)
    requires
        version < u64::MAX,
    ensures
        res == match outcome {
            Ok(()) => Ok::<u64, MigrationError>((version + 1) as u64),
            Err(cause) => Err(MigrationError::StepFailed { version, cause }),
        },
{
    match outcome {
        Ok(()) => Ok(version + 1),
        Err(cause) => Err(MigrationError::StepFailed { version, cause }),
    }
}

/// Brings `store` up to version `current`. Reads the version marker before
/// anything else. A store at `current` is not written to. Each missing
/// version is reached by the first registered step that leads on from the
/// version before it; the step is taken out of the registry and applied
/// once, and `after_step` says what follows; the marker moves on after each
/// step that succeeded, so that it always names the last version that was
/// fully reached.
pub fn migrate<D: Datastore, M: Migration>(store: &mut D, current: u64, steps: Vec<M>) -> (res:
    Result<MigrationReport, MigrationError>)
    requires
        old(store).valid(),
    ensures
        final(store).valid(),
        migrated(
            old(store).objects(),
            old(store).writes(),
            final(store).objects(),
            final(store).writes(),
            current,
            res,
        ),
        final(store).dependable() == old(store).dependable(),
        final(store).prepared() == old(store).prepared(),
        old(store).dependable() ==> !(res matches Err(MigrationError::Store(_))),
        old(store).dependable() && all_sure(steps@) ==> !(res matches Err(
            MigrationError::StepFailed { .. },
        )),
        stepped(old(store).objects(), steps@, current, res),
{
    let key = version_key_bytes();
    let marker = match store.get(key.as_slice()) {
        Ok(marker) => marker,
        Err(cause) => {
            return Err(MigrationError::Store(cause));
        },
    };
    let from = match check_version(&marker, current) {
        Ok(from) => from,
        Err(e) => {
            return Err(e);
        },
    };
    let mut version = from;
    let mut left = steps;
    while version < current
        invariant
            store.valid(),
            key@ == version_key(),
            all_sure(steps@) ==> all_sure(left@),
            forall|later: u64|
                version <= later ==> #[trigger] has_step(left@, later) == has_step(steps@, later),
            from <= version <= current,
            stored_version(old(store).objects()) == Some(from),
            stored_version(store.objects()) == Some(version),
            store.writes() >= old(store).writes(),
            store.dependable() == old(store).dependable(),
            store.prepared() == old(store).prepared(),
            covered(steps@, from, version),
            version == from ==> store.objects() == old(store).objects() && store.writes() == old(store).writes(),
        decreases current - version,
    {
        assert(has_step(left@, version) == has_step(steps@, version));
        let j = match find_step(&left, version) {
            Some(j) => j,
            None => {
                return Err(MigrationError::MissingStep { version });
            },
        };
        let ghost registry = left@;
        proof {
            lemma_first_step(registry, version, registry.len() as int);
        }
        let step = left.remove(j);
        proof {
            assert forall|later: u64| version + 1 <= later implies #[trigger] has_step(
                left@,
                later,
            ) == has_step(steps@, later) by {
                lemma_step_taken(registry, j as int, later);
                assert(has_step(registry, later) == has_step(steps@, later));
            }
            if all_sure(steps@) {
                assert(step.sure());
                assert forall|i: int| 0 <= i < left@.len() implies (#[trigger] left@[i]).sure() by {
                    let at = if i < j {
                        i
                    } else {
                        i + 1
                    };
                    assert(left@[i] == registry[at]);
                }
            }
        }
        let reached = match after_step(version, step.apply(store)) {
            Ok(reached) => reached,
            Err(e) => {
                return Err(e);
            },
        };
        let next = u64_to_le_bytes(reached);
        proof {
            lemma_auto_spec_u64_to_from_le_bytes();
        }
        match store.put(key.as_slice(), next.as_slice()) {
            Ok(()) => {},
            Err(cause) => {
                return Err(MigrationError::Store(cause));
            },
        }
        version = reached;
    }
    Ok(MigrationReport { from, to: current, steps: current - from })
}

} // verus!
