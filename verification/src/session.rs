//! The start of a session: which command runs, whether its progress is
//! shown, under which name a dump is made, and the opening of the store.

use crate::datastore::{Datastore, Objects};
use crate::error::MigrationError;
use crate::keys::{decimal, dump_name_ok, lemma_decimal, push_decimal};
use crate::migration::{
    all_sure, covered, migrate, migrated, stepped, Migration, MigrationReport,
};
use crate::wire::bytes_of;
use vstd::prelude::*;

verus! {

/// What the operator asked for.
#[derive(Clone, Debug, PartialEq, Eq)]
pub enum Command {
    /// List the dumps of the store.
    DumpList,
    /// Make a dump, under `name` if one is given.
    DumpCreate { name: Option<Vec<u8>> },
    /// Delete the dump `dump`.
    DumpDelete { dump: Vec<u8> },
    /// Restore a dump into a local target. With `output` the rows go to the
    /// standard output.
    RestoreLocal { output: bool },
    /// Restore a dump into a remote database. With `output` the rows go to
    /// the standard output.
    RestoreRemote { output: bool },
    /// List the transformers.
    TransformerList,
}

impl Command {
    /// Whether live progress is shown while the command runs: always, but
    /// for a restore whose rows go to the standard output.
    pub open spec fn progress_shown(self) -> bool {
        match self {
            Command::RestoreLocal { output } => !output,
            Command::RestoreRemote { output } => !output,
            _ => true,
        }
    }

    /// Whether live progress is shown while the command runs.
    pub fn shows_progress(&self) -> (shown: bool)
        ensures
            shown == self.progress_shown(),
    {
        match self {
            Command::RestoreLocal { output } => !*output,
            Command::RestoreRemote { output } => !*output,
            _ => true,
        }
    }
}

/// The name of a dump: the one asked for, or the time in milliseconds as
/// decimal digits.
pub open spec fn dump_name(asked: Option<Seq<u8>>, now_ms: u64) -> Seq<u8> {
    match asked {
        Some(name) => name,
        None => decimal(now_ms as nat),
    }
}

/// The name under which a dump is made: the one asked for, or the time.
pub fn name_dump(asked: &Option<Vec<u8>>, now_ms: u64) -> (name: Vec<u8>)
    ensures
        name@ == dump_name(
            match *asked {
                Some(n) => Some(n@),
                None => None,
            },
            now_ms,
        ),
        *asked is None ==> dump_name_ok(name@),
{
    match asked {
        Some(name) => bytes_of(name.as_slice()),
        None => {
            let mut name: Vec<u8> = Vec::new();
            push_decimal(&mut name, now_ms);
            proof {
                lemma_decimal(now_ms as nat);
            }
            name
        },
    }
}

/// How a store and the outcome of opening it relate: the outcome of the
/// migration, or, where the migration succeeded and the preparing failed, the
/// failure of the preparing.
pub open spec fn opened<M: Migration>(
    before: Objects,
    writes_before: nat,
    after: Objects,
    writes_after: nat,
    current: u64,
    steps: Seq<M>,
    res: Result<MigrationReport, MigrationError>,
) -> bool {
    let as_migrated = migrated(before, writes_before, after, writes_after, current, res) && stepped(
        before,
        steps,
        current,
        res,
    );
    match res {
        Err(MigrationError::Store(cause)) => as_migrated || exists|report: MigrationReport|
            #![trigger migrated(
                before,
                writes_before,
                after,
                writes_after,
                current,
                Ok::<MigrationReport, MigrationError>(report),
            )]
            migrated(
                before,
                writes_before,
                after,
                writes_after,
                current,
                Ok::<MigrationReport, MigrationError>(report),
            ) && covered(steps, report.from, current),
        _ => as_migrated,
    }
}

/// Opens a store for a session: brings its format up to `current` as
/// `migrate` does, then prepares it for use. The version marker is read
/// before anything else happens to the store, and the store is prepared
/// only after the migration has succeeded.
pub fn open_store<D: Datastore, M: Migration>(store: &mut D, current: u64, steps: Vec<M>) -> (res:
    Result<MigrationReport, MigrationError>)
    requires
        old(store).valid(),
    ensures
        final(store).valid(),
        final(store).dependable() == old(store).dependable(),
        old(store).dependable() ==> !(res matches Err(MigrationError::Store(_))),
        old(store).dependable() && all_sure(steps@) ==> !(res matches Err(
            MigrationError::StepFailed { .. },
        )),
        opened(
            old(store).objects(),
            old(store).writes(),
            final(store).objects(),
            final(store).writes(),
            current,
            steps@,
            res,
        ),
        final(store).prepared() == (old(store).prepared() || res is Ok),
{
    let report = match migrate(store, current, steps) {
        Ok(report) => report,
        Err(e) => {
            return Err(e);
        },
    };
    match store.init() {
        Ok(()) => Ok(report),
        Err(cause) => Err(MigrationError::Store(cause)),
    }
}

} // verus!
