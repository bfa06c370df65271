//! The dispatcher: one record for every entry, the entries worked on side by
//! side by the thread pool of `rayon`.
//!
//! Each entry is handled on its own. A failure is written into that entry's
//! record and stops nothing else.

use crate::filter::{DirectoryEntry, EntryView};
use crate::grouping::{FileEntry, FileRecord};
use crate::hashing::{outcome_view, HashError};
use rayon::iter::{IntoParallelRefIterator, ParallelIterator};
use vstd::prelude::*;

verus! {

/// `rayon`'s `par_iter`, `map` and `collect` into a `Vec`, on a slice:
/// `process_fn` is called on each item, on whichever thread of the pool is
/// free, and each result is written at the index of its item, so that the
/// results stand in the order of the items.
#[verifier::external_body]
fn par_map<T, F>(files: &[DirectoryEntry], process_fn: &F) -> (results: Vec<T>) where
    F: Fn(&DirectoryEntry) -> T + Sync,
    T: Send,

    requires
        forall|i: int| 0 <= i < files@.len() ==> call_requires(*process_fn, (&#[trigger] files@[i],)),
    ensures
        results@.len() == files@.len(),
        forall|i: int|
            0 <= i < files@.len() ==> call_ensures(
                *process_fn,
                (&files@[i],),
                #[trigger] results@[i],
            ),
{
    files.par_iter().map(process_fn).collect()
}

/// Applies `process_fn` to every entry of `files`, in parallel, and returns
/// the results in the order of the entries: exactly one for each.
pub fn process_files_parallel<T, F>(files: &[DirectoryEntry], process_fn: F) -> (results: Vec<
    T,
>) where F: Fn(&DirectoryEntry) -> T + Sync, T: Send
    requires
        forall|i: int| 0 <= i < files@.len() ==> call_requires(process_fn, (&#[trigger] files@[i],)),
    ensures
        results@.len() == files@.len(),
        forall|i: int|
            0 <= i < files@.len() ==> call_ensures(process_fn, (&files@[i],), #[trigger] results@[i]),
{
    par_map(files, &process_fn)
}

/// The record of an entry whose fingerprinting ended in `outcome`: its path,
/// its size, and the digest or the failure. An entry whose metadata could not
/// be read has the size 0 and the failure `HashError::Io`, whatever `outcome`
/// is.
pub open spec fn record_of(entry: EntryView, outcome: Result<Seq<u8>, HashError>) -> FileRecord {
    match entry.metadata {
        Some(m) => FileRecord { path: entry.path, size: m.size, digest: outcome },
        None => FileRecord { path: entry.path, size: 0, digest: Err(HashError::Io) },
    }
}

/// The record of `entry`, given how its fingerprinting ended.
pub fn make_record(entry: &DirectoryEntry, outcome: Result<Vec<u8>, HashError>) -> (record:
    FileEntry)
    ensures
        record@ == record_of(entry@, outcome_view(outcome)),
{
    match entry.metadata {
        Some(m) => FileEntry { path: entry.path.clone(), size: m.size, digest: outcome },
        None => FileEntry { path: entry.path.clone(), size: 0, digest: Err(HashError::Io) },
    }
}

/// Whether `record` is a record that processing `entry` with `fingerprint_fn`
/// can end in: the record of one of the outcomes that the function has on the
/// entry, or, where the metadata could not be read, the record of the failure.
pub open spec fn processed<F: Fn(&DirectoryEntry) -> Result<Vec<u8>, HashError>>(
    fingerprint_fn: F,
    entry: DirectoryEntry,
    record: FileRecord,
) -> bool {
    if entry.metadata is None {
        record == record_of(entry@, Err(HashError::Io))
    } else {
        exists|outcome: Result<Vec<u8>, HashError>|
            call_ensures(fingerprint_fn, (&entry,), outcome) && record == record_of(
                entry@,
                #[trigger] outcome_view(outcome),
            )
    }
}

/// One record for every entry, in the order of the entries: each entry is
/// fingerprinted with `fingerprint_fn`, in parallel with the others. An entry
/// whose metadata could not be read is not fingerprinted; its record, like
/// that of an entry whose fingerprinting fails, carries the failure, and all
/// the other entries are processed all the same.
pub fn process_all<F>(entries: &[DirectoryEntry], fingerprint_fn: F) -> (records: Vec<
    FileEntry,
>) where F: Fn(&DirectoryEntry) -> Result<Vec<u8>, HashError> + Sync
    requires
        forall|i: int|
            0 <= i < entries@.len() ==> call_requires(fingerprint_fn, (&#[trigger] entries@[i],)),
    ensures
        records@.len() == entries@.len(),
        forall|i: int|
            0 <= i < entries@.len() ==> processed(fingerprint_fn, entries@[i], #[trigger] records@[i]@),
{
    let fingerprint = &fingerprint_fn;
    let work = |entry: &DirectoryEntry| -> (record: FileEntry)
        requires
            call_requires(fingerprint, (entry,)),
        ensures
            processed(fingerprint, *entry, record@),
        {
            if entry.metadata.is_none() {
                make_record(entry, Err(HashError::Io))
            } else {
                let outcome = fingerprint(entry);
                let ghost seen = outcome;
                let record = make_record(entry, outcome);
                assert(call_ensures(fingerprint, (entry,), seen) && record@ == record_of(
                    entry@,
                    outcome_view(seen),
                ));
                record
            }
        };
    process_files_parallel(entries, work)
}

} // verus!
