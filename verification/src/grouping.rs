//! Duplicate groups: the processed records, partitioned by digest.
//!
//! Two files count as duplicates exactly when their digests are equal byte for
//! byte; the content is not read again. Records without a digest belong to no
//! class and are listed apart.

use crate::hashing::{hex_of, to_hex, HashError};
use std::collections::HashMap;
use vstd::bytes::{spec_u64_from_le_bytes, u64_from_le_bytes};
use vstd::prelude::*;
use vstd::slice::slice_subrange;
use vstd::std_specs::hash::*;

verus! {

/// What the pipeline knows of one processed file.
#[derive(Debug, PartialEq, Eq)]
pub struct FileEntry {
    /// The path that the file was found under.
    pub path: String,
    /// The file's size in bytes.
    pub size: u64,
    /// The fingerprint of the content, or why there is none.
    pub digest: Result<Vec<u8>, HashError>,
}

/// The mathematical value of a `FileEntry`.
pub struct FileRecord {
    pub path: Seq<char>,
    pub size: u64,
    pub digest: Result<Seq<u8>, HashError>,
}

impl View for FileEntry {
    type V = FileRecord;

    open spec fn view(&self) -> FileRecord {
        FileRecord {
            path: self.path@,
            size: self.size,
            digest: match self.digest {
                Ok(d) => Ok(d@),
                Err(e) => Err(e),
            },
        }
    }
}

impl DeepView for FileEntry {
    type V = FileRecord;

    open spec fn deep_view(&self) -> FileRecord {
        self@
    }
}

impl Clone for FileEntry {
    /// A copy with the same path, size and digest.
    fn clone(&self) -> (copy: Self)
        ensures
            copy@ == self@,
    {
        let digest = match &self.digest {
            Ok(d) => {
                let bytes = d.clone();
                Ok(bytes)
            },
            Err(e) => Err(*e),
        };
        FileEntry { path: self.path.clone(), size: self.size, digest }
    }
}

impl FileEntry {
    /// The digest as text, two hexadecimal digits in lower case for each
    /// byte, or `None` where there is no digest.
    pub fn hex_digest(&self) -> (text: Option<String>)
        ensures
            match self@.digest {
                Ok(d) => text is Some && text->0@ == hex_of(d),
                Err(_) => text is None,
            },
    {
        match &self.digest {
            Ok(d) => Some(to_hex(d.as_slice())),
            Err(_) => None,
        }
    }
}

/// Two or more files of one digest, in the order of the input.
#[derive(Debug)]
pub struct DuplicateGroup<'a> {
    pub members: Vec<&'a FileEntry>,
}

impl<'a> View for DuplicateGroup<'a> {
    type V = Seq<FileRecord>;

    open spec fn view(&self) -> Seq<FileRecord> {
        self.members.deep_view()
    }
}

impl<'a> DeepView for DuplicateGroup<'a> {
    type V = Seq<FileRecord>;

    open spec fn deep_view(&self) -> Seq<FileRecord> {
        self@
    }
}

// ---------------------------------------------------------------------------
// The model
// ---------------------------------------------------------------------------

/// The records whose digest is `d`.
pub open spec fn digest_is(d: Seq<u8>) -> spec_fn(FileRecord) -> bool {
    |r: FileRecord| r.digest == Ok::<Seq<u8>, HashError>(d)
}

/// The records without a digest.
pub open spec fn digest_failed() -> spec_fn(FileRecord) -> bool {
    |r: FileRecord| r.digest is Err
}

/// The class of `d`: the records with that digest, in the order of the input.
pub open spec fn class_of(records: Seq<FileRecord>, d: Seq<u8>) -> Seq<FileRecord> {
    records.filter(digest_is(d))
}

/// The records that could not be compared, in the order of the input.
pub open spec fn failed_records(records: Seq<FileRecord>) -> Seq<FileRecord> {
    records.filter(digest_failed())
}

/// The digests that occur, each once, in the order of their first record.
pub open spec fn digests_in_order(records: Seq<FileRecord>) -> Seq<Seq<u8>>
    decreases records.len(),
{
    if records.len() == 0 {
        Seq::empty()
    } else {
        let before = digests_in_order(records.drop_last());
        match records.last().digest {
            Ok(d) => if before.contains(d) {
                before
            } else {
                before.push(d)
            },
            Err(_) => before,
        }
    }
}

/// The digests with a class of `size` records or more.
pub open spec fn at_least(records: Seq<FileRecord>, size: nat) -> spec_fn(Seq<u8>) -> bool {
    |d: Seq<u8>| class_of(records, d).len() >= size
}

/// The digests with a class of exactly one record.
pub open spec fn only_one(records: Seq<FileRecord>) -> spec_fn(Seq<u8>) -> bool {
    |d: Seq<u8>| class_of(records, d).len() == 1
}

/// The digests that two or more records share, in the order of their first
/// record.
pub open spec fn duplicate_digests(records: Seq<FileRecord>) -> Seq<Seq<u8>> {
    digests_in_order(records).filter(at_least(records, 2))
}

/// The digests that one record alone has.
pub open spec fn unique_digests(records: Seq<FileRecord>) -> Seq<Seq<u8>> {
    digests_in_order(records).filter(only_one(records))
}

/// The classes of `digests`, one for each and in their order.
pub open spec fn classes_of(records: Seq<FileRecord>, digests: Seq<Seq<u8>>) -> Seq<
    Seq<FileRecord>,
> {
    Seq::new(digests.len(), |k: int| class_of(records, digests[k]))
}

/// All classes, in the order of their first record.
pub open spec fn all_classes(records: Seq<FileRecord>) -> Seq<Seq<FileRecord>> {
    classes_of(records, digests_in_order(records))
}

/// The duplicate groups: the classes of two or more records.
pub open spec fn duplicate_groups(records: Seq<FileRecord>) -> Seq<Seq<FileRecord>> {
    classes_of(records, duplicate_digests(records))
}

/// The classes of one record: files that were compared and have no duplicate.
pub open spec fn unique_classes(records: Seq<FileRecord>) -> Seq<Seq<FileRecord>> {
    classes_of(records, unique_digests(records))
}

// ---------------------------------------------------------------------------
// How the model grows with one more record
// ---------------------------------------------------------------------------

/// A class gains the new record if the digest is its own, and is unchanged
/// otherwise.
pub proof fn lemma_class_push(records: Seq<FileRecord>, r: FileRecord, d: Seq<u8>)
    ensures
        class_of(records.push(r), d) == if r.digest == Ok::<Seq<u8>, HashError>(d) {
            class_of(records, d).push(r)
        } else {
            class_of(records, d)
        },
{
    records.lemma_filter_push(r, digest_is(d));
}

/// No digest is listed twice, and the listed digests are those with a record.
pub proof fn lemma_digests_in_order(records: Seq<FileRecord>)
    ensures
        digests_in_order(records).no_duplicates(),
        forall|d: Seq<u8>| #[trigger]
            digests_in_order(records).contains(d) <==> class_of(records, d).len() > 0,
    decreases records.len(),
{
    let order = digests_in_order(records);
    if records.len() == 0 {
        assert forall|d: Seq<u8>| #[trigger] order.contains(d) <==> class_of(records, d).len()
            > 0 by {
            records.lemma_filter_len(digest_is(d));
        }
    } else {
        let before = records.drop_last();
        let r = records.last();
        let order_before = digests_in_order(before);
        lemma_digests_in_order(before);
        assert(records == before.push(r));
        assert forall|d: Seq<u8>| #[trigger] order.contains(d) <==> class_of(records, d).len()
            > 0 by {
            lemma_class_push(before, r, d);
            match r.digest {
                Ok(dr) => {
                    if !order_before.contains(dr) {
                        assert(order.last() == dr);
                        if order_before.contains(d) {
                            let k = choose|k: int| 0 <= k < order_before.len() && order_before[k] == d;
                            assert(order[k] == d);
                        }
                        if order.contains(d) && d != dr {
                            let k = choose|k: int| 0 <= k < order.len() && order[k] == d;
                            assert(order_before[k] == d);
                        }
                    }
                },
                Err(_) => {},
            }
        }
    }
}

/// What one more record does to the classes: nothing if it has no digest; it
/// joins the class of its digest if there is one; and it opens a class of its
/// own, after the others, if there is none.
pub proof fn lemma_classes_step(records: Seq<FileRecord>, r: FileRecord)
    ensures
        r.digest is Err ==> all_classes(records.push(r)) == all_classes(records),
        forall|j: int|
            0 <= j < digests_in_order(records).len() && r.digest == Ok::<Seq<u8>, HashError>(
                #[trigger] digests_in_order(records)[j],
            ) ==> all_classes(records.push(r)) == all_classes(records).update(
                j,
                all_classes(records)[j].push(r),
            ),
        r.digest matches Ok(d) && !digests_in_order(records).contains(d) ==> all_classes(
            records.push(r),
        ) == all_classes(records).push(seq![r]),
{
    let order = digests_in_order(records);
    let after = records.push(r);
    lemma_digests_in_order(records);
    assert(after.drop_last() == records);
    assert forall|d: Seq<u8>|
        #[trigger] class_of(after, d) == if r.digest == Ok::<Seq<u8>, HashError>(d) {
            class_of(records, d).push(r)
        } else {
            class_of(records, d)
        } by {
        lemma_class_push(records, r, d);
    }
    match r.digest {
        Err(_) => {
            assert(all_classes(after) =~= all_classes(records));
        },
        Ok(d) => {
            if order.contains(d) {
                assert forall|j: int| 0 <= j < order.len() && order[j] == d implies all_classes(
                    after,
                ) == all_classes(records).update(j, all_classes(records)[j].push(r)) by {
                    assert(all_classes(after) =~= all_classes(records).update(
                        j,
                        all_classes(records)[j].push(r),
                    ));
                }
            } else {
                assert(class_of(after, d) =~= seq![r]);
            }
        },
    }
}

// ---------------------------------------------------------------------------
// Grouping
// ---------------------------------------------------------------------------

/// Whether two digests are equal byte for byte.
pub fn same_digest(a: &Vec<u8>, b: &Vec<u8>) -> (same: bool)
    ensures
        same == (a@ == b@),
{
    if a.len() != b.len() {
        return false;
    }
    let mut k: usize = 0;
    while k < a.len()
        invariant
            a.len() == b.len(),
            k <= a.len(),
            a@.take(k as int) == b@.take(k as int),
        decreases a.len() - k,
    {
        if a[k] != b[k] {
            return false;
        }
        k = k + 1;
    }
    assert(a@.take(a.len() as int) == a@);
    assert(b@.take(b.len() as int) == b@);
    true
}

/// The number that a digest is looked up under: its first eight bytes, or 0
/// for a digest of fewer. Equal digests have equal numbers.
spec fn key_of(digest: Seq<u8>) -> u64 {
    if digest.len() >= 8 {
        spec_u64_from_le_bytes(digest.subrange(0, 8))
    } else {
        0
    }
}

/// The number that `digest` is looked up under.
fn digest_key(digest: &Vec<u8>) -> (key: u64)
    ensures
        key == key_of(digest@),
{
    if digest.len() >= 8 {
        u64_from_le_bytes(slice_subrange(digest.as_slice(), 0, 8))
    } else {
        0
    }
}

/// Where to look for the class of a digest: for each number, the classes
/// whose digests have that number. The classes are named by their place in the
/// order of their first records.
struct ClassIndex {
    buckets: Vec<Vec<usize>>,
    slots: HashMap<u64, usize>,
}

impl ClassIndex {
    /// Whether the class at place `j` is listed under `key`.
    spec fn lists(&self, key: u64, j: int) -> bool {
        self.slots@.contains_key(key) && self.buckets[self.slots@[key] as int]@.contains(
            j as usize,
        )
    }

    /// Whether the index is one of the classes of `order`: it lists each of
    /// them under the number of its digest, and nothing else.
    spec fn covers(&self, order: Seq<Seq<u8>>) -> bool {
        &&& forall|key: u64|
            self.slots@.contains_key(key) ==> (#[trigger] self.slots@[key]) < self.buckets.len()
        &&& forall|b: int, t: int|
            0 <= b < self.buckets.len() && 0 <= t < self.buckets[b].len() ==> (
            #[trigger] self.buckets[b][t]) < order.len()
        &&& forall|j: int| 0 <= j < order.len() ==> self.lists(key_of(#[trigger] order[j]), j)
    }

    /// The index of no classes.
    fn new() -> (index: Self)
        ensures
            index.covers(Seq::empty()),
    {
        ClassIndex { buckets: Vec::new(), slots: HashMap::new() }
    }

    /// The classes listed under `key`: all classes whose digest has that
    /// number are among them.
    fn candidates(&self, key: u64, Ghost(order): Ghost<Seq<Seq<u8>>>) -> (bucket: Option<
        &Vec<usize>,
    >)
        requires
            self.covers(order),
        ensures
            match bucket {
                Some(listed) => {
                    &&& forall|t: int| 0 <= t < listed.len() ==> (#[trigger] listed[t]) < order.len()
                    &&& forall|j: int|
                        0 <= j < order.len() && key_of(#[trigger] order[j]) == key
                            ==> listed@.contains(j as usize)
                },
                None => forall|j: int| 0 <= j < order.len() ==> key_of(#[trigger] order[j]) != key,
            },
    {
        broadcast use group_hash_axioms;

        match self.slots.get(&key) {
            Some(slot) => {
                let listed = &self.buckets[*slot];
                assert forall|j: int|
                    0 <= j < order.len() && key_of(#[trigger] order[j]) == key implies listed@.contains(
                    j as usize,
                ) by {
                    assert(self.lists(key_of(order[j]), j));
                }
                assert forall|t: int| 0 <= t < listed.len() implies (#[trigger] listed[t])
                    < order.len() by {
                    assert(self.buckets[*slot as int][t] < order.len());
                }
                Some(listed)
            },
            None => {
                assert forall|j: int| 0 <= j < order.len() implies key_of(#[trigger] order[j])
                    != key by {
                    assert(self.lists(key_of(order[j]), j));
                }
                None
            },
        }
    }

    /// Lists the new class, which takes the place `place` after those of
    /// `order`, under `key`.
    fn remember(
        &mut self,
        key: u64,
        place: usize,
        Ghost(order): Ghost<Seq<Seq<u8>>>,
        Ghost(digest): Ghost<Seq<u8>>,
    )
        requires
            old(self).covers(order),
            key == key_of(digest),
            place == order.len(),
        ensures
            final(self).covers(order.push(digest)),
    {
        broadcast use group_hash_axioms;

        let ghost before = *self;
        let ghost grown = order.push(digest);
        let known = match self.slots.get(&key) {
            Some(slot) => Some(*slot),
            None => None,
        };
        match known {
            Some(slot) => {
                self.buckets[slot].push(place);
                assert forall|b: int, t: int|
                    0 <= b < self.buckets.len() && 0 <= t < self.buckets[b].len() implies (
                #[trigger] self.buckets[b][t]) < grown.len() by {
                    if b == slot {
                        if t < before.buckets[b].len() {
                            assert(self.buckets[b][t] == before.buckets[b][t]);
                        }
                    } else {
                        assert(self.buckets[b] == before.buckets[b]);
                    }
                }
                assert forall|j: int| 0 <= j < grown.len() implies self.lists(
                    key_of(#[trigger] grown[j]),
                    j,
                ) by {
                    if j < order.len() {
                        let b = before.slots@[key_of(order[j])] as int;
                        let t = choose|t: int|
                            0 <= t < before.buckets[b]@.len() && before.buckets[b]@[t] == j as usize;
                        if b == slot {
                            assert(self.buckets[b]@[t] == j as usize);
                        } else {
                            assert(self.buckets[b] == before.buckets[b]);
                        }
                    } else {
                        assert(self.buckets[slot as int]@[before.buckets[slot as int]@.len() as int]
                            == place);
                    }
                }
            },
            None => {
                let slot = self.buckets.len();
                let mut listed: Vec<usize> = Vec::new();
                listed.push(place);
                self.buckets.push(listed);
                self.slots.insert(key, slot);
                assert(self.buckets[slot as int]@[0] == place);
                assert forall|b: int, t: int|
                    0 <= b < self.buckets.len() && 0 <= t < self.buckets[b].len() implies (
                #[trigger] self.buckets[b][t]) < grown.len() by {
                    if b < slot {
                        assert(self.buckets[b] == before.buckets[b]);
                    }
                }
                assert forall|j: int| 0 <= j < grown.len() implies self.lists(
                    key_of(#[trigger] grown[j]),
                    j,
                ) by {
                    if j < order.len() {
                        let b = before.slots@[key_of(order[j])] as int;
                        assert(self.buckets[b] == before.buckets[b]);
                    }
                }
            },
        }
    }
}

/// The place of the class whose digest is `digest`, if there is one. Each
/// class is known by the digest of its first member; only the classes that
/// the index lists under the number of `digest` are looked at.
fn find_class(
    classes: &Vec<Vec<&FileEntry>>,
    index: &ClassIndex,
    digest: &Vec<u8>,
    key: u64,
    Ghost(order): Ghost<Seq<Seq<u8>>>,
) -> (found: Option<usize>)
    requires
        classes.len() == order.len(),
        forall|k: int|
            0 <= k < order.len() ==> (#[trigger] classes[k])@.len() > 0 && classes[k]@[0]@.digest
                == Ok::<Seq<u8>, HashError>(order[k]),
        index.covers(order),
        key == key_of(digest@),
    ensures
        match found {
            Some(j) => j < order.len() && order[j as int] == digest@,
            None => !order.contains(digest@),
        },
{
    match index.candidates(key, Ghost(order)) {
        None => None,
        Some(listed) => {
            let mut t: usize = 0;
            while t < listed.len()
                invariant
                    classes.len() == order.len(),
                    t <= listed.len(),
                    forall|m: int|
                        0 <= m < order.len() ==> (#[trigger] classes[m])@.len() > 0
                            && classes[m]@[0]@.digest == Ok::<Seq<u8>, HashError>(order[m]),
                    forall|m: int| 0 <= m < listed.len() ==> (#[trigger] listed[m]) < order.len(),
                    forall|m: int| 0 <= m < t ==> order[(#[trigger] listed[m]) as int] != digest@,
                decreases listed.len() - t,
            {
                let place = listed[t];
                let first: &FileEntry = classes[place][0];
                match &first.digest {
                    Ok(d) => {
                        if same_digest(d, digest) {
                            return Some(place);
                        }
                    },
                    Err(_) => {},
                }
                t = t + 1;
            }
            proof {
                if order.contains(digest@) {
                    let j = choose|j: int| 0 <= j < order.len() && order[j] == digest@;
                    let m = choose|m: int| 0 <= m < listed@.len() && listed@[m] == j as usize;
                    assert(order[listed[m] as int] != digest@);
                }
            }
            None
        },
    }
}

/// All classes of `records`, in the order of their first record.
fn classify<'a>(records: &'a [FileEntry]) -> (classes: Vec<Vec<&'a FileEntry>>)
    ensures
        classes.deep_view() == all_classes(records.deep_view()),
{
    let ghost all = records.deep_view();
    let mut classes: Vec<Vec<&'a FileEntry>> = Vec::new();
    let mut index = ClassIndex::new();
    let mut i: usize = 0;
    while i < records.len()
        invariant
            i <= records.len(),
            all == records.deep_view(),
            classes.deep_view() == all_classes(all.take(i as int)),
            index.covers(digests_in_order(all.take(i as int))),
        decreases records.len() - i,
    {
        let rec: &'a FileEntry = &records[i];
        let ghost seen = all.take(i as int);
        let ghost order = digests_in_order(seen);
        proof {
            assert(all.take(i + 1) == seen.push(rec@));
            assert(seen.push(rec@).drop_last() == seen);
            lemma_classes_step(seen, rec@);
            lemma_digests_in_order(seen);
            assert(classes.deep_view().len() == classes.len());
            assert forall|k: int| 0 <= k < order.len() implies (#[trigger] classes[k])@.len() > 0
                && classes[k]@[0]@.digest == Ok::<Seq<u8>, HashError>(order[k]) by {
                assert(classes.deep_view()[k] == classes[k].deep_view());
                assert(order.contains(order[k]));
                seen.lemma_filter_pred(digest_is(order[k]), 0);
            }
        }
        match &rec.digest {
            Err(_) => {},
            Ok(d) => {
                let key = digest_key(d);
                match find_class(&classes, &index, d, key, Ghost(order)) {
                    Some(j) => {
                        let ghost before = classes.deep_view();
                        classes[j].push(rec);
                        assert(classes.deep_view() =~~= before.update(
                            j as int,
                            before[j as int].push(rec@),
                        ));
                    },
                    None => {
                        let ghost before = classes.deep_view();
                        index.remember(key, classes.len(), Ghost(order), Ghost(d@));
                        let mut class: Vec<&'a FileEntry> = Vec::new();
                        class.push(rec);
                        classes.push(class);
                        assert(classes.deep_view() =~~= before.push(seq![rec@]));
                    },
                }
            },
        }
        i = i + 1;
    }
    assert(all.take(records.len() as int) == all);
    classes
}

/// A copy of the references in `class`.
fn copy_members<'a>(class: &Vec<&'a FileEntry>) -> (members: Vec<&'a FileEntry>)
    ensures
        members@ == class@,
{
    let mut members: Vec<&'a FileEntry> = Vec::new();
    let mut m: usize = 0;
    while m < class.len()
        invariant
            m <= class.len(),
            members@ == class@.take(m as int),
        decreases class.len() - m,
    {
        members.push(class[m]);
        m = m + 1;
    }
    members
}

/// The duplicate groups of `records`: for each digest that two or more
/// records share, those records in the order of the input; the groups in the
/// order of their first member. Records without a digest are in no group.
pub fn group_by_digest<'a>(records: &'a [FileEntry]) -> (groups: Vec<DuplicateGroup<'a>>)
    ensures
        groups.deep_view() == duplicate_groups(records.deep_view()),
{
    let classes = classify(records);
    let ghost all = records.deep_view();
    let ghost order = digests_in_order(all);
    let mut groups: Vec<DuplicateGroup<'a>> = Vec::new();
    let mut k: usize = 0;
    assert(classes.deep_view().len() == classes.len());
    assert(order.take(0).filter(at_least(all, 2)) =~= Seq::<Seq<u8>>::empty()) by {
        order.take(0).lemma_filter_len(at_least(all, 2));
    }
    while k < classes.len()
        invariant
            k <= classes.len(),
            classes.len() == order.len(),
            classes.deep_view() == classes_of(all, order),
            groups.deep_view() == classes_of(all, order.take(k as int).filter(at_least(all, 2))),
        decreases classes.len() - k,
    {
        let ghost done = order.take(k as int);
        proof {
            assert(order.take(k + 1) == done.push(order[k as int]));
            done.lemma_filter_push(order[k as int], at_least(all, 2));
            assert(classes.deep_view()[k as int] == classes[k as int].deep_view());
        }
        if classes[k].len() >= 2 {
            let ghost before = groups.deep_view();
            let members = copy_members(&classes[k]);
            groups.push(DuplicateGroup { members });
            assert(groups.deep_view() =~~= before.push(class_of(all, order[k as int])));
            assert(groups.deep_view() =~~= classes_of(
                all,
                done.filter(at_least(all, 2)).push(order[k as int]),
            ));
        }
        k = k + 1;
    }
    assert(order.take(classes.len() as int) == order);
    groups
}

/// The records that could not be compared, in the order of the input: those
/// without a digest. They are in no duplicate group.
pub fn failed_entries<'a>(records: &'a [FileEntry]) -> (failed: Vec<&'a FileEntry>)
    ensures
        failed.deep_view() == failed_records(records.deep_view()),
{
    let ghost all = records.deep_view();
    let mut failed: Vec<&'a FileEntry> = Vec::new();
    let mut i: usize = 0;
    assert(failed.deep_view() =~= failed_records(all.take(0))) by {
        all.take(0).lemma_filter_len(digest_failed());
    }
    while i < records.len()
        invariant
            i <= records.len(),
            all == records.deep_view(),
            failed.deep_view() == failed_records(all.take(i as int)),
        decreases records.len() - i,
    {
        let rec: &'a FileEntry = &records[i];
        proof {
            assert(all.take(i + 1) == all.take(i as int).push(rec@));
            all.take(i as int).lemma_filter_push(rec@, digest_failed());
        }
        if rec.digest.is_err() {
            let ghost before = failed.deep_view();
            failed.push(rec);
            assert(failed.deep_view() =~= before.push(rec@));
        }
        i = i + 1;
    }
    assert(all.take(records.len() as int) == all);
    failed
}

} // verus!
