//! What holds of the classes as a whole: the shape of a duplicate group, the
//! partition of the input, and that the order of the input does not matter.

use crate::grouping::{
    all_classes, at_least, class_of, classes_of, digest_failed, digest_is, digests_in_order,
    duplicate_digests, duplicate_groups, failed_records, lemma_classes_step,
    lemma_digests_in_order, only_one, unique_classes, FileRecord,
};
use crate::hashing::HashError;
use vstd::multiset::*;
use vstd::prelude::*;
use vstd::seq_lib::*;

verus! {

/// All members of the classes `classes`, each as often as it occurs.
pub open spec fn members_of(classes: Seq<Seq<FileRecord>>) -> Multiset<FileRecord> {
    classes.flatten().to_multiset()
}

// ---------------------------------------------------------------------------
// Sequences
// ---------------------------------------------------------------------------

/// What stays of a sequence without repetitions has none either.
proof fn lemma_filter_no_duplicates<A>(s: Seq<A>, p: spec_fn(A) -> bool)
    requires
        s.no_duplicates(),
    ensures
        s.filter(p).no_duplicates(),
    decreases s.len(),
{
    if s.len() == 0 {
        s.lemma_filter_len(p);
    } else {
        let init = s.drop_last();
        let x = s.last();
        lemma_filter_no_duplicates(init, p);
        assert(s == init.push(x));
        init.lemma_filter_push(x, p);
        if init.filter(p).contains(x) {
            init.lemma_filter_contains_rev(p, x);
            let k = choose|k: int| 0 <= k < init.len() && init[k] == x;
            assert(s[k] == s[s.len() - 1]);
        }
    }
}

/// An item stays exactly if it was there and satisfies the condition.
proof fn lemma_filter_contains_iff<A>(s: Seq<A>, p: spec_fn(A) -> bool, x: A)
    ensures
        s.filter(p).contains(x) <==> s.contains(x) && p(x),
{
    if s.filter(p).contains(x) {
        s.lemma_filter_contains_rev(p, x);
        let k = choose|k: int| 0 <= k < s.filter(p).len() && s.filter(p)[k] == x;
        s.lemma_filter_pred(p, k);
    }
    if s.contains(x) && p(x) {
        let k = choose|k: int| 0 <= k < s.len() && s[k] == x;
        s.lemma_filter_contains(p, k);
    }
}

/// A sequence without items holds nothing.
proof fn lemma_empty_to_multiset<A>(s: Seq<A>)
    requires
        s.len() == 0,
    ensures
        s.to_multiset() == Multiset::<A>::empty(),
{
    to_multiset_len(s);
    lemma_multiset_empty_len(s.to_multiset());
}

/// Filtering a sequence and then forgetting the order is filtering what it
/// holds.
proof fn lemma_filter_to_multiset<A>(s: Seq<A>, p: spec_fn(A) -> bool)
    ensures
        s.filter(p).to_multiset() == s.to_multiset().filter(p),
    decreases s.len(),
{
    broadcast use group_multiset_axioms;

    if s.len() == 0 {
        s.lemma_filter_len(p);
        lemma_empty_to_multiset(s);
        lemma_empty_to_multiset(s.filter(p));
    } else {
        let init = s.drop_last();
        let x = s.last();
        lemma_filter_to_multiset(init, p);
        assert(s == init.push(x));
        init.lemma_filter_push(x, p);
        to_multiset_build(init, x);
        to_multiset_build(init.filter(p), x);
    }
}

// ---------------------------------------------------------------------------
// The shape of a duplicate group
// ---------------------------------------------------------------------------

/// A duplicate group has two members or more; all of them are records of the
/// input with the group's digest; and no two groups have the same digest.
pub proof fn lemma_duplicate_groups(records: Seq<FileRecord>)
    ensures
        duplicate_groups(records).len() == duplicate_digests(records).len(),
        duplicate_digests(records).no_duplicates(),
        forall|k: int|
            0 <= k < duplicate_groups(records).len() ==> (#[trigger] duplicate_groups(
                records,
            )[k]).len() >= 2,
        forall|k: int, m: int|
            0 <= k < duplicate_groups(records).len() && 0 <= m < duplicate_groups(records)[k].len()
                ==> (#[trigger] duplicate_groups(records)[k][m]).digest == Ok::<
                Seq<u8>,
                HashError,
            >(duplicate_digests(records)[k]) && records.contains(duplicate_groups(records)[k][m]),
{
    let order = digests_in_order(records);
    let twice = at_least(records, 2);
    lemma_digests_in_order(records);
    lemma_filter_no_duplicates(order, twice);
    assert forall|k: int| 0 <= k < duplicate_groups(records).len() implies (
    #[trigger] duplicate_groups(records)[k]).len() >= 2 by {
        order.lemma_filter_pred(twice, k);
    }
    assert forall|k: int, m: int|
        0 <= k < duplicate_groups(records).len() && 0 <= m < duplicate_groups(
            records,
        )[k].len() implies (#[trigger] duplicate_groups(records)[k][m]).digest == Ok::<
        Seq<u8>,
        HashError,
    >(duplicate_digests(records)[k]) && records.contains(duplicate_groups(records)[k][m]) by {
        let d = duplicate_digests(records)[k];
        let r = class_of(records, d)[m];
        records.lemma_filter_pred(digest_is(d), m);
        records.lemma_filter_contains_rev(digest_is(d), r);
    }
}

/// Within a duplicate group all digests are equal; across groups they differ.
pub proof fn lemma_groups_by_digest(records: Seq<FileRecord>)
    ensures
        forall|k: int, m: int, n: int|
            #![trigger duplicate_groups(records)[k][m], duplicate_groups(records)[k][n]]
            0 <= k < duplicate_groups(records).len() && 0 <= m < duplicate_groups(records)[k].len()
                && 0 <= n < duplicate_groups(records)[k].len() ==> duplicate_groups(
                records,
            )[k][m].digest == duplicate_groups(records)[k][n].digest,
        forall|k: int, l: int, m: int, n: int|
            #![trigger duplicate_groups(records)[k][m], duplicate_groups(records)[l][n]]
            0 <= k < duplicate_groups(records).len() && 0 <= l < duplicate_groups(records).len()
                && k != l && 0 <= m < duplicate_groups(records)[k].len() && 0 <= n
                < duplicate_groups(records)[l].len() ==> duplicate_groups(records)[k][m].digest
                != duplicate_groups(records)[l][n].digest,
{
    lemma_duplicate_groups(records);
}

/// A record without a digest is in no duplicate group, and every record that
/// is listed as failed has none.
pub proof fn lemma_failed_apart(records: Seq<FileRecord>)
    ensures
        forall|k: int, m: int|
            0 <= k < duplicate_groups(records).len() && 0 <= m < duplicate_groups(records)[k].len()
                ==> (#[trigger] duplicate_groups(records)[k][m]).digest is Ok,
        forall|i: int|
            0 <= i < failed_records(records).len() ==> (#[trigger] failed_records(
                records,
            )[i]).digest is Err,
        forall|r: FileRecord|
            records.contains(r) && r.digest is Err ==> #[trigger] failed_records(records).contains(
                r,
            ),
{
    lemma_duplicate_groups(records);
    assert forall|i: int| 0 <= i < failed_records(records).len() implies (#[trigger] failed_records(
        records,
    )[i]).digest is Err by {
        records.lemma_filter_pred(digest_failed(), i);
    }
    assert forall|r: FileRecord| records.contains(r) && r.digest is Err implies #[trigger] failed_records(
        records,
    ).contains(r) by {
        lemma_filter_contains_iff(records, digest_failed(), r);
    }
}

// ---------------------------------------------------------------------------
// The partition
// ---------------------------------------------------------------------------

/// One more class adds its members.
proof fn lemma_members_push(classes: Seq<Seq<FileRecord>>, class: Seq<FileRecord>)
    ensures
        members_of(classes.push(class)) == members_of(classes).add(class.to_multiset()),
{
    classes.lemma_flatten_push(class);
    lemma_multiset_commutative(classes.flatten(), class);
}

/// One more record in one of the classes adds that record.
proof fn lemma_members_grow(classes: Seq<Seq<FileRecord>>, j: int, r: FileRecord)
    requires
        0 <= j < classes.len(),
    ensures
        members_of(classes.update(j, classes[j].push(r))) == members_of(classes).insert(r),
    decreases classes.len(),
{
    broadcast use group_multiset_axioms;

    let init = classes.drop_last();
    let last = classes.last();
    let grown = classes.update(j, classes[j].push(r));
    assert(classes == init.push(last));
    lemma_members_push(init, last);
    if j == classes.len() - 1 {
        assert(grown == init.push(last.push(r)));
        lemma_members_push(init, last.push(r));
        to_multiset_build(last, r);
    } else {
        lemma_members_grow(init, j, r);
        assert(grown == init.update(j, init[j].push(r)).push(last));
        lemma_members_push(init.update(j, init[j].push(r)), last);
    }
}

/// Every record is in exactly one class, or has no digest.
proof fn lemma_classes_cover(records: Seq<FileRecord>)
    ensures
        members_of(all_classes(records)).add(failed_records(records).to_multiset())
            == records.to_multiset(),
    decreases records.len(),
{
    broadcast use group_multiset_axioms;

    if records.len() == 0 {
        records.lemma_filter_len(digest_failed());
        lemma_empty_to_multiset(all_classes(records).flatten());
        lemma_empty_to_multiset(failed_records(records));
        lemma_empty_to_multiset(records);
        assert(members_of(all_classes(records)).add(failed_records(records).to_multiset())
            =~= records.to_multiset());
    } else {
        let before = records.drop_last();
        let r = records.last();
        let order = digests_in_order(before);
        assert(records == before.push(r));
        lemma_classes_cover(before);
        lemma_classes_step(before, r);
        before.lemma_filter_push(r, digest_failed());
        to_multiset_build(before, r);
        match r.digest {
            Err(_) => {
                to_multiset_build(failed_records(before), r);
            },
            Ok(d) => {
                if order.contains(d) {
                    let j = choose|j: int| 0 <= j < order.len() && order[j] == d;
                    lemma_members_grow(all_classes(before), j, r);
                } else {
                    lemma_members_push(all_classes(before), seq![r]);
                    to_multiset_build(Seq::<FileRecord>::empty(), r);
                    lemma_empty_to_multiset(Seq::<FileRecord>::empty());
                }
            },
        }
        assert(members_of(all_classes(records)).add(failed_records(records).to_multiset())
            =~= records.to_multiset());
    }
}

/// The classes of some digests, none of them empty, are those of two records
/// or more and those of one.
proof fn lemma_classes_by_size(records: Seq<FileRecord>, digests: Seq<Seq<u8>>)
    requires
        forall|k: int| 0 <= k < digests.len() ==> class_of(records, #[trigger] digests[k]).len() > 0,
    ensures
        members_of(classes_of(records, digests.filter(at_least(records, 2)))).add(
            members_of(classes_of(records, digests.filter(only_one(records)))),
        ) == members_of(classes_of(records, digests)),
    decreases digests.len(),
{
    broadcast use group_multiset_axioms;

    let twice = at_least(records, 2);
    let once = only_one(records);
    if digests.len() == 0 {
        digests.lemma_filter_len(twice);
        digests.lemma_filter_len(once);
        lemma_empty_to_multiset(Seq::<Seq<FileRecord>>::empty().flatten());
        assert(members_of(classes_of(records, digests.filter(twice))).add(
            members_of(classes_of(records, digests.filter(once))),
        ) =~= members_of(classes_of(records, digests)));
    } else {
        let init = digests.drop_last();
        let d = digests.last();
        let class = class_of(records, d);
        assert(digests == init.push(d));
        assert forall|k: int| 0 <= k < init.len() implies class_of(records, #[trigger] init[k]).len()
            > 0 by {
            assert(init[k] == digests[k]);
        }
        lemma_classes_by_size(records, init);
        init.lemma_filter_push(d, twice);
        init.lemma_filter_push(d, once);
        assert(classes_of(records, digests) =~= classes_of(records, init).push(class));
        lemma_members_push(classes_of(records, init), class);
        if class.len() >= 2 {
            assert(classes_of(records, digests.filter(twice)) =~= classes_of(
                records,
                init.filter(twice),
            ).push(class));
            lemma_members_push(classes_of(records, init.filter(twice)), class);
        } else {
            assert(classes_of(records, digests.filter(once)) =~= classes_of(
                records,
                init.filter(once),
            ).push(class));
            lemma_members_push(classes_of(records, init.filter(once)), class);
        }
        assert(members_of(classes_of(records, digests.filter(twice))).add(
            members_of(classes_of(records, digests.filter(once))),
        ) =~= members_of(classes_of(records, digests)));
    }
}

/// Grouping partitions the input: the members of the duplicate groups, the
/// records that are alone in their class and the records without a digest are,
/// taken together, the records of the input, each exactly as often as it
/// occurs there.
pub proof fn lemma_partition(records: Seq<FileRecord>)
    ensures
        members_of(duplicate_groups(records)).add(members_of(unique_classes(records))).add(
            failed_records(records).to_multiset(),
        ) == records.to_multiset(),
{
    lemma_digests_in_order(records);
    let order = digests_in_order(records);
    assert forall|k: int| 0 <= k < order.len() implies class_of(records, #[trigger] order[k]).len()
        > 0 by {
        assert(order.contains(order[k]));
    }
    lemma_classes_by_size(records, order);
    lemma_classes_cover(records);
}

// ---------------------------------------------------------------------------
// The order of the input
// ---------------------------------------------------------------------------

/// Two inputs that hold the same records, in whatever order, have the same
/// classes up to the order of their members, the same digests with a
/// duplicate group, and the same failed records.
pub proof fn lemma_order_irrelevant(a: Seq<FileRecord>, b: Seq<FileRecord>)
    requires
        a.to_multiset() == b.to_multiset(),
    ensures
        forall|d: Seq<u8>| #[trigger] class_of(a, d).to_multiset() == class_of(b, d).to_multiset(),
        forall|d: Seq<u8>| #[trigger] class_of(a, d).len() == class_of(b, d).len(),
        duplicate_digests(a).to_set() == duplicate_digests(b).to_set(),
        failed_records(a).to_multiset() == failed_records(b).to_multiset(),
{
    assert forall|d: Seq<u8>| #[trigger]
        class_of(a, d).to_multiset() == class_of(b, d).to_multiset() by {
        lemma_filter_to_multiset(a, digest_is(d));
        lemma_filter_to_multiset(b, digest_is(d));
    }
    assert forall|d: Seq<u8>| #[trigger] class_of(a, d).len() == class_of(b, d).len() by {
        to_multiset_len(class_of(a, d));
        to_multiset_len(class_of(b, d));
    }
    lemma_filter_to_multiset(a, digest_failed());
    lemma_filter_to_multiset(b, digest_failed());
    lemma_digests_in_order(a);
    lemma_digests_in_order(b);
    assert forall|d: Seq<u8>|
        duplicate_digests(a).to_set().contains(d) <==> duplicate_digests(b).to_set().contains(
            d,
        ) by {
        lemma_filter_contains_iff(digests_in_order(a), at_least(a, 2), d);
        lemma_filter_contains_iff(digests_in_order(b), at_least(b, 2), d);
    }
}

} // verus!
