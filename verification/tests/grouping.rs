use dupfind::grouping::{failed_entries, group_by_digest, same_digest, DuplicateGroup, FileEntry};
use dupfind::hashing::HashError;

fn hashed(path: &str, size: u64, digest: &[u8]) -> FileEntry {
    FileEntry { path: path.to_string(), size, digest: Ok(digest.to_vec()) }
}

fn failed(path: &str) -> FileEntry {
    FileEntry { path: path.to_string(), size: 0, digest: Err(HashError::Io) }
}

fn paths(group: &DuplicateGroup) -> Vec<String> {
    group.members.iter().map(|m| m.path.clone()).collect()
}

fn all_paths(groups: &[DuplicateGroup]) -> Vec<Vec<String>> {
    groups.iter().map(paths).collect()
}

#[test]
fn no_records_no_groups() {
    let records: Vec<FileEntry> = Vec::new();
    assert!(group_by_digest(&records).is_empty());
    assert!(failed_entries(&records).is_empty());
}

#[test]
fn a_single_record_is_no_group() {
    let records = vec![hashed("a", 1, &[1, 2, 3])];
    assert!(group_by_digest(&records).is_empty());
}

#[test]
fn two_records_of_one_digest_are_a_group() {
    let records = vec![hashed("a", 1, &[1, 2, 3]), hashed("b", 1, &[1, 2, 3])];
    let groups = group_by_digest(&records);
    assert_eq!(all_paths(&groups), vec![vec!["a".to_string(), "b".to_string()]]);
}

#[test]
fn classes_of_one_record_are_dropped() {
    let records = vec![
        hashed("a", 1, &[1]),
        hashed("b", 1, &[2]),
        hashed("c", 1, &[1]),
        hashed("d", 1, &[3]),
    ];
    let groups = group_by_digest(&records);
    assert_eq!(all_paths(&groups), vec![vec!["a".to_string(), "c".to_string()]]);
}

#[test]
fn groups_come_in_the_order_of_their_first_member() {
    let records = vec![
        hashed("z1", 1, &[9]),
        hashed("y1", 1, &[8]),
        hashed("x1", 1, &[7]),
        hashed("y2", 1, &[8]),
        hashed("x2", 1, &[7]),
        hashed("z2", 1, &[9]),
        hashed("y3", 1, &[8]),
    ];
    let groups = group_by_digest(&records);
    assert_eq!(
        all_paths(&groups),
        vec![
            vec!["z1".to_string(), "z2".to_string()],
            vec!["y1".to_string(), "y2".to_string(), "y3".to_string()],
            vec!["x1".to_string(), "x2".to_string()],
        ]
    );
}

#[test]
fn digests_are_compared_byte_for_byte() {
    let records = vec![
        hashed("a", 1, &[1, 2, 3]),
        hashed("b", 1, &[1, 2, 4]),
        hashed("c", 1, &[1, 2]),
        hashed("d", 1, &[1, 2, 3, 0]),
        hashed("e", 1, &[]),
        hashed("f", 1, &[0, 1, 2, 3]),
    ];
    assert!(group_by_digest(&records).is_empty());
}

#[test]
fn same_digest_compares_length_and_bytes() {
    assert!(same_digest(&vec![], &vec![]));
    assert!(same_digest(&vec![1, 2, 3], &vec![1, 2, 3]));
    assert!(!same_digest(&vec![1, 2, 3], &vec![1, 2]));
    assert!(!same_digest(&vec![1, 2], &vec![1, 2, 3]));
    assert!(!same_digest(&vec![1, 2, 3], &vec![1, 2, 4]));
    assert!(!same_digest(&vec![0, 2, 3], &vec![1, 2, 3]));
}

#[test]
fn failed_records_are_in_no_group() {
    let records = vec![
        failed("broken1"),
        hashed("a", 1, &[1]),
        failed("broken2"),
        hashed("b", 1, &[1]),
        failed("broken3"),
    ];
    let groups = group_by_digest(&records);
    assert_eq!(all_paths(&groups), vec![vec!["a".to_string(), "b".to_string()]]);
    let broken: Vec<&str> = failed_entries(&records).iter().map(|r| r.path.as_str()).collect();
    assert_eq!(broken, vec!["broken1", "broken2", "broken3"]);
}

#[test]
fn failures_do_not_group_with_each_other() {
    let records = vec![failed("x"), failed("y"), failed("z")];
    assert!(group_by_digest(&records).is_empty());
    assert_eq!(failed_entries(&records).len(), 3);
}

#[test]
fn both_kinds_of_failure_are_listed() {
    let records = vec![
        FileEntry { path: "io".to_string(), size: 0, digest: Err(HashError::Io) },
        FileEntry { path: "long".to_string(), size: 0, digest: Err(HashError::TooLong) },
        hashed("fine", 1, &[1]),
    ];
    let broken: Vec<&str> = failed_entries(&records).iter().map(|r| r.path.as_str()).collect();
    assert_eq!(broken, vec!["io", "long"]);
}

#[test]
fn every_record_is_in_exactly_one_part() {
    let records = vec![
        hashed("a1", 1, &[1]),
        failed("f1"),
        hashed("b1", 1, &[2]),
        hashed("a2", 1, &[1]),
        hashed("c1", 1, &[3]),
        hashed("b2", 1, &[2]),
        failed("f2"),
        hashed("a3", 1, &[1]),
        hashed("d1", 1, &[4]),
    ];
    let groups = group_by_digest(&records);
    let broken = failed_entries(&records);
    let mut seen: Vec<String> = Vec::new();
    for group in &groups {
        assert!(group.members.len() >= 2);
        for member in &group.members {
            assert_eq!(member.digest, group.members[0].digest);
            seen.push(member.path.clone());
        }
    }
    for record in &broken {
        assert!(record.digest.is_err());
        seen.push(record.path.clone());
    }
    let alone: Vec<String> = records
        .iter()
        .filter(|r| !seen.contains(&r.path))
        .map(|r| r.path.clone())
        .collect();
    assert_eq!(alone, vec!["c1".to_string(), "d1".to_string()]);
    seen.extend(alone);
    seen.sort();
    let mut expected: Vec<String> = records.iter().map(|r| r.path.clone()).collect();
    expected.sort();
    assert_eq!(seen, expected);
    for i in 0..groups.len() {
        for j in 0..groups.len() {
            if i != j {
                assert_ne!(groups[i].members[0].digest, groups[j].members[0].digest);
            }
        }
    }
}

#[test]
fn records_that_are_equal_in_all_are_both_kept() {
    let records = vec![hashed("same", 1, &[5]), hashed("same", 1, &[5])];
    let groups = group_by_digest(&records);
    assert_eq!(groups.len(), 1);
    assert_eq!(groups[0].members.len(), 2);
}

#[test]
fn size_plays_no_part_in_grouping() {
    let records = vec![hashed("a", 1, &[5]), hashed("b", 2, &[5])];
    let groups = group_by_digest(&records);
    assert_eq!(all_paths(&groups), vec![vec!["a".to_string(), "b".to_string()]]);
    assert_eq!(groups[0].members[0].size, 1);
    assert_eq!(groups[0].members[1].size, 2);
}

#[test]
fn the_order_of_the_input_changes_the_order_only() {
    let forward = vec![
        hashed("a1", 1, &[1]),
        hashed("b1", 1, &[2]),
        failed("f"),
        hashed("a2", 1, &[1]),
        hashed("c", 1, &[3]),
        hashed("b2", 1, &[2]),
    ];
    let mut backward = forward.clone();
    backward.reverse();
    let mut one = all_paths(&group_by_digest(&forward));
    let mut other = all_paths(&group_by_digest(&backward));
    assert_eq!(one, vec![vec!["a1".to_string(), "a2".to_string()], vec!["b1".to_string(), "b2".to_string()]]);
    assert_eq!(other, vec![vec!["b2".to_string(), "b1".to_string()], vec!["a2".to_string(), "a1".to_string()]]);
    for group in one.iter_mut().chain(other.iter_mut()) {
        group.sort();
    }
    one.sort();
    other.sort();
    assert_eq!(one, other);
}

#[test]
fn the_digest_as_text() {
    assert_eq!(hashed("a", 1, &[0xde, 0xad, 0x00, 0x0f]).hex_digest(), Some("dead000f".to_string()));
    assert_eq!(hashed("a", 1, &[]).hex_digest(), Some(String::new()));
    assert_eq!(failed("a").hex_digest(), None);
}

#[test]
fn a_record_is_copied_field_by_field() {
    let record = hashed("a", 3, &[1, 2, 3]);
    assert_eq!(record.clone(), record);
    let broken = failed("b");
    assert_eq!(broken.clone(), broken);
}

#[test]
fn digests_that_start_alike_are_told_apart() {
    let head = [7u8, 7, 7, 7, 7, 7, 7, 7];
    let mut one = head.to_vec();
    one.extend_from_slice(&[1, 2, 3]);
    let mut other = head.to_vec();
    other.extend_from_slice(&[1, 2, 4]);
    let records = vec![
        hashed("a1", 1, &one),
        hashed("b1", 1, &other),
        hashed("c", 1, &head),
        hashed("b2", 1, &other),
        hashed("a2", 1, &one),
        hashed("a3", 1, &one),
    ];
    let groups = group_by_digest(&records);
    assert_eq!(
        all_paths(&groups),
        vec![
            vec!["a1".to_string(), "a2".to_string(), "a3".to_string()],
            vec!["b1".to_string(), "b2".to_string()],
        ]
    );
}

#[test]
fn short_digests_are_grouped_like_any_other() {
    let records = vec![
        hashed("e1", 1, &[]),
        hashed("s1", 1, &[1, 2, 3]),
        hashed("t", 1, &[1, 2, 3, 4]),
        hashed("e2", 1, &[]),
        hashed("s2", 1, &[1, 2, 3]),
    ];
    let groups = group_by_digest(&records);
    assert_eq!(
        all_paths(&groups),
        vec![
            vec!["e1".to_string(), "e2".to_string()],
            vec!["s1".to_string(), "s2".to_string()],
        ]
    );
}

#[test]
fn many_records_of_many_digests() {
    let records: Vec<FileEntry> = (0..60_000u64)
        .map(|i| FileEntry {
            path: format!("f{}", i),
            size: 1,
            digest: Ok(((i % 20_000) * 0x9e37_79b9_7f4a_7c15).to_le_bytes().to_vec()),
        })
        .collect();
    let groups = group_by_digest(&records);
    assert_eq!(groups.len(), 20_000);
    for (k, group) in groups.iter().enumerate() {
        assert_eq!(
            paths(group),
            vec![format!("f{}", k), format!("f{}", k + 20_000), format!("f{}", k + 40_000)]
        );
    }
}
