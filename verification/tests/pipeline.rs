use dupfind::filter::{select_eligible, DirectoryEntry, EligibilityCriteria, Metadata};
use dupfind::grouping::{failed_entries, group_by_digest, FileEntry};
use dupfind::hashing::{calculate_hash, HashAlgo, HashError};
use dupfind::parallel::{make_record, process_all, process_files_parallel};
use regex::Regex;
use std::collections::HashMap;

fn entry(name: &str, size: u64) -> DirectoryEntry {
    DirectoryEntry {
        path: name.to_string(),
        file_name: name.to_string(),
        metadata: Some(Metadata { size, is_file: true }),
    }
}

fn group_paths(records: &[FileEntry]) -> Vec<Vec<String>> {
    group_by_digest(records)
        .iter()
        .map(|g| g.members.iter().map(|m| m.path.clone()).collect())
        .collect()
}

#[test]
fn hello_hello_world() {
    let mut disk: HashMap<String, Vec<u8>> = HashMap::new();
    disk.insert("a.txt".to_string(), b"hello".to_vec());
    disk.insert("b.txt".to_string(), b"hello".to_vec());
    disk.insert("c.txt".to_string(), b"world".to_vec());
    let criteria =
        EligibilityCriteria::new(1, u64::MAX, vec!["txt"], Regex::new(".*").unwrap()).unwrap();
    let found = vec![entry("a.txt", 5), entry("b.txt", 5), entry("c.txt", 5)];
    let eligible = select_eligible(found, &criteria);
    assert_eq!(eligible.len(), 3);
    for algo in [HashAlgo::Blake3, HashAlgo::Sha256, HashAlgo::XxHash] {
        let records = process_all(&eligible, |e: &DirectoryEntry| match disk.get(&e.path) {
            Some(content) => calculate_hash(content, algo),
            None => Err(HashError::Io),
        });
        assert_eq!(group_paths(&records), vec![vec!["a.txt".to_string(), "b.txt".to_string()]]);
        assert!(failed_entries(&records).is_empty());
    }
}

#[test]
fn a_file_that_fails_to_open_is_listed_apart() {
    let mut disk: HashMap<String, Vec<u8>> = HashMap::new();
    disk.insert("a.txt".to_string(), b"hello".to_vec());
    disk.insert("b.txt".to_string(), b"hello".to_vec());
    disk.insert("c.txt".to_string(), b"world".to_vec());
    let entries = vec![
        entry("a.txt", 5),
        entry("locked.txt", 5),
        entry("b.txt", 5),
        entry("c.txt", 5),
    ];
    let records = process_all(&entries, |e: &DirectoryEntry| match disk.get(&e.path) {
        Some(content) => calculate_hash(content, HashAlgo::Blake3),
        None => Err(HashError::Io),
    });
    assert_eq!(records.len(), 4);
    assert_eq!(records[1].path, "locked.txt");
    assert_eq!(records[1].digest, Err(HashError::Io));
    assert_eq!(group_paths(&records), vec![vec!["a.txt".to_string(), "b.txt".to_string()]]);
    let broken: Vec<&str> = failed_entries(&records).iter().map(|r| r.path.as_str()).collect();
    assert_eq!(broken, vec!["locked.txt"]);
}

#[test]
fn three_failures_in_a_thousand_files() {
    let entries: Vec<DirectoryEntry> =
        (0..1000).map(|i| entry(&format!("f{}.txt", i), 1)).collect();
    let records = process_all(&entries, |e: &DirectoryEntry| {
        let number: usize = e.path[1..e.path.len() - 4].parse().unwrap();
        if number == 17 || number == 500 || number == 999 {
            Err(HashError::Io)
        } else {
            calculate_hash(&[(number % 7) as u8], HashAlgo::XxHash)
        }
    });
    assert_eq!(records.len(), 1000);
    let broken: Vec<&str> = failed_entries(&records).iter().map(|r| r.path.as_str()).collect();
    assert_eq!(broken, vec!["f17.txt", "f500.txt", "f999.txt"]);
    let groups = group_by_digest(&records);
    assert_eq!(groups.len(), 7);
    let members: usize = groups.iter().map(|g| g.members.len()).sum();
    assert_eq!(members, 997);
}

#[test]
fn eight_workers_find_what_one_worker_finds() {
    let entries: Vec<DirectoryEntry> =
        (0..10_000).map(|i| entry(&format!("f{}.txt", i), 8)).collect();
    let content_of = |e: &DirectoryEntry| -> Vec<u8> {
        let number: u64 = e.path[1..e.path.len() - 4].parse().unwrap();
        (number % 3000).to_le_bytes().to_vec()
    };
    let run = |workers: usize| -> Vec<FileEntry> {
        let pool = rayon::ThreadPoolBuilder::new().num_threads(workers).build().unwrap();
        pool.install(|| {
            process_all(&entries, |e: &DirectoryEntry| {
                calculate_hash(&content_of(e), HashAlgo::Blake3)
            })
        })
    };
    let by_one = run(1);
    let by_eight = run(8);
    assert_eq!(by_one.len(), 10_000);
    assert_eq!(by_one, by_eight);
    let groups_of_one = group_paths(&by_one);
    let groups_of_eight = group_paths(&by_eight);
    assert_eq!(groups_of_one.len(), 3000);
    assert_eq!(groups_of_one, groups_of_eight);
    assert_eq!(groups_of_one[0], vec!["f0.txt", "f3000.txt", "f6000.txt", "f9000.txt"]);
    assert_eq!(groups_of_one[2999], vec!["f2999.txt", "f5999.txt", "f8999.txt"]);
}

#[test]
fn results_stand_in_the_order_of_the_entries() {
    let entries: Vec<DirectoryEntry> =
        (0..5000u64).map(|i| entry(&format!("{}", i), i)).collect();
    let sizes = process_files_parallel(&entries, |e: &DirectoryEntry| {
        e.metadata.map(|m| m.size * 2).unwrap_or(0)
    });
    let expected: Vec<u64> = (0..5000u64).map(|i| i * 2).collect();
    assert_eq!(sizes, expected);
}

#[test]
fn no_entries_no_records() {
    let entries: Vec<DirectoryEntry> = Vec::new();
    let records = process_all(&entries, |_e: &DirectoryEntry| Err(HashError::Io));
    assert!(records.is_empty());
}

#[test]
fn an_entry_without_metadata_is_not_fingerprinted() {
    let unreadable = DirectoryEntry {
        path: "gone.txt".to_string(),
        file_name: "gone.txt".to_string(),
        metadata: None,
    };
    let entries = vec![entry("a.txt", 3), unreadable];
    let records = process_all(&entries, |e: &DirectoryEntry| {
        assert!(e.metadata.is_some());
        calculate_hash(b"abc", HashAlgo::Sha256)
    });
    assert_eq!(records[0].size, 3);
    assert!(records[0].digest.is_ok());
    assert_eq!(
        records[1],
        FileEntry { path: "gone.txt".to_string(), size: 0, digest: Err(HashError::Io) }
    );
}

#[test]
fn a_record_holds_path_size_and_outcome() {
    let e = DirectoryEntry {
        path: "/data/a.txt".to_string(),
        file_name: "a.txt".to_string(),
        metadata: Some(Metadata { size: 42, is_file: true }),
    };
    assert_eq!(
        make_record(&e, Ok(vec![1, 2, 3])),
        FileEntry { path: "/data/a.txt".to_string(), size: 42, digest: Ok(vec![1, 2, 3]) }
    );
    assert_eq!(
        make_record(&e, Err(HashError::TooLong)),
        FileEntry { path: "/data/a.txt".to_string(), size: 42, digest: Err(HashError::TooLong) }
    );
}

#[test]
fn files_of_no_bytes_are_duplicates_of_each_other() {
    let entries = vec![entry("e1", 0), entry("e2", 0), entry("full", 1)];
    let records = process_all(&entries, |e: &DirectoryEntry| {
        if e.path == "full" {
            calculate_hash(b"x", HashAlgo::Sha256)
        } else {
            calculate_hash(b"", HashAlgo::Sha256)
        }
    });
    assert_eq!(group_paths(&records), vec![vec!["e1".to_string(), "e2".to_string()]]);
}
