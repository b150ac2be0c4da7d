use filesets::aggregate::{fold_root, Entry, Hashed, Message, ProtocolError};
use filesets::guard::Guard;
use filesets::report::{combine, groups};

fn res(root: usize, digest: &str, path: &str) -> Message {
    Message { root, hashed: Hashed::Res(digest.to_string(), path.to_string()) }
}

fn fold_all(batches: Vec<Vec<Message>>) -> Vec<Vec<Entry>> {
    let mut guard = Guard::new();
    let mut roots = Vec::new();
    for (i, msgs) in batches.iter().enumerate() {
        let scan = match fold_root(&mut guard, i, msgs.len(), msgs) {
            Ok(scan) => scan,
            Err(_) => panic!("protocol breach"),
        };
        roots.push(scan.entries);
    }
    roots
}

fn table(roots: &Vec<Vec<Entry>>) -> Vec<(String, Vec<String>)> {
    groups(&combine(roots)).into_iter().map(|g| (g.digest, g.paths)).collect()
}

fn find(t: &Vec<(String, Vec<String>)>, digest: &str) -> Vec<String> {
    t.iter().find(|(d, _)| d == digest).map(|(_, p)| p.clone()).unwrap()
}

#[test]
fn it_should_find_individual_files() {
    let roots = fold_all(vec![vec![
        res(0, "8d4dd6ee05b14bed218bdd8e4e89f648", "examples/1/unique-1"),
        res(0, "0bc0878606ed744ae45696e6faad0c03", "examples/1/duplicated2"),
    ]]);
    let expected = vec![
        ("0bc0878606ed744ae45696e6faad0c03".to_string(), vec!["examples/1/duplicated2".to_string()]),
        ("8d4dd6ee05b14bed218bdd8e4e89f648".to_string(), vec!["examples/1/unique-1".to_string()]),
    ];
    assert_eq!(table(&roots), expected);
}

#[test]
fn it_should_find_duplicate_files() {
    let roots = fold_all(vec![
        vec![
            res(0, "8d4dd6ee05b14bed218bdd8e4e89f648", "examples/1/unique-1"),
            res(0, "0bc0878606ed744ae45696e6faad0c03", "examples/1/duplicated2"),
        ],
        vec![res(1, "0bc0878606ed744ae45696e6faad0c03", "examples/3/duplicated2")],
    ]);
    assert_eq!(
        find(&table(&roots), "0bc0878606ed744ae45696e6faad0c03"),
        vec!["examples/1/duplicated2".to_string(), "examples/3/duplicated2".to_string()]
    );
}

#[test]
fn it_should_dedup_same_relative_file() {
    // "examples/../examples/1" resolves to the same canonical paths as "examples/1".
    let roots = fold_all(vec![
        vec![
            res(0, "8d4dd6ee05b14bed218bdd8e4e89f648", "examples/1/unique-1"),
            res(0, "0bc0878606ed744ae45696e6faad0c03", "examples/1/duplicated2"),
        ],
        vec![
            res(1, "8d4dd6ee05b14bed218bdd8e4e89f648", "examples/1/unique-1"),
            res(1, "0bc0878606ed744ae45696e6faad0c03", "examples/1/duplicated2"),
        ],
    ]);
    assert_eq!(
        find(&table(&roots), "0bc0878606ed744ae45696e6faad0c03"),
        vec!["examples/1/duplicated2".to_string()]
    );
    assert!(roots[1].is_empty());
}

#[test]
fn canonical_dedup_within_one_root() {
    // dir/a.txt and dir/../dir/a.txt share one canonical path.
    let roots = fold_all(vec![vec![
        res(0, "5d41402abc4b2a76b9719d911017c592", "/r/dir/a.txt"),
        res(0, "5d41402abc4b2a76b9719d911017c592", "/r/dir/a.txt"),
    ]]);
    let t = table(&roots);
    assert_eq!(t.len(), 1);
    assert_eq!(find(&t, "5d41402abc4b2a76b9719d911017c592"), vec!["/r/dir/a.txt".to_string()]);
}

#[test]
fn count_mismatch_is_refused_and_records_nothing() {
    let mut guard = Guard::new();
    let msgs = vec![res(0, "aa", "/x")];
    match fold_root(&mut guard, 0, 2, &msgs) {
        Err(ProtocolError::CountMismatch { expected, received }) => {
            assert_eq!(expected, 2);
            assert_eq!(received, 1);
        }
        _ => panic!("expected a count mismatch"),
    }
    assert!(!guard.contains(&"/x".to_string()));
}

#[test]
fn foreign_root_is_refused() {
    let mut guard = Guard::new();
    let msgs = vec![res(0, "aa", "/x"), res(1, "bb", "/y"), res(2, "cc", "/z")];
    match fold_root(&mut guard, 0, 3, &msgs) {
        Err(ProtocolError::ForeignRoot { index, found }) => {
            assert_eq!(index, 1);
            assert_eq!(found, 1);
        }
        _ => panic!("expected a foreign root"),
    }
    assert!(!guard.contains(&"/x".to_string()));
}

#[test]
fn failures_are_counted_and_skipped() {
    let mut guard = Guard::new();
    let msgs = vec![
        Message { root: 0, hashed: Hashed::Failed },
        res(0, "aa", "/x"),
        Message { root: 0, hashed: Hashed::Failed },
    ];
    let scan = match fold_root(&mut guard, 0, 3, &msgs) {
        Ok(scan) => scan,
        Err(_) => panic!("protocol breach"),
    };
    assert_eq!(scan.failures, 2);
    assert_eq!(scan.entries.len(), 1);
    assert_eq!(scan.entries[0].path, "/x");
    assert!(guard.contains(&"/x".to_string()));
}

#[test]
fn guard_records_each_path_once() {
    let mut guard = Guard::new();
    assert!(guard.record(&"/a".to_string()));
    assert!(!guard.record(&"/a".to_string()));
    assert!(guard.record(&"/b".to_string()));
    assert!(guard.contains(&"/a".to_string()));
    assert!(!guard.contains(&"/c".to_string()));
}

#[test]
fn empty_run_has_no_groups() {
    let roots = fold_all(vec![vec![]]);
    assert!(table(&roots).is_empty());
}
