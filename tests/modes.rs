use filesets::aggregate::Entry;
use filesets::report::{report, Mode, Row};
use filesets::rolling::rolling_report;

fn entry(digest: &str, path: &str) -> Entry {
    Entry { digest: digest.to_string(), path: path.to_string() }
}

fn rows(r: &Vec<Row>) -> Vec<(String, String, Option<String>)> {
    r.iter().map(|x| (x.digest.clone(), x.path.clone(), x.target.clone())).collect()
}

fn row(d: &str, p: &str, t: Option<&str>) -> (String, String, Option<String>) {
    (d.to_string(), p.to_string(), t.map(|s| s.to_string()))
}

fn sample() -> Vec<Entry> {
    vec![
        entry("bb", "/z/three"),
        entry("aa", "/only"),
        entry("bb", "/a/one"),
        entry("bb", "/m/two"),
        entry("cc", "/c2"),
        entry("cc", "/c1"),
    ]
}

#[test]
fn uniques_lists_single_path_digests() {
    assert_eq!(rows(&report(Mode::Uniques, &sample())), vec![row("aa", "/only", None)]);
}

#[test]
fn duplicates_lists_every_path_sorted() {
    assert_eq!(
        rows(&report(Mode::Duplicates, &sample())),
        vec![
            row("bb", "/a/one", None),
            row("bb", "/m/two", None),
            row("bb", "/z/three", None),
            row("cc", "/c1", None),
            row("cc", "/c2", None),
        ]
    );
}

#[test]
fn firsts_lists_each_representative() {
    assert_eq!(
        rows(&report(Mode::Firsts, &sample())),
        vec![row("aa", "/only", None), row("bb", "/a/one", None), row("cc", "/c1", None)]
    );
}

#[test]
fn replicas_skip_the_representative() {
    assert_eq!(
        rows(&report(Mode::Replicas, &sample())),
        vec![row("bb", "/m/two", None), row("bb", "/z/three", None), row("cc", "/c2", None)]
    );
}

#[test]
fn plan_maps_to_least_path() {
    assert_eq!(
        rows(&report(Mode::Plan, &sample())),
        vec![
            row("bb", "/m/two", Some("/a/one")),
            row("bb", "/z/three", Some("/a/one")),
            row("cc", "/c2", Some("/c1")),
        ]
    );
}

#[test]
fn uniques_and_duplicates_partition_the_paths() {
    let mut all: Vec<String> = report(Mode::Uniques, &sample()).into_iter().map(|r| r.path).collect();
    all.extend(report(Mode::Duplicates, &sample()).into_iter().map(|r| r.path));
    all.sort();
    let mut expected: Vec<String> = sample().into_iter().map(|e| e.path).collect();
    expected.sort();
    assert_eq!(all, expected);
}

#[test]
fn report_ignores_arrival_order() {
    let mut reversed = sample();
    reversed.reverse();
    for mode in [Mode::Uniques, Mode::Duplicates, Mode::Firsts, Mode::Replicas, Mode::Plan] {
        assert_eq!(rows(&report(mode, &sample())), rows(&report(mode, &reversed)));
    }
}

#[test]
fn empty_entries_give_no_rows() {
    assert!(report(Mode::Firsts, &Vec::new()).is_empty());
    assert!(report(Mode::Plan, &Vec::new()).is_empty());
}

#[test]
fn rolling_scenario_two_roots() {
    let hello = "5d41402abc4b2a76b9719d911017c592";
    let world = "7d793037a0760186574b0282f2f435e7";
    let new = "22af645d1859cb5ca6da0c484f1f37ea";
    let roots = vec![
        vec![entry(hello, "A/f1"), entry(world, "A/f2")],
        vec![entry(hello, "B/f3"), entry(new, "B/f4")],
    ];
    let r = rolling_report(&roots);
    assert_eq!(r.len(), 2);
    assert_eq!(rows(&r[0].uniques), vec![row(hello, "A/f1", None), row(world, "A/f2", None)]);
    assert!(r[0].duplicates.is_empty());
    assert_eq!(rows(&r[1].duplicates), vec![row(hello, "B/f3", Some("A/f1"))]);
    assert_eq!(rows(&r[1].uniques), vec![row(new, "B/f4", None)]);
}

#[test]
fn rolling_representative_is_fixed_at_first_sight() {
    let roots = vec![
        vec![entry("dd", "/r0/z"), entry("dd", "/r0/y")],
        vec![entry("dd", "/r1/a")],
        vec![entry("dd", "/r2/b")],
    ];
    let r = rolling_report(&roots);
    assert_eq!(rows(&r[0].uniques), vec![row("dd", "/r0/y", None), row("dd", "/r0/z", None)]);
    assert_eq!(rows(&r[1].duplicates), vec![row("dd", "/r1/a", Some("/r0/y"))]);
    assert_eq!(rows(&r[2].duplicates), vec![row("dd", "/r2/b", Some("/r0/y"))]);
    assert!(r[2].uniques.is_empty());
}

#[test]
fn rolling_ignores_arrival_order() {
    let roots = vec![
        vec![entry("aa", "/r0/b"), entry("bb", "/r0/c"), entry("aa", "/r0/a")],
        vec![entry("bb", "/r1/x"), entry("cc", "/r1/y"), entry("aa", "/r1/z")],
    ];
    let mut reordered = roots.iter().map(|r| r.iter().map(|e| entry(&e.digest, &e.path)).collect::<Vec<_>>()).collect::<Vec<_>>();
    for r in reordered.iter_mut() {
        r.reverse();
    }
    let a = rolling_report(&roots);
    let b = rolling_report(&reordered);
    for i in 0..2 {
        assert_eq!(rows(&a[i].uniques), rows(&b[i].uniques));
        assert_eq!(rows(&a[i].duplicates), rows(&b[i].duplicates));
    }
    assert_eq!(rows(&a[1].duplicates), vec![row("aa", "/r1/z", Some("/r0/a")), row("bb", "/r1/x", Some("/r0/c"))]);
}

#[test]
fn single_path_is_never_a_duplicate() {
    for mode in [Mode::Duplicates, Mode::Replicas, Mode::Plan] {
        for r in report(mode, &sample()) {
            assert_ne!(r.path, "/only");
            assert_ne!(r.target, Some("/only".to_string()));
        }
    }
}
