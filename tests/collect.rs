use dirfiles::filter::{extension_allowed, path_passes, select_files};
use dirfiles::walk::{CollectError, Entry, EntryKind, Walk};

fn entry(path: &str, kind: EntryKind) -> Entry {
    Entry { path: String::from(path), kind }
}

fn strings(v: &[&str]) -> Vec<String> {
    v.iter().map(|s| String::from(*s)).collect()
}

/// Runs a walk from `root`, answering each directory it asks for from `tree`.
fn run(
    root: &str,
    kind: EntryKind,
    tree: &[(&str, Vec<Entry>)],
    filter: Option<Vec<String>>,
) -> Result<Vec<String>, CollectError> {
    let mut walk = Walk::start(String::from(root), kind)?;
    while let Some(dir) = walk.next_dir() {
        let listing = tree
            .iter()
            .find(|(d, _)| *d == dir)
            .map(|(_, es)| es.iter().map(|e| entry(&e.path, e.kind)).collect::<Vec<Entry>>())
            .unwrap_or_default();
        walk.record_listing(&listing);
    }
    walk.finish(&filter)
}

fn data_dir(root: &str) -> Vec<(&str, Vec<Entry>)> {
    vec![(
        root,
        vec![
            entry("data/file2.txt", EntryKind::File),
            entry("data/file1.fasta", EntryKind::File),
            entry("data/file2.fna", EntryKind::File),
            entry("data/file1.txt", EntryKind::File),
        ],
    )]
}

fn sorted(mut v: Vec<String>) -> Vec<String> {
    v.sort();
    v
}

#[test]
fn all_files() {
    let fs = run("data/", EntryKind::Dir, &data_dir("data/"), None).unwrap();
    assert_eq!(
        sorted(fs),
        strings(&["data/file1.fasta", "data/file1.txt", "data/file2.fna", "data/file2.txt"])
    );
}

#[test]
fn no_files() {
    let fs = run("", EntryKind::Other, &[], None);
    assert!(fs.is_err());
    assert_eq!(fs, Err(CollectError::NotFound));
}

#[test]
fn only_txt() {
    let fs = run("data", EntryKind::Dir, &data_dir("data"), Some(strings(&["txt"]))).unwrap();
    assert_eq!(sorted(fs), strings(&["data/file1.txt", "data/file2.txt"]));
}

#[test]
fn regular_file_is_its_own_result() {
    let fs = run("notes/readme.md", EntryKind::File, &[], None);
    assert_eq!(fs, Ok(strings(&["notes/readme.md"])));
}

#[test]
fn regular_file_is_filtered_too() {
    let kept = run("notes/readme.md", EntryKind::File, &[], Some(strings(&["md"])));
    assert_eq!(kept, Ok(strings(&["notes/readme.md"])));
    let dropped = run("notes/readme.md", EntryKind::File, &[], Some(strings(&["txt"])));
    assert_eq!(dropped, Err(CollectError::EmptyResult));
}

#[test]
fn nested_directories_are_walked() {
    let tree = vec![
        (
            "d",
            vec![
                entry("d/a.txt", EntryKind::File),
                entry("d/sub", EntryKind::Dir),
                entry("d/sock", EntryKind::Other),
                entry("d/other", EntryKind::Dir),
            ],
        ),
        ("d/sub", vec![entry("d/sub/b.rs", EntryKind::File), entry("d/sub/deeper", EntryKind::Dir)]),
        ("d/sub/deeper", vec![entry("d/sub/deeper/c.txt", EntryKind::File)]),
        ("d/other", vec![]),
    ];
    let fs = run("d", EntryKind::Dir, &tree, None).unwrap();
    assert_eq!(sorted(fs), strings(&["d/a.txt", "d/sub/b.rs", "d/sub/deeper/c.txt"]));
    let txt = run("d", EntryKind::Dir, &tree, Some(strings(&["txt"]))).unwrap();
    assert_eq!(sorted(txt), strings(&["d/a.txt", "d/sub/deeper/c.txt"]));
}

#[test]
fn walk_order_is_last_found_first() {
    let mut walk = Walk::start(String::from("r"), EntryKind::Dir).unwrap();
    assert_eq!(walk.next_dir(), Some(String::from("r")));
    assert_eq!(walk.next_dir(), None);
    walk.record_listing(&vec![
        entry("r/x", EntryKind::Dir),
        entry("r/f.txt", EntryKind::File),
        entry("r/y", EntryKind::Dir),
    ]);
    assert_eq!(walk.next_dir(), Some(String::from("r/y")));
    assert_eq!(walk.next_dir(), Some(String::from("r/x")));
    assert_eq!(walk.next_dir(), None);
    assert_eq!(walk.finish(&None), Ok(strings(&["r/f.txt"])));
}

#[test]
fn empty_directory_is_an_error() {
    let fs = run("empty", EntryKind::Dir, &[("empty", vec![])], None);
    assert_eq!(fs, Err(CollectError::EmptyResult));
}

#[test]
fn directories_only_is_an_error() {
    let tree = vec![("top", vec![entry("top/inner", EntryKind::Dir)]), ("top/inner", vec![])];
    assert_eq!(run("top", EntryKind::Dir, &tree, None), Err(CollectError::EmptyResult));
}

#[test]
fn filter_matching_nothing_is_an_error() {
    let fs = run("data", EntryKind::Dir, &data_dir("data"), Some(strings(&["csv", "fa"])));
    assert_eq!(fs, Err(CollectError::EmptyResult));
}

#[test]
fn empty_filter_keeps_nothing() {
    let fs = run("data", EntryKind::Dir, &data_dir("data"), Some(vec![]));
    assert_eq!(fs, Err(CollectError::EmptyResult));
}

#[test]
fn filtered_result_is_within_unfiltered() {
    let all = run("data", EntryKind::Dir, &data_dir("data"), None).unwrap();
    let some = run("data", EntryKind::Dir, &data_dir("data"), Some(strings(&["fna", "fasta"]))).unwrap();
    assert_eq!(sorted(some.clone()), strings(&["data/file1.fasta", "data/file2.fna"]));
    assert!(some.iter().all(|p| all.contains(p)));
}

#[test]
fn same_tree_gives_same_files() {
    let first = run("data", EntryKind::Dir, &data_dir("data"), None).unwrap();
    let second = run("data", EntryKind::Dir, &data_dir("data"), None).unwrap();
    assert_eq!(first, second);
    let reordered = vec![(
        "data",
        vec![
            entry("data/file1.txt", EntryKind::File),
            entry("data/file2.fna", EntryKind::File),
            entry("data/file1.fasta", EntryKind::File),
            entry("data/file2.txt", EntryKind::File),
        ],
    )];
    let third = run("data", EntryKind::Dir, &reordered, None).unwrap();
    assert_eq!(sorted(first), sorted(third));
}

#[test]
fn filter_keeps_found_order() {
    let files = strings(&["b.txt", "a.rs", "c.txt", "a.txt"]);
    assert_eq!(select_files(&files, &Some(strings(&["txt"]))), strings(&["b.txt", "c.txt", "a.txt"]));
    assert_eq!(select_files(&files, &None), files);
}

#[test]
fn extension_is_compared_verbatim() {
    let txt = Some(strings(&["txt"]));
    assert!(path_passes(&String::from("data/file1.txt"), &txt));
    assert!(!path_passes(&String::from("data/file1.TXT"), &txt));
    assert!(!path_passes(&String::from("data/file1.txt"), &Some(strings(&["data/file1.txt"]))));
    assert!(!path_passes(&String::from("data/file1.txt"), &Some(strings(&[".txt"]))));
    assert!(path_passes(&String::from("archive.tar.gz"), &Some(strings(&["gz"]))));
    assert!(!path_passes(&String::from("archive.tar.gz"), &Some(strings(&["tar.gz"]))));
}

#[test]
fn files_without_extension_never_pass_a_filter() {
    let any = Some(strings(&["", "bashrc", "Makefile"]));
    assert!(!path_passes(&String::from("src/Makefile"), &any));
    assert!(!path_passes(&String::from("home/.bashrc"), &any));
    assert!(path_passes(&String::from("src/Makefile"), &None));
}

#[test]
fn extension_lookup() {
    let allowed = strings(&["fasta", "fna"]);
    assert!(extension_allowed(&Some(String::from("fna")), &allowed));
    assert!(!extension_allowed(&Some(String::from("fa")), &allowed));
    assert!(!extension_allowed(&None, &allowed));
    assert!(!extension_allowed(&Some(String::from("fna")), &vec![]));
}
