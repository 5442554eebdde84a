use std::io::Cursor;
use std::io::Read;
use zipmerge::archive::create_archive;
use zipmerge::archive::list_entries;
use zipmerge::archive::update_archive;
use zipmerge::archive::ArchiveError;

fn names(v: &[&str]) -> Vec<String> {
    v.iter().map(|s| s.to_string()).collect()
}

fn content_of(bytes: &[u8], name: &str) -> Vec<u8> {
    let mut a = zip::ZipArchive::new(Cursor::new(bytes.to_vec())).unwrap();
    let mut f = a.by_name(name).unwrap();
    let mut out = Vec::new();
    f.read_to_end(&mut out).unwrap();
    out
}

fn build(entries: &[(&str, &str)]) -> Vec<u8> {
    let n: Vec<String> = entries.iter().map(|e| e.0.to_string()).collect();
    let c: Vec<Option<Vec<u8>>> = entries.iter().map(|e| Some(e.1.as_bytes().to_vec())).collect();
    create_archive(&n, &c).unwrap()
}

#[test]
fn create_then_list_round_trip() {
    let b = build(&[("a.txt", "alpha"), ("b.txt", "beta"), ("c.txt", "gamma")]);
    assert_eq!(list_entries(b.clone()).unwrap(), names(&["a.txt", "b.txt", "c.txt"]));
    assert_eq!(content_of(&b, "b.txt"), b"beta".to_vec());
}

#[test]
fn create_with_nothing_lists_nothing() {
    let b = create_archive(&Vec::new(), &Vec::new()).unwrap();
    assert_eq!(list_entries(b).unwrap(), Vec::<String>::new());
}

#[test]
fn create_skips_missing_candidate() {
    let n = names(&["here.txt", "gone.txt", "also.txt"]);
    let c = vec![Some(b"1".to_vec()), None, Some(b"3".to_vec())];
    let b = create_archive(&n, &c).unwrap();
    assert_eq!(list_entries(b).unwrap(), names(&["here.txt", "also.txt"]));
}

#[test]
fn create_refuses_duplicate_names() {
    let n = names(&["x.txt", "x.txt"]);
    let c = vec![Some(b"1".to_vec()), Some(b"2".to_vec())];
    assert!(create_archive(&n, &c).is_err());
}

#[test]
fn update_keeps_order_replaces_in_place_and_appends() {
    let orig = build(&[("A", "a0"), ("B", "b0"), ("C", "c0")]);
    let n = names(&["B", "D"]);
    let c = vec![Some(b"b1".to_vec()), Some(b"d1".to_vec())];
    let out = update_archive(&orig, &n, &c).unwrap();
    assert_eq!(list_entries(out.clone()).unwrap(), names(&["A", "B", "C", "D"]));
    assert_eq!(content_of(&out, "A"), b"a0".to_vec());
    assert_eq!(content_of(&out, "B"), b"b1".to_vec());
    assert_eq!(content_of(&out, "C"), b"c0".to_vec());
    assert_eq!(content_of(&out, "D"), b"d1".to_vec());
}

#[test]
fn update_twice_gives_same_entries() {
    let orig = build(&[("A", "a0"), ("B", "b0")]);
    let n = names(&["B", "E", "F"]);
    let c = vec![Some(b"b1".to_vec()), Some(b"e1".to_vec()), Some(b"f1".to_vec())];
    let once = update_archive(&orig, &n, &c).unwrap();
    let twice = update_archive(&once, &n, &c).unwrap();
    assert_eq!(list_entries(once.clone()).unwrap(), names(&["A", "B", "E", "F"]));
    assert_eq!(list_entries(twice.clone()).unwrap(), list_entries(once.clone()).unwrap());
    for name in ["A", "B", "E", "F"] {
        assert_eq!(content_of(&twice, name), content_of(&once, name));
    }
}

#[test]
fn update_with_missing_candidate_fails_and_leaves_original() {
    let orig = build(&[("A", "a0"), ("B", "b0")]);
    let kept = orig.clone();
    let n = names(&["B"]);
    let c: Vec<Option<Vec<u8>>> = vec![None];
    assert_eq!(update_archive(&orig, &n, &c), Err(ArchiveError::CandidateMissing));
    assert_eq!(orig, kept);
    assert_eq!(list_entries(orig).unwrap(), names(&["A", "B"]));
}

#[test]
fn update_of_invalid_archive_fails() {
    let orig = b"this is not an archive".to_vec();
    let n = names(&["A"]);
    let c = vec![Some(b"a".to_vec())];
    assert_eq!(update_archive(&orig, &n, &c), Err(ArchiveError::InvalidArchive));
}

#[test]
fn list_of_invalid_archive_fails() {
    assert_eq!(list_entries(Vec::new()), Err(ArchiveError::InvalidArchive));
}

#[test]
fn update_with_no_candidates_copies_everything() {
    let orig = build(&[("A", "a0"), ("B", "b0")]);
    let out = update_archive(&orig, &Vec::new(), &Vec::new()).unwrap();
    assert_eq!(list_entries(out.clone()).unwrap(), names(&["A", "B"]));
    assert_eq!(content_of(&out, "B"), b"b0".to_vec());
}

#[test]
fn update_skips_missing_new_candidate() {
    let orig = build(&[("A", "a0"), ("B", "b0")]);
    let n = names(&["B", "X", "D"]);
    let c = vec![Some(b"b1".to_vec()), None, Some(b"d1".to_vec())];
    let out = update_archive(&orig, &n, &c).unwrap();
    assert_eq!(list_entries(out.clone()).unwrap(), names(&["A", "B", "D"]));
    assert_eq!(content_of(&out, "B"), b"b1".to_vec());
    assert_eq!(content_of(&out, "D"), b"d1".to_vec());
}

#[test]
fn update_adds_repeated_new_name_once_with_first_content() {
    let orig = build(&[("A", "a0")]);
    let n = names(&["D", "D"]);
    let c = vec![Some(b"first".to_vec()), Some(b"second".to_vec())];
    let out = update_archive(&orig, &n, &c).unwrap();
    assert_eq!(list_entries(out.clone()).unwrap(), names(&["A", "D"]));
    assert_eq!(content_of(&out, "D"), b"first".to_vec());
}

#[test]
fn create_with_only_missing_candidate_gives_empty_archive() {
    let b = create_archive(&names(&["nope.txt"]), &vec![None]).unwrap();
    assert_eq!(list_entries(b).unwrap(), Vec::<String>::new());
}

#[test]
fn create_refuses_overlong_name() {
    let long = "n".repeat(16384);
    let r = create_archive(&vec![long], &vec![Some(b"x".to_vec())]);
    assert_eq!(r, Err(ArchiveError::NameTooLong));
}

#[test]
fn create_accepts_longest_name() {
    let long = "n".repeat(16383);
    let b = create_archive(&vec![long.clone()], &vec![Some(b"x".to_vec())]).unwrap();
    assert_eq!(list_entries(b).unwrap(), vec![long]);
}

#[test]
fn update_refuses_overlong_new_name() {
    let orig = build(&[("A", "a0")]);
    let r = update_archive(&orig, &vec!["m".repeat(20000)], &vec![Some(b"x".to_vec())]);
    assert_eq!(r, Err(ArchiveError::NameTooLong));
}
