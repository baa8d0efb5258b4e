use syncprojects_fast::get_difference;
use syncprojects_fast::FingerprintMap;

fn map_of(pairs: &[(&str, &str)]) -> FingerprintMap {
    let mut m = FingerprintMap::new();
    for (k, v) in pairs {
        m.insert(k.to_string(), v.to_string());
    }
    m
}

#[test]
fn test_diff() {
    let old = map_of(&[("test1", "asdf"), ("test2", "asdfyz"), ("test3", "alkwjelj")]);
    let new = map_of(&[
        ("test1", "asdf"),
        ("test2", "faslkjlk4"),
        ("test3", "alkwjelj"),
        ("test4", "asldfasdf"),
    ]);
    let res = get_difference(new, old);
    assert_eq!(2, res.len());
}

#[test]
fn self_diff_is_empty() {
    let a = map_of(&[("x", "d1"), ("y", "d2"), ("z", "d3")]);
    let b = map_of(&[("x", "d1"), ("y", "d2"), ("z", "d3")]);
    let res = get_difference(a, b);
    assert_eq!(0, res.len());
}

#[test]
fn self_diff_of_empty_map_is_empty() {
    let res = get_difference(FingerprintMap::new(), FingerprintMap::new());
    assert_eq!(0, res.len());
}

#[test]
fn added_and_modified_are_reported() {
    let baseline = map_of(&[("x", "d1")]);
    let current = map_of(&[("x", "d2"), ("y", "d3")]);
    let mut res = get_difference(current, baseline);
    res.sort();
    assert_eq!(res, vec!["x".to_string(), "y".to_string()]);
}

#[test]
fn deletions_are_not_reported() {
    let baseline = map_of(&[("gone", "d1"), ("kept", "d2")]);
    let current = map_of(&[("kept", "d2")]);
    let res = get_difference(current, baseline);
    assert_eq!(0, res.len());
}

#[test]
fn unchanged_entries_are_not_reported() {
    let baseline = map_of(&[("a", "d1"), ("b", "d2")]);
    let current = map_of(&[("a", "d1"), ("b", "changed")]);
    let res = get_difference(current, baseline);
    assert_eq!(res, vec!["b".to_string()]);
}

#[test]
fn insert_replaces_existing_entry() {
    let mut m = FingerprintMap::new();
    m.insert("a".to_string(), "d1".to_string());
    m.insert("a".to_string(), "d2".to_string());
    assert_eq!(1, m.len());
    assert_eq!("d2", m.get(&"a".to_string()).unwrap().as_str());
}

#[test]
fn get_on_missing_path_is_none() {
    let m = map_of(&[("a", "d1")]);
    assert!(m.get(&"b".to_string()).is_none());
}
