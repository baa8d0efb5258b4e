use syncprojects_fast::digest_string;
use syncprojects_fast::engine::fingerprint_entry;
use syncprojects_fast::fingerprint_files;
use syncprojects_fast::hasher::hex_encode;
use syncprojects_fast::paths::is_excluded;
use syncprojects_fast::paths::relative_path;
use syncprojects_fast::Aggregator;
use syncprojects_fast::PendingQueue;
use syncprojects_fast::WorkMessage;

fn file(path: &str, content: &str) -> (String, Vec<u8>) {
    (path.to_string(), content.as_bytes().to_vec())
}

#[test]
fn digest_of_known_content() {
    let d = digest_string(&"hi".as_bytes().to_vec());
    assert_eq!("49f68a5c8493ec2c0bf489821c21fc3b", d.as_str());
}

#[test]
fn digest_is_deterministic_and_fixed_length() {
    let a = digest_string(&"some file body".as_bytes().to_vec());
    let b = digest_string(&"some file body".as_bytes().to_vec());
    assert_eq!(a, b);
    assert_eq!(32, a.len());
    let empty = digest_string(&Vec::new());
    assert_eq!(32, empty.len());
    assert_eq!("d41d8cd98f00b204e9800998ecf8427e", empty.as_str());
}

#[test]
fn hex_encode_known_bytes() {
    assert_eq!("00ff1a", hex_encode(&vec![0x00u8, 0xff, 0x1a]).as_str());
}

#[test]
fn exclusion_pattern() {
    assert!(is_excluded("track.peak"));
    assert!(is_excluded(".peak"));
    assert!(!is_excluded("peak"));
    assert!(!is_excluded("track.peaks"));
    assert!(!is_excluded("track.wav"));
}

#[test]
fn relative_paths_are_normalized() {
    let r = relative_path("/root/sub/a.txt", "/root").unwrap();
    assert_eq!("sub/a.txt", r.as_str());
    let w = relative_path("C:\\root\\dir\\file.txt", "C:\\root").unwrap();
    assert_eq!("dir/file.txt", w.as_str());
    assert!(!w.contains('\\'));
    assert!(relative_path("/elsewhere/a.txt", "/root").is_none());
}

#[test]
fn fingerprint_entry_hashes_and_normalizes() {
    let (rel, digest) = fingerprint_entry("/r", "/r/a.txt", &"hi".as_bytes().to_vec()).unwrap();
    assert_eq!("a.txt", rel.as_str());
    assert_eq!("49f68a5c8493ec2c0bf489821c21fc3b", digest.as_str());
    assert!(fingerprint_entry("/r", "/r/c.peak", &Vec::new()).is_none());
    assert!(fingerprint_entry("/r", "/other/a.txt", &Vec::new()).is_none());
}

#[test]
fn walk_of_example_tree() {
    let files = vec![
        file("/r/a.txt", "hi"),
        file("/r/b.txt", "hi"),
        file("/r/c.peak", "ignored-pattern"),
    ];
    let m = fingerprint_files("/r", &files);
    assert_eq!(2, m.len());
    let da = m.get(&"a.txt".to_string()).unwrap().clone();
    let db = m.get(&"b.txt".to_string()).unwrap().clone();
    assert_eq!(da, db);
    assert_eq!("49f68a5c8493ec2c0bf489821c21fc3b", da.as_str());
    assert!(m.get(&"c.peak".to_string()).is_none());
}

#[test]
fn walk_counts_every_regular_file() {
    let files = vec![
        file("/r/a.txt", "one"),
        file("/r/b.txt", "two"),
        file("/r/sub/c.txt", "three"),
        file("/r/sub/d.txt", "four"),
    ];
    let m = fingerprint_files("/r", &files);
    assert_eq!(4, m.len());
}

#[test]
fn pairs_enumerate_the_map() {
    let files = vec![file("/r/a.txt", "one"), file("/r/b.txt", "two")];
    let m = fingerprint_files("/r", &files);
    let mut keys: Vec<String> = m.pairs().iter().map(|e| e.0.clone()).collect();
    keys.sort();
    assert_eq!(keys, vec!["a.txt".to_string(), "b.txt".to_string()]);
}

#[test]
fn pending_queue_pops_each_path_once() {
    let mut q = PendingQueue::new(vec!["/r/a".to_string(), "/r/b".to_string()]);
    assert_eq!(2, q.len());
    assert_eq!("/r/b", q.pop().unwrap().as_str());
    assert_eq!("/r/a", q.pop().unwrap().as_str());
    assert!(q.pop().is_none());
    assert_eq!(0, q.len());
}

#[test]
fn aggregator_completes_after_pool_size_done_signals() {
    let mut agg = Aggregator::new(2);
    assert!(!agg.is_complete());
    agg.receive(WorkMessage::Item("a.txt".to_string(), "d1".to_string()));
    agg.receive(WorkMessage::Done);
    assert!(!agg.is_complete());
    agg.receive(WorkMessage::Item("b.txt".to_string(), "d2".to_string()));
    agg.receive(WorkMessage::Done);
    assert!(agg.is_complete());
    let m = agg.into_map();
    assert_eq!(2, m.len());
    assert_eq!("d1", m.get(&"a.txt".to_string()).unwrap().as_str());
    assert_eq!("d2", m.get(&"b.txt".to_string()).unwrap().as_str());
}

#[test]
fn aggregation_is_order_independent() {
    let items = [("a.txt", "d1"), ("b.txt", "d2"), ("c.txt", "d3")];
    let mut forward = Aggregator::new(1);
    for (p, d) in items {
        forward.receive(WorkMessage::Item(p.to_string(), d.to_string()));
    }
    forward.receive(WorkMessage::Done);
    let m1 = forward.into_map();

    let mut backward = Aggregator::new(1);
    for (p, d) in items.iter().rev() {
        backward.receive(WorkMessage::Item(p.to_string(), d.to_string()));
    }
    backward.receive(WorkMessage::Done);
    let m2 = backward.into_map();

    assert_eq!(m1.len(), m2.len());
    for (p, _) in items {
        assert_eq!(m1.get(&p.to_string()).unwrap(), m2.get(&p.to_string()).unwrap());
    }
}
