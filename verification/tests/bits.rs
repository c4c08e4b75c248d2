use swh_resolver::ntf::common::{NodeBitset, RequestedFid, Status, N_LABELS};
use swh_resolver::ntf::sorted::sort_distinct;

#[test]
fn a_new_bitset_is_empty() {
    let b = NodeBitset::new(130);
    assert_eq!(b.len(), 130);
    assert!(!b.is_empty());
    assert_eq!(b.count_set(), 0);
    for n in 0..192 {
        assert!(!b.is_set(n));
    }
    assert!(NodeBitset::new(0).is_empty());
    assert_eq!(NodeBitset::new(0).count_set(), 0);
}

#[test]
fn the_first_to_set_a_bit_is_told() {
    let mut b = NodeBitset::new(130);
    for n in [0usize, 63, 64, 127, 128, 129] {
        assert!(b.test_and_set(n));
        assert!(!b.test_and_set(n));
        assert!(b.is_set(n));
    }
    assert!(!b.is_set(1));
    assert!(!b.is_set(65));
    assert_eq!(b.count_set(), 6);
    // The last word has bits beyond the number of nodes.
    assert!(b.test_and_set(191));
    assert_eq!(b.count_set(), 7);
    assert_eq!(b.len(), 130);
}

#[test]
fn marks_are_counted_once() {
    let nodes = [5usize, 70, 5, 0, 70, 99, 5];
    let mut b = NodeBitset::new(100);
    let first = nodes.iter().filter(|&&n| b.test_and_set(n)).count();
    assert_eq!(first, 4);
    assert_eq!(b.count_set(), 4);
    assert_eq!((0..100).filter(|&n| b.is_set(n)).count(), 4);
}

#[test]
fn requested_ids() {
    let mut r = RequestedFid::new();
    assert!(!r.get(0));
    r.set(0);
    r.set(64);
    r.set(N_LABELS - 1);
    r.set(N_LABELS - 1);
    assert!(r.get(0));
    assert!(!r.get(1));
    assert!(r.get(64));
    assert!(r.get(N_LABELS - 1));
    assert!(!r.get(N_LABELS));
    assert!(!RequestedFid::default().get(7));
}

#[test]
fn requested_ids_are_counted() {
    let mut r = RequestedFid::new();
    assert_eq!(r.count_set(), 0);
    r.set(3);
    r.set(4_000_000_000);
    assert_eq!(r.count_set(), 2);
}

#[test]
fn statuses() {
    let all = [
        Status::Resolved,
        Status::NotFound,
        Status::Submodule,
        Status::DirTarget,
        Status::BadRev,
        Status::NoRoot,
    ];
    for (i, s) in all.iter().enumerate() {
        assert_eq!(s.as_u8() as usize, i);
        assert_eq!(Status::from_u8(i as u8), *s);
        let word = if i == 0 { "ok" } else { "path_not_found" };
        assert_eq!(s.output_str(), word);
    }
    assert_eq!(Status::from_u8(6), Status::NoRoot);
    assert_eq!(Status::from_u8(255), Status::NoRoot);
}

#[test]
fn nodes_are_sorted_and_kept_once() {
    assert_eq!(sort_distinct(vec![5, 1, 5, 3, 1]), vec![1, 3, 5]);
    assert_eq!(sort_distinct(vec![]), Vec::<usize>::new());
    assert_eq!(sort_distinct(vec![7, 7, 7]), vec![7]);
}
