use sudoku::bitset::{BitSet, Iter};

fn members(set: &BitSet<u64>) -> Vec<usize> {
    let mut it: Iter<u64> = set.iter();
    let mut out = Vec::new();
    while let Some(v) = it.next() {
        out.push(v);
    }
    out
}

#[test]
fn new_set_is_empty() {
    let s = BitSet::<u64>::new();
    assert_eq!(s.count(), 0);
    assert!(s.is_empty());
    assert!(!s.contains(0));
    assert!(members(&s).is_empty());
}

#[test]
fn full_holds_one_to_bound() {
    let s = BitSet::<u64>::full(9);
    assert_eq!(s.count(), 9);
    assert_eq!(members(&s), vec![1, 2, 3, 4, 5, 6, 7, 8, 9]);
    assert!(!s.contains(0));
    assert!(!s.contains(10));
    assert!(!s.is_empty());
}

#[test]
fn contains_beyond_capacity_is_false() {
    let s = BitSet::<u64>::full(63);
    assert!(s.contains(63));
    assert!(!s.contains(64));
    assert!(!s.contains(1000));
}

#[test]
fn insert_twice_is_insert_once() {
    let mut once = BitSet::<u64>::new();
    once.insert(4);
    let mut twice = once;
    twice.insert(4);
    assert_eq!(once, twice);
    assert_eq!(twice.count(), 1);
}

#[test]
fn remove_twice_is_remove_once() {
    let mut once = BitSet::<u64>::full(9);
    once.remove(4);
    let mut twice = once;
    twice.remove(4);
    assert_eq!(once, twice);
    assert_eq!(twice.count(), 8);
    assert!(!twice.contains(4));
}

#[test]
fn remove_absent_changes_nothing() {
    let mut s = BitSet::<u64>::new();
    s.insert(3);
    let before = s;
    s.remove(7);
    assert_eq!(s, before);
}

#[test]
fn iterates_members_in_ascending_order() {
    let mut s = BitSet::<u64>::new();
    s.insert(9);
    s.insert(2);
    s.insert(5);
    assert_eq!(members(&s), vec![2, 5, 9]);
    // each call starts afresh
    assert_eq!(members(&s), vec![2, 5, 9]);
}

#[test]
fn iteration_ends_and_stays_ended() {
    let mut s = BitSet::<u64>::new();
    s.insert(0);
    s.insert(63);
    let mut it = s.iter();
    assert_eq!(it.next(), Some(0));
    assert_eq!(it.next(), Some(63));
    assert_eq!(it.next(), None);
    assert_eq!(it.next(), None);
}

#[test]
fn intersection_keeps_common_members() {
    let mut a = BitSet::<u64>::new();
    let mut b = BitSet::<u64>::new();
    for v in [1, 3, 5, 7] {
        a.insert(v);
    }
    for v in [3, 4, 5, 6] {
        b.insert(v);
    }
    let c = a.intersection(b);
    assert_eq!(members(&c), vec![3, 5]);
    assert_eq!(c.count(), 2);
    assert!(a.intersection(BitSet::new()).is_empty());
}

fn text(set: &BitSet<u64>) -> String {
    set.to_text().into_iter().collect()
}

#[test]
fn text_lists_members_ascending() {
    let mut s = BitSet::<u64>::new();
    assert_eq!(text(&s), "{}");
    s.insert(9);
    s.insert(2);
    s.insert(5);
    assert_eq!(text(&s), "{2,5,9}");
    s.insert(0);
    s.insert(63);
    s.insert(10);
    assert_eq!(text(&s), "{0,2,5,9,10,63}");
}

#[test]
fn usize_storage_behaves_the_same() {
    let mut s = BitSet::<usize>::full(9);
    assert_eq!(s.count(), 9);
    s.remove(3);
    s.remove(3);
    s.insert(12);
    s.insert(12);
    assert_eq!(s.count(), 9);
    assert!(!s.contains(3));
    assert!(s.contains(12));
    assert!(!s.contains(usize::BITS as usize));
    let t: String = s.to_text().into_iter().collect();
    assert_eq!(t, "{1,2,4,5,6,7,8,9,12}");
    let mut it = s.iter();
    assert_eq!(it.next(), Some(1));
    assert_eq!(it.next(), Some(2));
    assert_eq!(it.next(), Some(4));
    assert!(BitSet::<usize>::new().is_empty());
}
