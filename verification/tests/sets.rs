use lexdfa::sparse_set::SparseSet;
use lexdfa::vec_set::VecSet;

fn members(set: &SparseSet) -> Vec<usize> {
    let mut iter = set.iter();
    let mut members = Vec::new();
    while let Some(member) = iter.next() {
        members.push(member);
    }
    members
}

fn collected(set: &VecSet<usize>) -> Vec<usize> {
    let mut iter = set.iter();
    let mut members = Vec::new();
    while let Some(member) = iter.next() {
        members.push(*member);
    }
    members
}

#[test]
fn sparse_set_starts_empty() {
    let set = SparseSet::new(8);
    assert!(set.is_empty());
    assert_eq!(set.len(), 0);
    for value in 0..8 {
        assert!(!set.contains(value));
    }
}

#[test]
fn sparse_set_keeps_insertion_order() {
    let mut set = SparseSet::new(8);
    assert!(set.insert(5));
    assert!(set.insert(0));
    assert!(set.insert(7));
    assert_eq!(members(&set), vec![5, 0, 7]);
    assert_eq!(set.len(), 3);
    assert!(!set.is_empty());
    assert!(set.contains(0) && set.contains(5) && set.contains(7));
    assert!(!set.contains(1) && !set.contains(6));
}

#[test]
fn sparse_set_refuses_duplicates() {
    let mut set = SparseSet::new(4);
    assert!(set.insert(2));
    assert!(!set.insert(2));
    assert_eq!(members(&set), vec![2]);
}

#[test]
fn sparse_set_clear_forgets_members() {
    let mut set = SparseSet::new(4);
    set.insert(1);
    set.insert(3);
    set.clear();
    assert!(set.is_empty());
    assert!(!set.contains(1) && !set.contains(3));
    assert!(set.insert(3));
    assert!(set.insert(0));
    assert_eq!(members(&set), vec![3, 0]);
    assert!(!set.contains(1));
}

#[test]
fn sparse_set_can_be_filled() {
    let mut set = SparseSet::new(3);
    assert!(set.insert(2));
    assert!(set.insert(1));
    assert!(set.insert(0));
    assert_eq!(set.len(), 3);
    assert!(!set.insert(1));
}

#[test]
fn vec_set_holds_its_vector() {
    let set = VecSet::from_vec_unchecked(vec![1, 4, 9]);
    assert_eq!(set.len(), 3);
    assert!(!set.is_empty());
    assert_eq!(set.get(1), 4);
    assert_eq!(collected(&set), vec![1, 4, 9]);
    assert_eq!(set.into_vec(), vec![1, 4, 9]);
    assert!(VecSet::<usize>::new().is_empty());
    let words = VecSet::<&str>::new();
    assert_eq!(words.len(), 0);
    assert!(words.iter().next().is_none());
}

#[test]
fn vec_set_difference() {
    let a = VecSet::from_vec_unchecked(vec![1, 2, 3, 5, 8]);
    let b = VecSet::from_vec_unchecked(vec![0, 2, 4, 5, 9]);
    let mut out = VecSet::from_vec_unchecked(vec![7]);
    a.difference(&b).into_vec_set(&mut out);
    assert_eq!(out.into_vec(), vec![1, 3, 8]);
    let mut reverse = VecSet::new();
    b.difference(&a).into_vec_set(&mut reverse);
    assert_eq!(reverse.into_vec(), vec![0, 4, 9]);
}

#[test]
fn vec_set_difference_goes_on_after_a_shared_member() {
    let a = VecSet::from_vec_unchecked(vec![1, 2, 3]);
    let b = VecSet::from_vec_unchecked(vec![1]);
    let mut difference = a.difference(&b);
    assert_eq!(difference.next(), Some(&2));
    assert_eq!(difference.next(), Some(&3));
    assert_eq!(difference.next(), None);
    assert_eq!(difference.next(), None);
}

#[test]
fn vec_set_intersection() {
    let a = VecSet::from_vec_unchecked(vec![1, 2, 3, 5, 8]);
    let b = VecSet::from_vec_unchecked(vec![0, 2, 4, 5, 9]);
    let mut out = VecSet::new();
    a.intersection(&b).into_vec_set(&mut out);
    assert_eq!(out.into_vec(), vec![2, 5]);
    let mut intersection = b.intersection(&a);
    assert_eq!(intersection.next(), Some(&2));
    assert_eq!(intersection.next(), Some(&5));
    assert_eq!(intersection.next(), None);
}

#[test]
fn vec_set_with_the_empty_set() {
    let a = VecSet::from_vec_unchecked(vec![3, 6]);
    let empty = VecSet::new();
    let mut out = VecSet::new();
    a.difference(&empty).into_vec_set(&mut out);
    assert_eq!(collected(&out), vec![3, 6]);
    a.intersection(&empty).into_vec_set(&mut out);
    assert!(out.is_empty());
    empty.difference(&a).into_vec_set(&mut out);
    assert!(out.is_empty());
    a.difference(&a).into_vec_set(&mut out);
    assert!(out.is_empty());
    a.intersection(&a).into_vec_set(&mut out);
    assert_eq!(collected(&out), vec![3, 6]);
}
