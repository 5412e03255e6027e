use revset::positions::{sort_descending, PositionSet};
use revset::{CommitId, Index};
use std::collections::HashSet;

fn id(n: u8) -> CommitId {
    CommitId(vec![n])
}

fn index() -> Index {
    let mut index = Index::new();
    assert_eq!(index.add_commit_data(id(10), false, &vec![]), Some(0));
    assert_eq!(index.add_commit_data(id(11), true, &vec![id(10)]), Some(1));
    assert_eq!(index.add_commit_data(id(12), false, &vec![id(10)]), Some(2));
    assert_eq!(index.add_commit_data(id(13), false, &vec![id(12), id(11)]), Some(3));
    index
}

#[test]
fn commits_are_added_once_and_after_their_parents() {
    let mut index = index();
    assert_eq!(index.add_commit_data(id(11), false, &vec![]), None);
    assert_eq!(index.add_commit_data(id(14), false, &vec![id(99)]), None);
    assert!(index.entry_by_id(&id(14)).is_none());
    assert_eq!(index.add_commit_data(id(14), false, &vec![]), Some(4));
}

#[test]
fn entries() {
    let index = index();
    let entry = index.entry_by_id(&id(13)).unwrap();
    assert_eq!(entry.position(), 3);
    assert_eq!(entry.commit_id(), id(13));
    assert!(!entry.is_pruned());
    assert!(index.entry_by_pos(1).is_pruned());
    let parents: Vec<u32> = entry.parents().iter().map(|parent| parent.position()).collect();
    assert_eq!(parents, vec![2, 1]);
}

#[test]
fn walks() {
    let index = index();
    let mut walk = index.walk_revs(&vec![id(11), id(12), id(11)]);
    let copy = walk.clone();
    assert_eq!(walk.next().map(|entry| entry.position()), Some(2));
    assert_eq!(walk.next().map(|entry| entry.position()), Some(1));
    assert_eq!(walk.next().map(|entry| entry.position()), Some(0));
    assert!(walk.next().is_none());
    assert!(walk.next().is_none());
    let mut again = copy;
    assert_eq!(again.next().map(|entry| entry.position()), Some(2));
}

#[test]
fn heads() {
    let index = index();
    let of = |positions: &[u32]| index.heads(&positions.iter().copied().collect::<HashSet<u32>>());
    assert_eq!(of(&[0, 1, 2, 3]), vec![3]);
    assert_eq!(of(&[0, 1, 2]), vec![2, 1]);
    assert_eq!(of(&[0, 3]), vec![3]);
    assert_eq!(of(&[]), Vec::<u32>::new());
}

#[test]
fn position_sets() {
    let mut set = PositionSet::new();
    for p in [5, 1, 9, 5, 3] {
        set.insert(p);
    }
    assert_eq!(set.pop_max(), Some(9));
    assert_eq!(set.clone().into_descending(), vec![5, 3, 1]);
    assert_eq!(set.pop_max(), Some(5));
    assert_eq!(PositionSet::new().pop_max(), None);
    assert_eq!(sort_descending(&vec![2, 7, 2, 0]), vec![7, 2, 0]);
}
