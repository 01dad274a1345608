use statustracker::category::CategoryMap;
use statustracker::hour::AbsRecord;
use statustracker::tracker::{
    is_listed, range_allowed, same_identity, split_into_categories, uses_reserved_label, Identity,
    NameMapWrapper, MAX_RANGE,
};
use std::collections::HashSet;

fn identity(n: u8) -> Identity {
    let mut id = [0u8; 16];
    id[15] = n;
    id[0] = 0xab;
    id
}

fn roster(entries: &[(&str, &[u8])]) -> CategoryMap<Vec<Identity>> {
    let mut map = CategoryMap::new();
    for (name, members) in entries {
        map.insert(name.to_string(), members.iter().map(|n| identity(*n)).collect::<Vec<_>>());
    }
    map
}

#[test]
fn identities_compare_by_their_bytes() {
    assert!(same_identity(&identity(1), &identity(1)));
    assert!(!same_identity(&identity(1), &identity(2)));
    let mut other = identity(1);
    other[0] = 0;
    assert!(!same_identity(&identity(1), &other));
    assert!(is_listed(&vec![identity(1), identity(2)], &identity(2)));
    assert!(!is_listed(&vec![identity(1), identity(2)], &identity(3)));
    assert!(!is_listed(&vec![], &identity(3)));
}

#[test]
fn registry_numbers_in_order_of_arrival() {
    let mut map = NameMapWrapper::default();
    assert_eq!(map.index_of(&identity(1)), None);
    assert_eq!(map.register(identity(1)), 0);
    assert_eq!(map.register(identity(2)), 1);
    assert_eq!(map.register(identity(1)), 0);
    assert_eq!(map.register(identity(3)), 2);
    assert_eq!(map.data, vec![identity(1), identity(2), identity(3)]);
    assert_eq!(map.index_of(&identity(2)), Some(1));
    assert_eq!(map.index_of(&identity(4)), None);
    assert_eq!(map._id, 0);
}

#[test]
fn registry_finds_the_first_of_two_equal_entries() {
    let map = NameMapWrapper {
        _id: 0,
        data: vec![identity(5), identity(6), identity(5)],
    };
    assert_eq!(map.index_of(&identity(5)), Some(0));
    let mut map = map;
    assert_eq!(map.register(identity(5)), 0);
    assert_eq!(map.data.len(), 3);
}

#[test]
fn poll_is_split_by_the_roster() {
    let roster = roster(&[("staff", &[1, 2, 9]), ("guest", &[3]), ("nobody", &[8])]);
    let ids = vec![(identity(1), 10), (identity(3), 11), (identity(4), 12), (identity(2), 13)];
    let record = split_into_categories(&roster, &ids);
    let mut categories = CategoryMap::new();
    categories.insert("guest".to_string(), HashSet::from([11]));
    categories.insert("staff".to_string(), HashSet::from([10, 13]));
    assert_eq!(
        record,
        AbsRecord {
            all: HashSet::from([10, 11, 12, 13]),
            categories,
        }
    );
    assert!(record.is_valid());
}

#[test]
fn empty_poll_gives_an_empty_snapshot() {
    let roster = roster(&[("staff", &[1])]);
    assert_eq!(split_into_categories(&roster, &vec![]), AbsRecord::default());
    let nobody_listed = split_into_categories(&CategoryMap::new(), &vec![(identity(1), 0)]);
    assert_eq!(nobody_listed.all, HashSet::from([0]));
    assert!(nobody_listed.categories.is_empty());
}

#[test]
fn reserved_label() {
    assert!(uses_reserved_label(&roster(&[("staff", &[1]), ("all", &[2])])));
    assert!(!uses_reserved_label(&roster(&[("staff", &[1]), ("All", &[2])])));
    assert!(!uses_reserved_label(&roster(&[])));
}

#[test]
fn ranges_that_may_be_asked_for() {
    assert_eq!(MAX_RANGE, 2_628_000);
    assert!(range_allowed(0, 0));
    assert!(range_allowed(100, 100 + MAX_RANGE));
    assert!(!range_allowed(100, 101 + MAX_RANGE));
    assert!(!range_allowed(5, 4));
    assert!(!range_allowed(0, u64::MAX));
}
