use ribble_ecs::{conflicts, matches_access, matches_filter, AccessDescriptor, FilterDesc, QueryAccess, QueryBuilder};

const POSITION: u64 = 1;
const VELOCITY: u64 = 2;

#[test]
fn conflict_detection() {
    let read_pos = AccessDescriptor { reads: vec![POSITION], ..Default::default() };
    let write_pos = AccessDescriptor { writes: vec![POSITION], ..Default::default() };
    let write_world = AccessDescriptor { writes_world: true, ..Default::default() };

    assert!(conflicts(&read_pos, &write_pos));
    assert!(!conflicts(&read_pos, &read_pos));
    assert!(conflicts(&read_pos, &write_world));
}

#[test]
fn conflicts_is_symmetric_on_examples() {
    let read_pos = AccessDescriptor { reads: vec![POSITION], ..Default::default() };
    let write_vel = AccessDescriptor { writes: vec![VELOCITY], ..Default::default() };
    let write_pos = AccessDescriptor { writes: vec![POSITION], ..Default::default() };
    assert_eq!(conflicts(&read_pos, &write_pos), conflicts(&write_pos, &read_pos));
    assert!(!conflicts(&read_pos, &write_vel));
    assert!(!conflicts(&write_vel, &read_pos));
    assert!(conflicts(&write_pos, &write_pos));
    let read_world = AccessDescriptor { reads_world: true, ..Default::default() };
    assert!(!conflicts(&read_world, &read_pos));
}

#[test]
fn access_write_replaces_read() {
    let mut access = QueryAccess::new();
    access.read(POSITION);
    access.read(POSITION);
    assert_eq!(access.reads, vec![POSITION]);
    access.write(POSITION);
    assert!(access.reads.is_empty());
    assert_eq!(access.writes, vec![POSITION]);
    access.read(POSITION);
    assert!(access.reads.is_empty());
    assert!(access.can_read(POSITION));
    assert!(access.can_write(POSITION));
    assert!(!access.can_read(VELOCITY));
}

#[test]
fn access_merge_declares_reads_then_writes() {
    let mut a = QueryAccess::new();
    a.read(POSITION);
    let mut b = QueryAccess::new();
    b.read(VELOCITY);
    b.write(POSITION);
    a.merge(&b);
    assert_eq!(a.reads, vec![VELOCITY]);
    assert_eq!(a.writes, vec![POSITION]);
}

#[test]
fn filter_evaluation() {
    let sig = vec![1u64, 3, 5];
    assert!(matches_filter(&sig, &FilterDesc::All));
    assert!(matches_filter(&sig, &FilterDesc::with(3)));
    assert!(!matches_filter(&sig, &FilterDesc::without(3)));
    assert!(matches_filter(&sig, &FilterDesc::and(vec![FilterDesc::With(1), FilterDesc::Without(2)])));
    assert!(!matches_filter(&sig, &FilterDesc::and(vec![FilterDesc::With(1), FilterDesc::With(2)])));
    assert!(matches_filter(&sig, &FilterDesc::or(vec![FilterDesc::With(2), FilterDesc::With(5)])));
    assert!(!matches_filter(&sig, &FilterDesc::or(vec![])));
    assert!(matches_filter(&sig, &FilterDesc::and(vec![])));
    let mut access = QueryAccess::new();
    access.read(1);
    access.write(5);
    assert!(matches_access(&sig, &access));
    access.read(2);
    assert!(!matches_access(&sig, &access));
}

#[test]
fn builder_collects_access() {
    let mut b = QueryBuilder::new();
    b.read(POSITION).write_id(VELOCITY).with(3).without_id(4);
    assert_eq!(b.access().reads, vec![POSITION]);
    assert_eq!(b.access().writes, vec![VELOCITY]);
    let mut nested = QueryBuilder::default();
    nested.read_id(9);
    let mut c = QueryBuilder::new();
    c.optional(nested);
    assert_eq!(c.access().reads, vec![9]);
}

#[test]
fn matching_on_ascending_signature_with_repeats() {
    let sig = vec![1u64, 1, 3, 3, 5];
    let mut access = QueryAccess::new();
    access.read(3);
    access.write(5);
    assert!(matches_access(&sig, &access));
    assert!(matches_access(&sig, &QueryAccess::new()));
    access.read(4);
    assert!(!matches_access(&sig, &access));
    assert!(matches_filter(&sig, &FilterDesc::with(1)));
    assert!(!matches_filter(&sig, &FilterDesc::with(2)));
    assert!(matches_filter(&sig, &FilterDesc::without(4)));
}

#[test]
fn filters_and_builders_clone() {
    let f = FilterDesc::and(vec![FilterDesc::With(1), FilterDesc::or(vec![FilterDesc::Without(2)])]);
    assert_eq!(f.clone(), f);
    assert_eq!(FilterDesc::All.clone(), FilterDesc::All);
    let mut b = QueryBuilder::new();
    b.read(POSITION).with(3);
    let c = b.clone();
    assert_eq!(c.access().reads, vec![POSITION]);
}
