use vector_clock::{TemporalRelation, VectorClock};

type StrVectorClock = VectorClock<&'static str>;

#[test]
fn test_empty_ordering() {
    let c1 = StrVectorClock::new();
    let c2 = StrVectorClock::new();

    assert_eq!(c1, c2);

    assert!(c1.temporal_relation(&c2) == TemporalRelation::Equal);
    assert!(c2.temporal_relation(&c1) == TemporalRelation::Equal);
}

#[test]
fn test_incremented_ordering() {
    let c1 = StrVectorClock::new();
    let c2 = c1.incremented("A");

    assert!(!(c1 == c2));

    assert!(c1.temporal_relation(&c2) == TemporalRelation::Caused);
    assert!(c2.temporal_relation(&c1) == TemporalRelation::EffectOf);
}

#[test]
fn test_diverged() {
    let base = StrVectorClock::new();
    let c1 = base.incremented("A");
    let c2 = base.incremented("B");

    assert!(!(c1 == c2));

    assert!(c1.temporal_relation(&c2) == TemporalRelation::Concurrent);
    assert!(c2.temporal_relation(&c1) == TemporalRelation::Concurrent);
}

#[test]
fn test_merged() {
    let base = StrVectorClock::new();
    let c1 = base.incremented("A");
    let c2 = base.incremented("B");

    let m = c1.merge_with(&c2);

    assert!(m.temporal_relation(&c1) == TemporalRelation::EffectOf);
    assert!(c1.temporal_relation(&m) == TemporalRelation::Caused);

    assert!(m.temporal_relation(&c2) == TemporalRelation::EffectOf);
    assert!(c2.temporal_relation(&m) == TemporalRelation::Caused);
}

#[test]
fn test_to_vec() {
    let c = StrVectorClock::new();
    let e: Vec<(&'static str, u64)> = vec![];

    assert_eq!(e, c.to_vec());

    let c = c.incremented("A");

    assert_eq!(vec![("A", 1)], c.to_vec());

    let c = c.incremented("B");
    let mut v = c.to_vec();
    v.sort();

    assert_eq!(vec![("A", 1), ("B", 1)], v);
}
