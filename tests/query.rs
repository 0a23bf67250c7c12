use std::collections::HashMap;

use secs::{Access, Entity, JoinCursor, Probe, QueryError, QueryPlan, Request, SparseSet};

fn req(store: Option<usize>, access: Access, optional: bool) -> Request {
    Request { store, access, optional }
}

/// Runs a join over `driver`, probing `probes`, skipping `dead`.
fn join(
    driver: &[Entity],
    probes: &Vec<Probe>,
    dead: &HashMap<u64, ()>,
) -> Vec<(usize, Entity, Vec<Option<usize>>)> {
    let mut out = vec![];
    let mut cursor = JoinCursor::new();
    while let Some(row) = cursor.next_match(driver, probes, dead) {
        out.push((row.index, row.entity, row.slots));
    }
    out
}

#[test]
fn optional_first_is_rejected() {
    assert!(matches!(
        QueryPlan::new(vec![req(Some(0), Access::Read, true), req(Some(1), Access::Read, false)]),
        Err(QueryError::OptionalFirst)
    ));
    assert!(matches!(QueryPlan::new(vec![]), Err(QueryError::Empty)));
    let plan = QueryPlan::new(vec![req(Some(0), Access::Read, false), req(None, Access::Read, true)])
        .unwrap();
    assert_eq!(plan.requests_ref().len(), 2);
    assert!(plan.can_match());
    assert_eq!(plan.locks(), vec![(0, Access::Read)]);
}

#[test]
fn missing_required_store_matches_nothing() {
    let plan = QueryPlan::new(vec![
        req(Some(0), Access::Write, false),
        req(None, Access::Read, false),
        req(Some(2), Access::Read, true),
    ])
    .unwrap();
    assert!(!plan.can_match());
    assert_eq!(plan.locks(), vec![(0, Access::Write), (2, Access::Read)]);
}

#[test]
fn optional_join_yields_none_for_misses() {
    let one = Entity::from_id(1);
    let two = Entity::from_id(2);
    let mut numbers = SparseSet::new(one, 1_u32);
    numbers.insert(two, 10);
    let words = SparseSet::new(two, "foo");
    let dead = HashMap::new();

    let probes: Vec<Probe> = vec![(Some(words.positions()), true)];
    let mut results: Vec<(u32, Option<&str>)> = join(numbers.entity_ids(), &probes, &dead)
        .into_iter()
        .map(|(i, _, slots)| (*numbers.value_at(i), slots[0].map(|p| *words.value_at(p))))
        .collect();
    results.sort();
    assert_eq!(&results[..], &[(1, None), (10, Some("foo"))]);

    let probes: Vec<Probe> = vec![(Some(numbers.positions()), false)];
    let mut results: Vec<(u32, &str)> = join(words.entity_ids(), &probes, &dead)
        .into_iter()
        .map(|(i, _, slots)| (*numbers.value_at(slots[0].unwrap()), *words.value_at(i)))
        .collect();
    results.sort();
    assert_eq!(&results[..], &[(10, "foo")]);
}

#[test]
fn required_miss_skips_the_entity() {
    let mut numbers = SparseSet::new(Entity::from_id(1), 1_u32);
    numbers.insert(Entity::from_id(2), 2);
    numbers.insert(Entity::from_id(3), 3);
    let mut flags = SparseSet::new(Entity::from_id(3), true);
    flags.insert(Entity::from_id(1), false);
    let probes: Vec<Probe> = vec![(Some(flags.positions()), false), (None, true)];
    let rows = join(numbers.entity_ids(), &probes, &HashMap::new());
    let ids: Vec<u64> = rows.iter().map(|r| r.1.id()).collect();
    assert_eq!(ids, vec![1, 3]);
    assert_eq!(rows[0].2, vec![Some(1), None]);
    assert_eq!(rows[1].2, vec![Some(0), None]);
    let probes: Vec<Probe> = vec![(None, false)];
    assert!(join(numbers.entity_ids(), &probes, &HashMap::new()).is_empty());
}

#[test]
fn entity_despawned_during_a_join_is_not_visited() {
    let mut numbers = SparseSet::new(Entity::from_id(1), 1_u32);
    numbers.insert(Entity::from_id(2), 10);
    numbers.insert(Entity::from_id(3), 100);
    let probes: Vec<Probe> = vec![];
    let mut dead: HashMap<u64, ()> = HashMap::new();
    dead.insert(1, ());
    let mut cursor = JoinCursor::new();
    let mut seen = vec![];
    while let Some(row) = cursor.next_match(numbers.entity_ids(), &probes, &dead) {
        seen.push(*numbers.value_at(row.index));
        // each visited entity despawns itself and the one after it
        dead.insert(row.entity.id(), ());
        dead.insert(row.entity.id() + 1, ());
    }
    assert_eq!(seen, vec![10]);
    let mut cursor = JoinCursor::new();
    assert!(cursor.next_match(numbers.entity_ids(), &probes, &dead).is_none());
}
