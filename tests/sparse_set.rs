use secs::{Entity, EntityCounter, SparseSet};

fn e(id: u64) -> Entity {
    Entity::from_id(id)
}

fn sorted_pairs(s: &SparseSet<u32>) -> Vec<(u64, u32)> {
    let mut v: Vec<(u64, u32)> = s.iter().into_iter().map(|(e, c)| (e.id(), *c)).collect();
    v.sort();
    v
}

#[test]
fn new_holds_one_value() {
    let s = SparseSet::new(e(7), 42_u32);
    assert_eq!(s.len(), 1);
    assert!(s.contains(e(7)));
    assert!(!s.contains(e(8)));
    assert_eq!(s.get(e(7)), Some(&42));
    assert_eq!(s.get(e(8)), None);
    assert_eq!(s.entity_ids(), &[e(7)]);
}

#[test]
fn attach_get_detach_round_trip() {
    let mut s = SparseSet::new(e(1), 1_u32);
    s.insert(e(2), 20);
    assert_eq!(s.get(e(2)), Some(&20));
    assert_eq!(s.remove(e(2)), Some(20));
    assert_eq!(s.get(e(2)), None);
    assert_eq!(s.remove(e(2)), None);
    assert_eq!(s.get(e(1)), Some(&1));
}

#[test]
fn remove_of_absent_entity_changes_nothing() {
    let mut s = SparseSet::new(e(1), 5_u32);
    assert_eq!(s.remove(e(9)), None);
    assert_eq!(sorted_pairs(&s), vec![(1, 5)]);
}

#[test]
fn swap_remove_reindexes_survivors() {
    let mut counter = EntityCounter::new();
    let a = counter.inc();
    let b = counter.inc();
    let c = counter.inc();
    let mut s = SparseSet::new(a, 1_u32);
    s.insert(b, 2);
    s.insert(c, 3);
    assert_eq!(s.remove(a), Some(1));
    assert_eq!(s.get(b), Some(&2));
    assert_eq!(s.get(c), Some(&3));
    assert_eq!(s.get(a), None);
    assert_eq!(sorted_pairs(&s), vec![(b.id(), 2), (c.id(), 3)]);
    // the last entry moved into the vacated first position
    assert_eq!(s.entity_ids(), &[c, b]);
}

#[test]
fn remove_last_entry_pops() {
    let mut s = SparseSet::new(e(1), 1_u32);
    s.insert(e(2), 2);
    assert_eq!(s.remove(e(2)), Some(2));
    assert_eq!(s.entity_ids(), &[e(1)]);
    assert_eq!(s.len(), 1);
}

#[test]
fn interleaved_inserts_and_removes_stay_consistent() {
    let mut s = SparseSet::new(e(1), 10_u32);
    let mut model: Vec<(u64, u32)> = vec![(1, 10)];
    let ops: [(bool, u64); 12] = [
        (true, 2),
        (true, 3),
        (false, 1),
        (true, 4),
        (false, 3),
        (true, 5),
        (true, 1),
        (false, 4),
        (false, 9),
        (true, 6),
        (false, 5),
        (false, 2),
    ];
    for (insert, id) in ops {
        if insert {
            s.insert(e(id), id as u32 * 10);
            model.push((id, id as u32 * 10));
        } else {
            let expected = model.iter().position(|p| p.0 == id).map(|i| model.remove(i).1);
            assert_eq!(s.remove(e(id)), expected);
        }
        model.sort();
        assert_eq!(sorted_pairs(&s), model);
        assert_eq!(s.len(), model.len());
        for (i, ent) in s.entity_ids().iter().enumerate() {
            assert_eq!(s.entity_at(i), Some(*ent));
            assert_eq!(s.positions().get(&ent.id()), Some(&i));
            assert_eq!(s.get(*ent), Some(s.value_at(i)));
        }
        assert_eq!(s.positions().len(), s.len());
    }
}

#[test]
fn get_mut_changes_only_that_value() {
    let mut s = SparseSet::new(e(1), 1_u32);
    s.insert(e(2), 2);
    *s.get_mut(e(2)).unwrap() = 200;
    assert!(s.get_mut(e(3)).is_none());
    assert_eq!(sorted_pairs(&s), vec![(1, 1), (2, 200)]);
}

#[test]
fn iter_mut_changes_values_in_place() {
    let mut s = SparseSet::new(e(1), 1_u32);
    s.insert(e(2), 2);
    let (ids, values) = s.iter_mut();
    assert_eq!(ids, &[e(1), e(2)]);
    for v in values.iter_mut() {
        *v += 100;
    }
    assert_eq!(sorted_pairs(&s), vec![(1, 101), (2, 102)]);
    *s.value_at_mut(0) = 7;
    assert_eq!(s.get(e(1)), Some(&7));
}

#[test]
fn clear_removes_everything() {
    let mut s = SparseSet::new(e(1), 1_u32);
    s.insert(e(2), 2);
    s.clear();
    assert_eq!(s.len(), 0);
    assert_eq!(s.get(e(1)), None);
    assert!(s.iter().is_empty());
    s.insert(e(3), 3);
    assert_eq!(sorted_pairs(&s), vec![(3, 3)]);
}

#[test]
fn retain_visits_every_entry_once() {
    let mut s = SparseSet::new(e(1), 1_u32);
    for id in 2..=6_u64 {
        s.insert(e(id), id as u32);
    }
    let mut seen = vec![];
    let mut idx = 0;
    while let Some(ent) = s.entity_at(idx) {
        let v = *s.value_at(idx);
        seen.push(ent.id());
        idx = s.retain_at(idx, v % 2 == 0);
    }
    seen.sort();
    assert_eq!(seen, vec![1, 2, 3, 4, 5, 6]);
    assert_eq!(sorted_pairs(&s), vec![(2, 2), (4, 4), (6, 6)]);
}

#[test]
fn entity_at_past_the_end_is_none() {
    let s = SparseSet::new(e(1), 1_u32);
    assert_eq!(s.entity_at(0), Some(e(1)));
    assert_eq!(s.entity_at(1), None);
}

#[test]
fn counter_hands_out_increasing_ids() {
    let mut c = EntityCounter::new();
    assert!(!c.is_exhausted());
    let a = c.inc();
    let b = c.inc();
    assert_eq!(a.id(), 1);
    assert_eq!(b.id(), 2);
    assert!(a < b);
    assert_eq!(Entity::from_id(5).id(), 5);
}
