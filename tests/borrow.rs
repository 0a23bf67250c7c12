use secs::{Access, BorrowState, BorrowTable, Entity, PendingRemovals};

fn table() -> BorrowTable {
    let mut t = BorrowTable::new();
    assert_eq!(t.add_store("u32".to_string()), 0);
    assert_eq!(t.add_store("&str".to_string()), 1);
    t
}

#[test]
fn readers_share_and_writer_excludes() {
    let mut t = table();
    assert!(t.acquire(0, Access::Read).is_ok());
    assert!(t.acquire(0, Access::Read).is_ok());
    assert_eq!(t.state(0), BorrowState { readers: 2, writing: false });
    let err = t.acquire(0, Access::Write).unwrap_err();
    assert_eq!(err.attribute, "u32");
    assert_eq!(err.access, Access::Write);
    assert_eq!(err.store, 0);
    t.release(0, Access::Read);
    t.release(0, Access::Read);
    assert!(t.is_free(0));
    assert!(t.acquire(0, Access::Write).is_ok());
    let err = t.acquire(0, Access::Read).unwrap_err();
    assert_eq!(err.access, Access::Read);
    assert_eq!(t.state(0), BorrowState { readers: 0, writing: true });
    assert!(t.is_free(1));
}

#[test]
fn two_writes_in_one_query_name_the_type() {
    let mut t = table();
    let err = t.acquire_all(&vec![(0, Access::Write), (0, Access::Write)]).unwrap_err();
    assert_eq!(err.attribute, "u32");
    assert!(t.is_free(0));
}

#[test]
fn nested_queries_writing_one_type_conflict() {
    let mut t = table();
    let outer = vec![(0, Access::Write)];
    assert!(t.acquire_all(&outer).is_ok());
    for _ in 0..3 {
        let err = t.acquire_all(&vec![(1, Access::Read), (0, Access::Write)]).unwrap_err();
        assert_eq!(err.attribute, "u32");
        assert_eq!(err.store, 0);
        assert!(t.is_free(1));
    }
    t.release_all(&outer);
    assert!(t.is_free(0));
    assert!(t.acquire_all(&vec![(1, Access::Read), (0, Access::Write)]).is_ok());
}

#[test]
fn failed_acquisition_gives_back_what_it_took() {
    let mut t = table();
    assert!(t.acquire(1, Access::Read).is_ok());
    let err = t
        .acquire_all(&vec![(0, Access::Read), (1, Access::Read), (1, Access::Write)])
        .unwrap_err();
    assert_eq!(err.attribute, "&str");
    assert!(t.is_free(0));
    assert_eq!(t.state(1), BorrowState { readers: 1, writing: false });
}

#[test]
fn table_names_its_stores() {
    let t = table();
    assert_eq!(t.len(), 2);
    assert_eq!(t.name(1), "&str");
}

#[test]
fn pending_removals_wait_for_a_free_store() {
    let mut t = table();
    let mut p = PendingRemovals::new();
    assert!(p.is_empty());
    p.push(0, Entity::from_id(1));
    p.push(1, Entity::from_id(2));
    p.push(0, Entity::from_id(3));
    assert!(t.acquire(0, Access::Read).is_ok());
    assert_eq!(p.take_ready(&t), vec![(1, Entity::from_id(2))]);
    assert!(!p.is_empty());
    t.release(0, Access::Read);
    assert_eq!(p.take_ready(&t), vec![(0, Entity::from_id(1)), (0, Entity::from_id(3))]);
    assert!(p.is_empty());
}

#[test]
fn removal_plan_defers_borrowed_stores() {
    let mut t = table();
    assert_eq!(t.add_store("bool".to_string()), 2);
    let mut p = PendingRemovals::new();
    assert!(t.acquire(1, Access::Write).is_ok());
    assert_eq!(p.plan_removal(&t, Entity::from_id(4)), vec![0, 2]);
    assert!(t.acquire(0, Access::Read).is_ok());
    assert_eq!(p.plan_removal(&t, Entity::from_id(5)), vec![2]);
    t.release(1, Access::Write);
    assert_eq!(
        p.take_ready(&t),
        vec![(1, Entity::from_id(4)), (1, Entity::from_id(5))]
    );
    assert_eq!(p.take_ready(&t), vec![]);
    t.release(0, Access::Read);
    assert_eq!(p.take_ready(&t), vec![(0, Entity::from_id(5))]);
}
