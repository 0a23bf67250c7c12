use secs::{Scheduler, SysId};

/// Runs every system of a run; a system is a name, and `act` says what
/// running it does to the scheduler.
fn run_once(s: &mut Scheduler<&'static str>, act: &mut dyn FnMut(&mut Scheduler<&'static str>, &'static str)) -> Vec<&'static str> {
    let mut ran = vec![];
    let mut cursor = s.begin_run();
    while let Some((id, sys)) = s.take_next(&mut cursor) {
        ran.push(sys);
        act(s, sys);
        s.restore(id, sys);
    }
    ran
}

#[test]
fn systems_run_in_registration_order() {
    let mut s = Scheduler::new();
    let a = s.register("a");
    let b = s.register("b");
    let c = s.register("c");
    assert_eq!((a.value(), b.value(), c.value()), (0, 1, 2));
    assert_eq!(run_once(&mut s, &mut |_, _| {}), vec!["a", "b", "c"]);
    assert_eq!(run_once(&mut s, &mut |_, _| {}), vec!["a", "b", "c"]);
}

#[test]
fn deregistering_a_later_system_stops_it_in_the_same_run() {
    let mut s = Scheduler::new();
    s.register("remover");
    let victim = s.register("victim");
    s.register("last");
    let ran = run_once(&mut s, &mut |s, name| {
        if name == "remover" {
            s.deregister(victim);
        }
    });
    assert_eq!(ran, vec!["remover", "last"]);
    assert_eq!(run_once(&mut s, &mut |_, _| {}), vec!["remover", "last"]);
}

#[test]
fn a_system_that_deregisters_itself_runs_once() {
    let mut s = Scheduler::new();
    s.register("first");
    let me = s.register("self");
    s.register("after");
    let ran = run_once(&mut s, &mut |s, name| {
        if name == "self" {
            s.deregister(me);
        }
    });
    assert_eq!(ran, vec!["first", "self", "after"]);
    assert_eq!(run_once(&mut s, &mut |_, _| {}), vec!["first", "after"]);
}

#[test]
fn deregister_of_unknown_id_is_a_no_op() {
    let mut s = Scheduler::new();
    let a = s.register("a");
    s.deregister(a);
    s.deregister(a);
    assert_eq!(run_once(&mut s, &mut |_, _| {}), Vec::<&str>::new());
    let b = s.register("b");
    assert_ne!(a, b);
    assert_eq!(b.value(), 1);
}

#[test]
fn systems_registered_during_a_run_wait_for_the_next() {
    let mut s = Scheduler::new();
    s.register("spawner");
    let mut done = false;
    let ran = run_once(&mut s, &mut |s, _| {
        if !done {
            s.register("late");
            done = true;
        }
    });
    assert_eq!(ran, vec!["spawner"]);
    assert_eq!(run_once(&mut s, &mut |_, _| {}), vec!["spawner", "late"]);
}

#[test]
fn a_system_that_is_not_restored_is_skipped() {
    let mut s = Scheduler::new();
    let boom = s.register("boom");
    s.register("ok");
    let mut cursor = s.begin_run();
    let (id, _sys) = s.take_next(&mut cursor).unwrap();
    assert_eq!(id, boom);
    // the run is abandoned here, as when the system fails
    assert_eq!(run_once(&mut s, &mut |_, _| {}), vec!["ok"]);
    s.deregister(boom);
    assert_eq!(run_once(&mut s, &mut |_, _| {}), vec!["ok"]);
}

#[test]
fn restore_after_removal_drops_the_system() {
    let mut s = Scheduler::new();
    let a: SysId = s.register("a");
    let mut cursor = s.begin_run();
    let (id, sys) = s.take_next(&mut cursor).unwrap();
    s.deregister(a);
    s.restore(id, sys);
    assert!(s.take_next(&mut cursor).is_none());
    assert_eq!(run_once(&mut s, &mut |_, _| {}), Vec::<&str>::new());
    assert!(!s.is_exhausted());
}
