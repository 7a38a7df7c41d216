use watch::remap::{relocation, remap_slots};
use watch::supervisor::{Action, Event, Fault, Phase, Supervisor};

/// The slots still running after the task at `position` completed, in the
/// order a completion primitive that swaps the last task into the gap hands
/// them back.
fn swap_removed(n: usize, position: usize) -> Vec<usize> {
    let mut tags: Vec<usize> = (0..n).collect();
    tags.swap_remove(position);
    tags
}

fn in_order(n: usize, position: usize) -> Vec<usize> {
    (0..n).filter(|&i| i != position).collect()
}

fn slots(s: &Supervisor) -> Vec<usize> {
    (0..s.len()).map(|i| s.factory_at(i).unwrap()).collect()
}

fn is_permutation(v: &[usize]) -> bool {
    let mut seen = vec![false; v.len()];
    for &f in v {
        if f >= v.len() || seen[f] {
            return false;
        }
        seen[f] = true;
    }
    true
}

/// Completes the task of `factory`, respawns it, and returns the factory the
/// supervisor asked to invoke.
fn complete_factory(s: &mut Supervisor, factory: usize, swap: bool) -> usize {
    let position = s.slot_of(factory).unwrap();
    let n = s.len();
    let remaining = if swap { swap_removed(n, position) } else { in_order(n, position) };
    let invoked = match s.step(Event::Completed { position, remaining }) {
        Action::Invoke(f) => f,
        other => panic!("unexpected action {:?}", other),
    };
    assert_eq!(s.phase(), Phase::Respawning);
    assert_eq!(s.step(Event::Respawned), Action::Wait);
    invoked
}

#[test]
fn zero_factories_are_refused() {
    assert!(Supervisor::new(0).is_none());
}

#[test]
fn initial_slots_follow_the_registry() {
    let s = Supervisor::new(4).unwrap();
    assert_eq!(slots(&s), vec![0, 1, 2, 3]);
    assert_eq!(s.phase(), Phase::Watching);
    assert_eq!(s.factory_at(4), None);
    assert_eq!(s.slot_of(2), Some(2));
    assert_eq!(s.slot_of(7), None);
}

#[test]
fn single_factory_respawned_a_thousand_times() {
    let mut s = Supervisor::new(1).unwrap();
    let mut invocations: Vec<usize> = vec![1];
    for _ in 0..1000 {
        let f = complete_factory(&mut s, 0, true);
        assert_eq!(f, 0);
        invocations[f] += 1;
        assert_eq!(s.len(), 1);
    }
    assert_eq!(invocations[0], 1001);
    assert_eq!(slots(&s), vec![0]);
}

#[test]
fn three_factories_complete_in_a_fixed_order() {
    let mut s = Supervisor::new(3).unwrap();
    let mut invocations: Vec<usize> = vec![1, 1, 1];
    for &factory in &[1usize, 0, 2] {
        let position = s.slot_of(factory).unwrap();
        let remaining = swap_removed(3, position);
        let still_running: Vec<usize> = remaining.iter().map(|&i| s.factory_at(i).unwrap()).collect();
        let invoked = match s.step(Event::Completed { position, remaining }) {
            Action::Invoke(f) => f,
            other => panic!("unexpected action {:?}", other),
        };
        assert_eq!(invoked, factory);
        assert!(!still_running.contains(&invoked));
        invocations[invoked] += 1;
        assert_eq!(s.step(Event::Respawned), Action::Wait);
        assert_eq!(s.factory_at(2), Some(factory));
        assert!(is_permutation(&slots(&s)));
    }
    assert_eq!(invocations, vec![2, 2, 2]);
}

#[test]
fn three_factories_in_order_primitive() {
    let mut s = Supervisor::new(3).unwrap();
    assert_eq!(complete_factory(&mut s, 1, false), 1);
    assert_eq!(slots(&s), vec![0, 2, 1]);
    assert_eq!(complete_factory(&mut s, 0, false), 0);
    assert_eq!(slots(&s), vec![2, 1, 0]);
    assert_eq!(complete_factory(&mut s, 2, false), 2);
    assert_eq!(slots(&s), vec![1, 0, 2]);
}

#[test]
fn failed_respawn_halts_supervision() {
    let mut s = Supervisor::new(2).unwrap();
    let a = s.step(Event::Completed { position: 0, remaining: vec![1] });
    assert_eq!(a, Action::Invoke(0));
    assert_eq!(s.step(Event::RespawnFailed), Action::Halt(Fault::RespawnFailed));
    assert_eq!(s.phase(), Phase::Halted(Fault::RespawnFailed));
    let later = s.step(Event::Completed { position: 1, remaining: vec![0] });
    assert_eq!(later, Action::Halt(Fault::RespawnFailed));
    assert_eq!(slots(&s), vec![0, 1]);
}

#[test]
fn completion_while_respawning_is_refused() {
    let mut s = Supervisor::new(2).unwrap();
    assert_eq!(s.step(Event::Completed { position: 1, remaining: vec![0] }), Action::Invoke(1));
    let a = s.step(Event::Completed { position: 0, remaining: vec![1] });
    assert_eq!(a, Action::Halt(Fault::UnexpectedEvent));
}

#[test]
fn respawn_report_while_watching_is_refused() {
    let mut s = Supervisor::new(2).unwrap();
    assert_eq!(s.step(Event::Respawned), Action::Halt(Fault::UnexpectedEvent));
    let mut t = Supervisor::new(2).unwrap();
    assert_eq!(t.step(Event::RespawnFailed), Action::Halt(Fault::UnexpectedEvent));
}

#[test]
fn inconsistent_report_is_an_invalid_index_state() {
    let mut s = Supervisor::new(3).unwrap();
    let a = s.step(Event::Completed { position: 1, remaining: vec![0, 0] });
    assert_eq!(a, Action::Halt(Fault::InvalidIndexState));
    assert_eq!(s.phase(), Phase::Halted(Fault::InvalidIndexState));
    let mut t = Supervisor::new(3).unwrap();
    assert_eq!(t.step(Event::Completed { position: 3, remaining: vec![0, 1] }), Action::Halt(Fault::InvalidIndexState));
}

#[test]
fn relocation_table_values() {
    assert_eq!(relocation(4, 1, &vec![0, 3, 2]), Some(vec![0, 3, 2, 1]));
    assert_eq!(relocation(4, 1, &vec![0, 2, 3]), Some(vec![0, 3, 1, 2]));
    assert_eq!(relocation(1, 0, &vec![]), Some(vec![0]));
}

#[test]
fn relocation_refuses_bad_reports() {
    assert_eq!(relocation(0, 0, &vec![]), None);
    assert_eq!(relocation(3, 3, &vec![0, 1]), None);
    assert_eq!(relocation(3, 1, &vec![0]), None);
    assert_eq!(relocation(3, 1, &vec![0, 1]), None);
    assert_eq!(relocation(3, 1, &vec![2, 2]), None);
    assert_eq!(relocation(3, 1, &vec![0, 5]), None);
}

#[test]
fn remap_moves_stopped_factory_to_tail() {
    let slots = vec![2, 0, 3, 1];
    assert_eq!(remap_slots(&slots, 1, &vec![0, 3, 2]), Some(vec![2, 1, 3, 0]));
    assert_eq!(remap_slots(&slots, 1, &vec![0, 2, 3]), Some(vec![2, 3, 1, 0]));
    assert_eq!(remap_slots(&slots, 3, &vec![0, 1, 2]), Some(vec![2, 0, 3, 1]));
    assert_eq!(remap_slots(&slots, 1, &vec![0, 2]), None);
}

#[test]
fn every_state_of_a_long_run_is_a_permutation() {
    let n: usize = 7;
    let mut s = Supervisor::new(n).unwrap();
    let mut invocations = vec![1usize; n];
    let mut seed: usize = 17;
    for round in 0..500 {
        seed = (seed * 31 + 11) % 1009;
        let factory = seed % n;
        let f = complete_factory(&mut s, factory, round % 2 == 0);
        assert_eq!(f, factory);
        invocations[f] += 1;
        assert_eq!(s.len(), n);
        assert!(is_permutation(&slots(&s)));
        assert_eq!(s.factory_at(n - 1), Some(factory));
    }
    assert_eq!(invocations.iter().sum::<usize>(), n + 500);
}
