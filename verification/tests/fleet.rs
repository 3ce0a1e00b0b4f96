use fleet_conductor::conductor::{contributes_eta, is_live};
use fleet_conductor::{AgentState, KindSummaries, KindSummary, StateCounts};

#[test]
fn live_and_active_states() {
    for (state, live, active) in [
        (AgentState::Pending, true, false),
        (AgentState::Starting, true, false),
        (AgentState::Healthy, true, true),
        (AgentState::Degraded, true, true),
        (AgentState::Draining, false, false),
        (AgentState::Terminated, false, false),
    ] {
        assert_eq!(is_live(state), live);
        assert_eq!(contributes_eta(state), active);
    }
}

#[test]
fn state_counts_have_entries_for_states_with_agents() {
    let none = StateCounts::default();
    let some = StateCounts {
        pending: 1,
        starting: 2,
        healthy: 3,
        degraded: 4,
        draining: 5,
        terminated: 6,
    };
    for (state, n) in [
        (AgentState::Pending, 1),
        (AgentState::Starting, 2),
        (AgentState::Healthy, 3),
        (AgentState::Degraded, 4),
        (AgentState::Draining, 5),
        (AgentState::Terminated, 6),
    ] {
        assert_eq!(none.get(&state), None);
        assert_eq!(some.get(&state), Some(n));
    }
}

#[test]
fn summaries_are_found_by_kind() {
    let empty = KindSummaries { entries: vec![] };
    assert!(empty.is_empty());
    assert!(empty.get("a").is_none());
    let mut second = KindSummary::default();
    second.total = 7;
    let both = KindSummaries {
        entries: vec![
            ("a".to_string(), KindSummary::default()),
            ("b".to_string(), second),
        ],
    };
    assert!(!both.is_empty());
    assert_eq!(both.get("b").unwrap().total, 7);
    assert_eq!(both.get("a").unwrap().desired, None);
    assert!(both.get("").is_none());
}
