use fleet_conductor::{stub, AgentState, TransitionError};

/// Every documented edge must succeed.
#[test]
fn all_documented_edges_succeed() {
    let cases = [
        (AgentState::Pending, AgentState::Starting),
        (AgentState::Starting, AgentState::Healthy),
        (AgentState::Healthy, AgentState::Degraded),
        (AgentState::Degraded, AgentState::Healthy),
        (AgentState::Healthy, AgentState::Draining),
        (AgentState::Degraded, AgentState::Draining),
        (AgentState::Draining, AgentState::Terminated),
    ];
    for (from, to) in cases {
        assert!(
            from.can_transition(to),
            "can_transition({} -> {}) should be true",
            from.to_string(),
            to.to_string()
        );
        assert_eq!(
            from.transition(to),
            Ok(to),
            "transition({} -> {}) should succeed",
            from.to_string(),
            to.to_string()
        );
    }
}

#[test]
fn pending_to_healthy_is_rejected() {
    // Starting must not be skipped.
    let err = AgentState::Pending
        .transition(AgentState::Healthy)
        .expect_err("Pending -> Healthy must be rejected");
    assert_eq!(err.from, AgentState::Pending);
    assert_eq!(err.to, AgentState::Healthy);
    assert!(!err.was_terminal());
    assert!(err.to_string().contains("Pending"));
    assert!(err.to_string().contains("Healthy"));
}

#[test]
fn nothing_can_return_to_pending() {
    // Anything -> Pending is illegal.
    for from in [
        AgentState::Starting,
        AgentState::Healthy,
        AgentState::Degraded,
        AgentState::Draining,
        AgentState::Terminated,
    ] {
        assert!(
            !from.can_transition(AgentState::Pending),
            "{} -> Pending should be rejected",
            from.to_string()
        );
    }
}

#[test]
fn terminated_is_terminal() {
    // No legal edge leaves Terminated.
    for to in [
        AgentState::Pending,
        AgentState::Starting,
        AgentState::Healthy,
        AgentState::Degraded,
        AgentState::Draining,
        AgentState::Terminated,
    ] {
        let err = AgentState::Terminated
            .transition(to)
            .expect_err("Terminated should reject every outgoing edge");
        assert!(err.was_terminal(), "Terminated -> {} should be terminal", to.to_string());
    }
}

#[test]
fn self_transitions_are_rejected() {
    // The documented graph has no self-loops; the state machine is strict.
    for s in [
        AgentState::Pending,
        AgentState::Starting,
        AgentState::Healthy,
        AgentState::Degraded,
        AgentState::Draining,
        AgentState::Terminated,
    ] {
        assert!(
            !s.can_transition(s),
            "{} -> {} (self-transition) should be rejected",
            s.to_string(),
            s.to_string()
        );
    }
}

#[test]
fn skipped_states_are_rejected() {
    // Pending -> Draining, Pending -> Terminated, Starting -> Draining, etc.
    let invalid = [
        (AgentState::Pending, AgentState::Degraded),
        (AgentState::Pending, AgentState::Draining),
        (AgentState::Pending, AgentState::Terminated),
        (AgentState::Starting, AgentState::Degraded),
        (AgentState::Starting, AgentState::Draining),
        (AgentState::Starting, AgentState::Terminated),
        (AgentState::Healthy, AgentState::Terminated),
        (AgentState::Degraded, AgentState::Terminated),
    ];
    for (from, to) in invalid {
        assert!(
            !from.can_transition(to),
            "{} -> {} should be rejected",
            from.to_string(),
            to.to_string()
        );
    }
}

#[test]
fn full_lifecycle_walk_end_to_end() {
    // The canonical happy path, walked step by step.
    let mut s = AgentState::Pending;
    s = s.transition(AgentState::Starting).unwrap();
    assert_eq!(s, AgentState::Starting);
    s = s.transition(AgentState::Healthy).unwrap();
    assert_eq!(s, AgentState::Healthy);
    // A health blip and recovery along the way.
    s = s.transition(AgentState::Degraded).unwrap();
    assert_eq!(s, AgentState::Degraded);
    s = s.transition(AgentState::Healthy).unwrap();
    assert_eq!(s, AgentState::Healthy);
    // Graceful drain then termination.
    s = s.transition(AgentState::Draining).unwrap();
    assert_eq!(s, AgentState::Draining);
    s = s.transition(AgentState::Terminated).unwrap();
    assert_eq!(s, AgentState::Terminated);
    // Terminal: further moves impossible.
    assert!(s.transition(AgentState::Healthy).is_err());
}

#[test]
fn degraded_can_drain_directly() {
    // Degraded -> Draining is a documented edge (don't require recovery first).
    assert_eq!(
        AgentState::Degraded.transition(AgentState::Draining),
        Ok(AgentState::Draining)
    );
}

#[test]
fn transition_error_is_std_error() {
    // The error's message travels through `?` as a boxed error.
    let err = do_it(AgentState::Pending).unwrap_err();
    assert!(err.to_string().contains("Pending"));
}

fn do_it(s: AgentState) -> Result<AgentState, Box<dyn std::error::Error>> {
    Ok(s.transition(AgentState::Healthy).map_err(|e| e.to_string())?)
}

#[test]
fn transition_messages_are_exact() {
    let err = AgentState::Pending.transition(AgentState::Healthy).unwrap_err();
    assert_eq!(
        err.to_string(),
        "illegal transition: Pending -> Healthy is not a valid edge of the agent state machine"
    );
    let err = AgentState::Terminated.transition(AgentState::Starting).unwrap_err();
    assert_eq!(
        err.to_string(),
        "illegal transition: Terminated is terminal and cannot move to Starting"
    );
    assert_eq!(
        TransitionError::new(AgentState::Draining, AgentState::Pending),
        AgentState::Draining.transition(AgentState::Pending).unwrap_err()
    );
}

#[test]
fn exactly_seven_edges_are_legal() {
    let states = [
        AgentState::Pending,
        AgentState::Starting,
        AgentState::Healthy,
        AgentState::Degraded,
        AgentState::Draining,
        AgentState::Terminated,
    ];
    let mut legal = 0;
    for from in states {
        for to in states {
            assert_eq!(from.can_transition(to), from.transition(to).is_ok());
            if from.can_transition(to) {
                legal += 1;
            }
        }
    }
    assert_eq!(legal, 7);
}

#[test]
fn it_works() {
    assert_eq!(stub::hello(), "hello from fleet-conductor");
}
