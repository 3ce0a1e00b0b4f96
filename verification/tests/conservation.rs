use fleet_conductor::{Binary64, ConservationConfig, ConservationVerdict, DeferredReason};

fn num(x: f64) -> Binary64 {
    Binary64::from_bits(x.to_bits())
}

fn val(x: Binary64) -> f64 {
    f64::from_bits(x.to_bits())
}

/// The example bounds of the quick start.
fn example_config() -> ConservationConfig {
    ConservationConfig::new(num(-0.5), num(0.5), num(0.3))
}

#[test]
fn c_min_is_gamma_min_plus_eta_floor() {
    let cfg = example_config();
    // gamma_min=-0.5, eta_floor=0.3 -> C_min = -0.2
    assert!((val(cfg.c_min()) - (-0.2)).abs() < 1e-12);
}

#[test]
fn readme_config_is_sound() {
    assert!(example_config().is_sound());
}

#[test]
fn action_inside_safe_range_is_allowed() {
    // Current state well inside the region; a small drain that keeps both
    // gamma and eta within bounds is safe.
    let cfg = example_config();
    // gamma=0.0 in [-0.5,0.5], eta=0.5 >= 0.3.
    let v = cfg.check(num(0.0), num(0.5), num(-0.1), num(-0.1));
    // new gamma=-0.1 (in range), new eta=0.4 (>= 0.3) -> safe.
    assert!(v.is_safe());
    match v {
        ConservationVerdict::Safe { gamma, eta, c } => {
            assert!((val(gamma) - (-0.1)).abs() < 1e-12);
            assert!((val(eta) - 0.4).abs() < 1e-12);
            assert!((val(c) - 0.3).abs() < 1e-12);
        }
        _ => unreachable!(),
    }
}

#[test]
fn zero_delta_on_safe_state_is_safe() {
    // No-op action on an already-safe state must be safe.
    let cfg = example_config();
    assert!(cfg.is_safe(num(0.0), num(0.4), num(0.0), num(0.0)));
}

#[test]
fn drain_that_breaches_eta_floor_is_deferred() {
    // The canonical example: terminating an agent drops eta below
    // the floor -> defer.
    let cfg = example_config();
    // eta=0.35, drain contributes delta_eta=-0.2 -> new eta=0.15 < 0.3.
    let v = cfg.check(num(0.0), num(0.35), num(0.0), num(-0.2));
    assert!(v.is_deferred());
    match v {
        ConservationVerdict::Deferred {
            reason,
            would_be_eta,
            limit,
            ..
        } => {
            assert_eq!(reason, DeferredReason::EtaBelowFloor);
            assert!((val(would_be_eta) - 0.15).abs() < 1e-12);
            assert!((val(limit) - 0.3).abs() < 1e-12);
        }
        _ => unreachable!(),
    }
}

#[test]
fn drain_exactly_to_eta_floor_is_safe() {
    // Boundary is inclusive: eta exactly at the floor is allowed.
    let cfg = example_config();
    // eta=0.5, delta_eta=-0.2 -> new eta=0.3 == eta_floor.
    assert!(cfg.is_safe(num(0.0), num(0.5), num(0.0), num(-0.2)));
}

#[test]
fn gamma_below_min_is_deferred() {
    let cfg = example_config();
    // gamma=-0.4, delta=-0.2 -> new gamma=-0.6 < -0.5.
    let v = cfg.check(num(-0.4), num(0.5), num(-0.2), num(0.0));
    assert!(v.is_deferred());
    match v {
        ConservationVerdict::Deferred {
            reason,
            would_be_gamma,
            would_be_eta,
            would_be_c,
            limit,
        } => {
            assert_eq!(reason, DeferredReason::GammaBelowMin);
            assert!((val(would_be_gamma) - (-0.6)).abs() < 1e-12);
            assert!((val(would_be_eta) - 0.5).abs() < 1e-12);
            assert!((val(would_be_c) - (-0.1)).abs() < 1e-12);
            assert!((val(limit) - (-0.5)).abs() < 1e-12);
        }
        _ => unreachable!(),
    }
}

#[test]
fn gamma_above_max_is_deferred() {
    let cfg = example_config();
    // gamma=0.4, delta=+0.2 -> new gamma=0.6 > 0.5.
    let v = cfg.check(num(0.4), num(0.5), num(0.2), num(0.0));
    assert!(v.is_deferred());
    match v {
        ConservationVerdict::Deferred { reason, .. } => {
            assert_eq!(reason, DeferredReason::GammaAboveMax);
        }
        _ => unreachable!(),
    }
}

#[test]
fn gamma_boundaries_are_inclusive() {
    let cfg = example_config();
    // gamma exactly at min and at max are both safe (eta well above floor).
    assert!(cfg.is_safe(num(-0.5), num(0.5), num(0.0), num(0.0)));
    assert!(cfg.is_safe(num(0.5), num(0.5), num(0.0), num(0.0)));
}

#[test]
fn nan_input_is_deferred() {
    let cfg = example_config();
    // A NaN reading from a broken sensor must never be treated as safe.
    assert!(cfg.check(num(f64::NAN), num(0.5), num(0.0), num(0.0)).is_deferred());
    assert!(cfg.check(num(0.0), num(0.5), num(f64::NAN), num(0.0)).is_deferred());
}

#[test]
fn inverted_gamma_range_is_unsound_and_defers_everything() {
    let cfg = ConservationConfig::new(num(0.5), num(-0.5), num(0.3)); // min > max
    assert!(!cfg.is_sound());
    // Even a no-op on a "central" state defers, because there is no stable region.
    assert!(cfg.check(num(0.0), num(0.5), num(0.0), num(0.0)).is_deferred());
}

#[test]
fn replacing_agent_before_drain_can_make_it_safe() {
    // Spawn a replacement first to lift eta, *then* drain.
    let cfg = example_config();
    // eta=0.35, draining alone (-0.2) breaches the floor.
    assert!(cfg.check(num(0.0), num(0.35), num(0.0), num(-0.2)).is_deferred());
    // But first spawn (+0.2 eta) -> eta=0.55, then drain (-0.2) -> 0.35 >= 0.3.
    let after_spawn = cfg.check(num(0.0), num(0.35), num(0.0), num(0.2));
    assert!(after_spawn.is_safe());
    match after_spawn {
        ConservationVerdict::Safe { eta, .. } => assert!((val(eta) - 0.55).abs() < 1e-12),
        _ => unreachable!(),
    }
    // Now the drain is safe from the post-spawn state.
    assert!(cfg.is_safe(num(0.0), num(0.55), num(0.0), num(-0.2)));
}

#[test]
fn deferred_reason_display_is_human_readable() {
    assert!(DeferredReason::EtaBelowFloor.to_string().contains("eta"));
    assert!(DeferredReason::GammaBelowMin.to_string().contains("gamma"));
}

#[test]
fn default_config_is_sound_and_permissive() {
    let cfg = ConservationConfig::default();
    assert!(cfg.is_sound());
    // gamma=0 in [-1,1], eta=0 >= 0 -> safe.
    assert!(cfg.is_safe(num(0.0), num(0.0), num(0.0), num(0.0)));
}

#[test]
fn verdicts_are_exact_to_the_last_bit() {
    let cfg = ConservationConfig::new(num(-0.5), num(0.5), num(0.15));
    match cfg.check(num(0.1), num(0.3), num(0.2), num(-0.1)) {
        ConservationVerdict::Safe { gamma, eta, c } => {
            assert_eq!(val(gamma), 0.1 + 0.2);
            assert_eq!(val(eta), 0.3 + -0.1);
            assert_eq!(val(c), (0.1 + 0.2) + (0.3 + -0.1));
        }
        _ => unreachable!(),
    }
    assert_eq!(val(cfg.c_min()), -0.5 + 0.15);
}

#[test]
fn bounds_are_checked_in_order() {
    // Gamma is below its minimum and eta below its floor: gamma is reported.
    let cfg = example_config();
    match cfg.check(num(-1.0), num(0.0), num(0.0), num(0.0)) {
        ConservationVerdict::Deferred { reason, limit, .. } => {
            assert_eq!(reason, DeferredReason::GammaBelowMin);
            assert_eq!(val(limit), -0.5);
        }
        _ => unreachable!(),
    }
    match cfg.check(num(1.0), num(0.0), num(0.0), num(0.0)) {
        ConservationVerdict::Deferred { reason, limit, .. } => {
            assert_eq!(reason, DeferredReason::GammaAboveMax);
            assert_eq!(val(limit), 0.5);
        }
        _ => unreachable!(),
    }
}

#[test]
fn unsound_config_reports_current_values() {
    let cfg = ConservationConfig::new(num(0.5), num(-0.5), num(0.3));
    match cfg.check(num(0.25), num(0.5), num(0.125), num(0.125)) {
        ConservationVerdict::Deferred {
            reason,
            would_be_gamma,
            would_be_eta,
            would_be_c,
            limit,
        } => {
            assert_eq!(reason, DeferredReason::UnsoundConfigOrInput);
            assert_eq!(val(would_be_gamma), 0.25);
            assert_eq!(val(would_be_eta), 0.5);
            assert_eq!(val(would_be_c), 0.75);
            assert_eq!(val(limit), 0.8);
        }
        _ => unreachable!(),
    }
}

#[test]
fn nan_bounds_are_unsound() {
    let nan = f64::NAN;
    assert!(!ConservationConfig::new(num(nan), num(0.5), num(0.3)).is_sound());
    assert!(!ConservationConfig::new(num(-0.5), num(nan), num(0.3)).is_sound());
    assert!(!ConservationConfig::new(num(-0.5), num(0.5), num(nan)).is_sound());
    assert!(ConservationConfig::new(num(0.5), num(0.5), num(0.3)).is_sound());
}

#[test]
fn infinite_bounds_are_sound_unless_inverted() {
    let inf = f64::INFINITY;
    // Gamma at or above -1 and eta at or above 0: a state at rest is safe.
    let open = ConservationConfig::new(num(-1.0), num(inf), num(0.0));
    assert!(open.is_sound());
    assert!(open.is_safe(num(0.0), num(0.0), num(0.0), num(0.0)));
    assert!(open.is_safe(num(1e300), num(0.0), num(0.0), num(0.0)));
    assert!(!open.is_safe(num(-2.0), num(0.0), num(0.0), num(0.0)));
    // No bound at all.
    let free = ConservationConfig::new(num(-inf), num(inf), num(-inf));
    assert!(free.is_sound());
    assert!(free.is_safe(num(-5.0), num(-5.0), num(0.0), num(0.0)));
    // An infinite floor on eta is met by an infinite eta alone.
    let steep = ConservationConfig::new(num(-0.5), num(0.5), num(inf));
    assert!(steep.is_sound());
    assert!(steep.is_safe(num(0.0), num(inf), num(0.0), num(0.0)));
    assert!(!steep.is_safe(num(0.0), num(f64::MAX), num(0.0), num(0.0)));
    assert!(!ConservationConfig::new(num(inf), num(0.5), num(0.3)).is_sound());
    assert!(!ConservationConfig::new(num(-0.5), num(-inf), num(0.3)).is_sound());
}

#[test]
fn breached_bound_is_named_before_a_result_that_is_no_number() {
    let cfg = example_config();
    let inf = f64::INFINITY;
    match cfg.check(num(inf), num(0.0), num(-inf), num(0.0)) {
        ConservationVerdict::Deferred {
            reason,
            would_be_gamma,
            would_be_eta,
            would_be_c,
            limit,
        } => {
            assert_eq!(reason, DeferredReason::EtaBelowFloor);
            assert!(would_be_gamma.is_nan());
            assert_eq!(val(would_be_eta), 0.0);
            assert!(would_be_c.is_nan());
            assert_eq!(val(limit), 0.3);
        }
        _ => unreachable!(),
    }
    // With no bound breached, the current state and the floor of C are reported.
    match cfg.check(num(0.0), num(inf), num(0.0), num(-inf)) {
        ConservationVerdict::Deferred { reason, would_be_eta, limit, .. } => {
            assert_eq!(reason, DeferredReason::UnsoundConfigOrInput);
            assert_eq!(val(would_be_eta), inf);
            assert_eq!(val(limit), -0.5 + 0.3);
        }
        _ => unreachable!(),
    }
}

#[test]
fn every_nan_input_is_deferred() {
    let cfg = example_config();
    let nan = f64::NAN;
    for v in [
        cfg.check(num(nan), num(0.5), num(0.0), num(0.0)),
        cfg.check(num(0.0), num(nan), num(0.0), num(0.0)),
        cfg.check(num(0.0), num(0.5), num(nan), num(0.0)),
        cfg.check(num(0.0), num(0.5), num(0.0), num(nan)),
    ] {
        match v {
            ConservationVerdict::Deferred { reason, .. } => {
                assert_eq!(reason, DeferredReason::UnsoundConfigOrInput)
            }
            _ => unreachable!(),
        }
    }
}

#[test]
fn infinities_that_cancel_are_deferred() {
    // Neither result can be shown to lie within the bounds.
    let cfg = example_config();
    let inf = f64::INFINITY;
    assert!(cfg.check(num(inf), num(0.5), num(-inf), num(0.0)).is_deferred());
    assert!(cfg.check(num(0.0), num(inf), num(0.0), num(-inf)).is_deferred());
    // An infinite eta is above the floor.
    assert!(cfg.is_safe(num(0.0), num(inf), num(0.0), num(-1.0)));
}

#[test]
fn deferred_reasons_have_exact_texts() {
    assert_eq!(DeferredReason::GammaBelowMin.to_string(), "gamma below gamma_min");
    assert_eq!(DeferredReason::GammaAboveMax.to_string(), "gamma above gamma_max");
    assert_eq!(DeferredReason::EtaBelowFloor.to_string(), "eta below eta_floor");
    assert_eq!(
        DeferredReason::UnsoundConfigOrInput.to_string(),
        "unsound config or NaN input"
    );
}

#[test]
fn safe_state_keeps_c_above_its_floor() {
    let cfg = example_config();
    match cfg.check(num(-0.5), num(0.3), num(0.0), num(0.0)) {
        ConservationVerdict::Safe { c, .. } => assert!(val(c) >= val(cfg.c_min())),
        _ => unreachable!(),
    }
}
