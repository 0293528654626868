use sooboost::early_stop::{check_early_stopping, EarlyStop, EarlyStopIssue};

fn b(x: f64) -> u64 {
    x.to_bits()
}

/// Feeds the losses in order; returns the record and the round that stopped.
fn run(losses: &[f64], patience: usize) -> (EarlyStop, Option<usize>) {
    let mut r = EarlyStop::new();
    for (round, &l) in losses.iter().enumerate() {
        if r.record(round, b(l), patience) {
            return (r, Some(round));
        }
    }
    (r, None)
}

#[test]
fn starts_at_infinity() {
    let r = EarlyStop::new();
    assert_eq!(f64::from_bits(r.best_loss), f64::INFINITY);
    assert_eq!((r.best_round, r.rounds_since_best), (0, 0));
}

#[test]
fn stops_after_patience_rounds_without_improvement() {
    let (r, stop) = run(&[5.0, 4.0, 3.0, 3.5, 3.0, 4.0, 1.0], 3);
    assert_eq!(stop, Some(5));
    assert_eq!(r.best_round, 2);
    assert_eq!(f64::from_bits(r.best_loss), 3.0);
    assert_eq!(r.rounds_since_best, 3);
    assert_eq!(r.rounds_to_keep(6), 3);
}

#[test]
fn improving_runs_never_stop() {
    let (r, stop) = run(&[5.0, 4.0, 3.0, 2.0], 1);
    assert_eq!(stop, None);
    assert_eq!(r.best_round, 3);
    assert_eq!(r.rounds_to_keep(4), 4);
}

#[test]
fn equal_loss_is_no_improvement_and_keeps_the_first_round() {
    let (r, stop) = run(&[2.0, 2.0, 2.0], 5);
    assert_eq!(stop, None);
    assert_eq!(r.best_round, 0);
    assert_eq!(r.rounds_since_best, 2);
    assert_eq!(r.rounds_to_keep(3), 1);
}

#[test]
fn nan_and_infinite_losses_never_improve() {
    let (r, stop) = run(&[f64::NAN, f64::INFINITY], 2);
    assert_eq!(stop, Some(1));
    assert_eq!(r.best_round, 0);
    assert_eq!(r.rounds_to_keep(2), 1);
    assert_eq!(EarlyStop::new().rounds_to_keep(0), 0);
}

#[test]
fn setup_checks_in_order() {
    assert_eq!(check_early_stopping(0, 0, 1, 2), Err(EarlyStopIssue::ZeroPatience));
    assert_eq!(check_early_stopping(2, 0, 1, 2), Err(EarlyStopIssue::EmptyValidation));
    assert_eq!(check_early_stopping(2, 5, 1, 2), Err(EarlyStopIssue::FeatureMismatch { train: 2, eval: 1 }));
    assert_eq!(check_early_stopping(2, 5, 2, 2), Ok(()));
}
