use mm_engine::risk::{Breaches, KillReason, KillSwitch};

const NONE_BROKEN: Breaches = Breaches { drawdown: false, var_95: false };

/// What the limits of a switch say of figures: the loss from the peak and the
/// value at risk.
fn breaches(drawdown: f64, var_95: f64, max_drawdown: f64, max_var_95: f64) -> Breaches {
    Breaches { drawdown: drawdown > max_drawdown, var_95: var_95 > max_var_95 }
}

#[test]
fn kill_switch_trips_on_inventory_breach_and_latches() {
    let mut ks = KillSwitch::new(5);
    // a sigma of 0.05 over one second gives each unit held a VaR of 0.0822
    assert_eq!(ks.evaluate(3, breaches(0.0, 0.2467, 1e9, 1e9), false), None);
    assert_eq!(
        ks.evaluate(6, breaches(0.0, 0.4935, 1e9, 1e9), false),
        Some(KillReason::InventoryLimit)
    );
    // even once inventory looks fine again, a latched kill switch stays tripped
    assert_eq!(
        ks.evaluate(0, breaches(600.0, 0.0, 1e9, 1e9), false),
        Some(KillReason::InventoryLimit)
    );
}

#[test]
fn manual_kill_overrides_everything() {
    let mut ks = KillSwitch::new(1000);
    assert_eq!(ks.evaluate(0, breaches(0.0, 0.0, 1e9, 1e9), true), Some(KillReason::Manual));
}

#[test]
fn manual_kill_comes_before_every_limit() {
    let mut ks = KillSwitch::new(1);
    let all = Breaches { drawdown: true, var_95: true };
    assert_eq!(ks.evaluate(1_000_000, all, true), Some(KillReason::Manual));
    assert_eq!(ks.is_triggered(), Some(KillReason::Manual));
}

#[test]
fn limits_are_looked_at_in_order() {
    let all = Breaches { drawdown: true, var_95: true };
    let mut ks = KillSwitch::new(60);
    assert_eq!(ks.evaluate(61, all, false), Some(KillReason::InventoryLimit));
    ks.reset();
    assert_eq!(ks.evaluate(-61, all, false), Some(KillReason::InventoryLimit));
    ks.reset();
    assert_eq!(ks.evaluate(-60, all, false), Some(KillReason::Drawdown));
    ks.reset();
    let var_only = Breaches { drawdown: false, var_95: true };
    assert_eq!(ks.evaluate(60, var_only, false), Some(KillReason::ValueAtRisk));
}

#[test]
fn a_limit_that_is_met_exactly_is_not_broken() {
    let mut ks = KillSwitch::new(60);
    assert_eq!(ks.evaluate(60, NONE_BROKEN, false), None);
    assert_eq!(ks.evaluate(-60, NONE_BROKEN, false), None);
    assert_eq!(ks.is_triggered(), None);
}

#[test]
fn first_reason_stays_whatever_comes_later() {
    let mut ks = KillSwitch::new(60);
    let drawdown = Breaches { drawdown: true, var_95: false };
    assert_eq!(ks.evaluate(0, drawdown, false), Some(KillReason::Drawdown));
    assert_eq!(ks.evaluate(100, NONE_BROKEN, false), Some(KillReason::Drawdown));
    assert_eq!(ks.evaluate(0, NONE_BROKEN, true), Some(KillReason::Drawdown));
    assert_eq!(ks.evaluate(i64::MIN, NONE_BROKEN, false), Some(KillReason::Drawdown));
    assert_eq!(ks.is_triggered(), Some(KillReason::Drawdown));
}

#[test]
fn inventory_limit_can_be_read() {
    let mut ks = KillSwitch::new(60);
    assert_eq!(ks.max_abs_inventory(), 60);
    ks.evaluate(61, NONE_BROKEN, false);
    ks.reset();
    assert_eq!(ks.max_abs_inventory(), 60);
}

#[test]
fn reset_arms_the_switch_again() {
    let mut ks = KillSwitch::new(60);
    ks.evaluate(0, NONE_BROKEN, true);
    ks.reset();
    assert_eq!(ks.is_triggered(), None);
    assert_eq!(ks.evaluate(10, NONE_BROKEN, false), None);
    assert_eq!(ks.evaluate(61, NONE_BROKEN, false), Some(KillReason::InventoryLimit));
}

#[test]
fn reasons_are_described_in_words() {
    assert_eq!(KillReason::InventoryLimit.describe(), "inventory limit breached");
    assert_eq!(KillReason::Drawdown.describe(), "drawdown limit breached");
    assert_eq!(KillReason::ValueAtRisk.describe(), "VaR limit breached");
    assert_eq!(KillReason::Manual.describe(), "manual kill switch triggered");
}
