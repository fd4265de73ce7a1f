//! The kill switch: when trading stops, and that it stays stopped.
//!
//! The figures that it watches are floating point and are compared with their
//! limits elsewhere; what comes in here is which of those limits is broken.
use vstd::prelude::*;

verus! {

/// Why trading was stopped.
#[derive(Debug, Clone, Copy, PartialEq, Eq, Structural)]
pub enum KillReason {
    InventoryLimit,
    Drawdown,
    ValueAtRisk,
    Manual,
}

impl KillReason {
    /// The text of a reason, for use in contracts.
    pub open spec fn text(self) -> Seq<char> {
        match self {
            KillReason::InventoryLimit => "inventory limit breached"@,
            KillReason::Drawdown => "drawdown limit breached"@,
            KillReason::ValueAtRisk => "VaR limit breached"@,
            KillReason::Manual => "manual kill switch triggered"@,
        }
    }

    /// The reason in words.
    pub fn describe(&self) -> (text: &'static str)
        ensures
            text@ == self.text(),
    {
        match self {
            KillReason::InventoryLimit => "inventory limit breached",
            KillReason::Drawdown => "drawdown limit breached",
            KillReason::ValueAtRisk => "VaR limit breached",
            KillReason::Manual => "manual kill switch triggered",
        }
    }
}

/// Which of the limits on floating-point figures are broken.
#[derive(Debug, Clone, Copy, PartialEq, Eq, Structural)]
pub struct Breaches {
    /// Whether the loss from the peak is above its limit.
    pub drawdown: bool,
    /// Whether the value at risk is above its limit.
    pub var_95: bool,
}

/// The reason to stop, if there is one. A request comes before any limit; of
/// the limits, inventory comes first, then drawdown, then value at risk.
pub open spec fn reason_to_stop(
    max_abs_inventory: i64,
    inventory: i64,
    breaches: Breaches,
    manual_kill: bool,
) -> Option<KillReason> {
    if manual_kill {
        Some(KillReason::Manual)
    } else if inventory > max_abs_inventory || -inventory > max_abs_inventory {
        Some(KillReason::InventoryLimit)
    } else if breaches.drawdown {
        Some(KillReason::Drawdown)
    } else if breaches.var_95 {
        Some(KillReason::ValueAtRisk)
    } else {
        None
    }
}

/// Stops trading on the first reason and keeps it stopped.
pub struct KillSwitch {
    max_abs_inventory: i64,
    triggered: Option<KillReason>,
}

/// The state of a kill switch.
pub struct SwitchView {
    /// How much may be held, bought or sold.
    pub max_abs_inventory: i64,
    /// Why trading was stopped, if it was.
    pub triggered: Option<KillReason>,
}

impl SwitchView {
    /// After an evaluation: the first reason stays.
    pub open spec fn evaluated(
        self,
        inventory: i64,
        breaches: Breaches,
        manual_kill: bool,
    ) -> SwitchView {
        if self.triggered is Some {
            self
        } else {
            SwitchView {
                triggered: reason_to_stop(self.max_abs_inventory, inventory, breaches, manual_kill),
                ..self
            }
        }
    }

    /// After evaluations, one after another.
    pub open spec fn evaluated_all(self, states: Seq<(i64, Breaches, bool)>) -> SwitchView
        decreases states.len(),
    {
        if states.len() == 0 {
            self
        } else {
            self.evaluated(states[0].0, states[0].1, states[0].2).evaluated_all(states.drop_first())
        }
    }
}

impl View for KillSwitch {
    type V = SwitchView;

    closed spec fn view(&self) -> SwitchView {
        SwitchView { max_abs_inventory: self.max_abs_inventory, triggered: self.triggered }
    }
}

impl KillSwitch {
    /// A switch that has not been triggered.
    pub fn new(max_abs_inventory: i64) -> (switch: KillSwitch)
        ensures
            switch@ == (SwitchView { max_abs_inventory, triggered: None }),
    {
        KillSwitch { max_abs_inventory, triggered: None }
    }

    /// How much may be held, bought or sold.
    pub fn max_abs_inventory(&self) -> (limit: i64)
        ensures
            limit == self@.max_abs_inventory,
    {
        self.max_abs_inventory
    }

    /// Why trading was stopped, if it was.
    pub fn is_triggered(&self) -> (reason: Option<KillReason>)
        ensures
            reason == self@.triggered,
    {
        self.triggered
    }

    /// Looks at the state of things and stops trading if there is a reason to. A
    /// switch that was triggered stays so until it is reset, whatever the state
    /// looks like later.
    pub fn evaluate(&mut self, inventory: i64, breaches: Breaches, manual_kill: bool) -> (reason:
        Option<KillReason>)
        requires
            old(self)@.triggered is None && !manual_kill ==> inventory > i64::MIN,
        ensures
            final(self)@ == old(self)@.evaluated(inventory, breaches, manual_kill),
            reason == final(self)@.triggered,
    {
        if self.triggered.is_some() {
            return self.triggered;
        }
        let reason = if manual_kill {
            Some(KillReason::Manual)
        } else if inventory > self.max_abs_inventory || -inventory > self.max_abs_inventory {
            Some(KillReason::InventoryLimit)
        } else if breaches.drawdown {
            Some(KillReason::Drawdown)
        } else if breaches.var_95 {
            Some(KillReason::ValueAtRisk)
        } else {
            None
        };
        self.triggered = reason;
        reason
    }

    /// Arms the switch again.
    pub fn reset(&mut self)
        ensures
            final(self)@ == (SwitchView { triggered: None, ..old(self)@ }),
    {
        self.triggered = None;
    }
}

/// A triggered switch gives the same reason however often it is evaluated and
/// whatever it is shown.
pub proof fn law_kill_switch_latches(switch: SwitchView, states: Seq<(i64, Breaches, bool)>)
    requires
        switch.triggered is Some,
    ensures
        switch.evaluated_all(states) == switch,
    decreases states.len(),
{
    if states.len() > 0 {
        law_kill_switch_latches(switch, states.drop_first());
    }
}

/// A switch that is still armed stops on a request, whatever else is the case.
pub proof fn law_manual_kill_overrides_everything(
    switch: SwitchView,
    inventory: i64,
    breaches: Breaches,
)
    requires
        switch.triggered is None,
    ensures
        switch.evaluated(inventory, breaches, true).triggered == Some(KillReason::Manual),
{
}

} // verus!
