//! A quota tracker that notifies a messenger when usage nears its limit.

use vstd::prelude::*;

verus! {

/// Receives the notices that a [`LimitTracker`] raises.
///
/// `send` takes `&self`: an implementation that records what it was sent
/// does so through interior mutability.
pub trait Messenger {
    /// Takes one notice.
    fn send(&self, msg: &str);
}

/// How close to its limit a usage value is.
#[derive(Clone, Copy, Debug, PartialEq, Eq, Structural)]
pub enum Alert {
    /// The value is above the limit.
    OverQuota,
    /// The value is above nine tenths of the limit.
    Urgent,
    /// The value is above three quarters of the limit.
    Warning,
}

/// The alert that a usage of `value` out of `max` calls for, if any.
///
/// The ratios are compared exactly, as fractions of integers. With `max == 0`
/// every positive value is over quota and zero raises nothing.
pub open spec fn alert_for(value: nat, max: nat) -> Option<Alert> {
    if value > max {
        Some(Alert::OverQuota)
    } else if 10 * value > 9 * max {
        Some(Alert::Urgent)
    } else if 4 * value > 3 * max {
        Some(Alert::Warning)
    } else {
        None
    }
}

impl Alert {
    /// How grave the alert is: a warning is one, an urgent warning two,
    /// being over quota three.
    pub open spec fn severity(self) -> nat {
        match self {
            Alert::Warning => 1,
            Alert::Urgent => 2,
            Alert::OverQuota => 3,
        }
    }

    /// The text sent for this alert.
    pub open spec fn text(self) -> Seq<char> {
        match self {
            Alert::OverQuota => "Error: You are over your quota!"@,
            Alert::Urgent => "Urgent warning. You used up over 90% of your quota."@,
            Alert::Warning => "Warning. You used up over 75% of your quota."@,
        }
    }

    /// The text sent for this alert.
    pub fn message(self) -> (msg: &'static str)
        ensures
            msg@ == self.text(),
    {
        match self {
            Alert::OverQuota => "Error: You are over your quota!",
            Alert::Urgent => "Urgent warning. You used up over 90% of your quota.",
            Alert::Warning => "Warning. You used up over 75% of your quota.",
        }
    }
}

/// How grave what a usage calls for is: nothing is zero, an alert its
/// severity.
pub open spec fn gravity(alert: Option<Alert>) -> nat {
    match alert {
        Some(alert) => alert.severity(),
        None => 0,
    }
}

/// A larger value never calls for a milder alert; and an alert depends on
/// the value and the limit alone.
pub proof fn lemma_alert_grows_with_value(smaller: nat, larger: nat, max: nat)
    requires
        smaller <= larger,
    ensures
        gravity(alert_for(smaller, max)) <= gravity(alert_for(larger, max)),
{
}

/// With a limit of zero nothing is due for zero, and every positive value
/// is over quota.
pub proof fn lemma_alert_without_limit(value: nat)
    ensures
        alert_for(value, 0) == if value > 0 {
            Some(Alert::OverQuota)
        } else {
            None
        },
{
}

/// Decides which alert a usage of `value` out of `max` calls for.
pub fn classify(value: usize, max: usize) -> (alert: Option<Alert>)
    ensures
        alert == alert_for(value as nat, max as nat),
{
    let v: u128 = value as u128;
    let m: u128 = max as u128;
    if v > m {
        Some(Alert::OverQuota)
    } else if 10 * v > 9 * m {
        Some(Alert::Urgent)
    } else if 4 * v > 3 * m {
        Some(Alert::Warning)
    } else {
        None
    }
}

/// Tracks a value against a limit and tells a messenger when the value
/// comes close to the limit or passes it.
pub struct LimitTracker<'a, T: Messenger> {
    messenger: &'a T,
    value: usize,
    max: usize,
}

impl<'a, T: Messenger> LimitTracker<'a, T> {
    /// The value last set.
    pub closed spec fn spec_value(&self) -> usize {
        self.value
    }

    /// The limit.
    pub closed spec fn spec_max(&self) -> usize {
        self.max
    }

    /// The messenger that is notified.
    pub closed spec fn spec_messenger(&self) -> &'a T {
        self.messenger
    }

    /// A tracker with limit `max` and value zero.
    pub fn new(messenger: &'a T, max: usize) -> (tracker: LimitTracker<'a, T>)
        ensures
            tracker.spec_value() == 0,
            tracker.spec_max() == max,
            tracker.spec_messenger() == messenger,
    {
        LimitTracker { messenger, value: 0, max }
    }

    /// The value last set.
    #[verifier::when_used_as_spec(spec_value)]
    pub fn value(&self) -> (v: usize)
        ensures
            v == self.spec_value(),
    {
        self.value
    }

    /// The limit.
    #[verifier::when_used_as_spec(spec_max)]
    pub fn max(&self) -> (m: usize)
        ensures
            m == self.spec_max(),
    {
        self.max
    }

    /// The alert that the current value calls for.
    pub fn alert(&self) -> (alert: Option<Alert>)
        ensures
            alert == alert_for(self.spec_value() as nat, self.spec_max() as nat),
    {
        classify(self.value, self.max)
    }

    /// Records `value` and sends the messenger the text of the alert that
    /// the new value calls for, if it calls for one.
    ///
    /// Where an alert is due, `send` has been called on the messenger with
    /// the text of that alert, and has returned. What the messenger does
    /// with it is its own affair: it is reached by `&self`, so nothing of
    /// it is seen to change.
    pub fn set_value(&mut self, value: usize)
        ensures
            final(self).spec_value() == value,
            final(self).spec_max() == old(self).spec_max(),
            final(self).spec_messenger() == old(self).spec_messenger(),
            alert_for(value as nat, old(self).spec_max() as nat) matches Some(alert) ==> exists|
                msg: &str,
            |
                msg@ == alert.text() && call_ensures(
                    T::send,
                    (old(self).spec_messenger(), msg),
                    (),
                ),
    {
        self.value = value;
        match self.alert() {
            Some(alert) => self.messenger.send(alert.message()),
            None => {},
        }
    }
}

} // verus!
