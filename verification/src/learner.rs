//! The learner: records the chosen value, once.

use crate::message::{copy_opt_value, opt_value_view, value_eq, Value};
use crate::outcome::ConsistencyError;
use vstd::prelude::*;

verus! {

/// Passive recorder of the decision. After the first `handle_learn` the
/// decided value never changes.
pub struct Learner {
    decided: bool,
    decided_value: Option<Value>,
}

impl View for Learner {
    type V = Option<Seq<u8>>;

    /// The decided value, if any.
    closed spec fn view(&self) -> Option<Seq<u8>> {
        opt_value_view(self.decided_value)
    }
}

/// Whether telling `value` to a learner that holds `decided` is a conflict.
pub open spec fn learn_conflicts(decided: Option<Seq<u8>>, value: Seq<u8>) -> bool {
    decided matches Some(d) && d != value
}

/// What a learner holds after being told `value`.
pub open spec fn after_learn(decided: Option<Seq<u8>>, value: Seq<u8>) -> Option<Seq<u8>> {
    match decided {
        Some(d) => Some(d),
        None => Some(value),
    }
}

impl Learner {
    /// `decided` is set exactly when a value is held.
    pub closed spec fn wf(&self) -> bool {
        self.decided <==> self.decided_value is Some
    }

    /// A learner at bootstrap: undecided.
    pub fn new() -> (l: Learner)
        ensures
            l.wf(),
            l@ is None,
    {
        Learner { decided: false, decided_value: None }
    }

    /// Records the chosen value. Being told the same value again changes
    /// nothing; being told a different one is a fatal inconsistency, and the
    /// held value stays.
    pub fn handle_learn(&mut self, value: Value) -> (r: Result<(), ConsistencyError>)
        requires
            old(self).wf(),
        ensures
            final(self).wf(),
            final(self)@ == after_learn(old(self)@, value@),
            learn_conflicts(old(self)@, value@) ==> r == Err::<(), ConsistencyError>(
                ConsistencyError::ConflictingDecision,
            ),
            !learn_conflicts(old(self)@, value@) ==> r is Ok,
    {
        match &self.decided_value {
            Some(held) => {
                if value_eq(held, &value) {
                    Ok(())
                } else {
                    Err(ConsistencyError::ConflictingDecision)
                }
            },
            None => {
                self.decided_value = Some(value);
                self.decided = true;
                Ok(())
            },
        }
    }

    pub fn is_decided(&self) -> (d: bool)
        requires
            self.wf(),
        ensures
            d == (self@ is Some),
    {
        self.decided
    }

    /// A copy of the decided value, if any.
    pub fn decided_value(&self) -> (v: Option<Value>)
        ensures
            opt_value_view(v) == self@,
    {
        copy_opt_value(&self.decided_value)
    }
}

} // verus!
