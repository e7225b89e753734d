//! The log entries a hand leaves behind, and their display strings.

use vstd::prelude::*;
use vstd::string::StringExecFns;
use crate::actions::{HandAction, spec_simple};
use crate::strings::{dec_rep, append_dec_i32};

verus! {

/// What a deal wrote down: the hand number and where the button was.
#[derive(Clone, Eq, PartialEq, Structural, Debug, Copy)]
pub struct DealInformation {
    pub round_number: i32,
    pub dealer_button_index: usize,
}

/// One entry of a hand's log.
#[derive(Clone, Eq, PartialEq, Debug)]
pub enum TableAction {
    TakePlayerAction(i8, HandAction),
    DealCards(DealInformation),
    AdvanceToFlop,
    AdvanceToTurn,
    AdvanceToRiver,
    EvaluateHand(String),
}

impl TableAction {
    /// The entries whose numbers are rendered carry non-negative ones,
    /// and a raise is logged with the amount actually paid.
    pub open spec fn wire_ok(self) -> bool {
        match self {
            TableAction::TakePlayerAction(p, a) => p >= 0 && a.wire_ok(),
            TableAction::DealCards(d) => d.round_number >= 0,
            _ => true,
        }
    }

    /// The display string of a log entry.
    pub open spec fn spec_display(self) -> Seq<char> {
        match self {
            TableAction::TakePlayerAction(p, a) => "Player "@ + dec_rep(p as int) + " took action "@
                + spec_simple(a) + "."@,
            TableAction::DealCards(d) => "Table dealt round "@ + dec_rep(d.round_number as int)
                + "."@,
            TableAction::AdvanceToFlop => "Table advanced to flop."@,
            TableAction::AdvanceToTurn => "Table advanced to turn."@,
            TableAction::AdvanceToRiver => "Table advanced to river."@,
            TableAction::EvaluateHand(s) => "Table evaluated hand with the following result: "@
                + s@,
        }
    }

    /// The display string of a log entry.
    pub fn to_display_string(&self) -> (r: String)
        requires
            self.wire_ok(),
        ensures
            r@ == self.spec_display(),
    {
        match self {
            TableAction::TakePlayerAction(p, a) => {
                let mut s = String::from_str("Player ");
                append_dec_i32(&mut s, *p as i32);
                s.append(" took action ");
                let a_str = a.simple_string();
                s.append(a_str.as_str());
                s.append(".");
                proof {
                    assert(s@ =~= self.spec_display());
                }
                s
            },
            TableAction::DealCards(d) => {
                let mut s = String::from_str("Table dealt round ");
                append_dec_i32(&mut s, d.round_number);
                s.append(".");
                proof {
                    assert(s@ =~= self.spec_display());
                }
                s
            },
            TableAction::AdvanceToFlop => String::from_str("Table advanced to flop."),
            TableAction::AdvanceToTurn => String::from_str("Table advanced to turn."),
            TableAction::AdvanceToRiver => String::from_str("Table advanced to river."),
            TableAction::EvaluateHand(text) => {
                let mut s = String::from_str("Table evaluated hand with the following result: ");
                s.append(text.as_str());
                proof {
                    assert(s@ =~= self.spec_display());
                }
                s
            },
        }
    }
}

} // verus!
