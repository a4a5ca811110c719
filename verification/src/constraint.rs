//! Constraints between linear expressions, and their identifiers.
use vstd::prelude::*;
use vstd::string::StringExecFns;
use crate::lin::Lin;
use crate::text::{lin_text, nat_text, push_lin, push_nat};

verus! {

/// Identifies a constraint by its index.
#[derive(Debug, Clone, Copy, PartialEq, Eq, Hash, Structural)]
pub struct ConstraintId(pub usize);

impl ConstraintId {
    /// The text form: `c` and the index.
    pub fn to_text(&self) -> (s: String)
        ensures
            s@ == seq!['c'] + nat_text(self.0 as nat),
    {
        proof {
            reveal_strlit("c");
        }
        let mut s = String::new();
        s.append("c");
        push_nat(&mut s, self.0 as u64);
        s
    }
}

/// A comparison between two linear expressions.
pub enum Constraint {
    Lt { lhs: Lin, rhs: Lin },
    LEq { lhs: Lin, rhs: Lin },
    Eq { lhs: Lin, rhs: Lin },
    GEq { lhs: Lin, rhs: Lin },
    Gt { lhs: Lin, rhs: Lin },
}

/// The text form of the comparison operator of `c`, spaces around.
pub open spec fn op_text(c: Constraint) -> Seq<char> {
    match c {
        Constraint::Lt { .. } => seq![' ', '<', ' '],
        Constraint::LEq { .. } => seq![' ', '<', '=', ' '],
        Constraint::Eq { .. } => seq![' ', '=', '=', ' '],
        Constraint::GEq { .. } => seq![' ', '>', '=', ' '],
        Constraint::Gt { .. } => seq![' ', '>', ' '],
    }
}

impl Constraint {
    /// The left-hand side.
    pub open spec fn left(self) -> Lin {
        match self {
            Constraint::Lt { lhs, .. } => lhs,
            Constraint::LEq { lhs, .. } => lhs,
            Constraint::Eq { lhs, .. } => lhs,
            Constraint::GEq { lhs, .. } => lhs,
            Constraint::Gt { lhs, .. } => lhs,
        }
    }

    /// The right-hand side.
    pub open spec fn right(self) -> Lin {
        match self {
            Constraint::Lt { rhs, .. } => rhs,
            Constraint::LEq { rhs, .. } => rhs,
            Constraint::Eq { rhs, .. } => rhs,
            Constraint::GEq { rhs, .. } => rhs,
            Constraint::Gt { rhs, .. } => rhs,
        }
    }

    /// The text form: the two sides around the operator, as in `x1 <= 5`.
    pub fn to_text(&self) -> (s: String)
        ensures
            s@ == lin_text(self.left()) + op_text(*self) + lin_text(self.right()),
    {
        proof {
            reveal_strlit(" < ");
            reveal_strlit(" <= ");
            reveal_strlit(" == ");
            reveal_strlit(" >= ");
            reveal_strlit(" > ");
        }
        let mut s = String::new();
        match self {
            Constraint::Lt { lhs, rhs } => {
                push_lin(&mut s, lhs);
                s.append(" < ");
                push_lin(&mut s, rhs);
            },
            Constraint::LEq { lhs, rhs } => {
                push_lin(&mut s, lhs);
                s.append(" <= ");
                push_lin(&mut s, rhs);
            },
            Constraint::Eq { lhs, rhs } => {
                push_lin(&mut s, lhs);
                s.append(" == ");
                push_lin(&mut s, rhs);
            },
            Constraint::GEq { lhs, rhs } => {
                push_lin(&mut s, lhs);
                s.append(" >= ");
                push_lin(&mut s, rhs);
            },
            Constraint::Gt { lhs, rhs } => {
                push_lin(&mut s, lhs);
                s.append(" > ");
                push_lin(&mut s, rhs);
            },
        }
        s
    }
}

} // verus!
