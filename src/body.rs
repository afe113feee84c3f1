//! The force law of a body, and the rule that answers a contact.
use vstd::prelude::*;

verus! {

/// How a body responds to forces and to contacts.
#[derive(Clone, Copy, Debug, PartialEq, Eq, Structural)]
pub enum Behavior {
    /// Spins freely; contacts average its velocity against its neighbours.
    Normal,
    /// Driven by a restoring torsional torque; contacts leave its velocity alone.
    Spring,
    /// A fixed anchor: never integrated, and it jams whatever touches it.
    Static,
}

/// What the resolver does to the "self" body of a contact.
#[derive(Clone, Copy, Debug, PartialEq, Eq, Structural)]
pub enum Response {
    /// The body is jammed: its velocity becomes zero and its counter the pin value.
    Pin,
    /// The body's velocity is averaged against the negated velocity of the other body.
    Average,
    /// The body is left as it is.
    Ignore,
}

/// Counter value that a pinned body takes, so that later contacts in the same
/// step barely move it.
pub const PIN_COLLISIONS: u32 = 100;

/// The resolver's rule: a static "other" pins the "self" body whatever its own
/// behavior; otherwise only a normal body reacts, by averaging.
pub open spec fn response_of(me: Behavior, other: Behavior) -> Response {
    if other == Behavior::Static {
        Response::Pin
    } else {
        match me {
            Behavior::Normal => Response::Average,
            Behavior::Spring => Response::Ignore,
            Behavior::Static => Response::Ignore,
        }
    }
}

/// Chooses the response of body `me` to a contact with body `other`.
pub fn response(me: Behavior, other: Behavior) -> (r: Response)
    ensures
        r == response_of(me, other),
{
    match other {
        Behavior::Static => Response::Pin,
        _ => match me {
            Behavior::Normal => Response::Average,
            Behavior::Spring => Response::Ignore,
            Behavior::Static => Response::Ignore,
        },
    }
}

} // verus!
