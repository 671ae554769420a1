//! The errors that orders and fills are refused with.
use vstd::prelude::*;

verus! {

/// What is wrong with an order or a fill.
#[derive(Clone, Copy, Debug, PartialEq, Eq, Structural)]
pub enum OrderErrorKind {
    InvalidPrice,
    InvalidSize,
    SizeConstraint,
}

/// An error of this library.
#[derive(Clone, Debug)]
pub enum PolyfillError {
    /// An order or a fill is refused.
    Order { message: String, kind: OrderErrorKind },
}

impl View for PolyfillError {
    type V = (OrderErrorKind, Seq<char>);

    open spec fn view(&self) -> (OrderErrorKind, Seq<char>) {
        match self {
            PolyfillError::Order { message, kind } => (*kind, message@),
        }
    }
}

impl PolyfillError {
    /// The refusal of an order or a fill.
    pub fn order(message: String, kind: OrderErrorKind) -> (r: PolyfillError)
        ensures
            r@ == (kind, message@),
    {
        PolyfillError::Order { message, kind }
    }
}

/// `r` is an error exactly where `expected` is one, and the same one.
pub open spec fn refused_with<T>(
    r: Result<T, PolyfillError>,
    expected: Option<(OrderErrorKind, Seq<char>)>,
) -> bool {
    match r {
        Ok(_) => expected is None,
        Err(e) => expected == Some(e@),
    }
}

} // verus!
