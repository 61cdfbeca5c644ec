//! Routing of orders to the engine of their instrument.
use vstd::prelude::*;

verus! {

/// The per-instrument engines an order can be routed to.
#[derive(Debug, Clone, Copy, PartialEq, Eq, Structural)]
pub enum Venue {
    Btc,
    Eth,
    Sol,
}

/// The engine for an instrument letter: `B`, `E` and `S`; any other letter is
/// dropped.
pub open spec fn spec_route(letter: char) -> Option<Venue> {
    if letter == 'B' {
        Some(Venue::Btc)
    } else if letter == 'E' {
        Some(Venue::Eth)
    } else if letter == 'S' {
        Some(Venue::Sol)
    } else {
        None
    }
}

pub fn route(letter: char) -> (r: Option<Venue>)
    ensures
        r == spec_route(letter),
{
    match letter {
        'B' => Some(Venue::Btc),
        'E' => Some(Venue::Eth),
        'S' => Some(Venue::Sol),
        _ => None,
    }
}

} // verus!
