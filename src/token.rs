//! Direction tokens as text-based callers spell them; any other token is
//! rejected here, before it can reach the engine.
use vstd::prelude::*;

use crate::game::Direction;

verus! {

/// The upper-case form of a text.
pub uninterp spec fn upper_of(s: Seq<char>) -> Seq<char>;

/// Relies on `str::to_uppercase`: the upper-case form of the text, which
/// depends on its characters alone.
#[verifier::external_body]
fn to_upper(s: &str) -> (r: String)
    ensures
        r@ == upper_of(s@),
{
    s.to_uppercase()
}

/// The direction that an upper-case token names.
pub open spec fn named_direction(t: Seq<char>) -> Option<Direction> {
    if t == seq!['U', 'P'] {
        Some(Direction::Up)
    } else if t == seq!['D', 'O', 'W', 'N'] {
        Some(Direction::Down)
    } else if t == seq!['L', 'E', 'F', 'T'] {
        Some(Direction::Left)
    } else if t == seq!['R', 'I', 'G', 'H', 'T'] {
        Some(Direction::Right)
    } else {
        None
    }
}

/// The direction that an upper-case token names: `UP`, `DOWN`, `LEFT` or
/// `RIGHT`; `None` for any other token.
pub fn direction_of_upper(t: &String) -> (r: Option<Direction>)
    ensures
        r == named_direction(t@),
{
    proof {
        reveal_strlit("UP");
        reveal_strlit("DOWN");
        reveal_strlit("LEFT");
        reveal_strlit("RIGHT");
        assert("UP"@ =~= seq!['U', 'P']);
        assert("DOWN"@ =~= seq!['D', 'O', 'W', 'N']);
        assert("LEFT"@ =~= seq!['L', 'E', 'F', 'T']);
        assert("RIGHT"@ =~= seq!['R', 'I', 'G', 'H', 'T']);
    }
    let up = "UP".to_owned();
    let down = "DOWN".to_owned();
    let left = "LEFT".to_owned();
    let right = "RIGHT".to_owned();
    if *t == up {
        Some(Direction::Up)
    } else if *t == down {
        Some(Direction::Down)
    } else if *t == left {
        Some(Direction::Left)
    } else if *t == right {
        Some(Direction::Right)
    } else {
        None
    }
}

/// The direction that a token names in any letter case (`up`, `Left`,
/// `DOWN`, ...); `None` for an unrecognised token.
pub fn parse_direction(s: &str) -> (r: Option<Direction>)
    ensures
        r == named_direction(upper_of(s@)),
{
    let t = to_upper(s);
    direction_of_upper(&t)
}

} // verus!
