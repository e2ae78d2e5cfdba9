//! Rotation angles in degrees, brought back into one turn.
//!
//! An angle is taken as a whole number of degrees, rounded down, together
//! with a flag that says whether a fraction of a degree remains on top of
//! it. Bringing an angle back into range moves it by whole turns only, so the
//! fraction itself never changes and need not be known here.

use vstd::prelude::*;

verus! {

/// Degrees in a full turn.
pub const FULL_TURN: i64 = 360;

/// Degrees in a half turn.
pub const HALF_TURN: i64 = 180;

/// Whether the angle of `whole` degrees, plus a fraction of a degree if
/// `fractional`, has a magnitude of more than a half turn.
pub open spec fn exceeds_half_turn(whole: int, fractional: bool) -> bool {
    whole < -180 || whole > 180 || (whole == 180 && fractional)
}

/// Whether the angle of `whole` degrees, plus a fraction of a degree if
/// `fractional`, lies above `-180` and at or below `180`.
pub open spec fn in_half_open_turn(whole: int, fractional: bool) -> bool {
    if fractional {
        -180 <= whole < 180
    } else {
        -180 < whole <= 180
    }
}

/// The whole degrees of the normalized angle. An angle of at most a half
/// turn in magnitude stays as it is; any other moves by whole turns to the
/// one place above `-180` and at or below `180`.
pub open spec fn spec_normalize_degrees(whole: int, fractional: bool) -> int {
    if !exceeds_half_turn(whole, fractional) {
        whole
    } else if in_half_open_turn(whole % 360, fractional) {
        whole % 360
    } else {
        whole % 360 - 360
    }
}

/// Normalizes a rotation angle. The angle is `whole` degrees, rounded down,
/// plus a fraction of a degree if `fractional`; the result is the whole
/// degrees of the normalized angle, whose fraction is that of the angle given.
#[verifier::when_used_as_spec(spec_normalize_degrees_i64)]
pub fn normalize_degrees(whole: i64, fractional: bool) -> (normal: i64)
    ensures
        normal == spec_normalize_degrees(whole as int, fractional),
        !exceeds_half_turn(whole as int, fractional) ==> normal == whole,
        !exceeds_half_turn(normal as int, fractional),
        spec_normalize_degrees(normal as int, fractional) == normal,
{
    proof {
        lemma_normalize_in_range(whole as int, fractional);
        lemma_normalize_idempotent(whole as int, fractional);
    }
    if whole < -HALF_TURN || whole > HALF_TURN || (whole == HALF_TURN && fractional) {
        let signed = whole % FULL_TURN;
        let turned = if signed < 0 {
            signed + FULL_TURN
        } else {
            signed
        };
        if turned < HALF_TURN || (turned == HALF_TURN && !fractional) {
            turned
        } else {
            turned - FULL_TURN
        }
    } else {
        whole
    }
}

/// `spec_normalize_degrees` on machine integers.
pub open spec fn spec_normalize_degrees_i64(whole: i64, fractional: bool) -> i64 {
    spec_normalize_degrees(whole as int, fractional) as i64
}

/// A normalized angle has a magnitude of at most a half turn, differs from
/// the angle given by whole turns, and is the angle given where that one was
/// in range already.
pub proof fn lemma_normalize_in_range(whole: int, fractional: bool)
    ensures
        !exceeds_half_turn(spec_normalize_degrees(whole, fractional), fractional),
        (whole - spec_normalize_degrees(whole, fractional)) % 360 == 0,
        exceeds_half_turn(whole, fractional) ==> in_half_open_turn(
            spec_normalize_degrees(whole, fractional),
            fractional,
        ),
        !exceeds_half_turn(whole, fractional) ==> spec_normalize_degrees(whole, fractional)
            == whole,
{
}

/// Normalizing is idempotent: a normalized angle normalizes to itself.
pub proof fn lemma_normalize_idempotent(whole: int, fractional: bool)
    ensures
        spec_normalize_degrees(spec_normalize_degrees(whole, fractional), fractional)
            == spec_normalize_degrees(whole, fractional),
{
    lemma_normalize_in_range(whole, fractional);
}

/// Among the angles that differ from the given one by whole turns, only the
/// normalized one lies above `-180` and at or below `180`.
pub proof fn lemma_normalize_unique(whole: int, fractional: bool, other: int)
    requires
        exceeds_half_turn(whole, fractional),
        in_half_open_turn(other, fractional),
        (whole - other) % 360 == 0,
    ensures
        other == spec_normalize_degrees(whole, fractional),
{
    lemma_normalize_in_range(whole, fractional);
}

} // verus!
