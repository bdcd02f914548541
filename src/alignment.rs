use vstd::prelude::*;

verus! {

/// The sign of a determinant.
#[derive(Clone, Copy, Debug, PartialEq, Eq, Structural)]
pub enum Sign {
    Negative,
    Zero,
    Positive,
}

/// Which diagonal entry of the correction matrix `S` (the identity otherwise)
/// is set to -1 so that the fitted rotation is proper.
#[derive(Clone, Copy, Debug, PartialEq, Eq, Structural)]
pub enum Flip {
    Neither,
    First,
    Second,
}

/// The fit would reflect: the covariance has a negative determinant, or a zero
/// one while the two orthogonal factors of its decomposition differ in
/// orientation.
pub open spec fn reflects(det_cov: Sign, factors_disagree: bool) -> bool {
    det_cov == Sign::Negative || (det_cov == Sign::Zero && factors_disagree)
}

/// Decides the reflection correction of a similarity fit. `factors_disagree`
/// says that `det(U) * det(V) < 0`; `second_below_first` says that the second
/// singular value is below the first. When the fit would reflect, the first
/// entry is flipped if the second singular value is the smaller one, else the
/// second entry (so a tie flips the second).
pub fn reflection_correction(det_cov: Sign, factors_disagree: bool, second_below_first: bool) -> (r:
    Flip)
    ensures
        !reflects(det_cov, factors_disagree) ==> r == Flip::Neither,
        reflects(det_cov, factors_disagree) && second_below_first ==> r == Flip::First,
        reflects(det_cov, factors_disagree) && !second_below_first ==> r == Flip::Second,
{
    let reflect = match det_cov {
        Sign::Negative => true,
        Sign::Zero => factors_disagree,
        Sign::Positive => false,
    };
    if !reflect {
        Flip::Neither
    } else if second_below_first {
        Flip::First
    } else {
        Flip::Second
    }
}

} // verus!
