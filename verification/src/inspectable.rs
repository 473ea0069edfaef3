//! A trait by which a type says how changes proposed to its values are
//! checked, corrected or refused.

use vstd::prelude::*;

verus! {

/// What went wrong with a proposed change.
#[derive(Debug, Clone)]
pub enum ValidationFailure<T> {
    /// The change was wrong, and this correction of it is right.
    Correctable(T),
    /// The change was wrong, and no correction was found; the text says why.
    Uncorrectable(String),
}

/// What a value is after the outcome of a validation has been applied to
/// it: the change, where it was right; the correction, where there is one;
/// the value as it was, where there is none.
pub open spec fn applied<T>(before: T, outcome: Result<T, ValidationFailure<T>>) -> T {
    match outcome {
        Ok(change) => change,
        Err(ValidationFailure::Correctable(corrected)) => corrected,
        Err(ValidationFailure::Uncorrectable(_)) => before,
    }
}

/// Applies the outcome of a validation to a value: a change that was
/// right, or its correction, takes the place of the value; without a
/// correction the value stays, and the failure is handed on.
pub fn apply_validation<T>(target: &mut T, outcome: Result<T, ValidationFailure<T>>) -> (result:
    Result<(), ValidationFailure<T>>)
    ensures
        *final(target) == applied(*old(target), outcome),
        match outcome {
            Err(ValidationFailure::Uncorrectable(reason)) => result == Err::<
                (),
                ValidationFailure<T>,
            >(ValidationFailure::Uncorrectable(reason)),
            _ => result is Ok,
        },
{
    match outcome {
        Ok(proposed_change) => {
            *target = proposed_change;
            Ok(())
        },
        Err(validation_failure) => match validation_failure {
            ValidationFailure::Correctable(corrected_change) => {
                *target = corrected_change;
                Ok(())
            },
            ValidationFailure::Uncorrectable(error_string) => Err(
                ValidationFailure::Uncorrectable(error_string),
            ),
        },
    }
}

/// `after` and `result` are what applying `outcome` to `before` leaves and
/// returns: the change or its correction in place of the value, and
/// success; or the value as it was, and the failure that has no correction.
pub open spec fn is_applied<T>(
    before: T,
    outcome: Result<T, ValidationFailure<T>>,
    after: T,
    result: Result<(), ValidationFailure<T>>,
) -> bool {
    &&& after == applied(before, outcome)
    &&& match outcome {
        Err(ValidationFailure::Uncorrectable(reason)) => result == Err::<
            (),
            ValidationFailure<T>,
        >(ValidationFailure::Uncorrectable(reason)),
        _ => result is Ok,
    }
}

/// A type that checks the changes proposed to its values.
///
/// An inspector proposes a new value; the type accepts it, corrects it, or
/// refuses it. The value before the change is at hand, so that a
/// correction can tell which part of the value the change was aimed at.
pub trait Inspectable: Sized {
    /// Checks a proposed change: returns the change where it is right, a
    /// correction of it where one is found, and the reason where none is.
    fn validate_change(&self, proposed_change: Self) -> Result<Self, ValidationFailure<Self>>;

    /// Checks a proposed change and applies it: the change or its
    /// correction takes the place of the value. Where there is no
    /// correction the value stays as it was and the failure is returned.
    ///
    /// What is applied is an outcome that [`Inspectable::validate_change`]
    /// gives for the value and the proposed change.
    fn validate_and_apply_change(&mut self, proposed_change: Self) -> (result: Result<
        (),
        ValidationFailure<Self>,
    >)
        ensures
            exists|outcome: Result<Self, ValidationFailure<Self>>| #[trigger]
                call_ensures(Self::validate_change, (&*old(self), proposed_change), outcome)
                    && is_applied(*old(self), outcome, *final(self), result),
            result is Err ==> *final(self) == *old(self) && result->Err_0 is Uncorrectable,
    {
        let outcome = self.validate_change(proposed_change);
        assert(call_ensures(Self::validate_change, (&*old(self), proposed_change), outcome));
        apply_validation(self, outcome)
    }
}

} // verus!
