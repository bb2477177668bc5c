//! Strategies for merging configuration values.
use vstd::prelude::*;
use vstd::std_specs::cmp::PartialEqSpec;

verus! {

/// The value a strategy leaves in place of `orig`, given `new`: `new` where `orig` equals
/// `value`, else `orig`.
pub open spec fn overridden<T: PartialEq>(value: &T, orig: &T, new: &T) -> T {
    if orig.eq_spec(value) {
        *new
    } else {
        *orig
    }
}

/// A strategy that replaces the current value by the new one exactly where the current value
/// equals `value`.
pub fn override_if_value<T: PartialEq>(value: T) -> (r: impl Fn(&mut T, T))
    requires
        T::obeys_eq_spec(),
    ensures
        forall|orig: &mut T, new: T| #[trigger] r.requires((orig, new)),
        forall|orig: &mut T, new: T, u: ()| #[trigger] r.ensures((orig, new), u) ==> *final(orig) == overridden(&value, &*orig, &new),
{
    let f = move |orig: &mut T, new: T|
        ensures
            *final(orig) == overridden(&value, &*old(orig), &new),
        {
            if *orig == value {
                *orig = new;
            }
        };
    f
}

/// A strategy that replaces the current value by the new one exactly where the current value
/// equals `T::default()`.
pub fn override_default<T: Default + PartialEq>() -> (r: impl Fn(&mut T, T))
    requires
        T::obeys_eq_spec(),
    ensures
        forall|orig: &mut T, new: T| #[trigger] r.requires((orig, new)),
        exists|d: T|
            {
                &&& call_ensures(T::default, (), d)
                &&& forall|orig: &mut T, new: T, u: ()| #[trigger] r.ensures((orig, new), u) ==> *final(orig)
                    == overridden(&d, &*orig, &new)
            },
{
    let d = T::default();
    override_if_value(d)
}

} // verus!
