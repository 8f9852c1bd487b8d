use vstd::prelude::*;

use crate::primitives::Place;

verus! {

/// A value type that converts to and from `N` field elements.
pub trait TrivialWitnessCastable<V, const N: usize>: Sized {
    fn cast_from_field_elements(parts: [V; N]) -> Self;

    fn cast_into_field_elements(self) -> [V; N];
}

/// Something that hands out the values of variables.
pub trait WitnessSource<V> {
    fn try_get_value(&self, variable: Place) -> Option<V>;

    fn get_value_unchecked(&self, variable: Place) -> V;
}

/// Blocks until the variables it was made for are resolved.
pub trait Awaiter {
    fn wait(&self);
}

/// A witness source whose values can be waited for.
pub trait WitnessSourceAwaitable<V>: WitnessSource<V> {
    type Awaiter: Awaiter;

    fn get_awaiter(&mut self, vars: &[Place]) -> Self::Awaiter;
}

} // verus!
