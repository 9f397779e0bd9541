//! The generic secure-computation interface: one small trait per
//! operation, each over a host `Sec<T>` that names the secure carrier
//! `Item` standing for a cleartext `T`. Engines implement the traits
//! they support; none of them promises more than its signature.

use vstd::prelude::*;

verus! {

/// A host that carries secure values standing for cleartexts of type
/// `T`.
pub trait Sec<T> {
    type Item;
}

/// Introduce a public constant as a secure value.
pub trait SecLit<T>: Sec<T> {
    fn sec_lit(&mut self, constant: &T) -> Self::Item;
}

/// The additive identity.
pub trait SecAddId<T>: Sec<T> {
    fn sec_add_id(&mut self) -> Self::Item;
}

/// The additive inverse.
pub trait SecAddInv<T>: Sec<T> {
    fn sec_add_inv(&mut self, a: &Self::Item) -> Self::Item;
}

/// Secure addition.
pub trait SecAdd<T>: Sec<T> {
    fn sec_add(&mut self, a: &Self::Item, b: &Self::Item) -> Self::Item;
}

/// Secure subtraction.
pub trait SecSub<T>: Sec<T> {
    fn sec_sub(&mut self, a: &Self::Item, b: &Self::Item) -> Self::Item;
}

/// The multiplicative identity.
pub trait SecMulId<T>: Sec<T> {
    fn sec_mul_id(&mut self) -> Self::Item;
}

/// The multiplicative inverse.
pub trait SecMulInv<T>: Sec<T> {
    fn sec_mul_inv(&mut self, a: &Self::Item) -> Self::Item;
}

/// Secure multiplication.
pub trait SecMul<T>: Sec<T> {
    fn sec_mul(&mut self, a: &Self::Item, b: &Self::Item) -> Self::Item;
}

/// Secure division.
pub trait SecDiv<T>: Sec<T> {
    fn sec_div(&mut self, a: &Self::Item, b: &Self::Item) -> Self::Item;
}

/// Secure remainder.
pub trait SecMod<T>: Sec<T> {
    fn sec_mod(&mut self, a: &Self::Item, b: &Self::Item) -> Self::Item;
}

/// Secure equality, yielding a secure boolean.
pub trait SecEq<T>: Sec<bool> + Sec<T> {
    fn sec_eq(
        &mut self,
        a: &<Self as Sec<T>>::Item,
        b: &<Self as Sec<T>>::Item,
    ) -> <Self as Sec<bool>>::Item;
}

/// Secure inequality.
pub trait SecNeq<T>: Sec<bool> + Sec<T> {
    fn sec_neq(
        &mut self,
        a: &<Self as Sec<T>>::Item,
        b: &<Self as Sec<T>>::Item,
    ) -> <Self as Sec<bool>>::Item;
}

/// Secure strict order.
pub trait SecLt<T>: Sec<bool> + Sec<T> {
    fn sec_lt(
        &mut self,
        a: &<Self as Sec<T>>::Item,
        b: &<Self as Sec<T>>::Item,
    ) -> <Self as Sec<bool>>::Item;
}

/// Secure order.
pub trait SecLte<T>: Sec<bool> + Sec<T> {
    fn sec_lte(
        &mut self,
        a: &<Self as Sec<T>>::Item,
        b: &<Self as Sec<T>>::Item,
    ) -> <Self as Sec<bool>>::Item;
}

/// Secure strict reverse order.
pub trait SecGt<T>: Sec<bool> + Sec<T> {
    fn sec_gt(
        &mut self,
        a: &<Self as Sec<T>>::Item,
        b: &<Self as Sec<T>>::Item,
    ) -> <Self as Sec<bool>>::Item;
}

/// Secure reverse order.
pub trait SecGte<T>: Sec<bool> + Sec<T> {
    fn sec_gte(
        &mut self,
        a: &<Self as Sec<T>>::Item,
        b: &<Self as Sec<T>>::Item,
    ) -> <Self as Sec<bool>>::Item;
}

/// Secure choice under a secure guard.
pub trait SecCond<T>: Sec<bool> + Sec<T> {
    fn sec_cond(
        &mut self,
        a: &<Self as Sec<bool>>::Item,
        b: &<Self as Sec<T>>::Item,
        c: &<Self as Sec<T>>::Item,
    ) -> <Self as Sec<T>>::Item;
}

} // verus!
