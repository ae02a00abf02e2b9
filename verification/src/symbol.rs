//! Symbol equality, abstracted so that the distance functions can work
//! over characters, hex digits, whole words, or fuzzily-matched words.

use vstd::prelude::*;

verus! {

/// A symbol type whose equality test is visible to specifications.
///
/// `eqv` is the relation that the executable test [`SymEq::sym_eq`]
/// decides.  It is not required to be spec equality, nor even an
/// equivalence: `String` symbols compare by their character sequences,
/// and fuzzy word symbols match within character edit distance one,
/// which is not transitive.
pub trait SymEq: Sized {
    /// The relation decided by `sym_eq`.
    spec fn eqv(a: Self, b: Self) -> bool;

    /// Executable test deciding `eqv`.
    fn sym_eq(&self, other: &Self) -> (b: bool)
        ensures
            b == Self::eqv(*self, *other),
    ;
}

/// Whether some symbol of `s` relates to `x`.
pub open spec fn contains_eqv<T: SymEq>(s: Seq<T>, x: T) -> bool {
    exists|i: int| 0 <= i < s.len() && T::eqv(s[i], x)
}

/// `eqv` relates every symbol to itself.
pub open spec fn eqv_reflexive<T: SymEq>() -> bool {
    forall|a: T| #[trigger] T::eqv(a, a)
}

/// `eqv` does not depend on the order of its arguments.
pub open spec fn eqv_symmetric<T: SymEq>() -> bool {
    forall|a: T, b: T| #[trigger] T::eqv(a, b) == T::eqv(b, a)
}

/// `eqv` carries over chains of related symbols.
pub open spec fn eqv_transitive<T: SymEq>() -> bool {
    forall|a: T, b: T, c: T| #[trigger] T::eqv(a, b) && #[trigger] T::eqv(b, c) ==> T::eqv(a, c)
}

/// `eqv` is an equivalence relation.
pub open spec fn eqv_equivalence<T: SymEq>() -> bool {
    eqv_reflexive::<T>() && eqv_symmetric::<T>() && eqv_transitive::<T>()
}

/// `eqv` coincides with spec equality, as it does for plain symbol types
/// such as `char` and `u32`.
pub open spec fn eqv_is_eq<T: SymEq>() -> bool {
    forall|a: T, b: T| #[trigger] T::eqv(a, b) <==> a == b
}

/// A relation that coincides with equality is an equivalence, so the
/// plain symbol types satisfy every law that asks for one.
pub proof fn lemma_eqv_is_eq_equivalence<T: SymEq>()
    requires
        eqv_is_eq::<T>(),
    ensures
        eqv_equivalence::<T>(),
{
}

/// A symbol type whose relation is a genuine equivalence, as set-based
/// distances require.
pub trait LawfulSym: SymEq {
    proof fn laws()
        ensures
            eqv_equivalence::<Self>(),
    ;
}

impl SymEq for char {
    open spec fn eqv(a: char, b: char) -> bool {
        a == b
    }

    fn sym_eq(&self, other: &char) -> (b: bool) {
        *self == *other
    }
}

impl SymEq for u32 {
    open spec fn eqv(a: u32, b: u32) -> bool {
        a == b
    }

    fn sym_eq(&self, other: &u32) -> (b: bool) {
        *self == *other
    }
}

/// Whole words compare by their character sequences.
impl SymEq for String {
    open spec fn eqv(a: String, b: String) -> bool {
        a@ == b@
    }

    fn sym_eq(&self, other: &String) -> (b: bool) {
        *self == *other
    }
}

impl LawfulSym for char {
    proof fn laws() {
    }
}

impl LawfulSym for u32 {
    proof fn laws() {
    }
}

impl LawfulSym for String {
    proof fn laws() {
    }
}

} // verus!
