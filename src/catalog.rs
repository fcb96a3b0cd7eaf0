//! The fixed catalog of rotor wirings, turnover notches and reflectors.

use vstd::prelude::*;
use crate::permutation::{inverse_perm, is_bijection, is_involution, law_inverse_of_inverse, reaches};

verus! {

/// Number of rotors in the catalog.
pub const ROTOR_COUNT: usize = 5;

/// Number of reflectors in the catalog.
pub const REFLECTOR_COUNT: usize = 5;

/// The reflector that every configuration uses.
pub const ACTIVE_REFLECTOR: usize = 1;

/// Forward wiring of catalog rotor `i`, letters A to Z written 0 to 25:
/// rotor 0: EKMFLGDQVZNTOWYHXUSPAIBRCJ
/// rotor 1: AJDKSIRUXBLHWTMCQGZNPYFVOE
/// rotor 2: BDFHJLCPRTXVZNYEIWGAKMUSQO
/// rotor 3: ESOVPZJAYQUIRHXLNFTGKDCMWB
/// rotor 4: VZBRGITYUPSDNHLXAWMJQOFECK
pub open spec fn catalog_rotor(i: int) -> Seq<u8> {
    if i == 0 {
        seq![4u8, 10, 12, 5, 11, 6, 3, 16, 21, 25, 13, 19, 14, 22, 24, 7, 23, 20, 18, 15, 0, 8, 1, 17, 2, 9]
    } else if i == 1 {
        seq![0u8, 9, 3, 10, 18, 8, 17, 20, 23, 1, 11, 7, 22, 19, 12, 2, 16, 6, 25, 13, 15, 24, 5, 21, 14, 4]
    } else if i == 2 {
        seq![1u8, 3, 5, 7, 9, 11, 2, 15, 17, 19, 23, 21, 25, 13, 24, 4, 8, 22, 6, 0, 10, 12, 20, 18, 16, 14]
    } else if i == 3 {
        seq![4u8, 18, 14, 21, 15, 25, 9, 0, 24, 16, 20, 8, 17, 7, 23, 11, 13, 5, 19, 6, 10, 3, 2, 12, 22, 1]
    } else {
        seq![21u8, 25, 1, 17, 6, 8, 19, 24, 20, 15, 18, 3, 13, 7, 11, 23, 0, 22, 12, 9, 16, 14, 5, 4, 2, 10]
    }
}

/// Turnover notches of catalog rotor `i`: rotor 0 at Q, rotor 1 at E, rotor 2 at V, rotor 3 at J, rotor 4 at Z.
pub open spec fn catalog_notches(i: int) -> Seq<u8> {
    if i == 0 {
        seq![16u8]
    } else if i == 1 {
        seq![4u8]
    } else if i == 2 {
        seq![21u8]
    } else if i == 3 {
        seq![9u8]
    } else {
        seq![25u8]
    }
}

/// Wiring of catalog reflector `i`:
/// reflector 0: EJMZALYXVBWFCRQUONTSPIKHGD
/// reflector 1: YRUHQSLDPXNGOKMIEBFZCWVJAT
/// reflector 2: FVPJIAOYEDRZXWGCTKUQSBNMHL
/// reflector 3: ENKQAUYWJICOPBLMDXZVFTHRGS
/// reflector 4: RDOBJNTKVEHMLFCWZAXGYIPSUQ
pub open spec fn catalog_reflector(i: int) -> Seq<u8> {
    if i == 0 {
        seq![4u8, 9, 12, 25, 0, 11, 24, 23, 21, 1, 22, 5, 2, 17, 16, 20, 14, 13, 19, 18, 15, 8, 10, 7, 6, 3]
    } else if i == 1 {
        seq![24u8, 17, 20, 7, 16, 18, 11, 3, 15, 23, 13, 6, 14, 10, 12, 8, 4, 1, 5, 25, 2, 22, 21, 9, 0, 19]
    } else if i == 2 {
        seq![5u8, 21, 15, 9, 8, 0, 14, 24, 4, 3, 17, 25, 23, 22, 6, 2, 19, 10, 20, 16, 18, 1, 13, 12, 7, 11]
    } else if i == 3 {
        seq![4u8, 13, 10, 16, 0, 20, 24, 22, 9, 8, 2, 14, 15, 1, 11, 12, 3, 23, 25, 21, 5, 19, 7, 17, 6, 18]
    } else {
        seq![17u8, 3, 14, 1, 9, 13, 19, 10, 21, 4, 7, 12, 11, 5, 2, 22, 25, 0, 23, 6, 24, 8, 15, 18, 20, 16]
    }
}

/// Inverse wiring of catalog rotor `i`; it witnesses that each wiring
/// is a bijection.
pub open spec fn catalog_rotor_inverse(i: int) -> Seq<u8> {
    if i == 0 {
        seq![20u8, 22, 24, 6, 0, 3, 5, 15, 21, 25, 1, 4, 2, 10, 12, 19, 7, 23, 18, 11, 17, 8, 13, 16, 14, 9]
    } else if i == 1 {
        seq![0u8, 9, 15, 2, 25, 22, 17, 11, 5, 1, 3, 10, 14, 19, 24, 20, 16, 6, 4, 13, 7, 23, 12, 8, 21, 18]
    } else if i == 2 {
        seq![19u8, 0, 6, 1, 15, 2, 18, 3, 16, 4, 20, 5, 21, 13, 25, 7, 24, 8, 23, 9, 22, 11, 17, 10, 14, 12]
    } else if i == 3 {
        seq![7u8, 25, 22, 21, 0, 17, 19, 13, 11, 6, 20, 15, 23, 16, 2, 4, 9, 12, 1, 18, 10, 3, 24, 14, 8, 5]
    } else {
        seq![16u8, 2, 24, 11, 23, 22, 4, 13, 5, 19, 25, 14, 18, 12, 21, 9, 20, 3, 10, 6, 8, 0, 17, 15, 7, 1]
    }
}

/// Forward wiring of catalog rotor `i`.
pub fn rotor_wiring(i: usize) -> (r: Vec<u8>)
    requires
        i < ROTOR_COUNT,
    ensures
        r@ == catalog_rotor(i as int),
{
    let v: Vec<u8> = if i == 0 {
        vec![4u8, 10, 12, 5, 11, 6, 3, 16, 21, 25, 13, 19, 14, 22, 24, 7, 23, 20, 18, 15, 0, 8, 1, 17, 2, 9]
    } else if i == 1 {
        vec![0u8, 9, 3, 10, 18, 8, 17, 20, 23, 1, 11, 7, 22, 19, 12, 2, 16, 6, 25, 13, 15, 24, 5, 21, 14, 4]
    } else if i == 2 {
        vec![1u8, 3, 5, 7, 9, 11, 2, 15, 17, 19, 23, 21, 25, 13, 24, 4, 8, 22, 6, 0, 10, 12, 20, 18, 16, 14]
    } else if i == 3 {
        vec![4u8, 18, 14, 21, 15, 25, 9, 0, 24, 16, 20, 8, 17, 7, 23, 11, 13, 5, 19, 6, 10, 3, 2, 12, 22, 1]
    } else {
        vec![21u8, 25, 1, 17, 6, 8, 19, 24, 20, 15, 18, 3, 13, 7, 11, 23, 0, 22, 12, 9, 16, 14, 5, 4, 2, 10]
    };
    assert(v@ =~= catalog_rotor(i as int));
    v
}

/// Turnover notches of catalog rotor `i`.
pub fn rotor_notches(i: usize) -> (r: Vec<u8>)
    requires
        i < ROTOR_COUNT,
    ensures
        r@ == catalog_notches(i as int),
{
    let v: Vec<u8> = if i == 0 {
        vec![16u8]
    } else if i == 1 {
        vec![4u8]
    } else if i == 2 {
        vec![21u8]
    } else if i == 3 {
        vec![9u8]
    } else {
        vec![25u8]
    };
    assert(v@ =~= catalog_notches(i as int));
    v
}

/// Wiring of catalog reflector `i`.
pub fn reflector_wiring(i: usize) -> (r: Vec<u8>)
    requires
        i < REFLECTOR_COUNT,
    ensures
        r@ == catalog_reflector(i as int),
{
    let v: Vec<u8> = if i == 0 {
        vec![4u8, 9, 12, 25, 0, 11, 24, 23, 21, 1, 22, 5, 2, 17, 16, 20, 14, 13, 19, 18, 15, 8, 10, 7, 6, 3]
    } else if i == 1 {
        vec![24u8, 17, 20, 7, 16, 18, 11, 3, 15, 23, 13, 6, 14, 10, 12, 8, 4, 1, 5, 25, 2, 22, 21, 9, 0, 19]
    } else if i == 2 {
        vec![5u8, 21, 15, 9, 8, 0, 14, 24, 4, 3, 17, 25, 23, 22, 6, 2, 19, 10, 20, 16, 18, 1, 13, 12, 7, 11]
    } else if i == 3 {
        vec![4u8, 13, 10, 16, 0, 20, 24, 22, 9, 8, 2, 14, 15, 1, 11, 12, 3, 23, 25, 21, 5, 19, 7, 17, 6, 18]
    } else {
        vec![17u8, 3, 14, 1, 9, 13, 19, 10, 21, 4, 7, 12, 11, 5, 2, 22, 25, 0, 23, 6, 24, 8, 15, 18, 20, 16]
    };
    assert(v@ =~= catalog_reflector(i as int));
    v
}

/// Entry `i` of `w` and of `q` are letters, and each undoes the other there.
pub open spec fn undoes_at(w: Seq<u8>, q: Seq<u8>, i: int) -> bool {
    w[i] < 26 && q[i] < 26 && q[w[i] as int] == i && w[q[i] as int] == i
}

/// `undoes_at` holds at every index below `k`, checked one index at a time.
pub open spec fn undoes_below(w: Seq<u8>, q: Seq<u8>, k: int) -> bool
    decreases k,
{
    if k <= 0 {
        true
    } else {
        undoes_at(w, q, k - 1) && undoes_below(w, q, k - 1)
    }
}

proof fn lemma_undoes_below(w: Seq<u8>, q: Seq<u8>, k: int)
    requires
        undoes_below(w, q, k),
    ensures
        forall|i: int| 0 <= i < k ==> #[trigger] undoes_at(w, q, i),
    decreases k,
{
    if k > 0 {
        lemma_undoes_below(w, q, k - 1);
    }
}

/// A table with a two-sided inverse table is a bijection.
proof fn lemma_bijection_from_inverse(w: Seq<u8>, q: Seq<u8>)
    requires
        w.len() == 26,
        q.len() == 26,
        undoes_below(w, q, 26),
    ensures
        is_bijection(w),
{
    lemma_undoes_below(w, q, 26);
    assert forall|i: int| 0 <= i < 26 implies #[trigger] w[i] < 26 by {
        assert(undoes_at(w, q, i));
    }
    assert forall|i: int, j: int| 0 <= i < 26 && 0 <= j < 26 && i != j implies w[i] != w[j] by {
        assert(undoes_at(w, q, i));
        assert(undoes_at(w, q, j));
    }
    assert forall|j: int| 0 <= j < 26 implies #[trigger] reaches(w, j) by {
        assert(undoes_at(w, q, j));
        assert(w[q[j] as int] == j);
    }
}

/// Every catalog rotor wiring is a bijection with letter notches.
pub proof fn lemma_catalog_rotor(i: int)
    requires
        0 <= i < ROTOR_COUNT,
    ensures
        is_bijection(catalog_rotor(i)),
        forall|k: int| 0 <= k < catalog_notches(i).len() ==> #[trigger] catalog_notches(i)[k] < 26,
{
    reveal_with_fuel(undoes_below, 27);
    assert(undoes_below(catalog_rotor(i), catalog_rotor_inverse(i), 26));
    lemma_bijection_from_inverse(catalog_rotor(i), catalog_rotor_inverse(i));
}

/// Every catalog reflector is a bijection that is its own inverse.
pub proof fn lemma_catalog_reflector(i: int)
    requires
        0 <= i < REFLECTOR_COUNT,
    ensures
        is_bijection(catalog_reflector(i)),
        is_involution(catalog_reflector(i)),
{
    reveal_with_fuel(undoes_below, 27);
    let w = catalog_reflector(i);
    assert(undoes_below(w, w, 26));
    lemma_bijection_from_inverse(w, w);
    lemma_undoes_below(w, w, 26);
    assert forall|k: int| 0 <= k < 26 implies #[trigger] w[w[k] as int] == k by {
        assert(undoes_at(w, w, k));
    }
}

/// Every catalog rotor and reflector is a bijection whose inverse inverts
/// back to it and undoes it on both sides; a reflector is its own inverse.
pub proof fn law_catalog_inverses(i: int)
    requires
        0 <= i < ROTOR_COUNT,
    ensures
        inverse_perm(inverse_perm(catalog_rotor(i))) == catalog_rotor(i),
        forall|v: int| 0 <= v < 26 ==> #[trigger] catalog_rotor(i)[inverse_perm(catalog_rotor(i))[v] as int] == v,
        inverse_perm(inverse_perm(catalog_reflector(i))) == catalog_reflector(i),
        forall|v: int|
            0 <= v < 26 ==> #[trigger] catalog_reflector(i)[inverse_perm(catalog_reflector(i))[v] as int] == v,
        inverse_perm(catalog_reflector(i)) == catalog_reflector(i),
{
    lemma_catalog_rotor(i);
    lemma_catalog_reflector(i);
    law_inverse_of_inverse(catalog_rotor(i));
    law_inverse_of_inverse(catalog_reflector(i));
    crate::permutation::lemma_inverse_unique(catalog_reflector(i), catalog_reflector(i));
}

} // verus!
