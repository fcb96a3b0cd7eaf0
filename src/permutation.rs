//! Bijections of the 26-letter alphabet, their inverses, and the
//! modular arithmetic shared by every part of the machine.

use vstd::prelude::*;

verus! {

/// Errors reported by the machine and its builders.
#[derive(Debug, Clone, Copy, PartialEq, Eq, Structural)]
pub enum CipherError {
    /// A wiring table is not a bijection of the alphabet.
    InvalidPermutation,
    /// A key is not exactly one letter per rotor.
    InvalidKeyLength,
    /// A ring setting is not exactly one letter per rotor.
    InvalidRingLength,
}

/// A mapping of the alphabet onto itself: 26 entries, each below 26,
/// no two equal, every letter reached.
pub open spec fn is_bijection(s: Seq<u8>) -> bool {
    &&& s.len() == 26
    &&& forall|i: int| 0 <= i < 26 ==> #[trigger] s[i] < 26
    &&& forall|i: int, j: int| 0 <= i < 26 && 0 <= j < 26 && i != j ==> s[i] != s[j]
    &&& forall|j: int| 0 <= j < 26 ==> #[trigger] reaches(s, j)
}

/// Some letter is sent to `j`.
pub open spec fn reaches(s: Seq<u8>, j: int) -> bool {
    exists|i: int| 0 <= i < 26 && s[i] == j
}

/// The letter that `s` sends to `j`.
pub open spec fn preimage(s: Seq<u8>, j: int) -> int {
    choose|i: int| 0 <= i < 26 && s[i] == j
}

/// The inverse of a bijection.
pub open spec fn inverse_perm(s: Seq<u8>) -> Seq<u8> {
    Seq::new(26, |j: int| preimage(s, j) as u8)
}

/// The identity of the alphabet.
pub open spec fn identity_seq() -> Seq<u8> {
    Seq::new(26, |i: int| i as u8)
}

/// A mapping that is its own inverse.
pub open spec fn is_involution(s: Seq<u8>) -> bool {
    forall|i: int| 0 <= i < 26 ==> #[trigger] s[s[i] as int] == i
}

/// `(x + y) mod 26` on letter indices.
pub open spec fn add_mod(x: int, y: int) -> int {
    (x + y) % 26
}

/// `(x - y) mod 26` on letter indices.
pub open spec fn sub_mod(x: int, y: int) -> int {
    (x - y) % 26
}

/// The wiring `p` seen in a frame turned by `offset`:
/// `p[(value - offset) mod 26] + offset mod 26`.
pub open spec fn through(p: Seq<u8>, value: int, offset: int) -> int {
    (p[(value - offset) % 26] + offset) % 26
}

/// What `inverse_perm` is: a bijection that undoes `s` on both sides.
pub proof fn lemma_inverse_perm(s: Seq<u8>)
    requires
        is_bijection(s),
    ensures
        is_bijection(inverse_perm(s)),
        forall|i: int| 0 <= i < 26 ==> #[trigger] inverse_perm(s)[s[i] as int] == i,
        forall|j: int| 0 <= j < 26 ==> #[trigger] s[inverse_perm(s)[j] as int] == j,
{
    let q = inverse_perm(s);
    assert forall|j: int| 0 <= j < 26 implies #[trigger] s[q[j] as int] == j && q[j] < 26 by {
        assert(reaches(s, j));
    }
    assert forall|j: int| 0 <= j < 26 implies #[trigger] q[j] < 26 by {
        assert(s[q[j] as int] == j);
    }
    assert forall|i: int| 0 <= i < 26 implies #[trigger] q[s[i] as int] == i by {
        let k = s[i] as int;
        assert(s[q[k] as int] == k);
    }
    assert forall|i: int, j: int| 0 <= i < 26 && 0 <= j < 26 && i != j implies q[i] != q[j] by {
        assert(s[q[i] as int] == i);
        assert(s[q[j] as int] == j);
    }
    assert forall|j: int| 0 <= j < 26 implies #[trigger] reaches(q, j) by {
        assert(q[s[j] as int] == j);
    }
}

/// A sequence that undoes a bijection on one side is its inverse.
pub proof fn lemma_inverse_unique(s: Seq<u8>, q: Seq<u8>)
    requires
        is_bijection(s),
        q.len() == 26,
        forall|i: int| 0 <= i < 26 ==> #[trigger] q[s[i] as int] == i,
    ensures
        q == inverse_perm(s),
{
    lemma_inverse_perm(s);
    let r = inverse_perm(s);
    assert forall|j: int| 0 <= j < 26 implies q[j] == r[j] by {
        assert(s[r[j] as int] == j);
        assert(q[s[r[j] as int] as int] == r[j]);
    }
    assert(q =~= r);
}

/// Inverting twice gives back the bijection, and the inverse undoes it on
/// both sides.
pub proof fn law_inverse_of_inverse(s: Seq<u8>)
    requires
        is_bijection(s),
    ensures
        is_bijection(inverse_perm(s)),
        inverse_perm(inverse_perm(s)) == s,
        forall|i: int| 0 <= i < 26 ==> #[trigger] s[inverse_perm(s)[i] as int] == i,
        forall|i: int| 0 <= i < 26 ==> #[trigger] inverse_perm(s)[s[i] as int] == i,
{
    lemma_inverse_perm(s);
    let q = inverse_perm(s);
    lemma_inverse_unique(q, s);
}

/// Adds two letter indices modulo 26.
pub fn add26(x: u8, y: u8) -> (r: u8)
    requires
        x < 26,
        y < 26,
    ensures
        r == add_mod(x as int, y as int),
        r < 26,
{
    let res = x + y;
    if 26 <= res {
        res - 26
    } else {
        res
    }
}

/// Subtracts two letter indices modulo 26.
pub fn sub26(x: u8, y: u8) -> (r: u8)
    requires
        x < 26,
        y < 26,
    ensures
        r == sub_mod(x as int, y as int),
        r < 26,
{
    let r = add26(x, if y == 0 { 0 } else { 26 - y });
    r
}

/// Looks `value` up in the wiring `p` turned by `offset`:
/// `p[(value - offset) mod 26] + offset mod 26`.
pub fn combine_with_offset(p: &Vec<u8>, value: u8, offset: u8) -> (r: u8)
    requires
        is_bijection(p@),
        value < 26,
        offset < 26,
    ensures
        r == through(p@, value as int, offset as int),
        r < 26,
{
    let inner = sub26(value, offset);
    add26(p[inner as usize], offset)
}

/// Decides whether `mapping` is a bijection of the alphabet.
pub fn is_permutation(mapping: &Vec<u8>) -> (r: bool)
    ensures
        r == is_bijection(mapping@),
{
    if mapping.len() != 26 {
        return false;
    }
    let mut seen: Vec<bool> = vec![false; 26];
    for i in 0..26usize
        invariant
            mapping@.len() == 26,
            seen@.len() == 26,
            forall|k: int| 0 <= k < i ==> #[trigger] mapping@[k] < 26,
            forall|k: int, l: int| 0 <= k < i && 0 <= l < i && k != l ==> mapping@[k] != mapping@[l],
            forall|j: int| 0 <= j < 26 ==> (#[trigger] seen@[j] <==> exists|k: int| 0 <= k < i && mapping@[k] == j),
    {
        let v = mapping[i];
        if v >= 26 {
            return false;
        }
        if seen[v as usize] {
            let ghost j = v as int;
            assert(exists|k: int| 0 <= k < i && mapping@[k] == j);
            return false;
        }
        seen.set(v as usize, true);
        assert forall|j: int| 0 <= j < 26 implies (#[trigger] seen@[j] <==> exists|k: int| 0 <= k < i + 1 && mapping@[k] == j) by {
            if j == v as int {
                assert(mapping@[i as int] == j);
            } else if seen@[j] {
                let k = choose|k: int| 0 <= k < i && mapping@[k] == j;
                assert(0 <= k < i + 1 && mapping@[k] == j);
            }
        }
    }
    for j in 0..26usize
        invariant
            mapping@.len() == 26,
            seen@.len() == 26,
            forall|j: int| 0 <= j < 26 ==> (#[trigger] seen@[j] <==> exists|k: int| 0 <= k < 26 && mapping@[k] == j),
            forall|l: int| 0 <= l < j ==> #[trigger] reaches(mapping@, l),
    {
        if !seen[j] {
            assert(!reaches(mapping@, j as int));
            return false;
        }
        assert(seen@[j as int]);
    }
    true
}

/// The inverse of a bijection, computed in one pass.
pub fn inv_permutation(sigma: &Vec<u8>) -> (r: Vec<u8>)
    requires
        is_bijection(sigma@),
    ensures
        r@ == inverse_perm(sigma@),
{
    let mut sigma_inv: Vec<u8> = vec![0u8; 26];
    for idx in 0..26usize
        invariant
            is_bijection(sigma@),
            sigma_inv@.len() == 26,
            forall|k: int| 0 <= k < idx ==> #[trigger] sigma_inv@[sigma@[k] as int] == k,
    {
        let v = sigma[idx];
        assert(forall|k: int| 0 <= k < idx ==> sigma@[k] != v);
        sigma_inv.set(v as usize, idx as u8);
    }
    proof {
        lemma_inverse_unique(sigma@, sigma_inv@);
    }
    sigma_inv
}

/// A bijection of the alphabet kept together with its inverse.
pub struct Permutation {
    pub forward: Vec<u8>,
    pub backward: Vec<u8>,
}

impl View for Permutation {
    type V = Seq<u8>;

    open spec fn view(&self) -> Seq<u8> {
        self.forward@
    }
}

impl Permutation {
    /// The forward table is a bijection and the backward table its inverse.
    pub open spec fn wf(&self) -> bool {
        &&& is_bijection(self.forward@)
        &&& self.backward@ == inverse_perm(self.forward@)
    }

    /// Builds a permutation from its table, which must be a bijection.
    pub fn from_bijection(mapping: Vec<u8>) -> (r: Permutation)
        requires
            is_bijection(mapping@),
        ensures
            r.wf(),
            r@ == mapping@,
    {
        let backward = inv_permutation(&mapping);
        Permutation { forward: mapping, backward }
    }

    /// Builds a permutation from its table, refusing one that is not a
    /// bijection.
    pub fn build(mapping: Vec<u8>) -> (r: Result<Permutation, CipherError>)
        ensures
            is_bijection(mapping@) <==> r is Ok,
            !is_bijection(mapping@) ==> r == Err::<Permutation, CipherError>(CipherError::InvalidPermutation),
            r matches Ok(p) ==> p.wf() && p@ == mapping@,
    {
        if is_permutation(&mapping) {
            Ok(Permutation::from_bijection(mapping))
        } else {
            Err(CipherError::InvalidPermutation)
        }
    }

    /// The identity of the alphabet.
    pub fn identity() -> (r: Permutation)
        ensures
            r.wf(),
            r@ == identity_seq(),
    {
        let mut v: Vec<u8> = Vec::new();
        for i in 0..26u8
            invariant
                v@.len() == i,
                forall|k: int| 0 <= k < i ==> #[trigger] v@[k] == k,
        {
            v.push(i);
        }
        assert(is_bijection(v@)) by {
            assert forall|j: int| 0 <= j < 26 implies #[trigger] reaches(v@, j) by {
                assert(v@[j] == j);
            }
        }
        assert(v@ =~= identity_seq());
        Permutation::from_bijection(v)
    }

    /// The inverse permutation.
    pub fn invert(&self) -> (r: Permutation)
        requires
            self.wf(),
        ensures
            r.wf(),
            r@ == inverse_perm(self@),
            r.backward@ == self@,
    {
        proof {
            law_inverse_of_inverse(self@);
        }
        Permutation { forward: self.backward.clone(), backward: self.forward.clone() }
    }

    /// Where the permutation sends `value`.
    pub fn apply(&self, value: u8) -> (r: u8)
        requires
            self.wf(),
            value < 26,
        ensures
            r == self@[value as int],
            r < 26,
    {
        self.forward[value as usize]
    }

    /// Where the inverse permutation sends `value`.
    pub fn apply_inverse(&self, value: u8) -> (r: u8)
        requires
            self.wf(),
            value < 26,
        ensures
            r == inverse_perm(self@)[value as int],
            r < 26,
    {
        proof {
            lemma_inverse_perm(self@);
        }
        self.backward[value as usize]
    }
}

} // verus!
