//! The rotor stack: stepping, and the substitution of one letter per
//! keystroke.

use vstd::prelude::*;
use crate::catalog::{
    catalog_notches, catalog_reflector, catalog_rotor, lemma_catalog_reflector,
    lemma_catalog_rotor, reflector_wiring, rotor_notches, rotor_wiring, ACTIVE_REFLECTOR,
    REFLECTOR_COUNT, ROTOR_COUNT,
};
use crate::permutation::{
    add26, add_mod, combine_with_offset, identity_seq, inverse_perm, is_bijection,
    is_involution, lemma_inverse_perm, sub26, sub_mod, through, Permutation,
};

verus! {

/// A rotor: its wiring and the positions at which it signals turnover.
pub struct Rotor {
    pub wiring: Permutation,
    pub notches: Vec<u8>,
}

impl Rotor {
    /// The wiring is a permutation and every notch is a letter.
    pub open spec fn wf(&self) -> bool {
        &&& self.wiring.wf()
        &&& forall|k: int| 0 <= k < self.notches@.len() ==> #[trigger] self.notches@[k] < 26
    }

    /// Whether the rotor signals turnover when it stands at `position`.
    pub fn at_notch(&self, position: u8) -> (r: bool)
        ensures
            r == self.notches@.contains(position),
    {
        let mut k: usize = 0;
        while k < self.notches.len()
            invariant
                k <= self.notches@.len(),
                forall|l: int| 0 <= l < k ==> self.notches@[l] != position,
            decreases self.notches@.len() - k,
        {
            if self.notches[k] == position {
                assert(self.notches@[k as int] == position);
                return true;
            }
            k = k + 1;
        }
        false
    }
}

/// The catalog, turned into permutations once: every rotor, every
/// reflector, and the identity used as a plugboard without cables.
pub struct World {
    pub rotors: Vec<Rotor>,
    pub reflectors: Vec<Permutation>,
    pub id: Permutation,
}

impl World {
    /// Holds exactly the catalog.
    pub open spec fn wf(&self) -> bool {
        &&& self.rotors@.len() == ROTOR_COUNT
        &&& self.reflectors@.len() == REFLECTOR_COUNT
        &&& forall|i: int| 0 <= i < ROTOR_COUNT ==> {
            &&& (#[trigger] self.rotors@[i]).wf()
            &&& self.rotors@[i].wiring@ == catalog_rotor(i)
            &&& self.rotors@[i].notches@ == catalog_notches(i)
        }
        &&& forall|i: int| 0 <= i < REFLECTOR_COUNT ==> {
            &&& (#[trigger] self.reflectors@[i]).wf()
            &&& self.reflectors@[i]@ == catalog_reflector(i)
        }
        &&& self.id.wf()
        &&& self.id@ == identity_seq()
    }
}

/// Builds the catalog of rotors and reflectors.
pub fn world() -> (r: World)
    ensures
        r.wf(),
{
    let mut rotors: Vec<Rotor> = Vec::new();
    for rotor_idx in 0..ROTOR_COUNT
        invariant
            rotors@.len() == rotor_idx,
            forall|i: int| 0 <= i < rotor_idx ==> {
                &&& (#[trigger] rotors@[i]).wf()
                &&& rotors@[i].wiring@ == catalog_rotor(i)
                &&& rotors@[i].notches@ == catalog_notches(i)
            },
    {
        proof {
            lemma_catalog_rotor(rotor_idx as int);
        }
        let sigma = Permutation::from_bijection(rotor_wiring(rotor_idx));
        let notches = rotor_notches(rotor_idx);
        rotors.push(Rotor { wiring: sigma, notches });
    }
    let mut reflectors: Vec<Permutation> = Vec::new();
    for reflector_idx in 0..REFLECTOR_COUNT
        invariant
            reflectors@.len() == reflector_idx,
            forall|i: int| 0 <= i < reflector_idx ==> {
                &&& (#[trigger] reflectors@[i]).wf()
                &&& reflectors@[i]@ == catalog_reflector(i)
            },
    {
        proof {
            lemma_catalog_reflector(reflector_idx as int);
        }
        reflectors.push(Permutation::from_bijection(reflector_wiring(reflector_idx)));
    }
    let id = Permutation::identity();
    World { rotors, reflectors, id }
}

/// The machine as mathematics: rotor wirings and notches (index 0 is the
/// fastest rotor), reflector, plugboard, ring offsets and stepping mode.
pub struct MachineSpec {
    pub wirings: Seq<Seq<u8>>,
    pub notches: Seq<Seq<u8>>,
    pub reflector: Seq<u8>,
    pub plugboard: Seq<u8>,
    pub rings: Seq<u8>,
    pub double_stepping: bool,
}

impl MachineSpec {
    /// At least one rotor; every wiring a bijection; a self-inverse
    /// reflector; a bijective plugboard; one ring letter per rotor.
    pub open spec fn wf(self) -> bool {
        &&& self.wirings.len() >= 1
        &&& self.notches.len() == self.wirings.len()
        &&& self.rings.len() == self.wirings.len()
        &&& forall|i: int| 0 <= i < self.wirings.len() ==> is_bijection(#[trigger] self.wirings[i])
        &&& forall|i: int| 0 <= i < self.rings.len() ==> #[trigger] self.rings[i] < 26
        &&& is_bijection(self.reflector)
        &&& is_involution(self.reflector)
        &&& is_bijection(self.plugboard)
    }

    /// One position per rotor, each a letter.
    pub open spec fn valid_state(self, state: Seq<u8>) -> bool {
        &&& state.len() == self.wirings.len()
        &&& forall|i: int| 0 <= i < state.len() ==> #[trigger] state[i] < 26
    }
}

/// The machine built from catalog rotors `rotor_config` (fastest first),
/// the active reflector, no plugboard cables, and double stepping.
pub open spec fn catalog_machine(rotor_config: Seq<u8>, rings: Seq<u8>) -> MachineSpec {
    MachineSpec {
        wirings: rotor_config.map_values(|i: u8| catalog_rotor(i as int)),
        notches: rotor_config.map_values(|i: u8| catalog_notches(i as int)),
        reflector: catalog_reflector(ACTIVE_REFLECTOR as int),
        plugboard: identity_seq(),
        rings,
        double_stepping: true,
    }
}

/// Rotor `i` stands at one of its notches.
pub open spec fn at_notch(m: MachineSpec, state: Seq<u8>, i: int) -> bool {
    m.notches[i].contains(state[i])
}

/// Double stepping: with `g` the highest index below `k` whose rotor is at
/// a notch, `g + 2` rotors move; with none, only the fastest.
pub open spec fn gated_count(m: MachineSpec, state: Seq<u8>, k: int) -> int
    decreases k,
{
    if k <= 0 {
        1
    } else if at_notch(m, state, k - 1) {
        k + 1
    } else {
        gated_count(m, state, k - 1)
    }
}

/// Odometer stepping from rotor `i` on: every rotor moves up to and
/// including the first one, from `i`, that is not at a notch (or the last).
pub open spec fn carry_count(m: MachineSpec, state: Seq<u8>, i: int) -> int
    decreases state.len() - i,
{
    if i + 1 >= state.len() || !at_notch(m, state, i) {
        i + 1
    } else {
        carry_count(m, state, i + 1)
    }
}

/// How many rotors, from the fastest, move on the next keystroke.
pub open spec fn advance_count(m: MachineSpec, state: Seq<u8>) -> int {
    if m.double_stepping {
        gated_count(m, state, state.len() - 1)
    } else {
        carry_count(m, state, 0)
    }
}

/// `state` with its first `count` positions moved on by one.
pub open spec fn advance_prefix(state: Seq<u8>, count: int) -> Seq<u8> {
    Seq::new(
        state.len(),
        |j: int|
            if j < count {
                add_mod(state[j] as int, 1) as u8
            } else {
                state[j]
            },
    )
}

/// The positions after one keystroke.
pub open spec fn stepped(m: MachineSpec, state: Seq<u8>) -> Seq<u8> {
    advance_prefix(state, advance_count(m, state))
}

/// The turn of rotor `i`'s wiring: its ring offset less its position.
pub open spec fn rotor_offset(m: MachineSpec, state: Seq<u8>, i: int) -> int {
    sub_mod(m.rings[i] as int, state[i] as int)
}

/// `v` through rotors `0..k`, fastest first, on the way in.
pub open spec fn forward_pass(m: MachineSpec, state: Seq<u8>, v: int, k: int) -> int
    decreases k,
{
    if k <= 0 {
        v
    } else {
        through(m.wirings[k - 1], forward_pass(m, state, v, k - 1), rotor_offset(m, state, k - 1))
    }
}

/// `v` back through rotors `k - 1` down to `0`, by the inverse wirings.
pub open spec fn backward_pass(m: MachineSpec, state: Seq<u8>, v: int, k: int) -> int
    decreases k,
{
    if k <= 0 {
        v
    } else {
        backward_pass(
            m,
            state,
            through(inverse_perm(m.wirings[k - 1]), v, rotor_offset(m, state, k - 1)),
            k - 1,
        )
    }
}

/// The letter that `v` becomes with the rotors at `state`: plugboard,
/// rotors in, reflector, rotors out, inverse plugboard.
pub open spec fn substitute(m: MachineSpec, state: Seq<u8>, v: int) -> int {
    let n = m.wirings.len() as int;
    let inward = forward_pass(m, state, m.plugboard[v] as int, n);
    let outward = backward_pass(m, state, m.reflector[inward] as int, n);
    inverse_perm(m.plugboard)[outward] as int
}

/// The letters that `text` becomes from positions `state`: each keystroke
/// steps, then substitutes.
pub open spec fn run_letters(m: MachineSpec, state: Seq<u8>, text: Seq<u8>) -> Seq<u8>
    decreases text.len(),
{
    if text.len() == 0 {
        Seq::empty()
    } else {
        let next = stepped(m, state);
        seq![substitute(m, next, text[0] as int) as u8] + run_letters(m, next, text.drop_first())
    }
}

/// One machine set up for a trial: rotors (fastest first), reflector,
/// plugboard and ring offsets, borrowed from a `World`.
pub struct Config<'a> {
    pub rotors: Vec<&'a Rotor>,
    pub reflector: &'a Permutation,
    pub plugboard: &'a Permutation,
    pub rings: &'a Vec<u8>,
    pub double_stepping: bool,
}

impl<'a> View for Config<'a> {
    type V = MachineSpec;

    open spec fn view(&self) -> MachineSpec {
        MachineSpec {
            wirings: self.rotors@.map_values(|r: &Rotor| r.wiring@),
            notches: self.rotors@.map_values(|r: &Rotor| r.notches@),
            reflector: self.reflector@,
            plugboard: self.plugboard@,
            rings: self.rings@,
            double_stepping: self.double_stepping,
        }
    }
}

impl<'a> Config<'a> {
    /// Every part is well formed and the whole describes a valid machine.
    pub open spec fn wf(&self) -> bool {
        &&& self@.wf()
        &&& forall|i: int| 0 <= i < self.rotors@.len() ==> (#[trigger] self.rotors@[i]).wf()
        &&& self.reflector.wf()
        &&& self.plugboard.wf()
    }

    /// Chooses between double stepping and plain odometer stepping.
    pub fn set_double_stepping(&mut self, on: bool)
        ensures
            final(self)@ == (MachineSpec { double_stepping: on, ..old(self)@ }),
            final(self).wf() == old(self).wf(),
    {
        self.double_stepping = on;
    }
}

/// Every position is a letter of the catalog and the lengths agree.
pub open spec fn valid_settings(rotor_config: Seq<u8>, rings: Seq<u8>) -> bool {
    &&& rotor_config.len() >= 1
    &&& rings.len() == rotor_config.len()
    &&& forall|i: int| 0 <= i < rotor_config.len() ==> #[trigger] rotor_config[i] < ROTOR_COUNT
    &&& forall|i: int| 0 <= i < rings.len() ==> #[trigger] rings[i] < 26
}

/// The machine of catalog rotors `rotor_config` (fastest first) with ring
/// offsets `rings`, the active reflector and no plugboard cables.
pub fn create_config<'a>(world: &'a World, rotor_config: &Vec<u8>, rings: &'a Vec<u8>) -> (r:
    Config<'a>)
    requires
        world.wf(),
        valid_settings(rotor_config@, rings@),
    ensures
        r.wf(),
        r@ == catalog_machine(rotor_config@, rings@),
{
    let mut rotors: Vec<&'a Rotor> = Vec::new();
    for k in 0..rotor_config.len()
        invariant
            world.wf(),
            valid_settings(rotor_config@, rings@),
            rotors@.len() == k,
            forall|i: int| 0 <= i < k ==> #[trigger] rotors@[i] == world.rotors@[rotor_config@[i] as int],
    {
        rotors.push(&world.rotors[rotor_config[k] as usize]);
    }
    let r = Config {
        rotors,
        reflector: &world.reflectors[ACTIVE_REFLECTOR],
        plugboard: &world.id,
        rings,
        double_stepping: true,
    };
    proof {
        lemma_catalog_reflector(ACTIVE_REFLECTOR as int);
        let m = catalog_machine(rotor_config@, rings@);
        assert(r@.wirings =~= m.wirings);
        assert(r@.notches =~= m.notches);
        assert forall|i: int| 0 <= i < r@.wirings.len() implies is_bijection(#[trigger] r@.wirings[i]) by {
            assert(r.rotors@[i].wf());
        }
        assert(r@ == m);
    }
    r
}

/// Advances the positions by one keystroke.
pub fn step(state: &mut Vec<u8>, config: &Config)
    requires
        config.wf(),
        config@.valid_state(old(state)@),
    ensures
        final(state)@ == stepped(config@, old(state)@),
        config@.valid_state(final(state)@),
{
    let ghost m = config@;
    let ghost s0 = state@;
    let n = config.rotors.len();
    let mut count: usize = 1;
    if config.double_stepping {
        for idx in 0..n - 1
            invariant
                config.wf(),
                m == config@,
                s0 == state@,
                n == s0.len(),
                n == config.rotors@.len(),
                count == gated_count(m, s0, idx as int),
        {
            assert(m.notches[idx as int] == config.rotors@[idx as int].notches@);
            if config.rotors[idx].at_notch(state[idx]) {
                count = idx + 2;
            }
        }
    } else {
        let mut idx: usize = 0;
        while idx + 1 < n && config.rotors[idx].at_notch(state[idx])
            invariant
                config.wf(),
                m == config@,
                s0 == state@,
                n == s0.len(),
                n == config.rotors@.len(),
                idx < n,
                carry_count(m, s0, 0) == carry_count(m, s0, idx as int),
            decreases n - idx,
        {
            assert(m.notches[idx as int] == config.rotors@[idx as int].notches@);
            idx = idx + 1;
        }
        count = idx + 1;
    }
    proof {
        if m.double_stepping {
            lemma_gated_count_bounds(m, s0, n - 1);
        } else {
            lemma_carry_count_bounds(m, s0, 0);
        }
    }
    for idx in 0..count
        invariant
            m == config@,
            n == s0.len(),
            count <= n,
            m.valid_state(s0),
            state@ == advance_prefix(s0, idx as int),
    {
        let moved = add26(state[idx], 1);
        state.set(idx, moved);
        assert(state@ =~= advance_prefix(s0, idx + 1));
    }
}

proof fn lemma_gated_count_bounds(m: MachineSpec, state: Seq<u8>, k: int)
    requires
        0 <= k,
    ensures
        1 <= gated_count(m, state, k) <= k + 1,
    decreases k,
{
    if k > 0 {
        lemma_gated_count_bounds(m, state, k - 1);
    }
}

proof fn lemma_carry_count_bounds(m: MachineSpec, state: Seq<u8>, i: int)
    requires
        0 <= i < state.len(),
    ensures
        i + 1 <= carry_count(m, state, i) <= state.len(),
    decreases state.len() - i,
{
    if i + 1 < state.len() && at_notch(m, state, i) {
        lemma_carry_count_bounds(m, state, i + 1);
    }
}

/// Steps the rotors, then substitutes `value`.
pub fn encrypt_one(value: u8, state: &mut Vec<u8>, config: &Config) -> (r: u8)
    requires
        config.wf(),
        config@.valid_state(old(state)@),
        value < 26,
    ensures
        final(state)@ == stepped(config@, old(state)@),
        config@.valid_state(final(state)@),
        r == substitute(config@, final(state)@, value as int),
        r < 26,
{
    step(state, config);
    let ghost m = config@;
    let ghost st = state@;
    let n = config.rotors.len();
    let mut value = config.plugboard.apply(value);
    let ghost v0 = value as int;
    for idx in 0..n
        invariant
            config.wf(),
            m == config@,
            st == state@,
            m.valid_state(st),
            n == m.wirings.len(),
            value < 26,
            value == forward_pass(m, st, v0, idx as int),
    {
        let rotor = config.rotors[idx];
        assert(rotor.wf());
        let offset = sub26(config.rings[idx], state[idx]);
        value = combine_with_offset(&rotor.wiring.forward, value, offset);
    }
    value = config.reflector.apply(value);
    let ghost v1 = value as int;
    let mut idx = n;
    while idx > 0
        invariant
            config.wf(),
            m == config@,
            st == state@,
            m.valid_state(st),
            n == m.wirings.len(),
            idx <= n,
            value < 26,
            backward_pass(m, st, value as int, idx as int) == backward_pass(m, st, v1, n as int),
        decreases idx,
    {
        idx = idx - 1;
        let rotor = config.rotors[idx];
        assert(rotor.wf());
        proof {
            lemma_inverse_perm(rotor.wiring@);
        }
        let offset = sub26(config.rings[idx], state[idx]);
        value = combine_with_offset(&rotor.wiring.backward, value, offset);
    }
    config.plugboard.apply_inverse(value)
}

/// The sequence reversed.
pub fn reversed<T: Copy>(v: &Vec<T>) -> (r: Vec<T>)
    ensures
        r@ == v@.reverse(),
{
    let mut r: Vec<T> = Vec::new();
    let mut k = v.len();
    while k > 0
        invariant
            k <= v@.len(),
            r@ == v@.subrange(k as int, v@.len() as int).reverse(),
        decreases k,
    {
        k = k - 1;
        r.push(v[k]);
        assert(r@ =~= v@.subrange(k as int, v@.len() as int).reverse());
    }
    assert(v@.subrange(0, v@.len() as int) =~= v@);
    r
}

/// Encrypts letter indices with catalog rotors `rotor_config` (fastest
/// first), starting positions `key` (slowest first, as written) and ring
/// offsets `rings`.
pub fn encrypt_u8(
    world: &World,
    input: &Vec<u8>,
    rotor_config: &Vec<u8>,
    key: &Vec<u8>,
    rings: &Vec<u8>,
) -> (r: Vec<u8>)
    requires
        world.wf(),
        valid_settings(rotor_config@, rings@),
        key@.len() == rotor_config@.len(),
        forall|i: int| 0 <= i < key@.len() ==> #[trigger] key@[i] < 26,
        forall|i: int| 0 <= i < input@.len() ==> #[trigger] input@[i] < 26,
    ensures
        r@ == run_letters(catalog_machine(rotor_config@, rings@), key@.reverse(), input@),
{
    let config = create_config(world, rotor_config, rings);
    let ghost m = config@;
    let mut state = reversed(key);
    let mut out: Vec<u8> = Vec::new();
    assert(input@.skip(0) =~= input@);
    assert(out@ + run_letters(m, state@, input@) =~= run_letters(m, state@, input@));
    for k in 0..input.len()
        invariant
            config.wf(),
            m == config@,
            m.valid_state(state@),
            forall|i: int| 0 <= i < input@.len() ==> #[trigger] input@[i] < 26,
            out@ + run_letters(m, state@, input@.skip(k as int)) == run_letters(m, key@.reverse(), input@),
    {
        let ghost before = state@;
        let c = encrypt_one(input[k], &mut state, &config);
        proof {
            let rest = input@.skip(k as int);
            assert(rest.drop_first() =~= input@.skip(k + 1));
            assert(rest[0] == input@[k as int]);
            assert(out@.push(c) + run_letters(m, state@, input@.skip(k + 1)) =~= out@ + run_letters(m, before, rest));
        }
        out.push(c);
    }
    proof {
        assert(input@.skip(input@.len() as int) =~= Seq::<u8>::empty());
        assert(out@ + Seq::<u8>::empty() =~= out@);
    }
    out
}

/// A wiring turned by `offset` is undone by its inverse turned by the same
/// offset, in either order.
pub proof fn lemma_through_inverse(p: Seq<u8>, v: int, offset: int)
    requires
        is_bijection(p),
        0 <= v < 26,
    ensures
        0 <= through(p, v, offset) < 26,
        through(inverse_perm(p), through(p, v, offset), offset) == v,
        through(p, through(inverse_perm(p), v, offset), offset) == v,
{
    lemma_inverse_perm(p);
    let q = inverse_perm(p);
    let a = (v - offset) % 26;
    let y = through(p, v, offset);
    assert((y - offset) % 26 == p[a] as int);
    assert((q[p[a] as int] + offset) % 26 == v);
    let b = through(q, v, offset);
    assert((b - offset) % 26 == q[a] as int);
    assert((p[q[a] as int] + offset) % 26 == v);
}

/// Every letter stays a letter through the rotors, either way.
pub proof fn lemma_passes_in_range(m: MachineSpec, state: Seq<u8>, v: int, k: int)
    requires
        m.wf(),
        m.valid_state(state),
        0 <= v < 26,
        0 <= k <= m.wirings.len(),
    ensures
        0 <= forward_pass(m, state, v, k) < 26,
        0 <= backward_pass(m, state, v, k) < 26,
    decreases k,
{
    if k > 0 {
        lemma_passes_in_range(m, state, v, k - 1);
        let w = through(inverse_perm(m.wirings[k - 1]), v, rotor_offset(m, state, k - 1));
        lemma_inverse_perm(m.wirings[k - 1]);
        lemma_through_inverse(inverse_perm(m.wirings[k - 1]), v, rotor_offset(m, state, k - 1));
        lemma_passes_in_range(m, state, w, k - 1);
    }
}

/// The way back through the rotors undoes the way in, and the reverse.
pub proof fn lemma_passes_inverse(m: MachineSpec, state: Seq<u8>, v: int, k: int)
    requires
        m.wf(),
        m.valid_state(state),
        0 <= v < 26,
        0 <= k <= m.wirings.len(),
    ensures
        backward_pass(m, state, forward_pass(m, state, v, k), k) == v,
        forward_pass(m, state, backward_pass(m, state, v, k), k) == v,
    decreases k,
{
    if k > 0 {
        let p = m.wirings[k - 1];
        let off = rotor_offset(m, state, k - 1);
        lemma_passes_inverse(m, state, v, k - 1);
        lemma_passes_in_range(m, state, v, k - 1);
        lemma_through_inverse(p, forward_pass(m, state, v, k - 1), off);
        lemma_inverse_perm(p);
        let w = through(inverse_perm(p), v, off);
        lemma_through_inverse(p, v, off);
        lemma_through_inverse(inverse_perm(p), v, off);
        lemma_passes_inverse(m, state, w, k - 1);
        assert(inverse_perm(inverse_perm(p)) == p) by {
            crate::permutation::law_inverse_of_inverse(p);
        }
    }
}

/// A letter substituted twice with the rotors at the same positions comes
/// back: the reflector makes each keystroke its own inverse.
pub proof fn lemma_substitute_involution(m: MachineSpec, state: Seq<u8>, v: int)
    requires
        m.wf(),
        m.valid_state(state),
        0 <= v < 26,
    ensures
        0 <= substitute(m, state, v) < 26,
        substitute(m, state, substitute(m, state, v)) == v,
{
    let n = m.wirings.len() as int;
    let pb = m.plugboard;
    lemma_inverse_perm(pb);
    let a = pb[v] as int;
    lemma_passes_in_range(m, state, a, n);
    let f = forward_pass(m, state, a, n);
    let r = m.reflector[f] as int;
    lemma_passes_in_range(m, state, r, n);
    let b = backward_pass(m, state, r, n);
    let s = inverse_perm(pb)[b] as int;
    assert(pb[s] as int == b);
    lemma_passes_inverse(m, state, r, n);
    assert(forward_pass(m, state, b, n) == r);
    assert(m.reflector[r] as int == f);
    lemma_passes_inverse(m, state, a, n);
    assert(backward_pass(m, state, f, n) == a);
}

/// Positions stay letters after a keystroke.
pub proof fn lemma_stepped_valid(m: MachineSpec, state: Seq<u8>)
    requires
        m.valid_state(state),
    ensures
        m.valid_state(stepped(m, state)),
{
}

/// Encrypting the output again from the same starting positions gives the
/// input back.
pub proof fn law_run_letters_involution(m: MachineSpec, state: Seq<u8>, text: Seq<u8>)
    requires
        m.wf(),
        m.valid_state(state),
        forall|i: int| 0 <= i < text.len() ==> #[trigger] text[i] < 26,
    ensures
        run_letters(m, state, run_letters(m, state, text)) == text,
    decreases text.len(),
{
    if text.len() > 0 {
        let next = stepped(m, state);
        lemma_stepped_valid(m, state);
        lemma_substitute_involution(m, next, text[0] as int);
        let out = run_letters(m, state, text);
        let rest = text.drop_first();
        law_run_letters_involution(m, next, rest);
        assert(out[0] as int == substitute(m, next, text[0] as int));
        assert(out.drop_first() =~= run_letters(m, next, rest));
        assert(run_letters(m, state, out) =~= text);
    }
}

/// The double-stepping anomaly on three rotors (index 0 fastest): when the
/// middle rotor stands at a notch, all three rotors move, so the middle one
/// moves on two keystrokes in a row; when only the fastest stands at a
/// notch, it and the middle one move; otherwise only the fastest moves.
pub proof fn law_double_stepping(m: MachineSpec, state: Seq<u8>)
    requires
        m.double_stepping,
        state.len() == 3,
    ensures
        at_notch(m, state, 1) ==> stepped(m, state) == seq![
            add_mod(state[0] as int, 1) as u8,
            add_mod(state[1] as int, 1) as u8,
            add_mod(state[2] as int, 1) as u8,
        ],
        !at_notch(m, state, 1) && at_notch(m, state, 0) ==> stepped(m, state) == seq![
            add_mod(state[0] as int, 1) as u8,
            add_mod(state[1] as int, 1) as u8,
            state[2],
        ],
        !at_notch(m, state, 1) && !at_notch(m, state, 0) ==> stepped(m, state) == seq![
            add_mod(state[0] as int, 1) as u8,
            state[1],
            state[2],
        ],
{
    reveal_with_fuel(gated_count, 3);
    let s = stepped(m, state);
    if at_notch(m, state, 1) {
        assert(s =~= seq![
            add_mod(state[0] as int, 1) as u8,
            add_mod(state[1] as int, 1) as u8,
            add_mod(state[2] as int, 1) as u8,
        ]);
    } else if at_notch(m, state, 0) {
        assert(s =~= seq![
            add_mod(state[0] as int, 1) as u8,
            add_mod(state[1] as int, 1) as u8,
            state[2],
        ]);
    } else {
        assert(s =~= seq![add_mod(state[0] as int, 1) as u8, state[1], state[2]]);
    }
}

/// A catalog machine with valid settings is a valid machine.
pub proof fn lemma_catalog_machine_wf(rotor_config: Seq<u8>, rings: Seq<u8>)
    requires
        valid_settings(rotor_config, rings),
    ensures
        catalog_machine(rotor_config, rings).wf(),
{
    let m = catalog_machine(rotor_config, rings);
    assert forall|i: int| 0 <= i < m.wirings.len() implies is_bijection(#[trigger] m.wirings[i]) by {
        lemma_catalog_rotor(rotor_config[i] as int);
    }
    lemma_catalog_reflector(ACTIVE_REFLECTOR as int);
    assert forall|j: int| 0 <= j < 26 implies #[trigger] crate::permutation::reaches(identity_seq(), j) by {
        assert(identity_seq()[j] == j);
    }
}

} // verus!
