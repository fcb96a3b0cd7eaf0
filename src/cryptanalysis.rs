//! Ciphertext-only search: every rotor order and key at neutral rings,
//! the best kept in a bounded ranking, then every ring setting for each
//! kept candidate.

use vstd::prelude::*;
use vstd::arithmetic::div_mod::lemma_fundamental_div_mod_converse;
use crate::catalog::ROTOR_COUNT;
use crate::machine::{catalog_machine, encrypt_u8, reversed, run_letters, world, World};
use crate::permutation::add_mod;
use crate::quadgram::{score, score_spec, QuadgramTable};
use crate::text::{all_letters, chr, indices_of, input_to_u8, letter_index, letter_indices, letter_of};

verus! {

/// `base` to the power `n`.
pub open spec fn power(base: int, n: nat) -> int
    decreases n,
{
    if n == 0 {
        1
    } else {
        base * power(base, (n - 1) as nat)
    }
}

/// The last `n` base-`base` digits of `k`, most significant first.
pub open spec fn digits(base: int, n: nat, k: int) -> Seq<usize>
    decreases n,
{
    if n == 0 {
        Seq::empty()
    } else {
        digits(base, (n - 1) as nat, k / base).push((k % base) as usize)
    }
}

/// The number whose base-`base` digits, most significant first, are `t`.
pub open spec fn index_of(base: int, t: Seq<usize>) -> int
    decreases t.len(),
{
    if t.len() == 0 {
        0
    } else {
        index_of(base, t.drop_last()) * base + t.last()
    }
}

proof fn lemma_power_monotone(base: int, i: nat, n: nat)
    requires
        base >= 1,
        i <= n,
    ensures
        1 <= power(base, i) <= power(base, n),
    decreases n,
{
    if n > i {
        lemma_power_monotone(base, i, (n - 1) as nat);
        assert(power(base, (n - 1) as nat) <= base * power(base, (n - 1) as nat)) by (nonlinear_arith)
            requires
                base >= 1,
                power(base, (n - 1) as nat) >= 1,
        ;
    } else if n > 0 {
        lemma_power_monotone(base, (n - 1) as nat, (n - 1) as nat);
        assert(1 <= base * power(base, (n - 1) as nat)) by (nonlinear_arith)
            requires
                base >= 1,
                power(base, (n - 1) as nat) >= 1,
        ;
    }
}

proof fn lemma_power_zero_base(n: nat)
    requires
        n > 0,
    ensures
        power(0, n) == 0,
{
}

/// Every tuple of digits below `base` is the tuple of exactly one index
/// below `base` to the power of its length: the enumeration misses none.
pub proof fn law_digits_complete(base: int, t: Seq<usize>)
    requires
        base >= 1,
        forall|i: int| 0 <= i < t.len() ==> #[trigger] t[i] < base,
    ensures
        0 <= index_of(base, t) < power(base, t.len()),
        digits(base, t.len(), index_of(base, t)) == t,
    decreases t.len(),
{
    if t.len() > 0 {
        let p = t.drop_last();
        law_digits_complete(base, p);
        let q = index_of(base, p);
        let last = t.last() as int;
        let k = q * base + last;
        lemma_fundamental_div_mod_converse(k, base, q, last);
        let pw = power(base, p.len());
        assert(k < base * pw) by (nonlinear_arith)
            requires
                0 <= q < pw,
                0 <= last < base,
                k == q * base + last,
        ;
        assert(0 <= k) by (nonlinear_arith)
            requires
                0 <= q,
                0 <= last,
                base >= 1,
                k == q * base + last,
        ;
        assert(digits(base, t.len(), k) =~= t);
    }
}

/// The base-`base` digits of `k`, `n` of them, most significant first.
fn digits_of(base: usize, n: usize, k: usize) -> (r: Vec<usize>)
    requires
        n == 0 || base > 0,
    ensures
        r@ == digits(base as int, n as nat, k as int),
{
    let mut rev: Vec<usize> = Vec::new();
    let mut rem = k;
    let mut j: usize = 0;
    assert(digits(base as int, n as nat, k as int) =~= digits(base as int, n as nat, k as int) + rev@.reverse());
    while j < n
        invariant
            j <= n,
            n == 0 || base > 0,
            digits(base as int, n as nat, k as int) == digits(base as int, (n - j) as nat, rem as int)
                + rev@.reverse(),
        decreases n - j,
    {
        let ghost before = rev@;
        let ghost m = (n - j) as nat;
        rev.push(rem % base);
        assert(digits(base as int, m, rem as int) == digits(base as int, (m - 1) as nat, rem as int / base as int).push((rem % base) as usize));
        assert(rev@.reverse() =~= seq![(rem % base) as usize] + before.reverse());
        assert(digits(base as int, (m - 1) as nat, (rem / base) as int) + rev@.reverse() =~= digits(base as int, m, rem as int) + before.reverse());
        rem = rem / base;
        j = j + 1;
    }
    assert(digits(base as int, 0, rem as int) + rev@.reverse() =~= rev@.reverse());
    reversed(&rev)
}

/// Enumerates every tuple of `width` values below `base`, in lexicographic
/// order (the last position moves fastest), one tuple per call of `next`.
pub struct Product {
    max_value: usize,
    width: usize,
    index: usize,
    total: usize,
}

impl Product {
    /// The bound of every position.
    pub closed spec fn base(&self) -> int {
        self.max_value as int
    }

    /// The length of every tuple.
    pub closed spec fn len(&self) -> nat {
        self.width as nat
    }

    /// How many tuples have been handed out.
    pub closed spec fn position(&self) -> int {
        self.index as int
    }

    /// The count is within the number of tuples.
    pub closed spec fn wf(&self) -> bool {
        &&& self.total == power(self.max_value as int, self.width as nat)
        &&& self.index <= self.total
    }

    /// A fresh enumeration of the tuples of `n` values below `max_value`.
    pub fn new(max_value: usize, n: usize) -> (r: Product)
        requires
            power(max_value as int, n as nat) <= usize::MAX,
        ensures
            r.wf(),
            r.base() == max_value,
            r.len() == n,
            r.position() == 0,
    {
        let mut total: usize = 1;
        for i in 0..n
            invariant
                total == power(max_value as int, i as nat),
                power(max_value as int, n as nat) <= usize::MAX,
        {
            proof {
                if max_value >= 1 {
                    lemma_power_monotone(max_value as int, (i + 1) as nat, n as nat);
                } else {
                    lemma_power_zero_base((i + 1) as nat);
                }
            }
            assert(power(max_value as int, (i + 1) as nat) == max_value * power(max_value as int, i as nat));
            assert(total * max_value == max_value * total) by (nonlinear_arith);
            total = total * max_value;
        }
        Product { max_value, width: n, index: 0, total }
    }

    /// The next tuple, or `None` once all of them have been handed out.
    pub fn next(&mut self) -> (r: Option<Vec<usize>>)
        requires
            old(self).wf(),
        ensures
            final(self).wf(),
            final(self).base() == old(self).base(),
            final(self).len() == old(self).len(),
            old(self).position() < power(old(self).base(), old(self).len()) ==> {
                &&& r matches Some(t)
                &&& t@ == digits(old(self).base(), old(self).len(), old(self).position())
                &&& final(self).position() == old(self).position() + 1
            },
            old(self).position() >= power(old(self).base(), old(self).len()) ==> {
                &&& r is None
                &&& final(self).position() == old(self).position()
            },
    {
        if self.index >= self.total {
            return None;
        }
        proof {
            if self.width > 0 && self.max_value == 0 {
                lemma_power_zero_base(self.width as nat);
            }
        }
        let res = digits_of(self.max_value, self.width, self.index);
        self.index = self.index + 1;
        Some(res)
    }
}

/// A result of the first phase: the score of the decryption, the key
/// (slowest rotor first, as written) and the rotor order (fastest first).
pub struct Candidate {
    pub score: i128,
    pub key: Vec<u8>,
    pub rotor_config: Vec<u8>,
}

/// Slot `w` holds a lowest score, and no earlier slot holds one as low.
pub open spec fn is_worst(items: Seq<Candidate>, w: int) -> bool {
    &&& 0 <= w < items.len()
    &&& forall|j: int| 0 <= j < items.len() ==> items[w].score <= #[trigger] items[j].score
    &&& forall|j: int| 0 <= j < w ==> #[trigger] items[j].score > items[w].score
}

/// The first slot holding a lowest score.
pub open spec fn worst_index(items: Seq<Candidate>) -> int {
    choose|w: int| is_worst(items, w)
}

/// Some kept candidate scores at least `s`.
pub open spec fn dominated(items: Seq<Candidate>, s: int) -> bool {
    exists|i: int| 0 <= i < items.len() && #[trigger] items[i].score >= s
}

/// What a ranking of capacity `capacity` holds after `c` is offered.
pub open spec fn inserted(items: Seq<Candidate>, capacity: nat, c: Candidate) -> Seq<Candidate> {
    if items.len() < capacity {
        items.push(c)
    } else if items.len() > 0 && c.score > items[worst_index(items)].score {
        items.update(worst_index(items), c)
    } else {
        items
    }
}

proof fn lemma_worst_exists(items: Seq<Candidate>)
    requires
        items.len() > 0,
    ensures
        is_worst(items, worst_index(items)),
    decreases items.len(),
{
    if items.len() == 1 {
        assert(is_worst(items, 0));
    } else {
        let p = items.drop_last();
        lemma_worst_exists(p);
        let v = worst_index(p);
        let l = items.len() - 1;
        if items[l].score < items[v].score {
            assert forall|j: int| 0 <= j < items.len() implies items[l].score <= #[trigger] items[j].score by {
                if j < l {
                    assert(p[j] == items[j]);
                }
            }
            assert forall|j: int| 0 <= j < l implies #[trigger] items[j].score > items[l].score by {
                assert(p[j] == items[j]);
            }
            assert(is_worst(items, l));
        } else {
            assert forall|j: int| 0 <= j < items.len() implies items[v].score <= #[trigger] items[j].score by {
                if j < l {
                    assert(p[j] == items[j]);
                }
            }
            assert forall|j: int| 0 <= j < v implies #[trigger] items[j].score > items[v].score by {
                assert(p[j] == items[j]);
            }
            assert(is_worst(items, v));
        }
    }
}

proof fn lemma_worst_unique(items: Seq<Candidate>, w: int)
    requires
        is_worst(items, w),
    ensures
        worst_index(items) == w,
{
    let v = worst_index(items);
    assert(is_worst(items, v));
    if v < w {
        assert(items[v].score > items[w].score);
    } else if w < v {
        assert(items[w].score > items[v].score);
    }
}

/// At most `capacity` candidates, the best scores seen so far. Once full,
/// a new candidate replaces the first of the lowest-scoring ones only if it
/// scores strictly more; on equal scores the earlier candidate stays.
pub struct BestK {
    items: Vec<Candidate>,
    capacity: usize,
    discarded: Ghost<Seq<i128>>,
}

impl BestK {
    /// The kept candidates.
    pub closed spec fn items(&self) -> Seq<Candidate> {
        self.items@
    }

    /// How many candidates are kept at most.
    pub closed spec fn capacity(&self) -> nat {
        self.capacity as nat
    }

    /// The scores of every candidate turned away or evicted so far.
    pub closed spec fn discarded(&self) -> Seq<i128> {
        self.discarded@
    }

    /// Within capacity, and no discarded score above a kept one.
    pub open spec fn wf(&self) -> bool {
        &&& self.items().len() <= self.capacity()
        &&& self.discarded().len() > 0 ==> self.items().len() == self.capacity()
        &&& forall|d: int, i: int|
            0 <= d < self.discarded().len() && 0 <= i < self.items().len() ==> #[trigger] self.discarded()[d]
                <= #[trigger] self.items()[i].score
    }

    /// An empty ranking that keeps at most `capacity` candidates.
    pub fn new(capacity: usize) -> (r: BestK)
        ensures
            r.wf(),
            r.items().len() == 0,
            r.discarded().len() == 0,
            r.capacity() == capacity,
    {
        BestK { items: Vec::new(), capacity, discarded: Ghost(Seq::empty()) }
    }

    /// How many candidates are kept.
    pub fn len(&self) -> (r: usize)
        ensures
            r == self.items().len(),
    {
        self.items.len()
    }

    /// The candidate in slot `i`.
    pub fn get(&self, i: usize) -> (r: &Candidate)
        requires
            i < self.items().len(),
        ensures
            *r == self.items()[i as int],
    {
        &self.items[i]
    }

    /// The first slot holding a lowest score; `None` when empty.
    pub fn get_worst(&self) -> (r: Option<usize>)
        ensures
            r is None <==> self.items().len() == 0,
            r matches Some(w) ==> is_worst(self.items(), w as int),
    {
        if self.items.len() == 0 {
            return None;
        }
        let mut w: usize = 0;
        for j in 1..self.items.len()
            invariant
                1 <= self.items@.len(),
                w < j,
                forall|k: int| 0 <= k < j ==> self.items@[w as int].score <= #[trigger] self.items@[k].score,
                forall|k: int| 0 <= k < w ==> #[trigger] self.items@[k].score > self.items@[w as int].score,
        {
            if self.items[j].score < self.items[w].score {
                w = j;
            }
        }
        Some(w)
    }

    /// Offers a candidate. While not full it is kept; once full it replaces
    /// the first lowest-scoring one if it scores strictly more, and is turned
    /// away otherwise.
    pub fn insert(&mut self, c: Candidate)
        requires
            old(self).wf(),
        ensures
            final(self).wf(),
            final(self).capacity() == old(self).capacity(),
            old(self).capacity() > 0 ==> dominated(final(self).items(), c.score as int),
            forall|s: int| dominated(old(self).items(), s) ==> dominated(final(self).items(), s),
            final(self).items() == inserted(old(self).items(), old(self).capacity(), c),
            forall|i: int|
                0 <= i < final(self).items().len() ==> #[trigger] final(self).items()[i] == c || (i
                    < old(self).items().len() && final(self).items()[i] == old(self).items()[i]),
            old(self).items().len() < old(self).capacity() ==> {
                &&& final(self).items() == old(self).items().push(c)
                &&& final(self).discarded() == old(self).discarded()
            },
            old(self).items().len() >= old(self).capacity() && old(self).items().len() > 0
                && c.score > old(self).items()[worst_index(old(self).items())].score ==> {
                &&& final(self).items() == old(self).items().update(worst_index(old(self).items()), c)
                &&& final(self).discarded() == old(self).discarded().push(
                    old(self).items()[worst_index(old(self).items())].score,
                )
            },
            old(self).items().len() >= old(self).capacity() && (old(self).items().len() == 0
                || c.score <= old(self).items()[worst_index(old(self).items())].score) ==> {
                &&& final(self).items() == old(self).items()
                &&& final(self).discarded() == old(self).discarded().push(c.score)
            },
    {
        let ghost old_items = self.items();
        let ghost old_discarded = self.discarded();
        if self.items.len() < self.capacity {
            let ghost cs = c.score;
            self.items.push(c);
            proof {
                let n = old_items.len() as int;
                assert(self.items()[n].score == cs);
                assert forall|s: int| dominated(old_items, s) implies dominated(self.items(), s) by {
                    let i = choose|i: int| 0 <= i < old_items.len() && #[trigger] old_items[i].score >= s;
                    assert(self.items()[i] == old_items[i]);
                }
            }
            return;
        }
        match self.get_worst() {
            None => {
                self.discarded = Ghost(old_discarded.push(c.score));
            },
            Some(w) => {
                proof {
                    lemma_worst_unique(old_items, w as int);
                }
                if self.items[w].score < c.score {
                    let ghost evicted = old_items[w as int].score;
                    let ghost cs = c.score;
                    self.items.set(w, c);
                    self.discarded = Ghost(old_discarded.push(evicted));
                    assert(self.items()[w as int].score == cs);
                    assert forall|s: int| dominated(old_items, s) implies dominated(self.items(), s) by {
                        let i = choose|i: int| 0 <= i < old_items.len() && #[trigger] old_items[i].score >= s;
                        if i != w as int {
                            assert(self.items()[i] == old_items[i]);
                        } else {
                            assert(self.items()[w as int].score >= s);
                        }
                    }
                    assert forall|d: int, i: int|
                        0 <= d < self.discarded@.len() && 0 <= i < self.items@.len() implies #[trigger] self.discarded@[d]
                            <= #[trigger] self.items@[i].score by {
                        if i != w as int {
                            assert(self.items@[i] == old_items[i]);
                            assert(evicted <= old_items[i].score);
                        }
                        if d < old_discarded.len() {
                            assert(old_discarded[d] <= old_items[w as int].score);
                        }
                    }
                } else {
                    self.discarded = Ghost(old_discarded.push(c.score));
                    assert(self.items()[w as int].score >= c.score);
                    assert forall|d: int, i: int|
                        0 <= d < self.discarded@.len() && 0 <= i < self.items@.len() implies #[trigger] self.discarded@[d]
                            <= #[trigger] self.items@[i].score by {
                        if d == old_discarded.len() {
                            assert(old_items[w as int].score <= old_items[i].score);
                        }
                    }
                }
            },
        }
    }
}

/// Slot `j` appears in `order`.
pub open spec fn lists(order: Seq<usize>, j: int) -> bool {
    exists|a: int| 0 <= a < order.len() && order[a] == j
}

/// The slots of `items` ordered best first: scores never rise along the
/// order, equal scores keep slot order, and every slot appears.
pub open spec fn is_ranking(items: Seq<Candidate>, order: Seq<usize>) -> bool {
    &&& order.len() == items.len()
    &&& forall|a: int| 0 <= a < order.len() ==> #[trigger] order[a] < items.len()
    &&& forall|j: int| 0 <= j < items.len() ==> #[trigger] lists(order, j)
    &&& forall|a: int, b: int|
        0 <= a < b < order.len() ==> items[order[a] as int].score >= items[order[b] as int].score
    &&& forall|a: int, b: int|
        0 <= a < b < order.len() && items[order[a] as int].score == items[order[b] as int].score
            ==> order[a] < order[b]
}

impl BestK {
    /// The slots, best first; among equal scores, in slot order.
    pub fn best_first(&self) -> (r: Vec<usize>)
        ensures
            is_ranking(self.items(), r@),
    {
        let ghost items = self.items();
        let mut order: Vec<usize> = Vec::new();
        for i in 0..self.items.len()
            invariant
                items == self.items(),
                order@.len() == i,
                forall|a: int| 0 <= a < order@.len() ==> #[trigger] order@[a] < i,
                forall|j: int| 0 <= j < i ==> #[trigger] lists(order@, j),
                forall|a: int, b: int|
                    0 <= a < b < order@.len() ==> items[order@[a] as int].score >= items[order@[b] as int].score,
                forall|a: int, b: int|
                    0 <= a < b < order@.len() && items[order@[a] as int].score == items[order@[b] as int].score
                        ==> order@[a] < order@[b],
        {
            let s = self.items[i].score;
            let mut pos: usize = 0;
            while pos < order.len() && self.items[order[pos]].score >= s
                invariant
                    items == self.items(),
                    i < items.len(),
                    s == items[i as int].score,
                    order@.len() == i,
                    pos <= order@.len(),
                    forall|a: int| 0 <= a < order@.len() ==> #[trigger] order@[a] < i,
                    forall|a: int| 0 <= a < pos ==> items[#[trigger] order@[a] as int].score >= s,
                decreases order@.len() - pos,
            {
                pos = pos + 1;
            }
            let ghost before = order@;
            order.insert(pos, i);
            proof {
                assert forall|a: int| pos <= a < before.len() implies items[#[trigger] before[a] as int].score < s by {
                    assert(items[before[pos as int] as int].score < s);
                    if a > pos {
                        assert(items[before[pos as int] as int].score >= items[before[a] as int].score);
                    }
                }
                assert(order@[pos as int] == i);
                assert forall|j: int| 0 <= j < i + 1 implies #[trigger] lists(order@, j) by {
                    if j < i {
                        assert(lists(before, j));
                        let a = choose|a: int| 0 <= a < before.len() && before[a] == j;
                        if a < pos {
                            assert(order@[a] == j);
                        } else {
                            assert(order@[a + 1] == j);
                        }
                    } else {
                        assert(order@[pos as int] == j);
                    }
                }
            }
        }
        order
    }
}

/// Whatever the inserts, no candidate that was turned away or evicted
/// scores above one that is kept: the lowest kept score is at least every
/// discarded score.
pub proof fn law_best_k_keeps_the_best(b: BestK, d: int, i: int)
    requires
        b.wf(),
        0 <= d < b.discarded().len(),
        0 <= i < b.items().len(),
    ensures
        b.discarded()[d] <= b.items()[i].score,
{
}

/// How many candidates the first phase keeps.
pub const KEEP_BEST: usize = 100;

/// The score of decrypting `cipher` with catalog rotors `rotor_config`
/// (fastest first), key `key` (slowest first) and ring offsets `rings`.
#[verifier::opaque]
pub open spec fn trial_score(
    w: Seq<i32>,
    cipher: Seq<u8>,
    rotor_config: Seq<u8>,
    key: Seq<u8>,
    rings: Seq<u8>,
) -> int {
    score_spec(w, run_letters(catalog_machine(rotor_config, rings), key.reverse(), cipher))
}

/// Three distinct rotors of the catalog.
pub open spec fn valid_rotor_order(rotor_config: Seq<u8>) -> bool {
    &&& rotor_config.len() == 3
    &&& forall|i: int| 0 <= i < 3 ==> #[trigger] rotor_config[i] < ROTOR_COUNT
    &&& rotor_config[0] != rotor_config[1]
    &&& rotor_config[0] != rotor_config[2]
    &&& rotor_config[1] != rotor_config[2]
}

/// Three letters.
pub open spec fn valid_triple(key: Seq<u8>) -> bool {
    &&& key.len() == 3
    &&& forall|i: int| 0 <= i < 3 ==> #[trigger] key[i] < 26
}

/// A tuple of small values as bytes.
pub open spec fn as_bytes(t: Seq<usize>) -> Seq<u8> {
    t.map_values(|x: usize| x as u8)
}

/// The score of the first-phase trial of rotor order number `a` and key
/// number `b`, in enumeration order.
pub open spec fn phase_one_score(w: Seq<i32>, cipher: Seq<u8>, rings: Seq<u8>, a: int, b: int) -> int {
    trial_score(w, cipher, as_bytes(digits(5, 3, a)), as_bytes(digits(26, 3, b)), rings)
}

/// A kept candidate says what it is: distinct catalog rotors, a key of
/// three letters, and the score of exactly that decryption.
pub open spec fn sound_candidate(w: Seq<i32>, cipher: Seq<u8>, rings: Seq<u8>, c: Candidate) -> bool {
    &&& valid_rotor_order(c.rotor_config@)
    &&& valid_triple(c.key@)
    &&& c.score == trial_score(w, cipher, c.rotor_config@, c.key@, rings)
}

proof fn lemma_digits_bounded(base: int, n: nat, k: int)
    requires
        base >= 1,
        k >= 0,
    ensures
        digits(base, n, k).len() == n,
        forall|i: int| 0 <= i < n ==> #[trigger] digits(base, n, k)[i] < base,
    decreases n,
{
    if n > 0 {
        lemma_digits_bounded(base, (n - 1) as nat, k / base);
    }
}

/// Rotor order of the first-phase trial numbered `n`, in enumeration order:
/// order number `n / 26^3`.
pub open spec fn trial_order(n: int) -> Seq<u8> {
    as_bytes(digits(5, 3, n / 17576))
}

/// Key of the first-phase trial numbered `n`: key number `n mod 26^3`.
pub open spec fn trial_key(n: int) -> Seq<u8> {
    as_bytes(digits(26, 3, n % 17576))
}

/// Score of the first-phase trial numbered `n`.
pub open spec fn numbered_score(w: Seq<i32>, cipher: Seq<u8>, rings: Seq<u8>, n: int) -> int {
    trial_score(w, cipher, trial_order(n), trial_key(n), rings)
}

/// Slot `k` of the trial numbers `ts` holds a lowest score, and no earlier
/// slot one as low.
pub open spec fn is_worst_trial(w: Seq<i32>, cipher: Seq<u8>, rings: Seq<u8>, ts: Seq<int>, k: int) -> bool {
    &&& 0 <= k < ts.len()
    &&& forall|j: int|
        0 <= j < ts.len() ==> numbered_score(w, cipher, rings, ts[k]) <= #[trigger] numbered_score(
            w,
            cipher,
            rings,
            ts[j],
        )
    &&& forall|j: int|
        0 <= j < k ==> #[trigger] numbered_score(w, cipher, rings, ts[j]) > numbered_score(
            w,
            cipher,
            rings,
            ts[k],
        )
}

/// The first slot of `ts` holding a lowest score.
pub open spec fn worst_trial(w: Seq<i32>, cipher: Seq<u8>, rings: Seq<u8>, ts: Seq<int>) -> int {
    choose|k: int| is_worst_trial(w, cipher, rings, ts, k)
}

/// The trial numbers kept after trial `n` is offered to a ranking that
/// keeps `KEEP_BEST`.
pub open spec fn offer_trial(w: Seq<i32>, cipher: Seq<u8>, rings: Seq<u8>, ts: Seq<int>, n: int) -> Seq<int> {
    if ts.len() < KEEP_BEST {
        ts.push(n)
    } else if ts.len() > 0 && numbered_score(w, cipher, rings, n) > numbered_score(
        w,
        cipher,
        rings,
        ts[worst_trial(w, cipher, rings, ts)],
    ) {
        ts.update(worst_trial(w, cipher, rings, ts), n)
    } else {
        ts
    }
}

/// The trial numbers, slot by slot, that the first phase keeps once the
/// first `n` trials have been offered in enumeration order (trials with a
/// repeated rotor are skipped).
pub open spec fn kept_after(w: Seq<i32>, cipher: Seq<u8>, rings: Seq<u8>, n: nat) -> Seq<int>
    decreases n,
{
    if n == 0 {
        Seq::empty()
    } else {
        let prev = kept_after(w, cipher, rings, (n - 1) as nat);
        if valid_rotor_order(trial_order(n - 1)) {
            offer_trial(w, cipher, rings, prev, n - 1)
        } else {
            prev
        }
    }
}

/// Number of first-phase trials: 5^3 rotor tuples times 26^3 keys.
pub open spec fn trial_count() -> nat {
    125 * 17576
}

/// The candidates are the trials numbered `ts`, slot by slot.
pub open spec fn describes(
    w: Seq<i32>,
    cipher: Seq<u8>,
    rings: Seq<u8>,
    items: Seq<Candidate>,
    ts: Seq<int>,
) -> bool {
    &&& items.len() == ts.len()
    &&& forall|i: int|
        0 <= i < items.len() ==> {
            &&& (#[trigger] items[i]).rotor_config@ == trial_order(ts[i])
            &&& items[i].key@ == trial_key(ts[i])
            &&& items[i].score == numbered_score(w, cipher, rings, ts[i])
        }
}

proof fn lemma_worst_trial_unique(w: Seq<i32>, cipher: Seq<u8>, rings: Seq<u8>, ts: Seq<int>, k: int)
    requires
        is_worst_trial(w, cipher, rings, ts, k),
    ensures
        worst_trial(w, cipher, rings, ts) == k,
{
    let v = worst_trial(w, cipher, rings, ts);
    assert(is_worst_trial(w, cipher, rings, ts, v));
    if v < k {
        assert(numbered_score(w, cipher, rings, ts[v]) > numbered_score(w, cipher, rings, ts[k]));
    } else if k < v {
        assert(numbered_score(w, cipher, rings, ts[k]) > numbered_score(w, cipher, rings, ts[v]));
    }
}

/// Offering the same trial to a ranking and to its trial numbers keeps
/// them in step.
proof fn lemma_offer_describes(
    w: Seq<i32>,
    cipher: Seq<u8>,
    rings: Seq<u8>,
    items: Seq<Candidate>,
    ts: Seq<int>,
    c: Candidate,
    n: int,
)
    requires
        describes(w, cipher, rings, items, ts),
        c.rotor_config@ == trial_order(n),
        c.key@ == trial_key(n),
        c.score == numbered_score(w, cipher, rings, n),
    ensures
        describes(w, cipher, rings, inserted(items, KEEP_BEST as nat, c), offer_trial(w, cipher, rings, ts, n)),
{
    let after = inserted(items, KEEP_BEST as nat, c);
    let ts2 = offer_trial(w, cipher, rings, ts, n);
    if items.len() >= KEEP_BEST {
        lemma_worst_exists(items);
        let k = worst_index(items);
        assert forall|j: int| 0 <= j < ts.len() implies numbered_score(w, cipher, rings, ts[k])
            <= #[trigger] numbered_score(w, cipher, rings, ts[j]) by {
            assert(items[k].score <= items[j].score);
        }
        assert forall|j: int| 0 <= j < k implies #[trigger] numbered_score(w, cipher, rings, ts[j])
            > numbered_score(w, cipher, rings, ts[k]) by {
            assert(items[j].score > items[k].score);
        }
        lemma_worst_trial_unique(w, cipher, rings, ts, k);
    }
    assert forall|i: int| 0 <= i < after.len() implies {
        &&& (#[trigger] after[i]).rotor_config@ == trial_order(ts2[i])
        &&& after[i].key@ == trial_key(ts2[i])
        &&& after[i].score == numbered_score(w, cipher, rings, ts2[i])
    } by {
        if i < items.len() && after[i] == items[i] && ts2[i] == ts[i] {
        }
    }
}

/// A rotor tuple with a repeated rotor adds nothing: its trials are all
/// skipped.
proof fn lemma_skipped_block(w: Seq<i32>, cipher: Seq<u8>, rings: Seq<u8>, a: int, k: int)
    requires
        0 <= a,
        0 <= k <= 17576,
        !valid_rotor_order(as_bytes(digits(5, 3, a))),
    ensures
        kept_after(w, cipher, rings, (a * 17576 + k) as nat) == kept_after(w, cipher, rings, (a * 17576) as nat),
    decreases k,
{
    if k > 0 {
        lemma_skipped_block(w, cipher, rings, a, k - 1);
        let n = a * 17576 + k - 1;
        lemma_fundamental_div_mod_converse(n, 17576, a, k - 1);
        assert(trial_order(n) == as_bytes(digits(5, 3, a)));
    }
}

/// Some kept candidate is the trial of rotors `rotor_config` and key `key`.
pub open spec fn holds_trial(items: Seq<Candidate>, rotor_config: Seq<u8>, key: Seq<u8>) -> bool {
    exists|i: int|
        0 <= i < items.len() && (#[trigger] items[i]).rotor_config@ == rotor_config && items[i].key@ == key
}

/// Every kept candidate scores at least `s`.
pub open spec fn outscored(items: Seq<Candidate>, s: int) -> bool {
    forall|i: int| 0 <= i < items.len() ==> s <= #[trigger] items[i].score
}

/// A trial scoring `s` is kept, or the ranking is full and every kept
/// candidate scores at least as much.
pub open spec fn accounted(items: Seq<Candidate>, rotor_config: Seq<u8>, key: Seq<u8>, s: int) -> bool {
    holds_trial(items, rotor_config, key) || (items.len() == KEEP_BEST && outscored(items, s))
}

proof fn lemma_insert_keeps_account(
    items: Seq<Candidate>,
    c: Candidate,
    rotor_config: Seq<u8>,
    key: Seq<u8>,
    s: int,
)
    requires
        items.len() <= KEEP_BEST,
        forall|i: int|
            0 <= i < items.len() && (#[trigger] items[i]).rotor_config@ == rotor_config && items[i].key@
                == key ==> items[i].score == s,
        accounted(items, rotor_config, key, s),
    ensures
        accounted(inserted(items, KEEP_BEST as nat, c), rotor_config, key, s),
{
    let after = inserted(items, KEEP_BEST as nat, c);
    if items.len() < KEEP_BEST {
        let i = choose|i: int|
            0 <= i < items.len() && (#[trigger] items[i]).rotor_config@ == rotor_config && items[i].key@ == key;
        assert(after[i] == items[i]);
    } else {
        lemma_worst_exists(items);
        let w = worst_index(items);
        if c.score > items[w].score {
            if holds_trial(items, rotor_config, key) {
                let i = choose|i: int|
                    0 <= i < items.len() && (#[trigger] items[i]).rotor_config@ == rotor_config && items[i].key@
                        == key;
                if i != w {
                    assert(after[i] == items[i]);
                } else {
                    assert forall|j: int| 0 <= j < after.len() implies s <= #[trigger] after[j].score by {
                        if j != w {
                            assert(after[j] == items[j]);
                        }
                    }
                }
            } else {
                assert forall|j: int| 0 <= j < after.len() implies s <= #[trigger] after[j].score by {
                    if j != w {
                        assert(after[j] == items[j]);
                    } else {
                        assert(s <= items[w].score);
                    }
                }
            }
        }
    }
}

proof fn lemma_insert_accounts_new(items: Seq<Candidate>, c: Candidate)
    requires
        items.len() <= KEEP_BEST,
    ensures
        accounted(inserted(items, KEEP_BEST as nat, c), c.rotor_config@, c.key@, c.score as int),
{
    let after = inserted(items, KEEP_BEST as nat, c);
    if items.len() < KEEP_BEST {
        assert(after[items.len() as int] == c);
    } else {
        lemma_worst_exists(items);
        let w = worst_index(items);
        if c.score > items[w].score {
            assert(after[w] == c);
        } else {
            assert forall|j: int| 0 <= j < after.len() implies c.score <= #[trigger] after[j].score by {
                assert(items[w].score <= items[j].score);
            }
        }
    }
}

/// Offering the trial of rotor order number `a` and key number `pos`
/// keeps every earlier trial accounted for, and accounts for this one.
proof fn lemma_offer_accounts(
    w: Seq<i32>,
    cipher: Seq<u8>,
    rings: Seq<u8>,
    before: Seq<Candidate>,
    c: Candidate,
    a: int,
    pos: int,
)
    requires
        before.len() <= KEEP_BEST,
        forall|i: int| 0 <= i < before.len() ==> sound_candidate(w, cipher, rings, #[trigger] before[i]),
        forall|a2: int, b: int|
            0 <= a2 < a && 0 <= b < 17576 && valid_rotor_order(as_bytes(digits(5, 3, a2))) ==> accounted(
                before,
                as_bytes(digits(5, 3, a2)),
                as_bytes(digits(26, 3, b)),
                #[trigger] phase_one_score(w, cipher, rings, a2, b),
            ),
        forall|b: int|
            0 <= b < pos ==> accounted(
                before,
                as_bytes(digits(5, 3, a)),
                as_bytes(digits(26, 3, b)),
                #[trigger] phase_one_score(w, cipher, rings, a, b),
            ),
        c.rotor_config@ == as_bytes(digits(5, 3, a)),
        c.key@ == as_bytes(digits(26, 3, pos)),
        c.score == phase_one_score(w, cipher, rings, a, pos),
    ensures
        ({
            let after = inserted(before, KEEP_BEST as nat, c);
            &&& forall|a2: int, b: int|
                0 <= a2 < a && 0 <= b < 17576 && valid_rotor_order(as_bytes(digits(5, 3, a2))) ==> accounted(
                    after,
                    as_bytes(digits(5, 3, a2)),
                    as_bytes(digits(26, 3, b)),
                    #[trigger] phase_one_score(w, cipher, rings, a2, b),
                )
            &&& forall|b: int|
                0 <= b < pos + 1 ==> accounted(
                    after,
                    as_bytes(digits(5, 3, a)),
                    as_bytes(digits(26, 3, b)),
                    #[trigger] phase_one_score(w, cipher, rings, a, b),
                )
        }),
{
    let after = inserted(before, KEEP_BEST as nat, c);
    assert forall|a2: int, b: int|
        0 <= a2 < a && 0 <= b < 17576 && valid_rotor_order(as_bytes(digits(5, 3, a2))) implies accounted(
            after,
            as_bytes(digits(5, 3, a2)),
            as_bytes(digits(26, 3, b)),
            #[trigger] phase_one_score(w, cipher, rings, a2, b),
        ) by {
        let rc = as_bytes(digits(5, 3, a2));
        let key = as_bytes(digits(26, 3, b));
        assert forall|i: int|
            0 <= i < before.len() && (#[trigger] before[i]).rotor_config@ == rc && before[i].key@ == key
                implies before[i].score == phase_one_score(w, cipher, rings, a2, b) by {
            assert(sound_candidate(w, cipher, rings, before[i]));
        }
        lemma_insert_keeps_account(before, c, rc, key, phase_one_score(w, cipher, rings, a2, b));
    }
    assert forall|b: int| 0 <= b < pos + 1 implies accounted(
        after,
        as_bytes(digits(5, 3, a)),
        as_bytes(digits(26, 3, b)),
        #[trigger] phase_one_score(w, cipher, rings, a, b),
    ) by {
        if b == pos {
            lemma_insert_accounts_new(before, c);
        } else {
            let rc = as_bytes(digits(5, 3, a));
            let key = as_bytes(digits(26, 3, b));
            assert forall|i: int|
                0 <= i < before.len() && (#[trigger] before[i]).rotor_config@ == rc && before[i].key@ == key
                    implies before[i].score == phase_one_score(w, cipher, rings, a, b) by {
                assert(sound_candidate(w, cipher, rings, before[i]));
            }
            lemma_insert_keeps_account(before, c, rc, key, phase_one_score(w, cipher, rings, a, b));
        }
    }
}

/// A tuple of small values as a byte vector.
fn to_bytes(t: &Vec<usize>) -> (r: Vec<u8>)
    requires
        forall|i: int| 0 <= i < t@.len() ==> #[trigger] t@[i] < 256,
    ensures
        r@ == as_bytes(t@),
{
    let mut r: Vec<u8> = Vec::new();
    for i in 0..t.len()
        invariant
            forall|i: int| 0 <= i < t@.len() ==> #[trigger] t@[i] < 256,
            r@ == as_bytes(t@.take(i as int)),
    {
        r.push(t[i] as u8);
        assert(r@ =~= as_bytes(t@.take(i + 1)));
    }
    assert(t@.take(t@.len() as int) =~= t@);
    r
}

/// The first phase: every order of three distinct catalog rotors and every
/// key, with ring offsets `rings`; the `KEEP_BEST` best-scoring candidates
/// are kept. Every trial is matched or beaten by some kept candidate, and
/// a trial that is not kept scores at most every kept candidate.
#[verifier::rlimit(40)]
pub fn brute_force_rotors_and_key(
    world: &World,
    table: &QuadgramTable,
    ciphertext: &Vec<u8>,
    rings: &Vec<u8>,
) -> (r: BestK)
    requires
        world.wf(),
        table.wf(),
        forall|i: int| 0 <= i < ciphertext@.len() ==> #[trigger] ciphertext@[i] < 26,
        valid_triple(rings@),
    ensures
        r.wf(),
        r.capacity() == KEEP_BEST,
        r.items().len() == KEEP_BEST,
        describes(table@, ciphertext@, rings@, r.items(), kept_after(table@, ciphertext@, rings@, trial_count())),
        forall|i: int|
            0 <= i < r.items().len() ==> sound_candidate(table@, ciphertext@, rings@, #[trigger] r.items()[i]),
        forall|rotor_config: Seq<u8>, key: Seq<u8>|
            valid_rotor_order(rotor_config) && valid_triple(key) ==> dominated(
                r.items(),
                #[trigger] trial_score(table@, ciphertext@, rotor_config, key, rings@),
            ),
        forall|rotor_config: Seq<u8>, key: Seq<u8>|
            valid_rotor_order(rotor_config) && valid_triple(key) ==> accounted(
                r.items(),
                rotor_config,
                key,
                #[trigger] trial_score(table@, ciphertext@, rotor_config, key, rings@),
            ),
{
    let ghost w = table@;
    let ghost cipher = ciphertext@;
    let mut best_rotors_and_key = BestK::new(KEEP_BEST);
    proof {
        reveal_with_fuel(power, 4);
    }
    let mut orders = Product::new(5, 3);
    let ghost mut offered: int = 0;
    loop
        invariant
            offered >= 0,
            best_rotors_and_key.items().len() == if offered < KEEP_BEST { offered } else { KEEP_BEST as int },
            orders.position() > 7 ==> offered >= 17576,
            describes(
                w,
                cipher,
                rings@,
                best_rotors_and_key.items(),
                kept_after(w, cipher, rings@, (orders.position() * 17576) as nat),
            ),
            world.wf(),
            table.wf(),
            w == table@,
            cipher == ciphertext@,
            forall|i: int| 0 <= i < cipher.len() ==> #[trigger] cipher[i] < 26,
            valid_triple(rings@),
            orders.wf(),
            orders.base() == 5,
            orders.len() == 3,
            0 <= orders.position() <= 125,
            power(5, 3) == 125,
            power(26, 3) == 17576,
            best_rotors_and_key.wf(),
            best_rotors_and_key.capacity() == KEEP_BEST,
            forall|i: int|
                0 <= i < best_rotors_and_key.items().len() ==> sound_candidate(
                    w,
                    cipher,
                    rings@,
                    #[trigger] best_rotors_and_key.items()[i],
                ),
            forall|a: int, b: int|
                0 <= a < orders.position() && 0 <= b < 17576 && valid_rotor_order(as_bytes(digits(5, 3, a)))
                    ==> dominated(best_rotors_and_key.items(), #[trigger] phase_one_score(w, cipher, rings@, a, b)),
            forall|a: int, b: int|
                0 <= a < orders.position() && 0 <= b < 17576 && valid_rotor_order(as_bytes(digits(5, 3, a)))
                    ==> accounted(
                    best_rotors_and_key.items(),
                    as_bytes(digits(5, 3, a)),
                    as_bytes(digits(26, 3, b)),
                    #[trigger] phase_one_score(w, cipher, rings@, a, b),
                ),
        ensures
            orders.position() == 125,
            describes(w, cipher, rings@, best_rotors_and_key.items(), kept_after(w, cipher, rings@, trial_count())),
            offered >= 17576,
            best_rotors_and_key.items().len() == if offered < KEEP_BEST { offered } else { KEEP_BEST as int },
            best_rotors_and_key.wf(),
            best_rotors_and_key.capacity() == KEEP_BEST,
            forall|i: int|
                0 <= i < best_rotors_and_key.items().len() ==> sound_candidate(
                    w,
                    cipher,
                    rings@,
                    #[trigger] best_rotors_and_key.items()[i],
                ),
            forall|a: int, b: int|
                0 <= a < 125 && 0 <= b < 17576 && valid_rotor_order(as_bytes(digits(5, 3, a)))
                    ==> dominated(best_rotors_and_key.items(), #[trigger] phase_one_score(w, cipher, rings@, a, b)),
            forall|a: int, b: int|
                0 <= a < 125 && 0 <= b < 17576 && valid_rotor_order(as_bytes(digits(5, 3, a)))
                    ==> accounted(
                    best_rotors_and_key.items(),
                    as_bytes(digits(5, 3, a)),
                    as_bytes(digits(26, 3, b)),
                    #[trigger] phase_one_score(w, cipher, rings@, a, b),
                ),
        decreases 125 - orders.position(),
    {
        let ghost a = orders.position();
        let rotor_tuple = match orders.next() {
            Some(t) => t,
            None => break,
        };
        proof {
            lemma_digits_bounded(5, 3, a);
        }
        if rotor_tuple[0] == rotor_tuple[1] || rotor_tuple[0] == rotor_tuple[2] || rotor_tuple[1]
            == rotor_tuple[2] {
            assert(!valid_rotor_order(as_bytes(digits(5, 3, a))));
            proof {
                lemma_skipped_block(w, cipher, rings@, a, 17576);
                assert((a + 1) * 17576 == a * 17576 + 17576);
                if a == 7 {
                    reveal_with_fuel(digits, 4);
                    assert(digits(5, 3, 7) =~= seq![0usize, 1usize, 2usize]);
                }
            }
            continue;
        }
        let rotor_config = to_bytes(&rotor_tuple);
        assert(valid_rotor_order(rotor_config@));
        let mut keys = Product::new(26, 3);
        let ghost offered_before = offered;
        loop
            invariant
                offered >= offered_before + keys.position(),
                offered_before >= 0,
                describes(
                    w,
                    cipher,
                    rings@,
                    best_rotors_and_key.items(),
                    kept_after(w, cipher, rings@, (a * 17576 + keys.position()) as nat),
                ),
                a > 7 ==> offered_before >= 17576,
                best_rotors_and_key.items().len() == if offered < KEEP_BEST { offered } else { KEEP_BEST as int },
                world.wf(),
                table.wf(),
                w == table@,
                cipher == ciphertext@,
                forall|i: int| 0 <= i < cipher.len() ==> #[trigger] cipher[i] < 26,
                valid_triple(rings@),
                orders.wf(),
                orders.base() == 5,
                orders.len() == 3,
                orders.position() == a + 1,
                0 <= a < 125,
                rotor_config@ == as_bytes(digits(5, 3, a)),
                valid_rotor_order(rotor_config@),
                keys.wf(),
                keys.base() == 26,
                keys.len() == 3,
                0 <= keys.position() <= 17576,
                power(5, 3) == 125,
                power(26, 3) == 17576,
                best_rotors_and_key.wf(),
                best_rotors_and_key.capacity() == KEEP_BEST,
                forall|i: int|
                    0 <= i < best_rotors_and_key.items().len() ==> sound_candidate(
                        w,
                        cipher,
                        rings@,
                        #[trigger] best_rotors_and_key.items()[i],
                    ),
                forall|a2: int, b: int|
                    0 <= a2 < a && 0 <= b < 17576 && valid_rotor_order(as_bytes(digits(5, 3, a2)))
                        ==> dominated(best_rotors_and_key.items(), #[trigger] phase_one_score(w, cipher, rings@, a2, b)),
                forall|b: int|
                    0 <= b < keys.position() ==> dominated(
                        best_rotors_and_key.items(),
                        #[trigger] phase_one_score(w, cipher, rings@, a, b),
                    ),
                forall|a2: int, b: int|
                    0 <= a2 < a && 0 <= b < 17576 && valid_rotor_order(as_bytes(digits(5, 3, a2)))
                        ==> accounted(
                        best_rotors_and_key.items(),
                        as_bytes(digits(5, 3, a2)),
                        as_bytes(digits(26, 3, b)),
                        #[trigger] phase_one_score(w, cipher, rings@, a2, b),
                    ),
                forall|b: int|
                    0 <= b < keys.position() ==> accounted(
                        best_rotors_and_key.items(),
                        as_bytes(digits(5, 3, a)),
                        as_bytes(digits(26, 3, b)),
                        #[trigger] phase_one_score(w, cipher, rings@, a, b),
                    ),
            ensures
                offered >= offered_before + 17576,
                describes(
                    w,
                    cipher,
                    rings@,
                    best_rotors_and_key.items(),
                    kept_after(w, cipher, rings@, (a * 17576 + 17576) as nat),
                ),
                best_rotors_and_key.items().len() == if offered < KEEP_BEST { offered } else { KEEP_BEST as int },
                best_rotors_and_key.wf(),
                best_rotors_and_key.capacity() == KEEP_BEST,
                forall|i: int|
                    0 <= i < best_rotors_and_key.items().len() ==> sound_candidate(
                        w,
                        cipher,
                        rings@,
                        #[trigger] best_rotors_and_key.items()[i],
                    ),
                forall|a2: int, b: int|
                    0 <= a2 < a && 0 <= b < 17576 && valid_rotor_order(as_bytes(digits(5, 3, a2)))
                        ==> dominated(best_rotors_and_key.items(), #[trigger] phase_one_score(w, cipher, rings@, a2, b)),
                forall|b: int|
                    0 <= b < 17576 ==> dominated(
                        best_rotors_and_key.items(),
                        #[trigger] phase_one_score(w, cipher, rings@, a, b),
                    ),
                forall|a2: int, b: int|
                    0 <= a2 < a && 0 <= b < 17576 && valid_rotor_order(as_bytes(digits(5, 3, a2)))
                        ==> accounted(
                        best_rotors_and_key.items(),
                        as_bytes(digits(5, 3, a2)),
                        as_bytes(digits(26, 3, b)),
                        #[trigger] phase_one_score(w, cipher, rings@, a2, b),
                    ),
                forall|b: int|
                    0 <= b < 17576 ==> accounted(
                        best_rotors_and_key.items(),
                        as_bytes(digits(5, 3, a)),
                        as_bytes(digits(26, 3, b)),
                        #[trigger] phase_one_score(w, cipher, rings@, a, b),
                    ),
            decreases 17576 - keys.position(),
        {
            let ghost b = keys.position();
            let key_tuple = match keys.next() {
                Some(t) => t,
                None => break,
            };
            proof {
                lemma_digits_bounded(26, 3, b);
            }
            let key = to_bytes(&key_tuple);
            let plaintext = encrypt_u8(world, ciphertext, &rotor_config, &key, rings);
            let trial = score(table, &plaintext);
            let ghost before = best_rotors_and_key.items();
            let order_copy = rotor_config.clone();
            assert(order_copy@ =~= rotor_config@);
            let candidate = Candidate { score: trial, key, rotor_config: order_copy };
            assert(sound_candidate(w, cipher, rings@, candidate)) by {
                reveal(trial_score);
            }
            assert(trial == phase_one_score(w, cipher, rings@, a, b));
            let ghost cand = candidate;
            best_rotors_and_key.insert(candidate);
            proof {
                offered = offered + 1;
                lemma_offer_accounts(w, cipher, rings@, before, cand, a, b);
                let n = a * 17576 + b;
                lemma_fundamental_div_mod_converse(n, 17576, a, b);
                assert(kept_after(w, cipher, rings@, (n + 1) as nat) == offer_trial(
                    w,
                    cipher,
                    rings@,
                    kept_after(w, cipher, rings@, n as nat),
                    n,
                ));
                lemma_offer_describes(w, cipher, rings@, before, kept_after(w, cipher, rings@, n as nat), cand, n);
                let after = best_rotors_and_key.items();
                assert forall|i: int| 0 <= i < best_rotors_and_key.items().len() implies sound_candidate(
                    w,
                    cipher,
                    rings@,
                    #[trigger] best_rotors_and_key.items()[i],
                ) by {
                    if after[i] != cand {
                        assert(sound_candidate(w, cipher, rings@, before[i]));
                    }
                }
            }
        }
    }
    proof {
        assert forall|rotor_config: Seq<u8>, key: Seq<u8>|
            valid_rotor_order(rotor_config) && valid_triple(key) implies accounted(
                best_rotors_and_key.items(),
                rotor_config,
                key,
                #[trigger] trial_score(w, cipher, rotor_config, key, rings@),
            ) && dominated(
                best_rotors_and_key.items(),
                #[trigger] trial_score(w, cipher, rotor_config, key, rings@),
            ) by {
            let t = rotor_config.map_values(|x: u8| x as usize);
            let u = key.map_values(|x: u8| x as usize);
            law_digits_complete(5, t);
            law_digits_complete(26, u);
            assert(accounted(
                best_rotors_and_key.items(),
                as_bytes(t),
                as_bytes(u),
                phase_one_score(w, cipher, rings@, index_of(5, t), index_of(26, u)),
            ));
            assert(as_bytes(t) =~= rotor_config);
            assert(as_bytes(u) =~= key);
            assert(phase_one_score(w, cipher, rings@, index_of(5, t), index_of(26, u)) == trial_score(
                w,
                cipher,
                rotor_config,
                key,
                rings@,
            ));
        }
    }
    best_rotors_and_key
}

/// The outcome of a search: the score, the key and ring letters as
/// written, the rotor order (fastest first), and the decrypted letters.
pub struct Solution {
    pub score: i128,
    pub key: String,
    pub rotor_config: Vec<u8>,
    pub rings: String,
    pub plaintext: String,
}

/// Letter indices written as upper-case letters.
pub open spec fn spelled(v: Seq<u8>) -> Seq<char> {
    v.map_values(|x: u8| letter_of(x))
}

/// The second-phase key: the first-phase key moved on letter by letter by
/// the trial ring offsets.
pub open spec fn shifted_key(key: Seq<u8>, rings: Seq<u8>) -> Seq<u8> {
    Seq::new(3, |i: int| add_mod(key[i] as int, rings[i] as int) as u8)
}

/// Three zero offsets: the neutral ring setting.
pub open spec fn neutral_rings() -> Seq<u8> {
    seq![0u8, 0u8, 0u8]
}

proof fn lemma_spelled(v: Seq<u8>)
    requires
        forall|i: int| 0 <= i < v.len() ==> #[trigger] v[i] < 26,
    ensures
        all_letters(spelled(v)),
        indices_of(spelled(v)) == v,
        spelled(v).len() == v.len(),
{
    assert forall|i: int| 0 <= i < v.len() implies #[trigger] letter_index(spelled(v)[i]) == Some(v[i]) by {
        assert(spelled(v)[i] == letter_of(v[i]));
    }
    assert(indices_of(spelled(v)) =~= v);
}

/// Letter indices as a string of upper-case letters.
fn spell(v: &Vec<u8>) -> (r: String)
    ensures
        r@ == spelled(v@),
{
    let mut r = String::new();
    for i in 0..v.len()
        invariant
            r@ == spelled(v@.take(i as int)),
    {
        r.push(chr(v[i]));
        assert(r@ =~= spelled(v@.take(i + 1)));
    }
    assert(v@.take(v@.len() as int) =~= v@);
    r
}

/// The first-phase key moved on by the trial ring offsets.
fn shift_key(key: &Vec<u8>, rings: &Vec<u8>) -> (r: Vec<u8>)
    requires
        valid_triple(key@),
        valid_triple(rings@),
    ensures
        r@ == shifted_key(key@, rings@),
        valid_triple(r@),
{
    let mut r: Vec<u8> = Vec::new();
    for i in 0..3usize
        invariant
            valid_triple(key@),
            valid_triple(rings@),
            r@ =~= shifted_key(key@, rings@).take(i as int),
    {
        r.push((key[i] + rings[i]) % 26);
    }
    assert(r@ =~= shifted_key(key@, rings@));
    r
}

/// A result of the second phase: the score of the decryption, the key
/// (slowest rotor first), the rotor order (fastest first) and the ring
/// offsets.
pub struct RingCandidate {
    pub score: i128,
    pub key: Vec<u8>,
    pub rotor_config: Vec<u8>,
    pub rings: Vec<u8>,
}

/// The score of the second-phase trial of kept candidate `c` with ring
/// setting number `b`, in enumeration order.
pub open spec fn phase_two_score(w: Seq<i32>, cipher: Seq<u8>, c: Candidate, b: int) -> int {
    let rings = as_bytes(digits(26, 3, b));
    trial_score(w, cipher, c.rotor_config@, shifted_key(c.key@, rings), rings)
}

/// Kept candidate `j` comes before kept candidate `k` in the second phase:
/// higher score first, and on equal scores the lower slot.
pub open spec fn ranked_before(items: Seq<Candidate>, j: int, k: int) -> bool {
    items[j].score > items[k].score || (items[j].score == items[k].score && j < k)
}

/// Second-phase trial `(j, b)` (kept candidate `j`, ring setting number
/// `b`) is tried before trial `(k, d)`.
pub open spec fn tried_before(items: Seq<Candidate>, j: int, b: int, k: int, d: int) -> bool {
    ranked_before(items, j, k) || (j == k && b < d)
}

/// A second-phase result is trial `(j, b)`: the rotors of kept candidate
/// `j`, ring setting number `b`, and that candidate's key moved on by it.
pub open spec fn is_phase_two_trial(
    w: Seq<i32>,
    cipher: Seq<u8>,
    items: Seq<Candidate>,
    j: int,
    b: int,
    score: int,
    rotor_config: Seq<u8>,
    key: Seq<u8>,
    rings: Seq<u8>,
) -> bool {
    &&& 0 <= j < items.len()
    &&& 0 <= b < 17576
    &&& rotor_config == items[j].rotor_config@
    &&& rings == as_bytes(digits(26, 3, b))
    &&& key == shifted_key(items[j].key@, rings)
    &&& score == phase_two_score(w, cipher, items[j], b)
}

/// The second phase's result: trial `(j, b)` for some `j` and `b`, scoring
/// at least every second-phase trial and strictly more than every trial
/// tried before it.
pub open spec fn refines(
    w: Seq<i32>,
    cipher: Seq<u8>,
    items: Seq<Candidate>,
    score: int,
    rotor_config: Seq<u8>,
    key: Seq<u8>,
    rings: Seq<u8>,
) -> bool {
    &&& exists|j: int, b: int|
        #[trigger] is_phase_two_trial(w, cipher, items, j, b, score, rotor_config, key, rings) && first_best(
            w,
            cipher,
            items,
            j,
            b,
            score,
        )
    &&& forall|k: int, d: int|
        0 <= k < items.len() && 0 <= d < 17576 ==> #[trigger] phase_two_score(w, cipher, items[k], d)
            <= score
}

/// Every second-phase trial tried before `(j, b)` scores less than `score`.
pub open spec fn first_best(w: Seq<i32>, cipher: Seq<u8>, items: Seq<Candidate>, j: int, b: int, score: int) -> bool {
    forall|k: int, d: int|
        0 <= k < items.len() && 0 <= d < 17576 && #[trigger] tried_before(items, k, d, j, b)
            ==> phase_two_score(w, cipher, items[k], d) < score
}

/// Every trial before position `(fq, fb)` of the search order scores less
/// than `s`.
spec fn earlier_below(
    w: Seq<i32>,
    cipher: Seq<u8>,
    items: Seq<Candidate>,
    order: Seq<usize>,
    fq: int,
    fb: int,
    s: int,
) -> bool {
    forall|q: int, b: int|
        0 <= q < order.len() && 0 <= b < 17576 && (q < fq || (q == fq && b < fb))
            ==> #[trigger] phase_two_score(w, cipher, items[order[q] as int], b) < s
}

proof fn lemma_first_in_order(
    w: Seq<i32>,
    cipher: Seq<u8>,
    items: Seq<Candidate>,
    order: Seq<usize>,
    fq: int,
    fb: int,
    s: int,
)
    requires
        is_ranking(items, order),
        0 <= fq < order.len(),
        earlier_below(w, cipher, items, order, fq, fb, s),
    ensures
        first_best(w, cipher, items, order[fq] as int, fb, s),
{
    let fj = order[fq] as int;
    assert forall|k: int, d: int|
        0 <= k < items.len() && 0 <= d < 17576 && #[trigger] tried_before(items, k, d, fj, fb)
            implies phase_two_score(w, cipher, items[k], d) < s by {
        if k == fj && d < fb {
            assert(phase_two_score(w, cipher, items[order[fq] as int], d) < s);
        } else {
            assert(ranked_before(items, k, fj));
            assert(lists(order, k));
            let q = choose|q: int| 0 <= q < order.len() && order[q] == k;
            if q >= fq {
                if q == fq {
                    assert(k == fj);
                } else {
                    assert(items[order[fq] as int].score >= items[order[q] as int].score);
                }
            }
            assert(phase_two_score(w, cipher, items[order[q] as int], d) < s);
        }
    }
}

/// The second phase: for each kept candidate, best first, every ring
/// setting, with the candidate's key moved on by the ring offsets; the
/// single best trial is returned (the first found among equals). `None`
/// when nothing was kept. The result beats or matches every such trial.
#[verifier::rlimit(40)]
pub fn refine_rings(world: &World, table: &QuadgramTable, ciphertext: &Vec<u8>, best: &BestK) -> (r:
    Option<RingCandidate>)
    requires
        world.wf(),
        table.wf(),
        forall|i: int| 0 <= i < ciphertext@.len() ==> #[trigger] ciphertext@[i] < 26,
        forall|i: int|
            0 <= i < best.items().len() ==> valid_rotor_order(#[trigger] best.items()[i].rotor_config@)
                && valid_triple(best.items()[i].key@),
    ensures
        r is None <==> best.items().len() == 0,
        r matches Some(c) ==> {
            &&& valid_rotor_order(c.rotor_config@)
            &&& valid_triple(c.key@)
            &&& valid_triple(c.rings@)
            &&& c.score == trial_score(table@, ciphertext@, c.rotor_config@, c.key@, c.rings@)
            &&& forall|j: int, rings: Seq<u8>|
                0 <= j < best.items().len() && valid_triple(rings) ==> c.score >= #[trigger] trial_score(
                    table@,
                    ciphertext@,
                    best.items()[j].rotor_config@,
                    shifted_key(best.items()[j].key@, rings),
                    rings,
                )
            &&& refines(table@, ciphertext@, best.items(), c.score as int, c.rotor_config@, c.key@, c.rings@)
        },
{
    let ghost mut fq: int = 0;
    let ghost mut fb: int = 0;
    let ghost w = table@;
    let ghost cipher = ciphertext@;
    let ghost items = best.items();
    let ranking = best.best_first();
    let mut found = false;
    let mut best_score: i128 = 0;
    let mut best_key: Vec<u8> = Vec::new();
    let mut best_order: Vec<u8> = Vec::new();
    let mut best_rings: Vec<u8> = Vec::new();
    proof {
        reveal_with_fuel(power, 4);
    }
    for rank in 0..ranking.len()
        invariant
            world.wf(),
            table.wf(),
            w == table@,
            cipher == ciphertext@,
            forall|i: int| 0 <= i < cipher.len() ==> #[trigger] cipher[i] < 26,
            items == best.items(),
            is_ranking(items, ranking@),
            forall|i: int|
                0 <= i < items.len() ==> valid_rotor_order(#[trigger] items[i].rotor_config@) && valid_triple(
                    items[i].key@,
                ),
            power(26, 3) == 17576,
            found ==> {
                &&& valid_rotor_order(best_order@)
                &&& valid_triple(best_key@)
                &&& valid_triple(best_rings@)
                &&& best_score == trial_score(w, cipher, best_order@, best_key@, best_rings@)
            },
            found ==> items.len() > 0,
            rank > 0 ==> found,
            found ==> {
                &&& 0 <= fq < rank
                &&& is_phase_two_trial(w, cipher, items, ranking@[fq] as int, fb, best_score as int, best_order@, best_key@, best_rings@)
                &&& earlier_below(w, cipher, items, ranking@, fq, fb, best_score as int)
            },
            forall|q: int, b: int|
                0 <= q < rank && 0 <= b < 17576 ==> best_score >= #[trigger] phase_two_score(
                    w,
                    cipher,
                    items[ranking@[q] as int],
                    b,
                ),
    {
        let slot = ranking[rank];
        let candidate = best.get(slot);
        assert(valid_rotor_order(items[slot as int].rotor_config@));
        let mut ring_settings = Product::new(26, 3);
        loop
            invariant
                world.wf(),
                table.wf(),
                w == table@,
                cipher == ciphertext@,
                forall|i: int| 0 <= i < cipher.len() ==> #[trigger] cipher[i] < 26,
                rank < ranking@.len(),
                ranking@.len() == items.len(),
                slot == ranking@[rank as int],
                *candidate == items[slot as int],
                valid_rotor_order(candidate.rotor_config@),
                valid_triple(candidate.key@),
                ring_settings.wf(),
                ring_settings.base() == 26,
                ring_settings.len() == 3,
                0 <= ring_settings.position() <= 17576,
                power(26, 3) == 17576,
                found ==> {
                    &&& valid_rotor_order(best_order@)
                    &&& valid_triple(best_key@)
                    &&& valid_triple(best_rings@)
                    &&& best_score == trial_score(w, cipher, best_order@, best_key@, best_rings@)
                },
                rank > 0 || ring_settings.position() > 0 ==> found,
                found ==> items.len() > 0,
                slot < items.len(),
                found ==> {
                    &&& 0 <= fq <= rank
                    &&& (fq < rank || fb < ring_settings.position())
                    &&& is_phase_two_trial(w, cipher, items, ranking@[fq] as int, fb, best_score as int, best_order@, best_key@, best_rings@)
                    &&& earlier_below(w, cipher, items, ranking@, fq, fb, best_score as int)
                },
                forall|q: int, b: int|
                    0 <= q < rank && 0 <= b < 17576 ==> best_score >= #[trigger] phase_two_score(
                        w,
                        cipher,
                        items[ranking@[q] as int],
                        b,
                    ),
                forall|b: int|
                    0 <= b < ring_settings.position() ==> best_score >= #[trigger] phase_two_score(
                        w,
                        cipher,
                        *candidate,
                        b,
                    ),
            ensures
                found,
                items.len() > 0,
                found ==> {
                    &&& 0 <= fq <= rank
                    &&& is_phase_two_trial(w, cipher, items, ranking@[fq] as int, fb, best_score as int, best_order@, best_key@, best_rings@)
                    &&& earlier_below(w, cipher, items, ranking@, fq, fb, best_score as int)
                },
                found ==> {
                    &&& valid_rotor_order(best_order@)
                    &&& valid_triple(best_key@)
                    &&& valid_triple(best_rings@)
                    &&& best_score == trial_score(w, cipher, best_order@, best_key@, best_rings@)
                },
                forall|q: int, b: int|
                    0 <= q < rank && 0 <= b < 17576 ==> best_score >= #[trigger] phase_two_score(
                        w,
                        cipher,
                        items[ranking@[q] as int],
                        b,
                    ),
                forall|b: int|
                    0 <= b < 17576 ==> best_score >= #[trigger] phase_two_score(w, cipher, *candidate, b),
            decreases 17576 - ring_settings.position(),
        {
            let ghost b = ring_settings.position();
            let ring_tuple = match ring_settings.next() {
                Some(t) => t,
                None => break,
            };
            proof {
                lemma_digits_bounded(26, 3, b);
            }
            let rings = to_bytes(&ring_tuple);
            let key = shift_key(&candidate.key, &rings);
            let plaintext = encrypt_u8(world, ciphertext, &candidate.rotor_config, &key, &rings);
            let trial = score(table, &plaintext);
            assert(trial == phase_two_score(w, cipher, *candidate, b)) by {
                reveal(trial_score);
            }
            let ghost old_best = best_score as int;
            if !found || best_score < trial {
                found = true;
                best_score = trial;
                best_key = key;
                best_order = candidate.rotor_config.clone();
                assert(best_order@ =~= candidate.rotor_config@);
                best_rings = rings;
                assert(best_score == trial_score(w, cipher, best_order@, best_key@, best_rings@)) by {
                    reveal(trial_score);
                }
                proof {
                    fq = rank as int;
                    fb = b;
                    assert forall|q: int, b2: int|
                        0 <= q < ranking@.len() && 0 <= b2 < 17576 && (q < fq || (q == fq && b2 < fb))
                            implies #[trigger] phase_two_score(w, cipher, items[ranking@[q] as int], b2) < trial by {
                        if q == fq {
                            assert(phase_two_score(w, cipher, *candidate, b2) <= old_best);
                        } else {
                            assert(phase_two_score(w, cipher, items[ranking@[q] as int], b2) <= old_best);
                        }
                    }
                }
            }
        }
    }
    if !found {
        assert(items.len() == 0) by {
            if items.len() > 0 {
                assert(lists(ranking@, 0));
            }
        }
        return None;
    }
    proof {
        lemma_first_in_order(w, cipher, items, ranking@, fq, fb, best_score as int);
        assert(is_phase_two_trial(w, cipher, items, ranking@[fq] as int, fb, best_score as int, best_order@, best_key@, best_rings@));
        assert forall|k: int, d: int|
            0 <= k < items.len() && 0 <= d < 17576 implies #[trigger] phase_two_score(w, cipher, items[k], d)
                <= best_score by {
            assert(lists(ranking@, k));
            let q = choose|q: int| 0 <= q < ranking@.len() && ranking@[q] == k;
            assert(phase_two_score(w, cipher, items[ranking@[q] as int], d) <= best_score);
        }
        assert forall|j: int, rings: Seq<u8>|
            0 <= j < items.len() && valid_triple(rings) implies best_score >= #[trigger] trial_score(
                w,
                cipher,
                items[j].rotor_config@,
                shifted_key(items[j].key@, rings),
                rings,
            ) by {
            let t = rings.map_values(|x: u8| x as usize);
            law_digits_complete(26, t);
            assert(as_bytes(t) =~= rings);
            assert(lists(ranking@, j));
            let q = choose|q: int| 0 <= q < ranking@.len() && ranking@[q] == j;
            assert(best_score >= phase_two_score(w, cipher, items[ranking@[q] as int], index_of(26, t)));
        }
    }
    Some(RingCandidate { score: best_score, key: best_key, rotor_config: best_order, rings: best_rings })
}

/// What the first phase keeps at neutral rings: exactly `KEEP_BEST`
/// candidates, each describing its own trial, and every trial that is not
/// kept scores at most every kept one.
pub open spec fn phase_one_result(w: Seq<i32>, cipher: Seq<u8>, kept: Seq<Candidate>) -> bool {
    &&& kept.len() == KEEP_BEST
    &&& forall|i: int| 0 <= i < kept.len() ==> sound_candidate(w, cipher, neutral_rings(), #[trigger] kept[i])
    &&& forall|rotor_config: Seq<u8>, key: Seq<u8>|
        valid_rotor_order(rotor_config) && valid_triple(key) ==> accounted(
            kept,
            rotor_config,
            key,
            #[trigger] trial_score(w, cipher, rotor_config, key, neutral_rings()),
        )
}

/// The second phase has one result: two results that refine the same kept
/// candidates are the same trial, with the same score, rotors, key and
/// rings.
pub proof fn law_refinement_unique(
    w: Seq<i32>,
    cipher: Seq<u8>,
    items: Seq<Candidate>,
    s1: int,
    rotor_config1: Seq<u8>,
    key1: Seq<u8>,
    rings1: Seq<u8>,
    s2: int,
    rotor_config2: Seq<u8>,
    key2: Seq<u8>,
    rings2: Seq<u8>,
)
    requires
        refines(w, cipher, items, s1, rotor_config1, key1, rings1),
        refines(w, cipher, items, s2, rotor_config2, key2, rings2),
    ensures
        s1 == s2,
        rotor_config1 == rotor_config2,
        key1 == key2,
        rings1 == rings2,
{
    let (j1, b1) = choose|j: int, b: int|
        #[trigger] is_phase_two_trial(w, cipher, items, j, b, s1, rotor_config1, key1, rings1) && first_best(
            w,
            cipher,
            items,
            j,
            b,
            s1,
        );
    let (j2, b2) = choose|j: int, b: int|
        #[trigger] is_phase_two_trial(w, cipher, items, j, b, s2, rotor_config2, key2, rings2) && first_best(
            w,
            cipher,
            items,
            j,
            b,
            s2,
        );
    assert(phase_two_score(w, cipher, items[j2], b2) <= s1);
    assert(phase_two_score(w, cipher, items[j1], b1) <= s2);
    if j1 != j2 || b1 != b2 {
        if tried_before(items, j1, b1, j2, b2) {
            assert(phase_two_score(w, cipher, items[j1], b1) < s2);
        } else {
            assert(tried_before(items, j2, b2, j1, b1));
            assert(phase_two_score(w, cipher, items[j2], b2) < s1);
        }
    }
}

/// Candidates that agree slot by slot on score, rotors and key.
pub open spec fn same_candidates(items1: Seq<Candidate>, items2: Seq<Candidate>) -> bool {
    &&& items1.len() == items2.len()
    &&& forall|i: int|
        0 <= i < items1.len() ==> {
            &&& (#[trigger] items1[i]).score == items2[i].score
            &&& items1[i].rotor_config@ == items2[i].rotor_config@
            &&& items1[i].key@ == items2[i].key@
        }
}

proof fn lemma_refines_same(
    w: Seq<i32>,
    cipher: Seq<u8>,
    items1: Seq<Candidate>,
    items2: Seq<Candidate>,
    s: int,
    rotor_config: Seq<u8>,
    key: Seq<u8>,
    rings: Seq<u8>,
)
    requires
        same_candidates(items1, items2),
        refines(w, cipher, items2, s, rotor_config, key, rings),
    ensures
        refines(w, cipher, items1, s, rotor_config, key, rings),
{
    assert forall|k: int, d: int| 0 <= k < items1.len() implies #[trigger] phase_two_score(w, cipher, items1[k], d)
        == phase_two_score(w, cipher, items2[k], d) by {
        assert(items1[k].rotor_config@ == items2[k].rotor_config@);
    }
    let (j, b) = choose|j: int, b: int|
        #[trigger] is_phase_two_trial(w, cipher, items2, j, b, s, rotor_config, key, rings) && first_best(
            w,
            cipher,
            items2,
            j,
            b,
            s,
        );
    assert(is_phase_two_trial(w, cipher, items1, j, b, s, rotor_config, key, rings));
    assert forall|k: int, d: int|
        0 <= k < items1.len() && 0 <= d < 17576 && #[trigger] tried_before(items1, k, d, j, b)
            implies phase_two_score(w, cipher, items1[k], d) < s by {
        assert(tried_before(items2, k, d, j, b));
    }
    assert(first_best(w, cipher, items1, j, b, s));
    assert forall|k: int, d: int|
        0 <= k < items1.len() && 0 <= d < 17576 implies #[trigger] phase_two_score(w, cipher, items1[k], d)
            <= s by {
        assert(phase_two_score(w, cipher, items2[k], d) <= s);
    }
}

/// The search result is fixed by the ciphertext's letters and the table:
/// two results that each refine candidates describing the same first-phase
/// trials are equal.
pub proof fn law_search_result_unique(
    w: Seq<i32>,
    cipher: Seq<u8>,
    rings: Seq<u8>,
    ts: Seq<int>,
    items1: Seq<Candidate>,
    items2: Seq<Candidate>,
    s1: int,
    rotor_config1: Seq<u8>,
    key1: Seq<u8>,
    rings1: Seq<u8>,
    s2: int,
    rotor_config2: Seq<u8>,
    key2: Seq<u8>,
    rings2: Seq<u8>,
)
    requires
        describes(w, cipher, rings, items1, ts),
        describes(w, cipher, rings, items2, ts),
        refines(w, cipher, items1, s1, rotor_config1, key1, rings1),
        refines(w, cipher, items2, s2, rotor_config2, key2, rings2),
    ensures
        s1 == s2,
        rotor_config1 == rotor_config2,
        key1 == key2,
        rings1 == rings2,
{
    assert forall|i: int| 0 <= i < items1.len() implies {
        &&& (#[trigger] items1[i]).score == items2[i].score
        &&& items1[i].rotor_config@ == items2[i].rotor_config@
        &&& items1[i].key@ == items2[i].key@
    } by {
        assert(items2[i].score == numbered_score(w, cipher, rings, ts[i]));
    }
    lemma_refines_same(w, cipher, items1, items2, s2, rotor_config2, key2, rings2);
    law_refinement_unique(w, cipher, items1, s1, rotor_config1, key1, rings1, s2, rotor_config2, key2, rings2);
}

/// Beating every second-phase trial of candidates that each dominate the
/// first-phase trials means beating every decryption at neutral rings.
proof fn lemma_neutral_rings_beaten(w: Seq<i32>, cipher: Seq<u8>, items: Seq<Candidate>, s: int)
    requires
        forall|i: int| 0 <= i < items.len() ==> sound_candidate(w, cipher, neutral_rings(), #[trigger] items[i]),
        forall|rotor_config: Seq<u8>, key: Seq<u8>|
            valid_rotor_order(rotor_config) && valid_triple(key) ==> dominated(
                items,
                #[trigger] trial_score(w, cipher, rotor_config, key, neutral_rings()),
            ),
        forall|j: int, rings: Seq<u8>|
            0 <= j < items.len() && valid_triple(rings) ==> s >= #[trigger] trial_score(
                w,
                cipher,
                items[j].rotor_config@,
                shifted_key(items[j].key@, rings),
                rings,
            ),
    ensures
        forall|rotor_config: Seq<u8>, k: Seq<u8>|
            valid_rotor_order(rotor_config) && valid_triple(k) ==> s >= #[trigger] trial_score(
                w,
                cipher,
                rotor_config,
                k,
                neutral_rings(),
            ),
{
    assert forall|rotor_config: Seq<u8>, k: Seq<u8>|
        valid_rotor_order(rotor_config) && valid_triple(k) implies s >= #[trigger] trial_score(
            w,
            cipher,
            rotor_config,
            k,
            neutral_rings(),
        ) by {
        assert(dominated(items, trial_score(w, cipher, rotor_config, k, neutral_rings())));
        let j = choose|j: int| 0 <= j < items.len() && #[trigger] items[j].score >= trial_score(
            w,
            cipher,
            rotor_config,
            k,
            neutral_rings(),
        );
        assert(sound_candidate(w, cipher, neutral_rings(), items[j]));
        assert(shifted_key(items[j].key@, neutral_rings()) =~= items[j].key@);
        assert(valid_triple(neutral_rings()));
        assert(s >= trial_score(
            w,
            cipher,
            items[j].rotor_config@,
            shifted_key(items[j].key@, neutral_rings()),
            neutral_rings(),
        ));
    }
}

/// Recovers the machine settings from a ciphertext alone: the first phase
/// at neutral rings, then the second phase on what it kept. `None` when the
/// ciphertext has no letter. Only the letters of the ciphertext count, in
/// either case. The key and rings come back as upper-case letters; the
/// result is the second phase's single result on the kept candidates, and
/// it scores at least as well as every decryption at neutral rings.
#[verifier::rlimit(40)]
pub fn brute_force(table: &QuadgramTable, ciphertext: &str) -> (r: Option<Solution>)
    requires
        table.wf(),
    ensures
        r is None <==> letter_indices(ciphertext@).len() == 0,
        r matches Some(sol) ==> {
            let cipher = letter_indices(ciphertext@);
            let key = indices_of(sol.key@);
            let rings = indices_of(sol.rings@);
            &&& valid_rotor_order(sol.rotor_config@)
            &&& all_letters(sol.key@)
            &&& valid_triple(key)
            &&& all_letters(sol.rings@)
            &&& valid_triple(rings)
            &&& sol.score == trial_score(table@, cipher, sol.rotor_config@, key, rings)
            &&& sol.key@ == spelled(key)
            &&& sol.rings@ == spelled(rings)
            &&& sol.plaintext@ == spelled(
                run_letters(catalog_machine(sol.rotor_config@, rings), key.reverse(), cipher),
            )
            &&& exists|kept: Seq<Candidate>|
                #[trigger] phase_one_result(table@, cipher, kept) && describes(
                    table@,
                    cipher,
                    neutral_rings(),
                    kept,
                    kept_after(table@, cipher, neutral_rings(), trial_count()),
                ) && refines(
                    table@,
                    cipher,
                    kept,
                    sol.score as int,
                    sol.rotor_config@,
                    key,
                    rings,
                )
            &&& forall|rotor_config: Seq<u8>, k: Seq<u8>|
                valid_rotor_order(rotor_config) && valid_triple(k) ==> sol.score >= #[trigger] trial_score(
                    table@,
                    cipher,
                    rotor_config,
                    k,
                    neutral_rings(),
                )
        },
{
    let ghost w = table@;
    let world = world();
    let ciphertext = input_to_u8(ciphertext);
    let ghost cipher = ciphertext@;
    if ciphertext.len() == 0 {
        return None;
    }
    let neutral: Vec<u8> = vec![0u8, 0u8, 0u8];
    assert(neutral@ =~= neutral_rings());
    let best_rotors_and_key = brute_force_rotors_and_key(&world, table, &ciphertext, &neutral);
    let ghost items = best_rotors_and_key.items();
    assert forall|i: int| 0 <= i < items.len() implies valid_rotor_order(#[trigger] items[i].rotor_config@)
        && valid_triple(items[i].key@) by {
        assert(sound_candidate(w, cipher, neutral_rings(), items[i]));
    }
    let refined = refine_rings(&world, table, &ciphertext, &best_rotors_and_key);
    let found = match refined {
        Some(c) => c,
        None => return None,
    };
    proof {
        lemma_neutral_rings_beaten(w, cipher, items, found.score as int);
        assert(phase_one_result(w, cipher, items));
    }
    let plaintext = encrypt_u8(&world, &ciphertext, &found.rotor_config, &found.key, &found.rings);
    proof {
        lemma_spelled(found.key@);
        lemma_spelled(found.rings@);
    }
    Some(
        Solution {
            score: found.score,
            key: spell(&found.key),
            rotor_config: found.rotor_config,
            rings: spell(&found.rings),
            plaintext: spell(&plaintext),
        },
    )
}

} // verus!
