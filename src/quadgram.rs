//! Quadgram scoring: how much a text of letter indices looks like the
//! target language, by a fixed table of weights for every four-letter
//! window.

use vstd::prelude::*;

verus! {

/// Number of four-letter windows: 26 to the fourth.
pub const QUADGRAM_COUNT: usize = 456976;

/// Number of three-letter prefixes: 26 cubed.
pub const TRIGRAM_COUNT: usize = 17576;

/// One weight per four-letter window, indexed in base 26 with the first
/// letter most significant (log-frequencies in fixed point).
pub struct QuadgramTable {
    weights: Vec<i32>,
}

impl View for QuadgramTable {
    type V = Seq<i32>;

    closed spec fn view(&self) -> Seq<i32> {
        self.weights@
    }
}

impl QuadgramTable {
    /// One weight for every window.
    pub open spec fn wf(&self) -> bool {
        self@.len() == QUADGRAM_COUNT
    }

    /// A table from its weights; `None` unless there is exactly one weight
    /// per window.
    pub fn new(weights: Vec<i32>) -> (r: Option<QuadgramTable>)
        ensures
            r is Some <==> weights@.len() == QUADGRAM_COUNT,
            r matches Some(t) ==> t.wf() && t@ == weights@,
    {
        if weights.len() == QUADGRAM_COUNT {
            Some(QuadgramTable { weights })
        } else {
            None
        }
    }

    /// The weight of window `index`.
    pub fn weight(&self, index: usize) -> (r: i32)
        requires
            self.wf(),
            index < QUADGRAM_COUNT,
        ensures
            r == self@[index as int],
    {
        self.weights[index]
    }
}

/// The values of `text` that are alphabet indices, in order.
pub open spec fn letters_only(text: Seq<u8>) -> Seq<u8>
    decreases text.len(),
{
    if text.len() == 0 {
        text
    } else if text.last() < 26 {
        letters_only(text.drop_last()).push(text.last())
    } else {
        letters_only(text.drop_last())
    }
}

/// The window of four letters starting at `i`, in base 26.
pub open spec fn quad_index(t: Seq<u8>, i: int) -> int {
    t[i] * 17576 + t[i + 1] * 676 + t[i + 2] * 26 + t[i + 3]
}

/// The sum of the weights of all four-letter windows of `t`.
pub open spec fn score_letters(w: Seq<i32>, t: Seq<u8>) -> int
    decreases t.len(),
{
    if t.len() < 4 {
        0
    } else {
        score_letters(w, t.drop_last()) + w[quad_index(t, t.len() - 4)]
    }
}

/// The score of `text`: its non-letter values dropped, the weights of all
/// four-letter windows summed.
pub open spec fn score_spec(w: Seq<i32>, text: Seq<u8>) -> int {
    score_letters(w, letters_only(text))
}

/// The last (up to) three letters of `t`, in base 26.
pub open spec fn tail_value(t: Seq<u8>) -> int {
    let l = t.len() as int;
    if l == 0 {
        0
    } else if l == 1 {
        t[0] as int
    } else if l == 2 {
        t[0] * 26 + t[1]
    } else {
        t[l - 3] * 676 + t[l - 2] * 26 + t[l - 1]
    }
}

proof fn lemma_letters_only(text: Seq<u8>)
    ensures
        letters_only(text).len() <= text.len(),
        forall|i: int| 0 <= i < letters_only(text).len() ==> #[trigger] letters_only(text)[i] < 26,
    decreases text.len(),
{
    if text.len() > 0 {
        lemma_letters_only(text.drop_last());
    }
}

proof fn lemma_roll(t: Seq<u8>, qi: int, c: u8)
    requires
        forall|i: int| 0 <= i < t.len() ==> #[trigger] t[i] < 26,
        c < 26,
        qi % 17576 == tail_value(t),
    ensures
        ({
            let next = (qi % 17576) * 26 + c;
            let u = t.push(c);
            &&& 0 <= next < 456976
            &&& next % 17576 == tail_value(u)
            &&& u.len() >= 4 ==> next == quad_index(u, u.len() - 4)
        }),
{
    let u = t.push(c);
    let l = t.len() as int;
    let next = (qi % 17576) * 26 + c;
    assert(0 <= qi % 17576 < 17576);
    if l >= 3 {
        let a = t[l - 3] as int;
        let b = t[l - 2] as int;
        let d = t[l - 1] as int;
        assert(u[l - 3] == a && u[l - 2] == b && u[l - 1] == d && u[l] == c);
        assert(next == a * 17576 + (b * 676 + d * 26 + c));
        assert((a * 17576 + (b * 676 + d * 26 + c)) % 17576 == b * 676 + d * 26 + c) by (nonlinear_arith)
            requires
                0 <= a < 26,
                0 <= b < 26,
                0 <= d < 26,
                0 <= c < 26,
        ;
    } else if l == 2 {
        assert(u[0] == t[0] && u[1] == t[1] && u[2] == c);
        assert(next == t[0] * 676 + t[1] * 26 + c);
    } else if l == 1 {
        assert(u[0] == t[0] && u[1] == c);
    } else {
        assert(u[0] == c);
    }
}

/// Scores `text`: values that are not alphabet indices are dropped, and a
/// rolling base-26 index over the last letters picks the weight of every
/// four-letter window from the fourth letter on.
pub fn score(table: &QuadgramTable, text: &Vec<u8>) -> (r: i128)
    requires
        table.wf(),
    ensures
        r == score_spec(table@, text@),
{
    let ghost w = table@;
    let mut total: i128 = 0;
    let mut qgram_index: usize = 0;
    let mut seen: usize = 0;
    for idx in 0..text.len()
        invariant
            table.wf(),
            w == table@,
            seen == letters_only(text@.take(idx as int)).len(),
            seen <= idx,
            qgram_index < QUADGRAM_COUNT,
            qgram_index % 17576 == tail_value(letters_only(text@.take(idx as int))),
            total == score_letters(w, letters_only(text@.take(idx as int))),
            -(seen as int) * 2147483648 <= total <= (seen as int) * 2147483648,
    {
        let ghost f = letters_only(text@.take(idx as int));
        let c = text[idx];
        assert(text@.take(idx + 1).drop_last() =~= text@.take(idx as int));
        assert(text@.take(idx + 1).last() == c);
        if c < 26 {
            proof {
                lemma_letters_only(text@.take(idx as int));
                lemma_roll(f, qgram_index as int, c);
            }
            qgram_index = (qgram_index % TRIGRAM_COUNT) * 26 + c as usize;
            seen = seen + 1;
            let ghost u = f.push(c);
            assert(u.drop_last() =~= f);
            if seen >= 4 {
                let weight = table.weight(qgram_index);
                total = total + weight as i128;
            }
        }
    }
    assert(text@.take(text@.len() as int) =~= text@);
    total
}

/// Scoring is determined by the table and the text alone: equal texts
/// score the same. A text with fewer than four letters scores zero.
pub proof fn law_score_determined(w: Seq<i32>, text: Seq<u8>, same: Seq<u8>)
    ensures
        text == same ==> score_spec(w, text) == score_spec(w, same),
        letters_only(text).len() < 4 ==> score_spec(w, text) == 0,
        text.len() < 4 ==> score_spec(w, text) == 0,
{
    lemma_letters_only(text);
}

} // verus!
