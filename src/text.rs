//! Letters and text: the alphabet convention at the library's edge, and
//! encryption of whole strings.

use vstd::prelude::*;
use crate::machine::{
    catalog_machine, create_config, encrypt_one, lemma_catalog_machine_wf,
    lemma_stepped_valid, lemma_substitute_involution, stepped, substitute, valid_settings, world,
    MachineSpec,
};
use crate::catalog::ROTOR_COUNT;
use crate::permutation::CipherError;

verus! {

/// Relies on `String::push`: appends one character at the end.
pub assume_specification[ String::push ](s: &mut String, ch: char)
    ensures
        final(s)@ == old(s)@.push(ch),
;

/// The alphabet index of a letter of either case; `None` for any other
/// character.
pub open spec fn letter_index(c: char) -> Option<u8> {
    if 'a' <= c && c <= 'z' {
        Some((c as u32 - 'a' as u32) as u8)
    } else if 'A' <= c && c <= 'Z' {
        Some((c as u32 - 'A' as u32) as u8)
    } else {
        None
    }
}

/// The upper-case letter of an alphabet index, and `?` for anything else.
pub open spec fn letter_of(v: u8) -> char {
    if v < 26 {
        (v + 65) as char
    } else {
        '?'
    }
}

/// Maps a letter of either case to its alphabet index.
pub fn ord(c: char) -> (r: Option<u8>)
    ensures
        r == letter_index(c),
{
    if 'a' <= c && c <= 'z' {
        Some((c as u32 - 'a' as u32) as u8)
    } else if 'A' <= c && c <= 'Z' {
        Some((c as u32 - 'A' as u32) as u8)
    } else {
        None
    }
}

/// Maps an alphabet index to its upper-case letter, and anything else to `?`.
pub fn chr(o: u8) -> (r: char)
    ensures
        r == letter_of(o),
{
    if o < 26 {
        (o + 65) as char
    } else {
        '?'
    }
}

/// Every character is a letter, of either case.
pub open spec fn all_letters(s: Seq<char>) -> bool {
    forall|i: int| 0 <= i < s.len() ==> #[trigger] letter_index(s[i]) is Some
}

/// The alphabet indices of a string made of letters only.
pub open spec fn indices_of(s: Seq<char>) -> Seq<u8> {
    s.map_values(|c: char| letter_index(c)->0)
}

/// The alphabet indices of the letters of `s`, other characters dropped.
pub open spec fn letter_indices(s: Seq<char>) -> Seq<u8>
    decreases s.len(),
{
    if s.len() == 0 {
        Seq::empty()
    } else {
        match letter_index(s[0]) {
            Some(v) => seq![v] + letter_indices(s.drop_first()),
            None => letter_indices(s.drop_first()),
        }
    }
}

/// `text` through the machine from positions `state`: a letter of either
/// case steps the rotors and comes out as an upper-case letter; any other
/// character comes out as it was, and the rotors stay.
pub open spec fn encrypt_chars(m: MachineSpec, state: Seq<u8>, text: Seq<char>) -> Seq<char>
    decreases text.len(),
{
    if text.len() == 0 {
        Seq::empty()
    } else {
        match letter_index(text[0]) {
            Some(v) => {
                let next = stepped(m, state);
                seq![letter_of(substitute(m, next, v as int) as u8)] + encrypt_chars(
                    m,
                    next,
                    text.drop_first(),
                )
            },
            None => seq![text[0]] + encrypt_chars(m, state, text.drop_first()),
        }
    }
}

/// The alphabet indices of `input`, or `None` if some character is not a
/// letter.
pub fn str_to_vec8(input: &str) -> (r: Option<Vec<u8>>)
    ensures
        r is Some <==> all_letters(input@),
        r matches Some(v) ==> v@ == indices_of(input@),
{
    let mut out: Vec<u8> = Vec::new();
    for c in it: input.chars()
        invariant
            it.seq() == input@,
            out@ == indices_of(input@.take(it.index() as int)),
            all_letters(input@.take(it.index() as int)),
    {
        let ghost k = it.index() as int;
        assert(c == input@[k]);
        match ord(c) {
            Some(v) => {
                out.push(v);
                assert(input@.take(k + 1) =~= input@.take(k).push(c));
                assert(out@ =~= indices_of(input@.take(k + 1)));
            },
            None => {
                assert(letter_index(input@[k]) is None);
                return None;
            },
        }
    }
    assert(input@.take(input@.len() as int) =~= input@);
    Some(out)
}

/// The alphabet indices of `input` in reverse order, or `None` if some
/// character is not a letter.
pub fn str_to_vec8_rev(input: &str) -> (r: Option<Vec<u8>>)
    ensures
        r is Some <==> all_letters(input@),
        r matches Some(v) ==> v@ == indices_of(input@).reverse(),
{
    match str_to_vec8(input) {
        Some(v) => Some(crate::machine::reversed(&v)),
        None => None,
    }
}

/// The alphabet indices of the letters of `input`; other characters are
/// dropped.
pub fn input_to_u8(input: &str) -> (r: Vec<u8>)
    ensures
        r@ == letter_indices(input@),
        forall|i: int| 0 <= i < r@.len() ==> #[trigger] r@[i] < 26,
{
    let mut out: Vec<u8> = Vec::new();
    assert(input@.skip(0) =~= input@);
    assert(out@ + letter_indices(input@) =~= letter_indices(input@));
    for c in it: input.chars()
        invariant
            it.seq() == input@,
            out@ + letter_indices(input@.skip(it.index() as int)) == letter_indices(input@),
            forall|i: int| 0 <= i < out@.len() ==> #[trigger] out@[i] < 26,
    {
        let ghost k = it.index() as int;
        assert(c == input@[k]);
        let ghost rest = input@.skip(k);
        assert(rest.drop_first() =~= input@.skip(k + 1));
        match ord(c) {
            Some(v) => {
                out.push(v);
                assert(out@ + letter_indices(input@.skip(k + 1)) =~= out@.drop_last() + letter_indices(rest));
            },
            None => {},
        }
    }
    assert(out@ + letter_indices(Seq::<char>::empty()) =~= out@);
    assert(input@.skip(input@.len() as int) =~= Seq::<char>::empty());
    out
}

/// Encrypts `input` with catalog rotors `rotor_config` (fastest first),
/// starting positions `key` (slowest first, as written) and ring letters
/// `rings`. Letters of either case come out upper case; other characters
/// come out unchanged and do not step the rotors. A key or ring setting
/// that is not exactly one letter per rotor is refused.
pub fn encrypt(input: &str, rotor_config: &Vec<u8>, key: &str, rings: &str) -> (r: Result<
    String,
    CipherError,
>)
    requires
        rotor_config@.len() >= 1,
        forall|i: int| 0 <= i < rotor_config@.len() ==> #[trigger] rotor_config@[i] < ROTOR_COUNT,
    ensures
        !(all_letters(key@) && key@.len() == rotor_config@.len()) ==> r == Err::<String, CipherError>(
            CipherError::InvalidKeyLength,
        ),
        all_letters(key@) && key@.len() == rotor_config@.len() && !(all_letters(rings@)
            && rings@.len() == rotor_config@.len()) ==> r == Err::<String, CipherError>(
            CipherError::InvalidRingLength,
        ),
        all_letters(key@) && key@.len() == rotor_config@.len() && all_letters(rings@)
            && rings@.len() == rotor_config@.len() ==> (r matches Ok(out) && out@ == encrypt_chars(
            catalog_machine(rotor_config@, indices_of(rings@)),
            indices_of(key@).reverse(),
            input@,
        )),
{
    let state0 = match str_to_vec8_rev(key) {
        Some(v) => v,
        None => return Err(CipherError::InvalidKeyLength),
    };
    if state0.len() != rotor_config.len() {
        return Err(CipherError::InvalidKeyLength);
    }
    let ring_offsets = match str_to_vec8(rings) {
        Some(v) => v,
        None => return Err(CipherError::InvalidRingLength),
    };
    if ring_offsets.len() != rotor_config.len() {
        return Err(CipherError::InvalidRingLength);
    }
    proof {
        assert forall|i: int| 0 <= i < ring_offsets@.len() implies #[trigger] ring_offsets@[i] < 26 by {
            assert(letter_index(rings@[i]) is Some);
        }
    }
    let world = world();
    let config = create_config(&world, rotor_config, &ring_offsets);
    let ghost m = config@;
    let mut state = state0;
    proof {
        assert forall|i: int| 0 <= i < state@.len() implies #[trigger] state@[i] < 26 by {
            assert(letter_index(key@[key@.len() - 1 - i]) is Some);
        }
    }
    let ghost start = state@;
    let mut out = String::new();
    assert(input@.skip(0) =~= input@);
    assert(out@ + encrypt_chars(m, state@, input@) =~= encrypt_chars(m, state@, input@));
    for c in it: input.chars()
        invariant
            it.seq() == input@,
            config.wf(),
            m == config@,
            m.valid_state(state@),
            out@ + encrypt_chars(m, state@, input@.skip(it.index() as int)) == encrypt_chars(
                m,
                start,
                input@,
            ),
    {
        let ghost k = it.index() as int;
        assert(c == input@[k]);
        let ghost rest = input@.skip(k);
        let ghost before = state@;
        let ghost prev = out@;
        assert(rest.drop_first() =~= input@.skip(k + 1));
        match ord(c) {
            Some(v) => {
                let e = encrypt_one(v, &mut state, &config);
                out.push(chr(e));
                assert(out@ + encrypt_chars(m, state@, input@.skip(k + 1)) =~= prev + encrypt_chars(
                    m,
                    before,
                    rest,
                ));
            },
            None => {
                out.push(c);
                assert(out@ + encrypt_chars(m, state@, input@.skip(k + 1)) =~= prev + encrypt_chars(
                    m,
                    before,
                    rest,
                ));
            },
        }
    }
    assert(out@ + encrypt_chars(m, state@, Seq::<char>::empty()) =~= out@);
    assert(input@.skip(input@.len() as int) =~= Seq::<char>::empty());
    Ok(out)
}

/// No lower-case letter: every character is an upper-case letter or not a
/// letter at all.
pub open spec fn no_lower_case(text: Seq<char>) -> bool {
    forall|i: int| 0 <= i < text.len() ==> !('a' <= #[trigger] text[i] && text[i] <= 'z')
}

/// On text without lower-case letters, encrypting twice from the same
/// positions gives the text back.
pub proof fn lemma_encrypt_chars_involution(m: MachineSpec, state: Seq<u8>, text: Seq<char>)
    requires
        m.wf(),
        m.valid_state(state),
        no_lower_case(text),
    ensures
        encrypt_chars(m, state, encrypt_chars(m, state, text)) == text,
    decreases text.len(),
{
    if text.len() > 0 {
        let out = encrypt_chars(m, state, text);
        let rest = text.drop_first();
        assert(no_lower_case(rest)) by {
            assert forall|i: int| 0 <= i < rest.len() implies !('a' <= #[trigger] rest[i] && rest[i] <= 'z') by {
                assert(rest[i] == text[i + 1]);
            }
        }
        match letter_index(text[0]) {
            Some(v) => {
                let next = stepped(m, state);
                lemma_stepped_valid(m, state);
                lemma_substitute_involution(m, next, v as int);
                lemma_encrypt_chars_involution(m, next, rest);
                let e = substitute(m, next, v as int) as u8;
                assert(out[0] == letter_of(e));
                assert(letter_index(letter_of(e)) == Some(e));
                assert(out.drop_first() =~= encrypt_chars(m, next, rest));
                assert(letter_of(substitute(m, next, e as int) as u8) == text[0]);
                assert(encrypt_chars(m, state, out) =~= text);
            },
            None => {
                lemma_encrypt_chars_involution(m, state, rest);
                assert(out.drop_first() =~= encrypt_chars(m, state, rest));
                assert(encrypt_chars(m, state, out) =~= text);
            },
        }
    }
}

/// Involution: with the same rotors, key and rings, encrypting the output
/// of `encrypt` gives the input back, for any text without lower-case
/// letters (in particular any text over A to Z).
pub proof fn law_encrypt_involution(
    rotor_config: Seq<u8>,
    key: Seq<char>,
    rings: Seq<char>,
    text: Seq<char>,
)
    requires
        rotor_config.len() >= 1,
        forall|i: int| 0 <= i < rotor_config.len() ==> #[trigger] rotor_config[i] < ROTOR_COUNT,
        all_letters(key),
        key.len() == rotor_config.len(),
        all_letters(rings),
        rings.len() == rotor_config.len(),
        no_lower_case(text),
    ensures
        ({
            let m = catalog_machine(rotor_config, indices_of(rings));
            let start = indices_of(key).reverse();
            encrypt_chars(m, start, encrypt_chars(m, start, text)) == text
        }),
{
    let offsets = indices_of(rings);
    assert forall|i: int| 0 <= i < offsets.len() implies #[trigger] offsets[i] < 26 by {
        assert(letter_index(rings[i]) is Some);
    }
    lemma_catalog_machine_wf(rotor_config, offsets);
    let m = catalog_machine(rotor_config, offsets);
    let start = indices_of(key).reverse();
    assert forall|i: int| 0 <= i < start.len() implies #[trigger] start[i] < 26 by {
        assert(letter_index(key[key.len() - 1 - i]) is Some);
    }
    lemma_encrypt_chars_involution(m, start, text);
}

} // verus!
