//! Codec: the boundary between discrete events and numeric vectors.
//!
//! An incoming event is encoded as a one-hot vector of length `WIDTH` = 257:
//! a character sets the slot of its 8-bit code, a timer tick sets slot 256.
//! Decoding takes the index of the maximum element, ties broken by the first
//! occurrence in index order; indices 0..=255 decode to the character with
//! that code, index 256 decodes to "nothing".

use vstd::prelude::*;
use crate::fixed::SCALE;

verus! {

/// Width of the encoded event vector: 256 character slots plus one tick slot.
pub const WIDTH: usize = 257;

/// An event handed to the engine: a typed character or a timer tick.
#[derive(Clone, Copy, Debug, PartialEq, Eq, Structural)]
pub enum BrainInput {
    ChatCharacter(char),
    TimeTick,
}

/// An event produced by the engine: a character, or nothing this step.
#[derive(Clone, Copy, Debug, PartialEq, Eq, Structural)]
pub enum BrainOutput {
    ChatCharacter(char),
    Nothing,
}

/// The engine's error values.
#[derive(Clone, Copy, Debug, PartialEq, Eq, Structural)]
pub enum BrainError {
    /// The character's code point does not fit in 8 bits: the alphabet is
    /// restricted to single-byte codes, and such an event is rejected.
    UnencodableCharacter,
    /// The reward path is not implemented: calling it fails loudly.
    Unimplemented,
    /// Two composed layers disagree on the number or the lengths of the
    /// vectors they exchange: the graph is rejected before it can run.
    ShapeMismatch,
}

/// An input event is encodable when its character code fits in 8 bits;
/// a tick always is.
pub open spec fn encodable(e: BrainInput) -> bool {
    match e {
        BrainInput::ChatCharacter(c) => c as int <= 255,
        BrainInput::TimeTick => true,
    }
}

/// The slot an encodable event occupies: the character's code, or 256 for a
/// tick.
pub open spec fn encode_index(e: BrainInput) -> int {
    match e {
        BrainInput::ChatCharacter(c) => c as int,
        BrainInput::TimeTick => 256,
    }
}

/// The one-hot vector with one unit (`SCALE`) at slot `i` and zero elsewhere.
pub open spec fn one_hot(i: int) -> Seq<i64> {
    Seq::new(WIDTH as nat, |j: int| if j == i { SCALE } else { 0i64 })
}

/// Encode an event as a one-hot vector of length `WIDTH`, or reject a
/// character whose code does not fit in 8 bits.
pub fn encode(e: BrainInput) -> (r: Result<Vec<i64>, BrainError>)
    ensures
        r is Ok <==> encodable(e),
        r is Ok ==> r->Ok_0@ == one_hot(encode_index(e)),
        r is Err ==> r->Err_0 == BrainError::UnencodableCharacter,
{
    let idx: usize = match e {
        BrainInput::TimeTick => 256,
        BrainInput::ChatCharacter(c) => {
            let u: u32 = c as u32;
            if u > 255 {
                return Err(BrainError::UnencodableCharacter);
            }
            u as usize
        },
    };
    let mut v: Vec<i64> = Vec::new();
    let mut j: usize = 0;
    while j < WIDTH
        invariant
            j <= WIDTH,
            v@.len() == j,
            idx == encode_index(e),
            forall|k: int| 0 <= k < j ==> v@[k] == (if k == idx { SCALE } else { 0i64 }),
        decreases WIDTH - j,
    {
        if j == idx {
            v.push(SCALE);
        } else {
            v.push(0);
        }
        j += 1;
    }
    proof {
        assert(v@ =~= one_hot(encode_index(e)));
    }
    Ok(v)
}

/// The index of the maximum element, ties broken by the first occurrence in
/// index order.
pub open spec fn argmax(s: Seq<i64>) -> int
    recommends
        s.len() >= 1,
    decreases s.len(),
{
    if s.len() <= 1 {
        0
    } else {
        let a = argmax(s.drop_last());
        if s.last() > s[a] {
            s.len() - 1
        } else {
            a
        }
    }
}

/// Law: `argmax` returns a valid index holding a maximal element, and every
/// earlier index holds a strictly smaller one — the first-occurrence
/// tie-break policy.
pub proof fn lemma_argmax(s: Seq<i64>)
    requires
        s.len() >= 1,
    ensures
        0 <= argmax(s) < s.len(),
        forall|j: int| 0 <= j < s.len() ==> #[trigger] s[j] <= s[argmax(s)],
        forall|j: int| 0 <= j < argmax(s) ==> #[trigger] s[j] < s[argmax(s)],
    decreases s.len(),
{
    if s.len() > 1 {
        lemma_argmax(s.drop_last());
        assert(forall|j: int| 0 <= j < s.len() - 1 ==> s[j] == s.drop_last()[j]);
    }
}

/// What a decoded vector means: slot 256 is "nothing", every other slot is
/// the character with that code.
pub open spec fn decode_spec(s: Seq<i64>) -> BrainOutput {
    if argmax(s) == 256 {
        BrainOutput::Nothing
    } else {
        BrainOutput::ChatCharacter(argmax(s) as char)
    }
}

/// Decode a vector of length `WIDTH` into an output event by taking the
/// first maximal slot.
pub fn decode(v: &Vec<i64>) -> (r: BrainOutput)
    requires
        v@.len() == WIDTH,
    ensures
        r == decode_spec(v@),
{
    let mut best: usize = 0;
    let mut j: usize = 1;
    while j < WIDTH
        invariant
            1 <= j <= WIDTH,
            0 <= best < j,
            v@.len() == WIDTH,
            best == argmax(v@.take(j as int)),
        decreases WIDTH - j,
    {
        proof {
            assert(v@.take(j + 1).drop_last() =~= v@.take(j as int));
            assert(v@.take(j + 1).last() == v@[j as int]);
        }
        if v[j] > v[best] {
            best = j;
        }
        j += 1;
    }
    proof {
        assert(v@.take(WIDTH as int) =~= v@);
    }
    if best == 256 {
        BrainOutput::Nothing
    } else {
        let b: u8 = best as u8;
        BrainOutput::ChatCharacter(b as char)
    }
}

/// Law: the one-hot vector of slot `i` decodes back to slot `i` — the
/// encoding places a unique maximum there and no other slot ties.
pub proof fn lemma_argmax_one_hot(i: int)
    requires
        0 <= i < WIDTH,
    ensures
        argmax(one_hot(i)) == i,
{
    lemma_argmax(one_hot(i));
    let a = argmax(one_hot(i));
    assert(one_hot(i)[i] == SCALE);
    if a != i {
        assert(one_hot(i)[a] == 0);
        assert(one_hot(i)[i] <= one_hot(i)[a]);
    }
}

/// Law: encoding a character of the single-byte alphabet and decoding the
/// result returns exactly that character.
pub proof fn lemma_round_trip_char(c: char)
    requires
        c as int <= 255,
    ensures
        decode_spec(one_hot(encode_index(BrainInput::ChatCharacter(c)))) == BrainOutput::ChatCharacter(c),
{
    lemma_argmax_one_hot(c as int);
}

/// Law: a timer tick encodes to slot 256, which decodes to "nothing", never
/// to a character.
pub proof fn lemma_tick_decodes_to_nothing()
    ensures
        decode_spec(one_hot(encode_index(BrainInput::TimeTick))) == BrainOutput::Nothing,
{
    lemma_argmax_one_hot(256);
}

} // verus!
