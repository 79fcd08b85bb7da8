//! The placeholder embedding of a text, up to the arithmetic.
//!
//! The embedding of a text has `DIM` components. The byte at position `i` of
//! the text's UTF-8 encoding adds its value, divided by `BYTE_SCALE`, to
//! component `i mod DIM`. This module fixes which bytes reach which component,
//! and in which order; whoever folds a lane into a number gets that component.

use vstd::prelude::*;
use vstd::utf8::*;

verus! {

/// The number of components of every vector.
pub const DIM: usize = 8;

/// The value by which a byte is divided before it is added to its component.
pub const BYTE_SCALE: u8 = 255;

/// How many of the positions `0..n` are `j` modulo `DIM`.
pub open spec fn lane_len(n: nat, j: int) -> nat {
    if 0 <= j < n {
        ((n - j - 1) / (DIM as int) + 1) as nat
    } else {
        0
    }
}

/// The bytes that reach component `j`: those at the positions `j`, `j + DIM`,
/// `j + 2 * DIM` and so on, in that order.
pub open spec fn lane(bytes: Seq<u8>, j: int) -> Seq<u8> {
    Seq::new(lane_len(bytes.len(), j), |k: int| bytes[DIM * k + j])
}

/// Every byte reaches exactly the component of its position modulo `DIM`: the
/// byte at position `i` is entry `i / DIM` of lane `i % DIM`.
pub proof fn lemma_byte_reaches_its_lane(bytes: Seq<u8>, i: int)
    requires
        0 <= i < bytes.len(),
    ensures
        0 <= i / (DIM as int) < lane(bytes, i % (DIM as int)).len(),
        lane(bytes, i % (DIM as int))[i / (DIM as int)] == bytes[i],
{
}

/// A lane holds one byte for every full round of `DIM` positions, and one
/// more where the remainder reaches it.
pub proof fn lemma_lane_len(n: nat, j: int)
    requires
        0 <= j < DIM,
    ensures
        lane_len(n, j) == n / (DIM as nat) + if j < n % (DIM as nat) {
            1nat
        } else {
            0nat
        },
{
    assert(DIM == 8);
}

/// The lanes hold nothing but the bytes of the text, each once: their lengths
/// add up to the length of the text.
pub proof fn lemma_lane_lengths_add_up(n: nat)
    ensures
        lane_len(n, 0) + lane_len(n, 1) + lane_len(n, 2) + lane_len(n, 3) + lane_len(n, 4)
            + lane_len(n, 5) + lane_len(n, 6) + lane_len(n, 7) == n,
{
    assert(DIM == 8);
    lemma_lane_len(n, 0);
    lemma_lane_len(n, 1);
    lemma_lane_len(n, 2);
    lemma_lane_len(n, 3);
    lemma_lane_len(n, 4);
    lemma_lane_len(n, 5);
    lemma_lane_len(n, 6);
    lemma_lane_len(n, 7);
}

/// The empty text has only empty lanes, so each of its components is zero.
pub proof fn lemma_empty_text_has_empty_lanes(bytes: Seq<u8>, j: int)
    requires
        bytes.len() == 0,
    ensures
        lane(bytes, j).len() == 0,
{
}

/// The lanes of `text`: one per component, `DIM` in all, whatever the text.
/// The same text always gives the same lanes.
pub fn embed_lanes(text: &str) -> (lanes: Vec<Vec<u8>>)
    ensures
        lanes@.len() == DIM,
        forall|j: int| 0 <= j < DIM ==> (#[trigger] lanes@[j])@ == lane(encode_utf8(text@), j),
{
    let bytes = text.as_bytes();
    let n: usize = bytes.len();
    let mut lanes: Vec<Vec<u8>> = Vec::new();
    let mut j: usize = 0;
    while j < DIM
        invariant
            j <= DIM,
            n == bytes@.len(),
            bytes@ == encode_utf8(text@),
            lanes@.len() == j,
            forall|l: int| 0 <= l < j ==> (#[trigger] lanes@[l])@ == lane(bytes@, l),
        decreases DIM - j,
    {
        let count: usize = if j < n {
            (n - j - 1) / DIM + 1
        } else {
            0
        };
        let mut slot: Vec<u8> = Vec::new();
        let mut k: usize = 0;
        while k < count
            invariant
                j < DIM,
                n == bytes@.len(),
                count == lane_len(n as nat, j as int),
                k <= count,
                slot@.len() == k,
                forall|m: int| 0 <= m < k ==> slot@[m] == bytes@[DIM * m + j],
            decreases count - k,
        {
            slot.push(bytes[DIM * k + j]);
            k += 1;
        }
        proof {
            assert(slot@ =~= lane(bytes@, j as int));
        }
        lanes.push(slot);
        j += 1;
    }
    lanes
}

} // verus!
