//! Tempo curves, shared by the extractor and the BTKS container.

use crate::wire::{le, push_u32};
use vstd::prelude::*;

verus! {

/// One point of a tempo curve.
#[derive(Clone, Copy, Debug)]
pub struct TempoVal {
    /// Bit pattern of the single-precision beat count.
    pub beats: u32,
    /// Duration in 32000ths of a second.
    pub time: u32,
    pub loop_val: u32,
}

/// A tempo curve with its identifier.
#[derive(Clone, Debug)]
pub struct Tempo {
    pub id: u32,
    pub data: Vec<TempoVal>,
}

/// Identifiers in this range name built-in, non-streamed tempos.
pub open spec fn is_streamed_id(id: u32) -> bool {
    !(0x01000101 <= id && id <= 0x01000281)
}

/// The twelve bytes of one tempo point.
pub open spec fn tempo_val_bytes(v: TempoVal) -> Seq<u8> {
    le(v.beats) + le(v.time) + le(v.loop_val)
}

/// The encoded points of a curve, in order.
pub open spec fn tempo_vals_bytes(vals: Seq<TempoVal>) -> Seq<u8>
    decreases vals.len(),
{
    if vals.len() == 0 {
        Seq::empty()
    } else {
        tempo_vals_bytes(vals.drop_last()) + tempo_val_bytes(vals.last())
    }
}

/// A curve as written in a TMPO section: id, point count, streamed flag, points.
pub open spec fn tempo_bytes(t: Tempo) -> Seq<u8> {
    le(t.id) + le(t.data@.len() as u32) + le(if is_streamed_id(t.id) {
        1u32
    } else {
        0u32
    }) + tempo_vals_bytes(t.data@)
}

pub proof fn lemma_tempo_vals_bytes_len(vals: Seq<TempoVal>)
    ensures
        tempo_vals_bytes(vals).len() == 12 * vals.len(),
    decreases vals.len(),
{
    if vals.len() > 0 {
        lemma_tempo_vals_bytes_len(vals.drop_last());
        crate::wire::lemma_le_len(vals.last().beats);
        crate::wire::lemma_le_len(vals.last().time);
        crate::wire::lemma_le_len(vals.last().loop_val);
    }
}

impl Tempo {
    /// Whether the game streams this tempo's audio (custom ids always are).
    pub fn is_streamed(&self) -> (r: bool)
        ensures
            r == is_streamed_id(self.id),
    {
        !(self.id >= 0x01000101 && self.id <= 0x01000281)
    }

    /// Appends this curve in its TMPO encoding.
    pub fn write_to(&self, out: &mut Vec<u8>)
        requires
            self.data@.len() <= u32::MAX,
        ensures
            final(out)@ == old(out)@ + tempo_bytes(*self),
    {
        push_u32(out, self.id);
        push_u32(out, self.data.len() as u32);
        push_u32(out, if self.is_streamed() { 1u32 } else { 0u32 });
        let ghost start = out@;
        let mut i: usize = 0;
        while i < self.data.len()
            invariant
                i <= self.data@.len(),
                out@ == start + tempo_vals_bytes(self.data@.subrange(0, i as int)),
            decreases self.data@.len() - i,
        {
            let v = self.data[i];
            push_u32(out, v.beats);
            push_u32(out, v.time);
            push_u32(out, v.loop_val);
            proof {
                let s = self.data@.subrange(0, i + 1);
                assert(s.drop_last() =~= self.data@.subrange(0, i as int));
                assert(s.last() == v);
            }
            i = i + 1;
        }
        assert(self.data@.subrange(0, self.data@.len() as int) =~= self.data@);
    }
}

} // verus!
