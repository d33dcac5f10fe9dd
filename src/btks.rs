//! The BTKS container: relocatable tickflow with its pointer table, tempo
//! curves and string data, each in a magic-tagged, length-prefixed section.

use crate::common::{lemma_tempo_vals_bytes_len, tempo_bytes, Tempo};
use crate::wire::{
    append_bytes, le, lemma_le_len, lemma_word_at_le, lemma_words_le_len, lemma_words_le_push, push_u32, read_u32, word_at, words_le, write_u32_at,
};
use vstd::prelude::*;

verus! {

pub const BTKS_MAGIC: u32 = 0x534B5442;

pub const FLOW_MAGIC: u32 = 0x574F4C46;

pub const PTRO_MAGIC: u32 = 0x4F525450;

pub const TMPO_MAGIC: u32 = 0x4F504D54;

pub const STRD_MAGIC: u32 = 0x44525453;

pub const REVISION: u32 = 2;

pub const HEADER_SIZE: u32 = 0x18;

pub const FLOW_HEADER: u32 = 0xC;

pub const PTRO_HEADER: u32 = 0xC;

pub const TMPO_HEADER: u32 = 0xC;

pub const STRD_HEADER: u32 = 0x8;

/// What a relocatable field points at.
#[derive(Clone, Copy, Debug, PartialEq, Eq, Structural)]
pub enum PointerType {
    String,
    Tickflow,
}

impl PointerType {
    pub open spec fn spec_tag(self) -> u8 {
        match self {
            PointerType::String => 0,
            PointerType::Tickflow => 1,
        }
    }

    /// The byte that stands for this kind in a PTRO record.
    pub fn tag(&self) -> (r: u8)
        ensures
            r == self.spec_tag(),
    {
        match self {
            PointerType::String => 0,
            PointerType::Tickflow => 1,
        }
    }
}

/// A 4-byte field of the tickflow data that must be relocated on load.
#[derive(Clone, Copy, Debug, PartialEq, Eq, Structural)]
pub struct Pointer {
    /// Byte offset of the field in the tickflow data.
    pub offset: u32,
    pub ptype: PointerType,
}

/// The five bytes of a PTRO record.
pub open spec fn pointer_bytes(p: Pointer) -> Seq<u8> {
    le(p.offset).push(p.ptype.spec_tag())
}

impl Pointer {
    /// The PTRO record of this pointer: its offset little-endian, then its kind.
    pub fn to_bin(&self) -> (r: [u8; 5])
        ensures
            r@ == pointer_bytes(*self),
    {
        let mut v: Vec<u8> = Vec::new();
        push_u32(&mut v, self.offset);
        proof {
            lemma_le_len(self.offset);
        }
        let out = [v[0], v[1], v[2], v[3], self.ptype.tag()];
        assert(out@ =~= pointer_bytes(*self));
        out
    }
}

/// The code of a container and the offset at which execution starts.
#[derive(Clone, Debug)]
pub struct FlowSection {
    pub start_offset: u32,
    pub tickflow_data: Vec<u8>,
}

/// A relocatable tickflow container.
#[derive(Clone, Debug)]
pub struct BTKS {
    pub flow: FlowSection,
    pub ptro: Vec<Pointer>,
    pub tmpo: Vec<Tempo>,
    pub strd: Vec<u8>,
}

pub open spec fn pointers_bytes(ps: Seq<Pointer>) -> Seq<u8>
    decreases ps.len(),
{
    if ps.len() == 0 {
        Seq::empty()
    } else {
        pointers_bytes(ps.drop_last()) + pointer_bytes(ps.last())
    }
}

pub open spec fn tempos_bytes(ts: Seq<Tempo>) -> Seq<u8>
    decreases ts.len(),
{
    if ts.len() == 0 {
        Seq::empty()
    } else {
        tempos_bytes(ts.drop_last()) + tempo_bytes(ts.last())
    }
}

pub open spec fn flow_section_bytes(b: BTKS) -> Seq<u8> {
    le(FLOW_MAGIC) + le((FLOW_HEADER + b.flow.tickflow_data@.len()) as u32) + le(
        b.flow.start_offset,
    ) + b.flow.tickflow_data@
}

pub open spec fn ptro_section_bytes(b: BTKS) -> Seq<u8> {
    if b.ptro@.len() == 0 {
        Seq::empty()
    } else {
        le(PTRO_MAGIC) + le((PTRO_HEADER + 5 * b.ptro@.len()) as u32) + le(
            b.ptro@.len() as u32,
        ) + pointers_bytes(b.ptro@)
    }
}

pub open spec fn tmpo_section_bytes(b: BTKS) -> Seq<u8> {
    if b.tmpo@.len() == 0 {
        Seq::empty()
    } else {
        le(TMPO_MAGIC) + le((TMPO_HEADER + tempos_bytes(b.tmpo@).len()) as u32) + le(
            b.tmpo@.len() as u32,
        ) + tempos_bytes(b.tmpo@)
    }
}

pub open spec fn strd_section_bytes(b: BTKS) -> Seq<u8> {
    if b.strd@.len() == 0 {
        Seq::empty()
    } else {
        le(STRD_MAGIC) + le((STRD_HEADER + b.strd@.len()) as u32) + b.strd@
    }
}

/// Every section in the fixed order FLOW, PTRO, TMPO, STRD; the optional ones
/// only where they hold data.
pub open spec fn sections_bytes(b: BTKS) -> Seq<u8> {
    flow_section_bytes(b) + ptro_section_bytes(b) + tmpo_section_bytes(b) + strd_section_bytes(b)
}

pub open spec fn section_count(b: BTKS) -> u32 {
    (1 + (if b.ptro@.len() > 0 { 1int } else { 0 }) + (if b.tmpo@.len() > 0 { 1int } else { 0 })
        + (if b.strd@.len() > 0 { 1int } else { 0 })) as u32
}

pub open spec fn btks_size(b: BTKS) -> int {
    HEADER_SIZE + sections_bytes(b).len()
}

pub open spec fn header_bytes(total: u32, count: u32) -> Seq<u8> {
    le(BTKS_MAGIC) + le(total) + le(REVISION) + le(HEADER_SIZE) + le(count) + le(0)
}

/// The whole container file.
pub open spec fn btks_bytes(b: BTKS) -> Seq<u8> {
    header_bytes(btks_size(b) as u32, section_count(b)) + sections_bytes(b)
}

pub proof fn lemma_pointers_bytes_len(ps: Seq<Pointer>)
    ensures
        pointers_bytes(ps).len() == 5 * ps.len(),
    decreases ps.len(),
{
    if ps.len() > 0 {
        lemma_pointers_bytes_len(ps.drop_last());
        lemma_le_len(ps.last().offset);
    }
}

pub proof fn lemma_tempo_bytes_len(t: Tempo)
    ensures
        tempo_bytes(t).len() == 12 + 12 * t.data@.len(),
{
    lemma_tempo_vals_bytes_len(t.data@);
    lemma_le_len(t.id);
    lemma_le_len(t.data@.len() as u32);
    lemma_le_len(0);
    lemma_le_len(1);
}

/// Each curve's encoding is part of the encoding of the list.
pub proof fn lemma_tempos_bytes_ge(ts: Seq<Tempo>, i: int)
    requires
        0 <= i < ts.len(),
    ensures
        tempos_bytes(ts).len() >= tempo_bytes(ts[i]).len(),
    decreases ts.len(),
{
    if i < ts.len() - 1 {
        lemma_tempos_bytes_ge(ts.drop_last(), i);
    }
}

impl BTKS {
    fn push_flow(&self, out: &mut Vec<u8>) -> (ok: bool)
        ensures
            ok ==> final(out)@ == old(out)@ + flow_section_bytes(*self),
            !ok ==> flow_section_bytes(*self).len() > u32::MAX,
    {
        proof {
            lemma_sections_len(*self);
            lemma_le_len(FLOW_MAGIC);
            lemma_le_len(self.flow.start_offset);
        }
        let n = self.flow.tickflow_data.len();
        if n > (u32::MAX - FLOW_HEADER) as usize {
            return false;
        }
        push_u32(out, FLOW_MAGIC);
        push_u32(out, FLOW_HEADER + n as u32);
        push_u32(out, self.flow.start_offset);
        append_bytes(out, self.flow.tickflow_data.as_slice());
        assert(out@ =~= old(out)@ + flow_section_bytes(*self));
        true
    }

    fn push_ptro(&self, out: &mut Vec<u8>) -> (ok: bool)
        ensures
            ok ==> final(out)@ == old(out)@ + ptro_section_bytes(*self),
            !ok ==> ptro_section_bytes(*self).len() > u32::MAX,
    {
        proof {
            lemma_sections_len(*self);
        }
        let k = self.ptro.len();
        if k == 0 {
            assert(out@ =~= old(out)@ + ptro_section_bytes(*self));
            return true;
        }
        if k > ((u32::MAX - PTRO_HEADER) / 5) as usize {
            return false;
        }
        push_u32(out, PTRO_MAGIC);
        push_u32(out, PTRO_HEADER + 5 * k as u32);
        push_u32(out, k as u32);
        let ghost before = out@;
        let mut i: usize = 0;
        while i < k
            invariant
                k == self.ptro@.len(),
                i <= k,
                out@ == before + pointers_bytes(self.ptro@.subrange(0, i as int)),
            decreases k - i,
        {
            let rec = self.ptro[i].to_bin();
            append_bytes(out, &rec);
            proof {
                let s = self.ptro@.subrange(0, i + 1);
                assert(s.drop_last() =~= self.ptro@.subrange(0, i as int));
            }
            i = i + 1;
        }
        assert(self.ptro@.subrange(0, k as int) =~= self.ptro@);
        assert(out@ =~= old(out)@ + ptro_section_bytes(*self));
        true
    }

    fn push_tmpo(&self, out: &mut Vec<u8>) -> (ok: bool)
        ensures
            ok ==> final(out)@ == old(out)@ + tmpo_section_bytes(*self),
            !ok ==> tmpo_section_bytes(*self).len() > u32::MAX,
    {
        proof {
            lemma_sections_len(*self);
            lemma_le_len(TMPO_MAGIC);
            lemma_le_len(0);
            lemma_le_len(self.tmpo@.len() as u32);
        }
        let m = self.tmpo.len();
        if m == 0 {
            assert(out@ =~= old(out)@ + tmpo_section_bytes(*self));
            return true;
        }
        if m > u32::MAX as usize {
            proof {
                lemma_tempos_ge_count(self.tmpo@);
            }
            return false;
        }
        let p = out.len();
        push_u32(out, TMPO_MAGIC);
        push_u32(out, 0);
        push_u32(out, m as u32);
        let ghost before = out@;
        let mut i: usize = 0;
        while i < m
            invariant
                m == self.tmpo@.len(),
                i <= m,
                out@ == before + tempos_bytes(self.tmpo@.subrange(0, i as int)),
            decreases m - i,
        {
            let t = &self.tmpo[i];
            if t.data.len() > u32::MAX as usize {
                proof {
                    lemma_tempos_bytes_ge(self.tmpo@, i as int);
                    lemma_tempo_bytes_len(self.tmpo@[i as int]);
                }
                return false;
            }
            t.write_to(out);
            proof {
                let s = self.tmpo@.subrange(0, i + 1);
                assert(s.drop_last() =~= self.tmpo@.subrange(0, i as int));
            }
            i = i + 1;
        }
        assert(self.tmpo@.subrange(0, m as int) =~= self.tmpo@);
        let size = out.len() - p;
        if size > u32::MAX as usize {
            return false;
        }
        write_u32_at(out, p + 4, size as u32);
        assert(out@ =~= old(out)@ + tmpo_section_bytes(*self));
        true
    }

    fn push_strd(&self, out: &mut Vec<u8>) -> (ok: bool)
        ensures
            ok ==> final(out)@ == old(out)@ + strd_section_bytes(*self),
            !ok ==> strd_section_bytes(*self).len() > u32::MAX,
    {
        proof {
            lemma_sections_len(*self);
        }
        let s = self.strd.len();
        if s == 0 {
            assert(out@ =~= old(out)@ + strd_section_bytes(*self));
            return true;
        }
        if s > (u32::MAX - STRD_HEADER) as usize {
            return false;
        }
        push_u32(out, STRD_MAGIC);
        push_u32(out, STRD_HEADER + s as u32);
        append_bytes(out, self.strd.as_slice());
        assert(out@ =~= old(out)@ + strd_section_bytes(*self));
        true
    }

    /// The container as a file: header, then FLOW, PTRO, TMPO and STRD, the
    /// last three only where they hold data. `None` where the file would not
    /// fit its 32-bit size field.
    #[verifier::rlimit(60)]
    pub fn to_btks_file(&self) -> (r: Option<Vec<u8>>)
        ensures
            r.is_some() == (btks_size(*self) <= u32::MAX),
            r matches Some(bytes) ==> bytes@ == btks_bytes(*self),
    {
        let ghost b = *self;
        proof {
            lemma_sections_len(b);
            lemma_le_len(0);
            lemma_le_len(BTKS_MAGIC);
            lemma_le_len(REVISION);
            lemma_le_len(HEADER_SIZE);
        }
        let mut out: Vec<u8> = Vec::new();
        push_u32(&mut out, BTKS_MAGIC);
        push_u32(&mut out, 0);
        push_u32(&mut out, REVISION);
        push_u32(&mut out, HEADER_SIZE);
        push_u32(&mut out, 0);
        push_u32(&mut out, 0);
        let ghost h0 = out@;
        assert(h0 =~= header_bytes(0, 0));
        if !self.push_flow(&mut out) {
            return None;
        }
        if !self.push_ptro(&mut out) {
            return None;
        }
        if !self.push_tmpo(&mut out) {
            return None;
        }
        if !self.push_strd(&mut out) {
            return None;
        }
        assert(out@ =~= h0 + sections_bytes(b));
        if out.len() > u32::MAX as usize {
            return None;
        }
        let count: u32 = 1 + (if self.ptro.len() > 0 { 1u32 } else { 0u32 }) + (if self.tmpo.len()
            > 0 {
            1u32
        } else {
            0u32
        }) + (if self.strd.len() > 0 { 1u32 } else { 0u32 });
        let total = out.len() as u32;
        write_u32_at(&mut out, 4, total);
        write_u32_at(&mut out, 16, count);
        proof {
            lemma_le_len(total);
            lemma_le_len(count);
            assert(out@ =~= btks_bytes(b));
        }
        Some(out)
    }
}

/// The length of the sections, piece by piece.
pub proof fn lemma_sections_len(b: BTKS)
    ensures
        flow_section_bytes(b).len() == 12 + b.flow.tickflow_data@.len(),
        ptro_section_bytes(b).len() == (if b.ptro@.len() == 0 {
            0
        } else {
            12 + 5 * b.ptro@.len()
        }),
        tmpo_section_bytes(b).len() == (if b.tmpo@.len() == 0 {
            0
        } else {
            12 + tempos_bytes(b.tmpo@).len()
        }),
        strd_section_bytes(b).len() == (if b.strd@.len() == 0 {
            0
        } else {
            8 + b.strd@.len()
        }),
        sections_bytes(b).len() == flow_section_bytes(b).len() + ptro_section_bytes(b).len()
            + tmpo_section_bytes(b).len() + strd_section_bytes(b).len(),
{
    lemma_le_len(FLOW_MAGIC);
    lemma_le_len(PTRO_MAGIC);
    lemma_le_len(TMPO_MAGIC);
    lemma_le_len(STRD_MAGIC);
    lemma_le_len(b.flow.start_offset);
    lemma_le_len((FLOW_HEADER + b.flow.tickflow_data@.len()) as u32);
    lemma_le_len((PTRO_HEADER + 5 * b.ptro@.len()) as u32);
    lemma_le_len(b.ptro@.len() as u32);
    lemma_le_len((TMPO_HEADER + tempos_bytes(b.tmpo@).len()) as u32);
    lemma_le_len(b.tmpo@.len() as u32);
    lemma_le_len((STRD_HEADER + b.strd@.len()) as u32);
    lemma_pointers_bytes_len(b.ptro@);
}

/// Each curve takes at least twelve bytes.
pub proof fn lemma_tempos_ge_count(ts: Seq<Tempo>)
    ensures
        tempos_bytes(ts).len() >= 12 * ts.len(),
    decreases ts.len(),
{
    if ts.len() > 0 {
        lemma_tempos_ge_count(ts.drop_last());
        lemma_tempo_bytes_len(ts.last());
    }
}

/// The fixed header at the start of a container file.
#[derive(Clone, Copy, Debug, PartialEq, Eq, Structural)]
pub struct BtksHeader {
    pub total_size: u32,
    pub revision: u32,
    pub header_size: u32,
    pub section_count: u32,
}

/// The header that `data` starts with, if it starts with a BTKS header.
pub open spec fn header_of(data: Seq<u8>) -> Option<BtksHeader> {
    if data.len() >= HEADER_SIZE && word_at(data, 0) == BTKS_MAGIC {
        Some(
            BtksHeader {
                total_size: word_at(data, 4),
                revision: word_at(data, 8),
                header_size: word_at(data, 12),
                section_count: word_at(data, 16),
            },
        )
    } else {
        None
    }
}

/// Reads the header of a container file.
pub fn read_header(data: &[u8]) -> (r: Option<BtksHeader>)
    ensures
        r == header_of(data@),
{
    let magic = read_u32(data, 0);
    if data.len() < HEADER_SIZE as usize || magic != Some(BTKS_MAGIC) {
        return None;
    }
    let total = read_u32(data, 4);
    let revision = read_u32(data, 8);
    let header_size = read_u32(data, 12);
    let count = read_u32(data, 16);
    match (total, revision, header_size, count) {
        (Some(t), Some(v), Some(h), Some(c)) => Some(
            BtksHeader { total_size: t, revision: v, header_size: h, section_count: c },
        ),
        _ => None,
    }
}

/// A written container reads back with its true size, one section for FLOW
/// plus one for each of PTRO, TMPO and STRD that holds data, and a total
/// size equal to the header plus every section actually written.
pub proof fn lemma_header_round_trip(b: BTKS)
    requires
        btks_size(b) <= u32::MAX,
    ensures
        header_of(btks_bytes(b)) == Some(
            BtksHeader {
                total_size: btks_bytes(b).len() as u32,
                revision: REVISION,
                header_size: HEADER_SIZE,
                section_count: section_count(b),
            },
        ),
        btks_bytes(b).len() == HEADER_SIZE + flow_section_bytes(b).len() + ptro_section_bytes(
            b,
        ).len() + tmpo_section_bytes(b).len() + strd_section_bytes(b).len(),
{
    let data = btks_bytes(b);
    let total = btks_size(b) as u32;
    let count = section_count(b);
    lemma_sections_len(b);
    lemma_le_len(BTKS_MAGIC);
    lemma_le_len(total);
    lemma_le_len(REVISION);
    lemma_le_len(HEADER_SIZE);
    lemma_le_len(count);
    lemma_le_len(0);
    assert(data.subrange(0, 4) =~= le(BTKS_MAGIC));
    assert(data.subrange(4, 8) =~= le(total));
    assert(data.subrange(8, 12) =~= le(REVISION));
    assert(data.subrange(12, 16) =~= le(HEADER_SIZE));
    assert(data.subrange(16, 20) =~= le(count));
    lemma_word_at_le(data, 0, BTKS_MAGIC);
    lemma_word_at_le(data, 4, total);
    lemma_word_at_le(data, 8, REVISION);
    lemma_word_at_le(data, 12, HEADER_SIZE);
    lemma_word_at_le(data, 16, count);
}

/// Why a linked binary could not be converted.
#[derive(Clone, Copy, Debug, PartialEq, Eq, Structural)]
pub enum BtksError {
    /// A read ran past the end of the binary.
    Truncated,
    /// A string argument points before the string pool.
    BadStringPointer,
    /// The code outgrew 32-bit offsets.
    TooLarge,
}

/// Whether a table index names an endless game, which has a practice entry too.
pub open spec fn is_endless_index(index: u32) -> bool {
    0x100 <= index < 0x110
}

fn contains_u32(v: &Vec<u32>, x: u32) -> (r: bool)
    ensures
        r == v@.contains(x),
{
    let mut i: usize = 0;
    while i < v.len()
        invariant
            i <= v@.len(),
            forall|j: int| 0 <= j < i ==> v@[j] != x,
        decreases v@.len() - i,
    {
        if v[i] == x {
            assert(v@[i as int] == x);
            return true;
        }
        i = i + 1;
    }
    false
}

fn read_word(bin: &[u8], p: usize) -> (r: Result<u32, BtksError>)
    ensures
        match r {
            Ok(w) => p + 4 <= bin@.len() && w == word_at(bin@, p as int),
            Err(e) => e == BtksError::Truncated && p + 4 > bin@.len(),
        },
{
    match read_u32(bin, p) {
        Some(w) => Ok(w),
        None => Err(BtksError::Truncated),
    }
}

/// The string slots and the code-pointer slots that `k` annotation entries
/// at byte `p` name: each entry has its kind in the low byte (0 a code
/// pointer, 1 or 2 a string) and its slot in the next two.
pub open spec fn ann_slots(bin: Seq<u8>, p: int, k: nat) -> (Seq<u32>, Seq<u32>)
    decreases k,
{
    if k == 0 {
        (Seq::empty(), Seq::empty())
    } else {
        let (strs, ptrs) = ann_slots(bin, p, (k - 1) as nat);
        let e = word_at(bin, p + 4 * (k - 1));
        let code = e % 256;
        let slot = (e % 0x1000000) / 256;
        if code == 0 {
            (strs, ptrs.push(slot))
        } else if code == 1 || code == 2 {
            (strs.push(slot), ptrs)
        } else {
            (strs, ptrs)
        }
    }
}

/// The instruction record at byte `p`: its word, the slots its annotation
/// names, and where its arguments start.
pub open spec fn record_at(bin: Seq<u8>, p: int) -> Option<(u32, Seq<u32>, Seq<u32>, int)> {
    if word_at(bin, p) == 0xFFFFFFFF {
        if p + 8 > bin.len() {
            None
        } else {
            let amount = word_at(bin, p + 4);
            let q = p + 8 + 4 * amount;
            if q + 4 > bin.len() {
                None
            } else {
                let (strs, ptrs) = ann_slots(bin, p + 8, amount as nat);
                Some((word_at(bin, q), strs, ptrs, q + 4))
            }
        }
    } else {
        Some((word_at(bin, p), Seq::empty(), Seq::empty(), p + 4))
    }
}

/// The `n` words at byte `q`.
pub open spec fn words_at(bin: Seq<u8>, q: int, n: nat) -> Seq<u32> {
    Seq::new(n, |k: int| word_at(bin, q + 4 * k))
}

/// The PTRO entries for the first `n` arguments of an instruction whose
/// arguments start at code offset `off`.
pub open spec fn arg_pointers(strs: Seq<u32>, ptrs: Seq<u32>, off: int, n: nat) -> Seq<Pointer>
    decreases n,
{
    if n == 0 {
        Seq::empty()
    } else {
        let i = (n - 1) as u32;
        let prev = arg_pointers(strs, ptrs, off, (n - 1) as nat);
        if strs.contains(i) {
            prev.push(Pointer { offset: (off + 4 * i) as u32, ptype: PointerType::String })
        } else if ptrs.contains(i) {
            prev.push(Pointer { offset: (off + 4 * i) as u32, ptype: PointerType::Tickflow })
        } else {
            prev
        }
    }
}

pub open spec fn join3(c: Seq<u8>, ps: Seq<Pointer>, o: Option<(Seq<u8>, Seq<Pointer>, int)>) -> Option<
    (Seq<u8>, Seq<Pointer>, int),
> {
    match o {
        Some((c2, ps2, e)) => Some((c + c2, ps + ps2, e)),
        None => None,
    }
}

/// The code (annotations left out) and the PTRO entries of the records from
/// byte `p` up to the end-of-code marker, and the position after the
/// marker; `code_len` bytes of code come before.
pub open spec fn flow_from(bin: Seq<u8>, p: int, code_len: int) -> Option<
    (Seq<u8>, Seq<Pointer>, int),
>
    decreases bin.len() - p,
{
    if p < 0 || p + 4 > bin.len() {
        None
    } else if word_at(bin, p) == 0xFFFFFFFE {
        Some((Seq::empty(), Seq::empty(), p + 4))
    } else {
        match record_at(bin, p) {
            None => None,
            Some((cmd, strs, ptrs, q)) => {
                let argc = (cmd / 1024) % 16;
                let next = q + 4 * argc;
                if next > bin.len() || code_len + 4 + 4 * argc > u32::MAX {
                    None
                } else {
                    join3(
                        le(cmd) + words_le(words_at(bin, q, argc as nat)),
                        arg_pointers(strs, ptrs, code_len + 4, argc as nat),
                        flow_from(bin, next, code_len + 4 + 4 * argc),
                    )
                }
            },
        }
    }
}

/// `code` with each string pointer's field made relative to the pool at `sp`.
pub open spec fn fix_strings(code: Seq<u8>, ptrs: Seq<Pointer>, sp: int) -> Option<Seq<u8>>
    decreases ptrs.len(),
{
    if ptrs.len() == 0 {
        Some(code)
    } else {
        match fix_strings(code, ptrs.drop_last(), sp) {
            None => None,
            Some(c) => {
                let ptr = ptrs.last();
                let off = ptr.offset as int;
                if ptr.ptype != PointerType::String {
                    Some(c)
                } else if off + 4 > c.len() || word_at(c, off) < sp {
                    None
                } else {
                    Some(
                        c.subrange(0, off) + le((word_at(c, off) - sp) as u32) + c.subrange(
                            off + 4,
                            c.len() as int,
                        ),
                    )
                }
            },
        }
    }
}

/// The container that a linked binary converts to, as (entry offset, code,
/// PTRO entries, string data).
pub open spec fn container_of(bin: Seq<u8>, is_gprac: bool) -> Option<
    (u32, Seq<u8>, Seq<Pointer>, Seq<u8>),
> {
    if bin.len() < 12 {
        None
    } else {
        match flow_from(bin, 12, 0) {
            None => None,
            Some((code, ptrs, end)) => match fix_strings(code, ptrs, code.len() as int) {
                None => None,
                Some(fixed) => Some(
                    (
                        word_at(
                            bin,
                            if is_gprac {
                                4
                            } else {
                                8
                            },
                        ),
                        fixed,
                        ptrs,
                        bin.subrange(end, bin.len() as int),
                    ),
                ),
            },
        }
    }
}

proof fn lemma_fix_strings_none(code: Seq<u8>, ptrs: Seq<Pointer>, sp: int, j: int)
    requires
        0 <= j <= ptrs.len(),
        fix_strings(code, ptrs.subrange(0, j), sp) is None,
    ensures
        fix_strings(code, ptrs, sp) is None,
    decreases ptrs.len(),
{
    if j < ptrs.len() {
        assert(ptrs.drop_last().subrange(0, j) =~= ptrs.subrange(0, j));
        lemma_fix_strings_none(code, ptrs.drop_last(), sp, j);
    } else {
        assert(ptrs.subrange(0, j) =~= ptrs);
    }
}

proof fn lemma_join3_assoc(
    c1: Seq<u8>,
    ps_a: Seq<Pointer>,
    c2: Seq<u8>,
    ps_b: Seq<Pointer>,
    o: Option<(Seq<u8>, Seq<Pointer>, int)>,
)
    ensures
        join3(c1, ps_a, join3(c2, ps_b, o)) == join3(c1 + c2, ps_a + ps_b, o),
{
    match o {
        Some((c3, ps_c, e)) => {
            assert(c1 + (c2 + c3) =~= (c1 + c2) + c3);
            assert(ps_a + (ps_b + ps_c) =~= (ps_a + ps_b) + ps_c);
        },
        None => {},
    }
}

/// Every pointer record lies on a word boundary inside code of `len` bytes.
pub open spec fn pointers_aligned(ps: Seq<Pointer>, len: int) -> bool {
    forall|i: int|
        0 <= i < ps.len() ==> (#[trigger] ps[i]).offset % 4 == 0 && ps[i].offset + 4 <= len
}

proof fn lemma_arg_pointers_aligned(strs: Seq<u32>, ptrs: Seq<u32>, off: int, n: nat)
    requires
        off % 4 == 0,
        0 <= off,
        off + 4 * n <= u32::MAX,
    ensures
        forall|i: int|
            0 <= i < arg_pointers(strs, ptrs, off, n).len() ==> (#[trigger] arg_pointers(
                strs,
                ptrs,
                off,
                n,
            )[i]).offset % 4 == 0 && off <= arg_pointers(strs, ptrs, off, n)[i].offset
                && arg_pointers(strs, ptrs, off, n)[i].offset + 4 <= off + 4 * n,
    decreases n,
{
    if n > 0 {
        lemma_arg_pointers_aligned(strs, ptrs, off, (n - 1) as nat);
    }
}

proof fn lemma_flow_from_aligned(bin: Seq<u8>, p: int, code_len: int)
    requires
        code_len % 4 == 0,
        0 <= code_len,
        flow_from(bin, p, code_len) is Some,
    ensures
        ({
            let (c, ps, e) = flow_from(bin, p, code_len)->0;
            &&& c.len() % 4 == 0
            &&& forall|i: int|
                0 <= i < ps.len() ==> (#[trigger] ps[i]).offset % 4 == 0 && code_len <= ps[i].offset
                    && ps[i].offset + 4 <= code_len + c.len()
        }),
    decreases bin.len() - p,
{
    if word_at(bin, p) != 0xFFFFFFFE {
        let (cmd, strs, ptrs, q) = record_at(bin, p)->0;
        let argc = (cmd / 1024) % 16;
        let next = q + 4 * argc;
        let head = le(cmd) + words_le(words_at(bin, q, argc as nat));
        let hp = arg_pointers(strs, ptrs, code_len + 4, argc as nat);
        lemma_le_len(cmd);
        lemma_words_le_len(words_at(bin, q, argc as nat));
        lemma_flow_from_aligned(bin, next, code_len + 4 + 4 * argc);
        lemma_arg_pointers_aligned(strs, ptrs, code_len + 4, argc as nat);
        let (c2, ps2, e) = flow_from(bin, next, code_len + 4 + 4 * argc)->0;
        let ps = hp + ps2;
        assert forall|i: int| 0 <= i < ps.len() implies (#[trigger] ps[i]).offset % 4 == 0 && code_len
            <= ps[i].offset && ps[i].offset + 4 <= code_len + (head + c2).len() by {
            if i < hp.len() {
                assert(ps[i] == hp[i]);
            } else {
                assert(ps[i] == ps2[i - hp.len()]);
            }
        }
    }
}

proof fn lemma_fix_strings_len(code: Seq<u8>, ptrs: Seq<Pointer>, sp: int)
    requires
        fix_strings(code, ptrs, sp) is Some,
    ensures
        fix_strings(code, ptrs, sp)->0.len() == code.len(),
    decreases ptrs.len(),
{
    if ptrs.len() > 0 {
        lemma_fix_strings_len(code, ptrs.drop_last(), sp);
        let c = fix_strings(code, ptrs.drop_last(), sp)->0;
        let off = ptrs.last().offset as int;
        if ptrs.last().ptype == PointerType::String {
            lemma_le_len((word_at(c, off) - sp) as u32);
        }
    }
}

/// Each container converted from a linked binary can be relocated on its
/// own: every pointer record is word-aligned and lies inside its own code.
pub proof fn lemma_container_pointers_aligned(bin: Seq<u8>, is_gprac: bool)
    requires
        container_of(bin, is_gprac) is Some,
    ensures
        pointers_aligned(
            (container_of(bin, is_gprac)->0).2,
            (container_of(bin, is_gprac)->0).1.len() as int,
        ),
{
    lemma_flow_from_aligned(bin, 12, 0);
    let (code, ptrs, end) = flow_from(bin, 12, 0)->0;
    lemma_fix_strings_len(code, ptrs, code.len() as int);
}

/// Reads `amount` annotation entries at byte `p`.
fn read_annotation(bin: &[u8], p: usize, amount: u32) -> (r: Result<
    (Vec<u32>, Vec<u32>),
    BtksError,
>)
    ensures
        match r {
            Ok((strs, ptrs)) => p + 4 * amount <= bin@.len() && (strs@, ptrs@) == ann_slots(
                bin@,
                p as int,
                amount as nat,
            ),
            Err(_) => p + 4 * amount > bin@.len(),
        },
{
    let n = bin.len();
    let mut strs: Vec<u32> = Vec::new();
    let mut ptrs: Vec<u32> = Vec::new();
    let mut k: u32 = 0;
    let mut q: usize = p;
    if p > n {
        return Err(BtksError::Truncated);
    }
    while k < amount
        invariant
            n == bin@.len(),
            k <= amount,
            q == p + 4 * k,
            q <= n,
            (strs@, ptrs@) == ann_slots(bin@, p as int, k as nat),
        decreases amount - k,
    {
        let e = read_word(bin, q)?;
        let code = e % 256;
        let slot = (e % 0x1000000) / 256;
        if code == 0 {
            ptrs.push(slot);
        } else if code == 1 || code == 2 {
            strs.push(slot);
        }
        q = q + 4;
        k = k + 1;
    }
    Ok((strs, ptrs))
}

/// Reads the instruction record at byte `p`.
fn read_record(bin: &[u8], p: usize) -> (r: Result<(u32, Vec<u32>, Vec<u32>, usize), BtksError>)
    requires
        p + 4 <= bin@.len(),
    ensures
        match record_at(bin@, p as int) {
            Some((cmd, strs, ptrs, q)) => r matches Ok((c, s, t, q2)) && c == cmd && s@ == strs
                && t@ == ptrs && q2 == q,
            None => r is Err,
        },
{
    let n = bin.len();
    let w = read_word(bin, p)?;
    if w != 0xFFFFFFFF {
        return Ok((w, Vec::new(), Vec::new(), p + 4));
    }
    if n - p < 8 {
        return Err(BtksError::Truncated);
    }
    let amount = read_word(bin, p + 4)?;
    let (strs, ptrs) = read_annotation(bin, p + 8, amount)?;
    let q = p + 8 + 4 * (amount as usize);
    let cmd = read_word(bin, q)?;
    Ok((cmd, strs, ptrs, q + 4))
}

impl BTKS {
    /// Converts a linked binary into a container. Its code is copied without
    /// the annotation records, each annotated argument becomes a PTRO entry
    /// (strings made relative to the pool), and everything after the
    /// end-of-code marker becomes the string data. The entry offset is the
    /// header's assets word, or its start word for the endless-game practice.
    pub fn from_tickompiler_binary(bin: &[u8], tempos: Vec<Tempo>, is_gprac: bool) -> (r: Result<
        Self,
        BtksError,
    >)
        ensures
            match container_of(bin@, is_gprac) {
                Some((start, code, ptrs, strd)) => r matches Ok(b) && b.flow.start_offset == start
                    && b.flow.tickflow_data@ == code && b.ptro@ == ptrs && b.strd@ == strd
                    && b.tmpo@ == tempos@,
                None => r is Err,
            },
    {
        if bin.len() < 12 {
            return Err(BtksError::Truncated);
        }
        let start = if is_gprac {
            read_word(bin, 4)?
        } else {
            read_word(bin, 8)?
        };
        let n = bin.len();
        let mut tickflow: Vec<u8> = Vec::new();
        let mut pointers: Vec<Pointer> = Vec::new();
        let mut p: usize = 12;
        proof {
            assert(Seq::<u8>::empty() + Seq::<u8>::empty() =~= Seq::<u8>::empty());
            match flow_from(bin@, 12, 0) {
                Some((c, ps, e)) => {
                    assert(Seq::<u8>::empty() + c =~= c);
                    assert(Seq::<Pointer>::empty() + ps =~= ps);
                },
                None => {},
            }
        }
        loop
            invariant_except_break
                flow_from(bin@, 12, 0) == join3(
                    tickflow@,
                    pointers@,
                    flow_from(bin@, p as int, tickflow@.len() as int),
                ),
            invariant
                n == bin@.len(),
                n >= 12,
                12 <= p <= bin@.len(),
                tickflow@.len() <= u32::MAX,
            ensures
                flow_from(bin@, 12, 0) == Some((tickflow@, pointers@, p as int)),
            decreases bin@.len() - p,
        {
            let w = read_word(bin, p)?;
            if w == 0xFFFFFFFE {
                p = p + 4;
                proof {
                    assert(tickflow@ + Seq::<u8>::empty() =~= tickflow@);
                    assert(pointers@ + Seq::<Pointer>::empty() =~= pointers@);
                }
                break;
            }
            let (cmd, strs, ptrs, q) = read_record(bin, p)?;
            let arg_count = (cmd / 1024) % 16;
            if tickflow.len() > (u32::MAX - 4 - 4 * arg_count) as usize {
                return Err(BtksError::TooLarge);
            }
            let ghost t0 = tickflow@;
            let ghost p0 = pointers@;
            push_u32(&mut tickflow, cmd);
            proof {
                lemma_le_len(cmd);
                assert(words_at(bin@, q as int, 0) =~= Seq::<u32>::empty());
                assert(tickflow@ =~= t0 + (le(cmd) + words_le(words_at(bin@, q as int, 0))));
                assert(pointers@ =~= p0 + arg_pointers(strs@, ptrs@, t0.len() + 4int, 0));
            }
            let mut i: u32 = 0;
            let mut at = q;
            while i < arg_count
                invariant
                    n == bin@.len(),
                    n >= 12,
                    p + 4 <= n,
                    word_at(bin@, p as int) != 0xFFFFFFFE,
                    record_at(bin@, p as int) == Some((cmd, strs@, ptrs@, q as int)),
                    arg_count == (cmd / 1024) % 16,
                    flow_from(bin@, 12, 0) == join3(t0, p0, flow_from(bin@, p as int, t0.len() as int)),
                    12 <= p < q <= at <= bin@.len(),
                    at == q + 4 * i,
                    i <= arg_count,
                    arg_count <= 15,
                    t0.len() + 4 + 4 * arg_count <= u32::MAX,
                    tickflow@ == t0 + (le(cmd) + words_le(words_at(bin@, q as int, i as nat))),
                    pointers@ == p0 + arg_pointers(strs@, ptrs@, t0.len() + 4int, i as nat),
                decreases arg_count - i,
            {
                let arg = read_word(bin, at)?;
                proof {
                    lemma_words_le_len(words_at(bin@, q as int, i as nat));
                    lemma_le_len(cmd);
                }
                let offset = tickflow.len() as u32;
                let ghost pb = pointers@;
                if contains_u32(&strs, i) {
                    pointers.push(Pointer { offset, ptype: PointerType::String });
                } else if contains_u32(&ptrs, i) {
                    pointers.push(Pointer { offset, ptype: PointerType::Tickflow });
                }
                push_u32(&mut tickflow, arg);
                proof {
                    assert(words_at(bin@, q as int, (i + 1) as nat) =~= words_at(bin@, q as int, i as nat).push(arg));
                    lemma_words_le_push(words_at(bin@, q as int, i as nat), arg);
                    assert(tickflow@ =~= t0 + (le(cmd) + words_le(words_at(bin@, q as int, (i + 1) as nat))));
                    assert(pointers@ =~= p0 + arg_pointers(strs@, ptrs@, t0.len() + 4int, (i + 1) as nat));
                }
                at = at + 4;
                i = i + 1;
            }
            proof {
                lemma_join3_assoc(
                    t0,
                    p0,
                    le(cmd) + words_le(words_at(bin@, q as int, arg_count as nat)),
                    arg_pointers(strs@, ptrs@, t0.len() + 4int, arg_count as nat),
                    flow_from(bin@, at as int, tickflow@.len() as int),
                );
                lemma_words_le_len(words_at(bin@, q as int, arg_count as nat));
                lemma_le_len(cmd);
            }
            p = at;
        }
        let mut strings: Vec<u8> = Vec::new();
        append_bytes(&mut strings, vstd::slice::slice_subrange(bin, p, bin.len()));
        let ghost code = tickflow@;
        let ghost ptrs_all = pointers@;
        let stringpos = tickflow.len();
        let mut k: usize = 0;
        proof {
            assert(pointers@.subrange(0, 0) =~= Seq::<Pointer>::empty());
        }
        while k < pointers.len()
            invariant
                bin@.len() >= 12,
                flow_from(bin@, 12, 0) == Some((code, ptrs_all, p as int)),
                k <= pointers@.len(),
                pointers@ == ptrs_all,
                stringpos == code.len(),
                stringpos <= u32::MAX,
                fix_strings(code, ptrs_all.subrange(0, k as int), stringpos as int) == Some(tickflow@),
            decreases pointers@.len() - k,
        {
            proof {
                assert(ptrs_all.subrange(0, k + 1).drop_last() =~= ptrs_all.subrange(0, k as int));
            }
            let ptr = pointers[k];
            if ptr.ptype == PointerType::String {
                let at = ptr.offset as usize;
                let value = match read_u32(tickflow.as_slice(), at) {
                    Some(v) => v,
                    None => {
                        proof {
                            lemma_fix_strings_none(code, ptrs_all, stringpos as int, k + 1);
                        }
                        return Err(BtksError::Truncated);
                    },
                };
                if value < stringpos as u32 {
                    proof {
                        lemma_fix_strings_none(code, ptrs_all, stringpos as int, k + 1);
                    }
                    return Err(BtksError::BadStringPointer);
                }
                write_u32_at(&mut tickflow, at, value - stringpos as u32);
            }
            k = k + 1;
        }
        proof {
            assert(ptrs_all.subrange(0, ptrs_all.len() as int) =~= ptrs_all);
        }
        Ok(
            BTKS {
                flow: FlowSection { start_offset: start, tickflow_data: tickflow },
                ptro: pointers,
                tmpo: tempos,
                strd: strings,
            },
        )
    }

    /// Converts a linked binary; an endless game (index 0x100 to 0x10F) gives a
    /// second container for its practice, entered at the header's start word.
    pub fn extract_tickflow(bin: &[u8], tempos: Vec<Tempo>) -> (r: Result<
        (Self, Option<Self>),
        BtksError,
    >)
        ensures
            match container_of(bin@, false) {
                None => r is Err,
                Some(m) => r matches Ok((main, gprac)) && is_container(main, m) && main.tmpo@
                    == tempos@ && if is_endless_index(word_at(bin@, 0)) {
                    gprac matches Some(g) && container_of(bin@, true) matches Some(c)
                        && is_container(g, c) && same_tempos(g.tmpo@, tempos@)
                } else {
                    gprac is None
                },
            },
    {
        let index = read_word(bin, 0)?;
        if index >= 0x100 && index < 0x110 {
            let copy = clone_tempos(&tempos);
            let main = Self::from_tickompiler_binary(bin, tempos, false)?;
            let gprac = Self::from_tickompiler_binary(bin, copy, true)?;
            Ok((main, Some(gprac)))
        } else {
            let main = Self::from_tickompiler_binary(bin, tempos, false)?;
            Ok((main, None))
        }
    }
}

/// Whether `b` holds the entry offset, code, PTRO entries and string data `c`.
pub open spec fn is_container(b: BTKS, c: (u32, Seq<u8>, Seq<Pointer>, Seq<u8>)) -> bool {
    b.flow.start_offset == c.0 && b.flow.tickflow_data@ == c.1 && b.ptro@ == c.2 && b.strd@ == c.3
}

pub open spec fn same_tempos(a: Seq<Tempo>, b: Seq<Tempo>) -> bool {
    a.len() == b.len() && forall|i: int|
        0 <= i < a.len() ==> (#[trigger] a[i]).id == b[i].id && a[i].data@ == b[i].data@
}

/// A copy of each tempo curve.
fn clone_tempos(ts: &Vec<Tempo>) -> (r: Vec<Tempo>)
    ensures
        same_tempos(r@, ts@),
{
    let mut out: Vec<Tempo> = Vec::new();
    let mut i: usize = 0;
    while i < ts.len()
        invariant
            i <= ts@.len(),
            same_tempos(out@, ts@.subrange(0, i as int)),
        decreases ts@.len() - i,
    {
        let t = &ts[i];
        let mut data: Vec<crate::common::TempoVal> = Vec::new();
        let mut j: usize = 0;
        while j < t.data.len()
            invariant
                j <= t.data@.len(),
                data@ == t.data@.subrange(0, j as int),
            decreases t.data@.len() - j,
        {
            data.push(t.data[j]);
            assert(data@ =~= t.data@.subrange(0, j + 1));
            j = j + 1;
        }
        assert(data@ =~= t.data@);
        let copy = Tempo { id: t.id, data };
        out.push(copy);
        assert(same_tempos(out@, ts@.subrange(0, i + 1))) by {
            assert forall|k: int| 0 <= k < out@.len() implies (#[trigger] out@[k]).id == ts@.subrange(
                0,
                i + 1,
            )[k].id && out@[k].data@ == ts@.subrange(0, i + 1)[k].data@ by {
                if k < i {
                    assert(ts@.subrange(0, i + 1)[k] == ts@.subrange(0, i as int)[k]);
                }
            }
        }
        i = i + 1;
    }
    assert(ts@.subrange(0, ts@.len() as int) =~= ts@);
    out
}

} // verus!
