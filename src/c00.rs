//! Extraction of tickflow from a patched game image: a worklist walk over the
//! call graph that copies each reachable function once, collects the strings
//! it uses, and rebases every pointer so that the result is position
//! independent.

pub mod operations;

use crate::c00::operations::{
    call_op_table, depth_op_table, first_applying, is_call_op, is_depth_op, is_return_op,
    is_scene_op, is_string_op, is_undepth_op, return_op_table, string_op_table, undepth_op_table,
    OPCODE_MASK, SCENE_OP,
};
use crate::common::{Tempo, TempoVal};
use crate::wire::{
    append_bytes, le, lemma_le_len, lemma_words_le_len, lemma_words_le_push, push_u32, push_words, read_u32, word_at, words_le, write_u32_at,
};
use vstd::prelude::*;

verus! {

/// Which release of the game an image patches; it fixes where the patched
/// region is loaded.
#[derive(Clone, Copy, Debug, PartialEq, Eq, Structural)]
pub enum C00Type {
    RHMPatch,
    SaltwaterUS,
    SaltwaterEU,
    SaltwaterJP,
    SaltwaterKR,
}

impl C00Type {
    pub open spec fn spec_base_offset(self) -> u32 {
        match self {
            C00Type::RHMPatch => 0x0C000000,
            _ => 0x060A9008,
        }
    }

    /// The load address of the first byte of the image.
    pub fn base_offset(&self) -> (r: u32)
        ensures
            r == self.spec_base_offset(),
    {
        match self {
            C00Type::RHMPatch => 0x0C000000,
            C00Type::SaltwaterUS | C00Type::SaltwaterEU | C00Type::SaltwaterJP
            | C00Type::SaltwaterKR => 0x060A9008,
        }
    }
}

/// Patches to the base game itself; none are carried yet.
#[derive(Clone, Copy, Debug)]
pub struct Patch;

/// A game's tickflow as a linked binary: table index, entry offsets, code.
#[derive(Clone, Debug)]
pub struct TickompilerBinary {
    pub index: u32,
    pub start: u32,
    pub assets: u32,
    pub data: Vec<u8>,
}

/// An entry of the image's tempo table.
#[derive(Clone, Copy, Debug)]
pub struct TempoTable {
    pub id1: u32,
    pub id2: u32,
    pub unk: u32,
    pub pos: u32,
}

/// A field of extracted code to rewrite once all offsets are known.
#[derive(Clone, Copy, Debug, PartialEq, Eq, Structural)]
pub enum Pointer {
    /// `points_to` is an offset into the string pool.
    String { offset: u32, points_to: u32 },
    /// `points_to` is a function's address relative to the image start.
    Tickflow { offset: u32, points_to: u32 },
}

impl Pointer {
    pub open spec fn offset(self) -> u32 {
        match self {
            Pointer::String { offset, .. } => offset,
            Pointer::Tickflow { offset, .. } => offset,
        }
    }
}

/// Everything extracted from one image.
#[derive(Debug)]
pub struct C00Bin {
    pub c00_type: C00Type,
    pub base_patch: Patch,
    pub tickflows: Vec<TickompilerBinary>,
    pub tempos: Vec<Tempo>,
}

/// Why an image could not be extracted.
#[derive(Clone, Copy, Debug, PartialEq, Eq, Structural)]
pub enum C00Error {
    /// A read ran past the end of the image.
    Truncated,
    /// An entry point or tempo lies below the patched region.
    BelowBase,
    /// An instruction lacks the argument that its class names.
    MissingArgument,
    /// A call target was never extracted.
    UnresolvedCallTarget,
    /// The extracted code outgrew 32-bit offsets.
    TooLarge,
}

/// Whether the string unit of `w` bytes at `p` is zero.
pub open spec fn unit_is_nul(s: Seq<u8>, p: int, w: int) -> bool {
    s[p] == 0 && (w == 2 ==> s[p + 1] == 0)
}

/// The end (exclusive) of the NUL-terminated string of `w`-byte units that
/// starts at `p`, if the image holds its terminator.
pub open spec fn string_end(s: Seq<u8>, p: int, w: int) -> Option<int>
    decreases s.len() - p,
{
    if p < 0 || w < 1 || p + w > s.len() {
        None
    } else if unit_is_nul(s, p, w) {
        Some(p + w)
    } else {
        string_end(s, p + w, w)
    }
}

/// A string padded for the pool: zeros up to the next multiple of four, at
/// least one.
pub open spec fn padded(raw: Seq<u8>) -> Seq<u8> {
    raw + Seq::new((4 - raw.len() % 4) as nat, |i: int| 0u8)
}

/// The bytes used for a string that points below the patched region.
pub open spec fn missing_string() -> Seq<u8> {
    seq![0u8, 0u8]
}

pub open spec fn unit_width(is_unicode: bool) -> int {
    if is_unicode {
        2
    } else {
        1
    }
}

/// The pool entry for the string at address `pos`.
pub open spec fn string_entry(img: Seq<u8>, base: u32, pos: u64, is_unicode: bool) -> Option<Seq<u8>> {
    if pos < base {
        Some(missing_string())
    } else {
        let start = pos - base;
        match string_end(img, start, unit_width(is_unicode)) {
            Some(end) => Some(padded(img.subrange(start, end))),
            None => None,
        }
    }
}

/// A string read for the pool is a whole number of words and ends with its
/// terminator before the padding.
pub proof fn lemma_pool_entry(img: Seq<u8>, p: int, w: int)
    requires
        w == 1 || w == 2,
        string_end(img, p, w) is Some,
    ensures
        ({
            let end = string_end(img, p, w)->0;
            let raw = img.subrange(p, end);
            &&& p + w <= end <= img.len()
            &&& padded(raw).len() % 4 == 0
            &&& padded(raw).subrange(raw.len() - w, raw.len() as int) == Seq::new(
                w as nat,
                |i: int| 0u8,
            )
        }),
    decreases img.len() - p,
{
    let end = string_end(img, p, w)->0;
    let raw = img.subrange(p, end);
    lemma_string_end_nul(img, p, w);
    assert(padded(raw)[raw.len() - w] == 0);
    assert(w == 2 ==> padded(raw)[raw.len() - 1] == 0);
    assert(padded(raw).subrange(raw.len() - w, raw.len() as int) =~= Seq::new(
        w as nat,
        |i: int| 0u8,
    ));
}

proof fn lemma_string_end_nul(img: Seq<u8>, p: int, w: int)
    requires
        string_end(img, p, w) is Some,
    ensures
        p + w <= string_end(img, p, w)->0 <= img.len(),
        unit_is_nul(img, string_end(img, p, w)->0 - w, w),
        1 <= w,
    decreases img.len() - p,
{
    if !unit_is_nul(img, p, w) {
        lemma_string_end_nul(img, p + w, w);
    }
}

/// Reads the string at address `pos` of the image as a pool entry: its
/// units up to and including the NUL, zero-padded to a multiple of four.
/// An address below the patched region gives the two-byte placeholder.
pub fn read_string(c00_type: &C00Type, image: &[u8], pos: u64, is_unicode: bool) -> (r: Result<
    Vec<u8>,
    C00Error,
>)
    ensures
        match string_entry(image@, c00_type.spec_base_offset(), pos, is_unicode) {
            Some(e) => r matches Ok(v) && v@ == e,
            None => r == Err::<Vec<u8>, C00Error>(C00Error::Truncated),
        },
{
    let base = c00_type.base_offset();
    if pos < base as u64 {
        let mut v: Vec<u8> = Vec::new();
        v.push(0);
        v.push(0);
        assert(v@ =~= missing_string());
        return Ok(v);
    }
    let off = pos - base as u64;
    if off > image.len() as u64 {
        return Err(C00Error::Truncated);
    }
    let start = off as usize;
    let w: usize = if is_unicode { 2 } else { 1 };
    let mut p: usize = start;
    let mut out: Vec<u8> = Vec::new();
    loop
        invariant_except_break
            string_end(image@, start as int, w as int) == string_end(image@, p as int, w as int),
        invariant
            pos >= c00_type.spec_base_offset(),
            start == pos - c00_type.spec_base_offset(),
            start <= p <= image@.len(),
            w == unit_width(is_unicode),
            out@ == image@.subrange(start as int, p as int),
        ensures
            string_end(image@, start as int, w as int) == Some(p as int),
        decreases image@.len() - p,
    {
        if image.len() - p < w {
            return Err(C00Error::Truncated);
        }
        let nul = image[p] == 0 && (w == 1 || image[p + 1] == 0);
        out.push(image[p]);
        if w == 2 {
            out.push(image[p + 1]);
        }
        assert(out@ =~= image@.subrange(start as int, (p + w) as int));
        p = p + w;
        if nul {
            break;
        }
    }
    let ghost raw = out@;
    let pad: usize = 4 - out.len() % 4;
    let mut k: usize = 0;
    while k < pad
        invariant
            k <= pad,
            pad == 4 - raw.len() % 4,
            out@ == raw + Seq::new(k as nat, |i: int| 0u8),
        decreases pad - k,
    {
        out.push(0);
        assert(out@ =~= raw + Seq::new((k + 1) as nat, |i: int| 0u8));
        k = k + 1;
    }
    Ok(out)
}

/// Whether a queue entry already has address `a`.
pub open spec fn has_address(q: Seq<(u32, u32)>, a: u32) -> bool {
    exists|i: int| 0 <= i < q.len() && #[trigger] q[i].0 == a
}

/// The worklist after discovering a call to `a` made in `scene`.
pub open spec fn enqueued(q: Seq<(u32, u32)>, a: u32, scene: u32) -> Seq<(u32, u32)> {
    if has_address(q, a) {
        q
    } else {
        q.push((a, scene))
    }
}

/// No two worklist entries share an address.
pub open spec fn addresses_distinct(q: Seq<(u32, u32)>) -> bool {
    forall|i: int, j: int| 0 <= i < j < q.len() ==> #[trigger] q[i].0 != #[trigger] q[j].0
}

/// Appends `(address, scene)` to the worklist unless the address is there.
pub fn enqueue(queue: &mut Vec<(u32, u32)>, address: u32, scene: u32)
    ensures
        final(queue)@ == enqueued(old(queue)@, address, scene),
{
    let mut i: usize = 0;
    while i < queue.len()
        invariant
            i <= queue@.len(),
            queue@ == old(queue)@,
            forall|k: int| 0 <= k < i ==> #[trigger] queue@[k].0 != address,
        decreases queue@.len() - i,
    {
        if queue[i].0 == address {
            return;
        }
        i = i + 1;
    }
    queue.push((address, scene));
}

/// A second discovery of a queued address changes nothing: every address
/// stands in the worklist once, so it is extracted once, and every call to
/// it resolves through that one entry.
pub proof fn lemma_enqueue_twice(q: Seq<(u32, u32)>, a: u32, s1: u32, s2: u32)
    requires
        addresses_distinct(q),
    ensures
        enqueued(enqueued(q, a, s1), a, s2) == enqueued(q, a, s1),
        addresses_distinct(enqueued(q, a, s1)),
        exists|i: int|
            0 <= i < enqueued(q, a, s1).len() && enqueued(q, a, s1)[i].0 == a && (forall|j: int|
                0 <= j < enqueued(q, a, s1).len() && #[trigger] enqueued(q, a, s1)[j].0 == a ==> j
                    == i),
{
    let q1 = enqueued(q, a, s1);
    if has_address(q, a) {
        let i = choose|i: int| 0 <= i < q.len() && #[trigger] q[i].0 == a;
        assert(q1[i].0 == a);
    } else {
        let i = q.len() as int;
        assert(q1[i].0 == a);
        assert(has_address(q1, a));
    }
}

/// The run of tempo points stored at byte `p`: points up to and including
/// the first whose loop value has bit 0 or bit 15 set.
pub open spec fn tempo_run(img: Seq<u8>, p: int) -> Option<Seq<TempoVal>>
    decreases img.len() - p,
{
    if p < 0 || p + 12 > img.len() {
        None
    } else {
        let v = TempoVal {
            beats: word_at(img, p),
            time: word_at(img, p + 4),
            loop_val: word_at(img, p + 8),
        };
        if v.loop_val & 0x8001 != 0 {
            Some(seq![v])
        } else {
            match tempo_run(img, p + 12) {
                Some(rest) => Some(seq![v] + rest),
                None => None,
            }
        }
    }
}

pub open spec fn prepend(a: Seq<TempoVal>, o: Option<Seq<TempoVal>>) -> Option<Seq<TempoVal>> {
    match o {
        Some(rest) => Some(a + rest),
        None => None,
    }
}

/// Reads the tempo points stored at address `pos` of the image.
pub fn read_tempo_vals(c00_type: &C00Type, image: &[u8], pos: u32) -> (r: Result<
    Vec<TempoVal>,
    C00Error,
>)
    ensures
        pos < c00_type.spec_base_offset() ==> r == Err::<Vec<TempoVal>, C00Error>(
            C00Error::BelowBase,
        ),
        pos >= c00_type.spec_base_offset() ==> match tempo_run(
            image@,
            pos - c00_type.spec_base_offset(),
        ) {
            Some(vs) => r matches Ok(v) && v@ == vs,
            None => r == Err::<Vec<TempoVal>, C00Error>(C00Error::Truncated),
        },
{
    let base = c00_type.base_offset();
    if pos < base {
        return Err(C00Error::BelowBase);
    }
    let start = (pos - base) as usize;
    let mut p = start;
    let mut vals: Vec<TempoVal> = Vec::new();
    loop
        invariant_except_break
            tempo_run(image@, start as int) == prepend(vals@, tempo_run(image@, p as int)),
        invariant
            pos >= c00_type.spec_base_offset(),
            start == pos - c00_type.spec_base_offset(),
            start <= p,
        ensures
            tempo_run(image@, start as int) == Some(vals@),
        decreases image@.len() - p,
    {
        let n = image.len();
        if p > n || n - p < 12 {
            return Err(C00Error::Truncated);
        }
        let beats = read_u32(image, p);
        let time = if p <= usize::MAX - 4 { read_u32(image, p + 4) } else { None };
        let loop_val = if p <= usize::MAX - 8 { read_u32(image, p + 8) } else { None };
        match (beats, time, loop_val) {
            (Some(b), Some(t), Some(l)) => {
                let v = TempoVal { beats: b, time: t, loop_val: l };
                let ghost before = vals@;
                vals.push(v);
                proof {
                    assert(before + (seq![v] + tempo_run(image@, p + 12).unwrap_or(seq![]))
                        =~= vals@ + tempo_run(image@, p + 12).unwrap_or(seq![]));
                }
                p = p + 12;
                if l & 0x8001 != 0 {
                    assert(before + seq![v] =~= vals@);
                    break;
                }
            },
            _ => {
                return Err(C00Error::Truncated);
            },
        }
    }
    Ok(vals)
}

/// How the scan of a function treats an instruction word, checked in this
/// order.
pub enum OpClass {
    Scene,
    Call,
    Str,
    Depth,
    Undepth,
    Return,
    Other,
}

pub open spec fn class_of(w: u32, scene: u32) -> OpClass {
    let c = w & OPCODE_MASK;
    if c == SCENE_OP {
        OpClass::Scene
    } else if first_applying(call_op_table(), c, 0) is Some {
        OpClass::Call
    } else if first_applying(string_op_table(), c, scene) is Some {
        OpClass::Str
    } else if first_applying(depth_op_table(), c, 0) is Some {
        OpClass::Depth
    } else if first_applying(undepth_op_table(), c, 0) is Some {
        OpClass::Undepth
    } else if first_applying(return_op_table(), c, 0) is Some {
        OpClass::Return
    } else {
        OpClass::Other
    }
}

/// The argument count field of an instruction word.
pub open spec fn arg_count(w: u32) -> u32 {
    (w & 0x3C00) >> 10
}

pub proof fn lemma_arg_count_bound(w: u32)
    ensures
        arg_count(w) <= 15,
{
    assert((w & 0x3C00) >> 10 <= 15) by (bit_vector);
}

/// The end of the instruction at byte `p`.
pub open spec fn instr_end(img: Seq<u8>, p: int) -> int {
    p + 4 * (1 + arg_count(word_at(img, p)))
}

/// The end of the function whose scan is at byte `p` with nesting `depth`
/// and scene register `scene`: the scan ends after the first return seen at
/// depth zero. `None` where the image ends first.
pub open spec fn function_end(img: Seq<u8>, p: int, depth: int, scene: u32) -> Option<int>
    decreases img.len() - p,
{
    if p < 0 || p + 4 > img.len() {
        None
    } else {
        let w = word_at(img, p);
        let next = instr_end(img, p);
        if next > img.len() {
            None
        } else {
            match class_of(w, scene) {
                OpClass::Scene => function_end(
                    img,
                    next,
                    depth,
                    if arg_count(w) > 0 {
                        word_at(img, p + 4)
                    } else {
                        scene
                    },
                ),
                OpClass::Depth => function_end(img, next, depth + 1, scene),
                OpClass::Undepth => function_end(
                    img,
                    next,
                    if depth > 0 {
                        depth - 1
                    } else {
                        0
                    },
                    scene,
                ),
                OpClass::Return => if depth == 0 {
                    Some(next)
                } else {
                    function_end(img, next, depth, scene)
                },
                _ => function_end(img, next, depth, scene),
            }
        }
    }
}

/// A return inside a nested scope does not end the function; one at depth
/// zero does.
pub proof fn lemma_return_ends_only_at_depth_zero(img: Seq<u8>, p: int, depth: int, scene: u32)
    requires
        0 <= p,
        p + 4 <= img.len(),
        instr_end(img, p) <= img.len(),
        class_of(word_at(img, p), scene) is Return,
    ensures
        depth == 0 ==> function_end(img, p, depth, scene) == Some(instr_end(img, p)),
        depth != 0 ==> function_end(img, p, depth, scene) == function_end(
            img,
            instr_end(img, p),
            depth,
            scene,
        ),
{
}

/// Reads the instruction at byte `p`: its word and its arguments.
fn read_instruction(image: &[u8], p: usize) -> (r: Result<(u32, Vec<u32>), C00Error>)
    ensures
        match r {
            Ok((w, args)) => {
                &&& p + 4 <= image@.len()
                &&& w == word_at(image@, p as int)
                &&& instr_end(image@, p as int) <= image@.len()
                &&& args@.len() == arg_count(w)
                &&& forall|k: int|
                    0 <= k < args@.len() ==> #[trigger] args@[k] == word_at(image@, p + 4 + 4 * k)
            },
            Err(e) => {
                &&& e == C00Error::Truncated
                &&& (p + 4 > image@.len() || instr_end(image@, p as int) > image@.len())
            },
        },
{
    let n = image.len();
    let w = match read_u32(image, p) {
        Some(w) => w,
        None => return Err(C00Error::Truncated),
    };
    proof {
        lemma_arg_count_bound(w);
    }
    let argc = ((w & 0x3C00) >> 10) as usize;
    let mut args: Vec<u32> = Vec::new();
    let mut q = p + 4;
    while args.len() < argc
        invariant
            n == image@.len(),
            p + 4 <= n,
            w == word_at(image@, p as int),
            argc == arg_count(w),
            argc <= 15,
            args@.len() <= argc,
            q == p + 4 + 4 * args@.len(),
            q <= n,
            forall|k: int|
                0 <= k < args@.len() ==> #[trigger] args@[k] == word_at(image@, p + 4 + 4 * k),
        decreases argc - args@.len(),
    {
        match read_u32(image, q) {
            Some(a) => {
                args.push(a);
                q = q + 4;
            },
            None => {
                return Err(C00Error::Truncated);
            },
        }
    }
    Ok((w, args))
}

pub open spec fn is_prefix<T>(a: Seq<T>, b: Seq<T>) -> bool {
    a.len() <= b.len() && b.subrange(0, a.len() as int) == a
}

/// Each pointer's field lies in bytes `lo..hi` of the code.
pub open spec fn pointers_within(ps: Seq<Pointer>, lo: int, hi: int) -> bool {
    forall|i: int|
        0 <= i < ps.len() ==> lo <= (#[trigger] ps[i]).offset() && ps[i].offset() + 4 <= hi
}

/// The worklist grew only by new, distinct addresses in the patched region.
pub open spec fn queue_grew(q0: Seq<(u32, u32)>, q: Seq<(u32, u32)>, base: u32) -> bool {
    &&& is_prefix(q0, q)
    &&& addresses_distinct(q)
    &&& forall|i: int| q0.len() <= i < q.len() ==> #[trigger] q[i].0 >= base
}

proof fn lemma_is_prefix_trans<T>(a: Seq<T>, b: Seq<T>, c: Seq<T>)
    requires
        is_prefix(a, b),
        is_prefix(b, c),
    ensures
        is_prefix(a, c),
{
    assert(c.subrange(0, a.len() as int) =~= b.subrange(0, a.len() as int));
}

proof fn lemma_is_prefix_append<T>(a: Seq<T>, b: Seq<T>)
    ensures
        is_prefix(a, a + b),
{
    assert((a + b).subrange(0, a.len() as int) =~= a);
}

/// The argument words of the instruction at byte `p`.
pub open spec fn instr_args(img: Seq<u8>, p: int) -> Seq<u32> {
    Seq::new(arg_count(word_at(img, p)) as nat, |k: int| word_at(img, p + 4 + 4 * k))
}

pub open spec fn kind_tag(is_unicode: bool) -> int {
    if is_unicode {
        1
    } else {
        2
    }
}

/// Annotation entries for string slots: slot index from bit 8, kind below.
pub open spec fn string_anns(slots: Seq<u8>, is_unicode: bool) -> Seq<u32> {
    slots.map_values(|s: u8| (kind_tag(is_unicode) + s * 256) as u32)
}

/// The pool entries of the strings named by `slots`, in slot order.
pub open spec fn strings_of(
    img: Seq<u8>,
    base: u32,
    slots: Seq<u8>,
    args: Seq<u32>,
    is_unicode: bool,
) -> Option<Seq<u8>>
    decreases slots.len(),
{
    if slots.len() == 0 {
        Some(Seq::empty())
    } else {
        match (
            strings_of(img, base, slots.drop_last(), args, is_unicode),
            string_entry(img, base, args[slots.last() as int] as u64, is_unicode),
        ) {
            (Some(a), Some(e)) => Some(a + e),
            _ => None,
        }
    }
}

/// Every slot names an argument that the instruction has.
pub open spec fn slots_fit(slots: Seq<u8>, argc: int) -> bool {
    slots.len() <= 15 && forall|j: int| 0 <= j < slots.len() ==> (#[trigger] slots[j] as int) < argc
}

/// The annotation record and the pool bytes of a string instruction.
pub open spec fn string_refs(
    img: Seq<u8>,
    base: u32,
    slots: Seq<u8>,
    args: Seq<u32>,
    is_unicode: bool,
) -> Option<(Seq<u8>, Seq<u8>)> {
    if !slots_fit(slots, args.len() as int) {
        None
    } else {
        match strings_of(img, base, slots, args, is_unicode) {
            Some(pool) => Some(
                (le(0xFFFFFFFF) + le(slots.len() as u32) + words_le(
                    string_anns(slots, is_unicode),
                ), pool),
            ),
            None => None,
        }
    }
}

/// The annotation record of a call into the patched region.
pub open spec fn call_ann(slot: int) -> Seq<u8> {
    le(0xFFFFFFFF) + le(1) + le((slot * 256) as u32)
}

/// The code bytes and the pool bytes that extraction emits for the
/// instruction at byte `p`: a call into the patched region gets an
/// annotation and its target made relative to the image; a string
/// instruction gets an annotation and its strings copied to the pool.
pub open spec fn instr_out(img: Seq<u8>, p: int, scene: u32, base: u32) -> Option<
    (Seq<u8>, Seq<u8>),
> {
    let w = word_at(img, p);
    let args = instr_args(img, p);
    match class_of(w, scene) {
        OpClass::Call => {
            let d = first_applying(call_op_table(), w & OPCODE_MASK, 0)->0;
            if d.args.len() == 0 || d.args[0] >= args.len() {
                None
            } else {
                let slot = d.args[0] as int;
                let t = args[slot];
                if t >= base {
                    Some(
                        (call_ann(slot) + le(w) + words_le(
                            args.update(slot, (t - base) as u32),
                        ), Seq::empty()),
                    )
                } else {
                    Some((le(w) + words_le(args), Seq::empty()))
                }
            }
        },
        OpClass::Str => {
            let d = first_applying(string_op_table(), w & OPCODE_MASK, scene)->0;
            match string_refs(img, base, d.args, args, d.is_unicode) {
                Some((a, pool)) => Some((a + le(w) + words_le(args), pool)),
                None => None,
            }
        },
        _ => Some((le(w) + words_le(args), Seq::empty())),
    }
}

/// What extraction produces for a stretch of code: code bytes, pool bytes,
/// pointer records, the calls it queues (address, scene), and how many of
/// its code bytes are annotations.
pub struct Piece {
    pub code: Seq<u8>,
    pub pool: Seq<u8>,
    pub ptrs: Seq<Pointer>,
    pub calls: Seq<(u32, u32)>,
    pub ann: int,
}

pub open spec fn piece_join(a: Piece, o: Option<Piece>) -> Option<Piece> {
    match o {
        Some(b) => Some(
            Piece {
                code: a.code + b.code,
                pool: a.pool + b.pool,
                ptrs: a.ptrs + b.ptrs,
                calls: a.calls + b.calls,
                ann: a.ann + b.ann,
            },
        ),
        None => None,
    }
}

/// The String pointer records of a string instruction whose annotation
/// ends at code offset `mark`, with the pool holding `soff` bytes before.
pub open spec fn string_ptrs(
    img: Seq<u8>,
    base: u32,
    slots: Seq<u8>,
    args: Seq<u32>,
    is_unicode: bool,
    mark: int,
    soff: int,
) -> Seq<Pointer>
    decreases slots.len(),
{
    if slots.len() == 0 {
        Seq::empty()
    } else {
        string_ptrs(img, base, slots.drop_last(), args, is_unicode, mark, soff).push(
            Pointer::String {
                offset: (mark + 4 * (slots.last() + 1)) as u32,
                points_to: (soff + strings_of(img, base, slots.drop_last(), args, is_unicode)->0.len()) as u32,
            },
        )
    }
}

/// The calls that the instruction at byte `p` queues.
pub open spec fn instr_calls(img: Seq<u8>, p: int, scene: u32, base: u32) -> Seq<(u32, u32)> {
    let w = word_at(img, p);
    let args = instr_args(img, p);
    if class_of(w, scene) is Call {
        let d = first_applying(call_op_table(), w & OPCODE_MASK, 0)->0;
        let t = args[d.args[0] as int];
        if t >= base {
            seq![(t, scene)]
        } else {
            Seq::empty()
        }
    } else {
        Seq::empty()
    }
}

/// The pointer records of the instruction at byte `p`, emitted at code
/// offset `boff` with `soff` pool bytes before it.
pub open spec fn instr_ptrs(img: Seq<u8>, p: int, scene: u32, base: u32, boff: int, soff: int) -> Seq<
    Pointer,
> {
    let w = word_at(img, p);
    let args = instr_args(img, p);
    match class_of(w, scene) {
        OpClass::Call => {
            let d = first_applying(call_op_table(), w & OPCODE_MASK, 0)->0;
            let slot = d.args[0] as int;
            let t = args[slot];
            if t >= base {
                seq![
                    Pointer::Tickflow {
                        offset: (boff + 12 + 4 * (slot + 1)) as u32,
                        points_to: (t - base) as u32,
                    },
                ]
            } else {
                Seq::empty()
            }
        },
        OpClass::Str => {
            let d = first_applying(string_op_table(), w & OPCODE_MASK, scene)->0;
            string_ptrs(img, base, d.args, args, d.is_unicode, boff + 8 + 4 * d.args.len(), soff)
        },
        _ => Seq::empty(),
    }
}

pub open spec fn instr_piece(img: Seq<u8>, p: int, scene: u32, base: u32, boff: int, soff: int) -> Option<
    Piece,
> {
    match instr_out(img, p, scene, base) {
        Some((b, q)) => Some(
            Piece {
                code: b,
                pool: q,
                ptrs: instr_ptrs(img, p, scene, base, boff, soff),
                calls: instr_calls(img, p, scene, base),
                ann: b.len() - 4 * (1 + arg_count(word_at(img, p))),
            },
        ),
        None => None,
    }
}

/// What extraction produces for the function whose scan is at byte `p`,
/// emitted from code offset `boff` with `soff` pool bytes before it.
pub open spec fn scan_piece(
    img: Seq<u8>,
    p: int,
    depth: int,
    scene: u32,
    base: u32,
    boff: int,
    soff: int,
) -> Option<Piece>
    decreases img.len() - p,
{
    if p < 0 || p + 4 > img.len() {
        None
    } else {
        let w = word_at(img, p);
        let next = instr_end(img, p);
        if next > img.len() {
            None
        } else {
            match instr_piece(img, p, scene, base, boff, soff) {
                None => None,
                Some(pc) => {
                    let b2 = boff + pc.code.len();
                    let s2 = soff + pc.pool.len();
                    match class_of(w, scene) {
                        OpClass::Scene => piece_join(
                            pc,
                            scan_piece(
                                img,
                                next,
                                depth,
                                if arg_count(w) > 0 {
                                    word_at(img, p + 4)
                                } else {
                                    scene
                                },
                                base,
                                b2,
                                s2,
                            ),
                        ),
                        OpClass::Depth => piece_join(
                            pc,
                            scan_piece(img, next, depth + 1, scene, base, b2, s2),
                        ),
                        OpClass::Undepth => piece_join(
                            pc,
                            scan_piece(
                                img,
                                next,
                                if depth > 0 {
                                    depth - 1
                                } else {
                                    0
                                },
                                scene,
                                base,
                                b2,
                                s2,
                            ),
                        ),
                        OpClass::Return => if depth == 0 {
                            Some(pc)
                        } else {
                            piece_join(pc, scan_piece(img, next, depth, scene, base, b2, s2))
                        },
                        _ => piece_join(pc, scan_piece(img, next, depth, scene, base, b2, s2)),
                    }
                },
            }
        }
    }
}

proof fn lemma_piece_join_assoc(a: Piece, b: Piece, o: Option<Piece>)
    ensures
        piece_join(a, piece_join(b, o)) == piece_join(
            Piece {
                code: a.code + b.code,
                pool: a.pool + b.pool,
                ptrs: a.ptrs + b.ptrs,
                calls: a.calls + b.calls,
                ann: a.ann + b.ann,
            },
            o,
        ),
{
    match o {
        Some(c) => {
            assert(a.code + (b.code + c.code) =~= (a.code + b.code) + c.code);
            assert(a.pool + (b.pool + c.pool) =~= (a.pool + b.pool) + c.pool);
            assert(a.ptrs + (b.ptrs + c.ptrs) =~= (a.ptrs + b.ptrs) + c.ptrs);
            assert(a.calls + (b.calls + c.calls) =~= (a.calls + b.calls) + c.calls);
        },
        None => {},
    }
}

proof fn lemma_piece_join_empty(o: Option<Piece>)
    ensures
        piece_join(
            Piece {
                code: Seq::empty(),
                pool: Seq::empty(),
                ptrs: Seq::empty(),
                calls: Seq::empty(),
                ann: 0,
            },
            o,
        ) == o,
{
    match o {
        Some(c) => {
            assert(Seq::<u8>::empty() + c.code =~= c.code);
            assert(Seq::<u8>::empty() + c.pool =~= c.pool);
            assert(Seq::<Pointer>::empty() + c.ptrs =~= c.ptrs);
            assert(Seq::<(u32, u32)>::empty() + c.calls =~= c.calls);
        },
        None => {},
    }
}

/// The worklist after queuing each of `calls` in turn.
pub open spec fn enqueue_all(q: Seq<(u32, u32)>, calls: Seq<(u32, u32)>) -> Seq<(u32, u32)>
    decreases calls.len(),
{
    if calls.len() == 0 {
        q
    } else {
        let (a, s) = calls.last();
        enqueued(enqueue_all(q, calls.drop_last()), a, s)
    }
}

/// The string instruction's strings are all there and the pool stays within
/// 32-bit offsets.
pub open spec fn refs_fit(
    img: Seq<u8>,
    base: u32,
    slots: Seq<u8>,
    args: Seq<u32>,
    is_unicode: bool,
    soff: int,
) -> bool {
    string_refs(img, base, slots, args, is_unicode) matches Some((a, pool)) && soff + pool.len()
        <= u32::MAX
}

proof fn lemma_strings_of_prefix(
    img: Seq<u8>,
    base: u32,
    slots: Seq<u8>,
    args: Seq<u32>,
    is_unicode: bool,
    j: int,
)
    requires
        0 <= j < slots.len(),
        strings_of(img, base, slots, args, is_unicode) is Some,
    ensures
        strings_of(img, base, slots.subrange(0, j), args, is_unicode) matches Some(a)
            && string_entry(img, base, args[slots[j] as int] as u64, is_unicode) matches Some(e)
            && a.len() + e.len() <= strings_of(img, base, slots, args, is_unicode)->0.len(),
    decreases slots.len(),
{
    if j == slots.len() - 1 {
        assert(slots.drop_last() =~= slots.subrange(0, j));
    } else {
        lemma_strings_of_prefix(img, base, slots.drop_last(), args, is_unicode, j);
        assert(slots.drop_last().subrange(0, j) =~= slots.subrange(0, j));
        assert(slots.drop_last()[j] == slots[j]);
    }
}

/// Writes the annotation of a string instruction and collects its strings:
/// one String pointer per slot, aimed at the field that the instruction,
/// written next, will have there.
fn emit_string_refs(
    c00_type: &C00Type,
    image: &[u8],
    slots: &Vec<u8>,
    is_unicode: bool,
    args: &Vec<u32>,
    bindata: &mut Vec<u8>,
    stringdata: &mut Vec<u8>,
    argann_size: &mut usize,
    pointers: &mut Vec<Pointer>,
) -> (r: Result<(), C00Error>)
    requires
        args@.len() <= 15,
        old(bindata)@.len() + 256 <= u32::MAX,
        *old(argann_size) <= old(bindata)@.len(),
    ensures
        refs_fit(
            image@,
            c00_type.spec_base_offset(),
            slots@,
            args@,
            is_unicode,
            old(stringdata)@.len() as int,
        ) ==> r is Ok,
        r is Ok ==> {
            &&& is_prefix(old(bindata)@, final(bindata)@)
            &&& final(bindata)@.len() <= old(bindata)@.len() + 68
            &&& *final(argann_size) - *old(argann_size) == final(bindata)@.len() - old(
                bindata,
            )@.len()
            &&& is_prefix(old(stringdata)@, final(stringdata)@)
            &&& is_prefix(old(pointers)@, final(pointers)@)
            &&& pointers_within(
                final(pointers)@.subrange(old(pointers)@.len() as int, final(pointers)@.len() as int),
                final(bindata)@.len() as int,
                final(bindata)@.len() + 4 + 4 * args@.len() as int,
            )
            &&& string_refs(image@, c00_type.spec_base_offset(), slots@, args@, is_unicode) == Some(
                (
                    final(bindata)@.subrange(old(bindata)@.len() as int, final(bindata)@.len() as int),
                    final(stringdata)@.subrange(
                        old(stringdata)@.len() as int,
                        final(stringdata)@.len() as int,
                    ),
                ),
            )
            &&& final(pointers)@ == old(pointers)@ + string_ptrs(
                image@,
                c00_type.spec_base_offset(),
                slots@,
                args@,
                is_unicode,
                old(bindata)@.len() + 8 + 4 * slots@.len() as int,
                old(stringdata)@.len() as int,
            )
        },
{
    let k = slots.len();
    let argc = args.len();
    let ghost good = refs_fit(
        image@,
        c00_type.spec_base_offset(),
        slots@,
        args@,
        is_unicode,
        old(stringdata)@.len() as int,
    );
    let mut j: usize = 0;
    while j < k
        invariant
            good ==> slots_fit(slots@, argc as int),
            argc == args@.len(),
            k == slots@.len(),
            forall|i: int| 0 <= i < j ==> (#[trigger] slots@[i] as int) < argc,
        decreases k - j,
    {
        if slots[j] as usize >= argc {
            return Err(C00Error::MissingArgument);
        }
        j = j + 1;
    }
    if k > 15 {
        return Err(C00Error::MissingArgument);
    }
    let tag: u32 = if is_unicode { 1 } else { 2 };
    push_u32(bindata, 0xFFFFFFFF);
    push_u32(bindata, k as u32);
    proof {
        lemma_is_prefix_append(old(bindata)@, le(0xFFFFFFFF));
        lemma_le_len(0xFFFFFFFF);
        lemma_le_len(k as u32);
        lemma_is_prefix_append(old(bindata)@ + le(0xFFFFFFFF), le(k as u32));
        lemma_is_prefix_trans(old(bindata)@, old(bindata)@ + le(0xFFFFFFFF), bindata@);
    }
    j = 0;
    while j < k
        invariant
            k == slots@.len(),
            k <= 15,
            forall|i: int| 0 <= i < k ==> (#[trigger] slots@[i] as int) < argc,
            argc <= 15,
            is_prefix(old(bindata)@, bindata@),
            bindata@.len() == old(bindata)@.len() + 8 + 4 * j,
            j <= k,
            tag <= 2,
            tag == kind_tag(is_unicode),
            bindata@ == old(bindata)@ + le(0xFFFFFFFF) + le(k as u32) + words_le(
                string_anns(slots@.subrange(0, j as int), is_unicode),
            ),
        decreases k - j,
    {
        let ghost before = bindata@;
        let ann: u32 = tag + (slots[j] as u32) * 256;
        push_u32(bindata, ann);
        proof {
            assert(string_anns(slots@.subrange(0, j + 1), is_unicode) =~= string_anns(
                slots@.subrange(0, j as int),
                is_unicode,
            ).push(ann));
            lemma_words_le_push(string_anns(slots@.subrange(0, j as int), is_unicode), ann);
            lemma_le_len(ann);
            lemma_is_prefix_append(before, le(ann));
            lemma_is_prefix_trans(old(bindata)@, before, bindata@);
        }
        j = j + 1;
    }
    *argann_size = *argann_size + (2 + k) * 4;
    let mark = bindata.len();
    let ghost anns_bytes = bindata@;
    assert(slots@.subrange(0, k as int) =~= slots@);
    assert(anns_bytes.subrange(old(bindata)@.len() as int, anns_bytes.len() as int) =~= le(0xFFFFFFFF)
        + le(k as u32) + words_le(string_anns(slots@, is_unicode)));
    assert(stringdata@.subrange(0, stringdata@.len() as int) =~= stringdata@);
    assert(pointers@.subrange(0, pointers@.len() as int) =~= pointers@);
    assert(stringdata@.subrange(old(stringdata)@.len() as int, stringdata@.len() as int) =~= Seq::<u8>::empty());
    assert(slots@.subrange(0, 0) =~= Seq::<u8>::empty());
    assert(pointers@ =~= old(pointers)@ + Seq::<Pointer>::empty());
    j = 0;
    while j < k
        invariant
            k == slots@.len(),
            forall|i: int| 0 <= i < k ==> (#[trigger] slots@[i] as int) < argc,
            argc == args@.len(),
            argc <= 15,
            mark == bindata@.len(),
            mark + 64 <= u32::MAX,
            j <= k,
            is_prefix(old(stringdata)@, stringdata@),
            is_prefix(old(pointers)@, pointers@),
            pointers_within(
                pointers@.subrange(old(pointers)@.len() as int, pointers@.len() as int),
                mark as int,
                mark + 4 + 4 * argc,
            ),
            bindata@ == anns_bytes,
            good == refs_fit(
                image@,
                c00_type.spec_base_offset(),
                slots@,
                args@,
                is_unicode,
                old(stringdata)@.len() as int,
            ),
            mark == old(bindata)@.len() + 8 + 4 * k,
            pointers@ == old(pointers)@ + string_ptrs(
                image@,
                c00_type.spec_base_offset(),
                slots@.subrange(0, j as int),
                args@,
                is_unicode,
                mark as int,
                old(stringdata)@.len() as int,
            ),
            strings_of(image@, c00_type.spec_base_offset(), slots@.subrange(0, j as int), args@, is_unicode)
                == Some(stringdata@.subrange(old(stringdata)@.len() as int, stringdata@.len() as int)),
        decreases k - j,
    {
        let slot = slots[j] as usize;
        proof {
            if good {
                lemma_strings_of_prefix(
                    image@,
                    c00_type.spec_base_offset(),
                    slots@,
                    args@,
                    is_unicode,
                    j as int,
                );
                assert(slots@.subrange(0, j as int) =~= slots@.subrange(0, j as int));
            }
        }
        if stringdata.len() > u32::MAX as usize {
            return Err(C00Error::TooLarge);
        }
        let ptr = Pointer::String {
            offset: (mark + 4 * (slot + 1)) as u32,
            points_to: stringdata.len() as u32,
        };
        let ghost pbefore = pointers@;
        pointers.push(ptr);
        proof {
            let sub = slots@.subrange(0, j + 1);
            assert(sub.drop_last() =~= slots@.subrange(0, j as int));
            assert(pointers@ =~= old(pointers)@ + string_ptrs(
                image@,
                c00_type.spec_base_offset(),
                sub,
                args@,
                is_unicode,
                mark as int,
                old(stringdata)@.len() as int,
            ));
            lemma_is_prefix_append(pbefore, seq![ptr]);
            assert(pbefore + seq![ptr] =~= pointers@);
            lemma_is_prefix_trans(old(pointers)@, pbefore, pointers@);
            assert forall|i: int|
                0 <= i < pointers@.len() - old(pointers)@.len() implies mark <= (#[trigger] pointers@.subrange(
                old(pointers)@.len() as int,
                pointers@.len() as int,
            )[i]).offset() && pointers@.subrange(
                old(pointers)@.len() as int,
                pointers@.len() as int,
            )[i].offset() + 4 <= mark + 4 + 4 * argc by {
                if i < pbefore.len() - old(pointers)@.len() {
                    assert(pointers@.subrange(old(pointers)@.len() as int, pointers@.len() as int)[i]
                        == pbefore.subrange(old(pointers)@.len() as int, pbefore.len() as int)[i]);
                }
            }
        }
        let s = read_string(c00_type, image, args[slot] as u64, is_unicode)?;
        let ghost sbefore = stringdata@;
        append_bytes(stringdata, s.as_slice());
        proof {
            lemma_is_prefix_append(sbefore, s@);
            lemma_is_prefix_trans(old(stringdata)@, sbefore, stringdata@);
            let sub = slots@.subrange(0, j + 1);
            assert(sub.drop_last() =~= slots@.subrange(0, j as int));
            assert(sub.last() == slots@[j as int]);
            assert(stringdata@.subrange(old(stringdata)@.len() as int, stringdata@.len() as int)
                =~= sbefore.subrange(old(stringdata)@.len() as int, sbefore.len() as int) + s@);
        }
        j = j + 1;
    }
    assert(slots@.subrange(0, k as int) =~= slots@);
    Ok(())
}

/// Queues a call into the patched region, makes its target relative to the
/// image, and writes its annotation and pointer record.
fn emit_call(
    queue: &mut Vec<(u32, u32)>,
    args: &mut Vec<u32>,
    slot: usize,
    target: u32,
    base: u32,
    scene: u32,
    bindata: &mut Vec<u8>,
    argann_size: &mut usize,
    pointers: &mut Vec<Pointer>,
)
    requires
        slot < old(args)@.len() <= 15,
        target == old(args)@[slot as int],
        target >= base,
        old(bindata)@.len() + 256 <= u32::MAX,
        *old(argann_size) <= old(bindata)@.len(),
        addresses_distinct(old(queue)@),
    ensures
        final(queue)@ == enqueued(old(queue)@, target, scene),
        is_prefix(old(queue)@, final(queue)@),
        addresses_distinct(final(queue)@),
        forall|i: int| old(queue)@.len() <= i < final(queue)@.len() ==> #[trigger] final(queue)@[i].0 >= base,
        final(args)@ == old(args)@.update(slot as int, (target - base) as u32),
        final(bindata)@ == old(bindata)@ + call_ann(slot as int),
        *final(argann_size) == *old(argann_size) + 12,
        final(pointers)@ == old(pointers)@.push(
            Pointer::Tickflow {
                offset: (old(bindata)@.len() + 12 + 4 * (slot + 1)) as u32,
                points_to: (target - base) as u32,
            },
        ),
{
    let ghost qb = queue@;
    enqueue(queue, target, scene);
    proof {
        if !has_address(qb, target) {
            assert(qb + seq![(target, scene)] =~= queue@);
            assert(queue@.subrange(0, qb.len() as int) =~= qb);
            assert forall|i: int, j: int|
                0 <= i < j < queue@.len() implies #[trigger] queue@[i].0 != #[trigger] queue@[j].0 by {
                if j == qb.len() {
                    assert(queue@[i] == qb[i]);
                }
            }
        } else {
            assert(queue@.subrange(0, qb.len() as int) =~= qb);
        }
    }
    args.set(slot, target - base);
    push_u32(bindata, 0xFFFFFFFF);
    push_u32(bindata, 1);
    let ann: u32 = (slot as u32) * 256;
    push_u32(bindata, ann);
    proof {
        lemma_le_len(0xFFFFFFFF);
        lemma_le_len(1);
        lemma_le_len(ann);
    }
    assert(bindata@ =~= old(bindata)@ + call_ann(slot as int));
    *argann_size = *argann_size + 12;
    let ptr = Pointer::Tickflow { offset: (bindata.len() + 4 * (slot + 1)) as u32, points_to: target - base };
    pointers.push(ptr);
}

/// Appends an instruction word and its arguments.
fn push_instruction(bindata: &mut Vec<u8>, w: u32, args: &Vec<u32>)
    ensures
        final(bindata)@ == old(bindata)@ + le(w) + words_le(args@),
        is_prefix(old(bindata)@, final(bindata)@),
        final(bindata)@.len() == old(bindata)@.len() + 4 + 4 * args@.len(),
{
    push_u32(bindata, w);
    push_words(bindata, args);
    proof {
        lemma_le_len(w);
        lemma_words_le_len(args@);
        assert(bindata@ =~= old(bindata)@ + (le(w) + words_le(args@)));
        lemma_is_prefix_append(old(bindata)@, le(w) + words_le(args@));
    }
}

/// The instruction at byte `p` lies within the image, extraction has an
/// outcome for it, and the pool stays within 32-bit offsets.
pub open spec fn instr_fits(img: Seq<u8>, p: int, scene: u32, base: u32, boff: int, soff: int) -> bool {
    0 <= p && p + 4 <= img.len() && instr_end(img, p) <= img.len() && match instr_piece(
        img,
        p,
        scene,
        base,
        boff,
        soff,
    ) {
        Some(pc) => soff + pc.pool.len() <= u32::MAX,
        None => false,
    }
}

proof fn lemma_plain_piece(img: Seq<u8>, p: int, scene: u32, base: u32, boff: int, soff: int) -> (pc: Piece)
    requires
        !(class_of(word_at(img, p), scene) is Call),
        !(class_of(word_at(img, p), scene) is Str),
    ensures
        instr_piece(img, p, scene, base, boff, soff) == Some(pc),
        pc == (Piece {
            code: le(word_at(img, p)) + words_le(instr_args(img, p)),
            pool: Seq::empty(),
            ptrs: Seq::empty(),
            calls: Seq::empty(),
            ann: 0,
        }),
{
    lemma_le_len(word_at(img, p));
    lemma_words_le_len(instr_args(img, p));
    Piece {
        code: le(word_at(img, p)) + words_le(instr_args(img, p)),
        pool: Seq::empty(),
        ptrs: Seq::empty(),
        calls: Seq::empty(),
        ann: 0,
    }
}

proof fn lemma_call_piece(img: Seq<u8>, p: int, scene: u32, base: u32, boff: int, soff: int) -> (pc: Piece)
    requires
        class_of(word_at(img, p), scene) is Call,
        first_applying(call_op_table(), word_at(img, p) & OPCODE_MASK, 0)->0.args.len() > 0,
        first_applying(call_op_table(), word_at(img, p) & OPCODE_MASK, 0)->0.args[0]
            < instr_args(img, p).len(),
    ensures
        instr_piece(img, p, scene, base, boff, soff) == Some(pc),
        ({
            let w = word_at(img, p);
            let args = instr_args(img, p);
            let slot = first_applying(call_op_table(), w & OPCODE_MASK, 0)->0.args[0] as int;
            let t = args[slot];
            if t >= base {
                pc == (Piece {
                    code: call_ann(slot) + le(w) + words_le(
                        args.update(slot, (t - base) as u32),
                    ),
                    pool: Seq::empty(),
                    ptrs: seq![
                        Pointer::Tickflow {
                            offset: (boff + 12 + 4 * (slot + 1)) as u32,
                            points_to: (t - base) as u32,
                        },
                    ],
                    calls: seq![(t, scene)],
                    ann: 12,
                })
            } else {
                pc == (Piece {
                    code: le(w) + words_le(args),
                    pool: Seq::empty(),
                    ptrs: Seq::empty(),
                    calls: Seq::empty(),
                    ann: 0,
                })
            }
        }),
{
    let w = word_at(img, p);
    let args = instr_args(img, p);
    let slot = first_applying(call_op_table(), w & OPCODE_MASK, 0)->0.args[0] as int;
    let t = args[slot];
    lemma_le_len(w);
    lemma_le_len(0xFFFFFFFF);
    lemma_le_len(1);
    lemma_le_len((slot * 256) as u32);
    lemma_words_le_len(args);
    lemma_words_le_len(args.update(slot, (t - base) as u32));
    instr_piece(img, p, scene, base, boff, soff)->0
}

proof fn lemma_string_piece(img: Seq<u8>, p: int, scene: u32, base: u32, boff: int, soff: int) -> (pc: Piece)
    requires
        class_of(word_at(img, p), scene) is Str,
        string_refs(
            img,
            base,
            first_applying(string_op_table(), word_at(img, p) & OPCODE_MASK, scene)->0.args,
            instr_args(img, p),
            first_applying(string_op_table(), word_at(img, p) & OPCODE_MASK, scene)->0.is_unicode,
        ) is Some,
    ensures
        instr_piece(img, p, scene, base, boff, soff) == Some(pc),
        ({
            let w = word_at(img, p);
            let args = instr_args(img, p);
            let d = first_applying(string_op_table(), w & OPCODE_MASK, scene)->0;
            let (a, pool) = string_refs(img, base, d.args, args, d.is_unicode)->0;
            pc == (Piece {
                code: a + le(w) + words_le(args),
                pool: pool,
                ptrs: string_ptrs(img, base, d.args, args, d.is_unicode, boff + 8 + 4 * d.args.len(), soff),
                calls: Seq::empty(),
                ann: a.len() as int,
            }) && a.len() == 8 + 4 * d.args.len() && d.args.len() <= 15
        }),
{
    let w = word_at(img, p);
    let args = instr_args(img, p);
    let d = first_applying(string_op_table(), w & OPCODE_MASK, scene)->0;
    lemma_le_len(w);
    lemma_le_len(0xFFFFFFFF);
    lemma_le_len(d.args.len() as u32);
    lemma_words_le_len(args);
    lemma_words_le_len(string_anns(d.args, d.is_unicode));
    instr_piece(img, p, scene, base, boff, soff)->0
}

proof fn lemma_queue_grew_trans(q0: Seq<(u32, u32)>, q1: Seq<(u32, u32)>, q2: Seq<(u32, u32)>, base: u32)
    requires
        queue_grew(q0, q1, base),
        queue_grew(q1, q2, base),
    ensures
        queue_grew(q0, q2, base),
{
    lemma_is_prefix_trans(q0, q1, q2);
    assert forall|i: int| q0.len() <= i < q2.len() implies #[trigger] q2[i].0 >= base by {
        if i < q1.len() {
            assert(q2.subrange(0, q1.len() as int)[i] == q2[i]);
        }
    }
}

/// Copies the instruction at byte `p` of the image: its annotation, if any,
/// its word and arguments (a call target made relative), its strings, its
/// pointer records and the call it queues.
#[verifier::rlimit(60)]
fn extract_instruction(
    c00_type: &C00Type,
    image: &[u8],
    queue: &mut Vec<(u32, u32)>,
    p: usize,
    scene: u32,
    bindata: &mut Vec<u8>,
    stringdata: &mut Vec<u8>,
    argann_size: &mut usize,
    pointers: &mut Vec<Pointer>,
) -> (r: Result<u32, C00Error>)
    requires
        old(bindata)@.len() + 256 <= u32::MAX,
        *old(argann_size) <= old(bindata)@.len(),
        addresses_distinct(old(queue)@),
    ensures
        instr_fits(
            image@,
            p as int,
            scene,
            c00_type.spec_base_offset(),
            old(bindata)@.len() as int,
            old(stringdata)@.len() as int,
        ) ==> r is Ok,
        queue_grew(old(queue)@, final(queue)@, c00_type.spec_base_offset()),
        r matches Ok(w) ==> {
            &&& p + 4 <= image@.len()
            &&& w == word_at(image@, p as int)
            &&& instr_end(image@, p as int) <= image@.len()
            &&& instr_piece(
                image@,
                p as int,
                scene,
                c00_type.spec_base_offset(),
                old(bindata)@.len() as int,
                old(stringdata)@.len() as int,
            ) matches Some(pc) && final(bindata)@ == old(bindata)@ + pc.code && final(stringdata)@
                == old(stringdata)@ + pc.pool && final(pointers)@ == old(pointers)@ + pc.ptrs
                && *final(argann_size) == *old(argann_size) + pc.ann && final(queue)@
                == enqueue_all(old(queue)@, pc.calls) && pc.code.len() == pc.ann + 4 + 4 * arg_count(w)
                && pc.ann >= 0 && pc.code.len() <= 132 && pointers_within(
                pc.ptrs,
                old(bindata)@.len() as int,
                old(bindata)@.len() + pc.code.len() as int,
            )
        },
{
    let base = c00_type.base_offset();
    let ghost img = image@;
    assert(queue@.subrange(0, queue@.len() as int) =~= queue@);
    let (w, mut args) = read_instruction(image, p)?;
    proof {
        lemma_arg_count_bound(w);
        assert(args@ =~= instr_args(img, p as int));
    }
    let ghost args0 = args@;
    let ghost b_in = bindata@;
    let ghost s_in = stringdata@;
    let ghost p_in = pointers@;
    let argc = args.len();
    let ghost mut pc = Piece {
        code: Seq::empty(),
        pool: Seq::empty(),
        ptrs: Seq::empty(),
        calls: Seq::empty(),
        ann: 0,
    };
    if is_scene_op(w) {
        proof {
            pc = lemma_plain_piece(img, p as int, scene, base, b_in.len() as int, s_in.len() as int);
            assert(enqueue_all(old(queue)@, pc.calls) == queue@);
        }
    } else if let Some(c) = is_call_op(w) {
        if c.args.len() == 0 || c.args[0] as usize >= argc {
            return Err(C00Error::MissingArgument);
        }
        let slot = c.args[0] as usize;
        let target = args[slot];
        proof {
            pc = lemma_call_piece(img, p as int, scene, base, b_in.len() as int, s_in.len() as int);
        }
        if target >= base {
            emit_call(queue, &mut args, slot, target, base, scene, bindata, argann_size, pointers);
            proof {
                assert(seq![(target, scene)].drop_last() =~= Seq::<(u32, u32)>::empty());
                assert(enqueue_all(old(queue)@, Seq::<(u32, u32)>::empty()) == old(queue)@);
                assert(pc.calls == seq![(target, scene)]);
                assert(enqueue_all(old(queue)@, pc.calls) == queue@);
                assert(pointers@ =~= p_in + pc.ptrs);
                lemma_le_len(0xFFFFFFFF);
                lemma_le_len(1);
                lemma_le_len((slot * 256) as u32);
                lemma_le_len(w);
                lemma_words_le_len(args@);
                assert(pc.code.len() == 12 + 4 + 4 * argc);
                assert(pointers_within(pc.ptrs, b_in.len() as int, b_in.len() + pc.code.len() as int));
            }
        } else {
            proof {
                assert(enqueue_all(old(queue)@, pc.calls) == queue@);
                assert(pointers@ =~= p_in + pc.ptrs);
            }
        }
    } else if let Some(c) = is_string_op(w, scene) {
        emit_string_refs(
            c00_type,
            image,
            &c.args,
            c.is_unicode,
            &args,
            bindata,
            stringdata,
            argann_size,
            pointers,
        )?;
        proof {
            pc = lemma_string_piece(img, p as int, scene, base, b_in.len() as int, s_in.len() as int);
            assert(bindata@ =~= b_in + bindata@.subrange(b_in.len() as int, bindata@.len() as int));
            assert(stringdata@ =~= s_in + stringdata@.subrange(s_in.len() as int, stringdata@.len() as int));
            assert(enqueue_all(old(queue)@, pc.calls) == queue@);
            assert(pointers@.subrange(p_in.len() as int, pointers@.len() as int) =~= pc.ptrs);
            lemma_le_len(w);
            lemma_words_le_len(args@);
            assert(pointers_within(pc.ptrs, b_in.len() as int, b_in.len() + pc.code.len() as int));
        }
    } else {
        proof {
            pc = lemma_plain_piece(img, p as int, scene, base, b_in.len() as int, s_in.len() as int);
            assert(enqueue_all(old(queue)@, pc.calls) == queue@);
        }
    }
    let ghost b_ann = bindata@;
    proof {
        if bindata@ == b_in {
            assert(bindata@ =~= b_in + Seq::<u8>::empty());
        }
        if stringdata@ == s_in {
            assert(stringdata@ =~= s_in + Seq::<u8>::empty());
        }
        if pointers@ == p_in {
            assert(pointers@ =~= p_in + Seq::<Pointer>::empty());
        }
    }
    push_instruction(bindata, w, &args);
    proof {
        assert(bindata@ =~= b_in + pc.code);
        lemma_le_len(w);
        lemma_words_le_len(args@);
        assert(instr_piece(img, p as int, scene, base, b_in.len() as int, s_in.len() as int) == Some(pc));
        assert(stringdata@ == s_in + pc.pool);
        assert(pointers@ == p_in + pc.ptrs);
        assert(*argann_size == *old(argann_size) + pc.ann);
        assert(queue@ == enqueue_all(old(queue)@, pc.calls));
        assert(pc.code.len() == pc.ann + 4 + 4 * arg_count(w));
        assert(pc.ann >= 0);
        assert(pc.code.len() <= 132);
        assert(pointers_within(pc.ptrs, b_in.len() as int, b_in.len() + pc.code.len() as int));
    }
    Ok(w)
}

/// The function at address `addr` has an extraction outcome, and its code
/// and pool stay within 32-bit offsets.
pub open spec fn function_fits(img: Seq<u8>, base: u32, addr: u32, scene: u32, boff: int, soff: int) -> bool {
    match scan_piece(img, addr - base, 0, scene, base, boff, soff) {
        Some(pc) => boff + pc.code.len() + 256 <= u32::MAX && soff + pc.pool.len() <= u32::MAX,
        None => false,
    }
}

proof fn lemma_scan_piece_first(
    img: Seq<u8>,
    p: int,
    depth: int,
    scene: u32,
    base: u32,
    boff: int,
    soff: int,
)
    requires
        scan_piece(img, p, depth, scene, base, boff, soff) is Some,
    ensures
        0 <= p,
        p + 4 <= img.len(),
        instr_end(img, p) <= img.len(),
        instr_piece(img, p, scene, base, boff, soff) matches Some(pc) && pc.code.len()
            <= scan_piece(img, p, depth, scene, base, boff, soff)->0.code.len() && pc.pool.len()
            <= scan_piece(img, p, depth, scene, base, boff, soff)->0.pool.len(),
{
}

/// Copies the function at worklist entry `pos` into `bindata`, scanning its
/// instructions until a return at nesting depth zero. Calls into the patched
/// region are queued (once per address) and annotated; string arguments are
/// copied into `stringdata` and annotated. Returns the fields to rewrite
/// once every function has its final offset. `argann_size` counts the
/// annotation bytes, which code offsets leave out.
pub fn extract_tickflow(
    c00_type: &C00Type,
    image: &[u8],
    queue: &mut Vec<(u32, u32)>,
    pos: usize,
    bindata: &mut Vec<u8>,
    stringdata: &mut Vec<u8>,
    argann_size: &mut usize,
) -> (r: Result<Vec<Pointer>, C00Error>)
    requires
        pos < old(queue)@.len(),
        old(queue)@[pos as int].0 >= c00_type.spec_base_offset(),
        addresses_distinct(old(queue)@),
        *old(argann_size) <= old(bindata)@.len(),
        old(bindata)@.len() <= u32::MAX,
    ensures
        function_fits(
            image@,
            c00_type.spec_base_offset(),
            old(queue)@[pos as int].0,
            old(queue)@[pos as int].1,
            old(bindata)@.len() as int,
            old(stringdata)@.len() as int,
        ) ==> r is Ok,
        ({
            let end = function_end(
                image@,
                old(queue)@[pos as int].0 - c00_type.spec_base_offset(),
                0,
                old(queue)@[pos as int].1,
            );
            &&& end is None ==> r is Err
            &&& r is Ok ==> end is Some
        }),
        queue_grew(old(queue)@, final(queue)@, c00_type.spec_base_offset()),
        r matches Ok(ps) ==> {
            &&& is_prefix(old(bindata)@, final(bindata)@)
            &&& old(bindata)@.len() + 4 <= final(bindata)@.len() <= u32::MAX
            &&& *old(argann_size) <= *final(argann_size)
            &&& *final(argann_size) - *old(argann_size) <= final(bindata)@.len() - old(
                bindata,
            )@.len() - 4
            &&& is_prefix(old(stringdata)@, final(stringdata)@)
            &&& pointers_within(ps@, old(bindata)@.len() as int, final(bindata)@.len() as int)
            &&& scan_piece(
                image@,
                old(queue)@[pos as int].0 - c00_type.spec_base_offset(),
                0,
                old(queue)@[pos as int].1,
                c00_type.spec_base_offset(),
                old(bindata)@.len() as int,
                old(stringdata)@.len() as int,
            ) matches Some(pc) && pc.code == final(bindata)@.subrange(
                old(bindata)@.len() as int,
                final(bindata)@.len() as int,
            ) && pc.pool == final(stringdata)@.subrange(
                old(stringdata)@.len() as int,
                final(stringdata)@.len() as int,
            ) && pc.ptrs == ps@ && pc.ann == *final(argann_size) - *old(argann_size)
                && final(queue)@ == enqueue_all(old(queue)@, pc.calls)
        },
{
    let base = c00_type.base_offset();
    let (address, entry_scene) = queue[pos];
    let ghost start = address - base;
    let ghost img = image@;
    let ghost b0 = bindata@.len() as int;
    let ghost s0 = stringdata@.len() as int;
    let ghost a0 = *argann_size as int;
    let mut scene = entry_scene;
    let mut p: usize = (address - base) as usize;
    let mut depth: usize = 0;
    let mut pointers: Vec<Pointer> = Vec::new();
    let mut count: usize = 0;
    let ghost mut calls: Seq<(u32, u32)> = Seq::empty();
    let ghost good = function_fits(img, base, address, entry_scene, b0, s0);
    proof {
        assert(queue@.subrange(0, queue@.len() as int) =~= queue@);
        assert(bindata@.subrange(0, bindata@.len() as int) =~= bindata@);
        assert(stringdata@.subrange(0, stringdata@.len() as int) =~= stringdata@);
        lemma_piece_join_empty(scan_piece(img, start, 0, entry_scene, base as u32, b0, s0));
        assert(bindata@.subrange(b0, b0) =~= Seq::<u8>::empty());
        assert(stringdata@.subrange(s0, s0) =~= Seq::<u8>::empty());
    }
    loop
        invariant_except_break
            function_end(img, start, 0, entry_scene) == function_end(
                img,
                p as int,
                depth as int,
                scene,
            ),
            scan_piece(img, start, 0, entry_scene, base, b0, s0) == piece_join(
                Piece {
                    code: bindata@.subrange(b0, bindata@.len() as int),
                    pool: stringdata@.subrange(s0, stringdata@.len() as int),
                    ptrs: pointers@,
                    calls: calls,
                    ann: *argann_size - a0,
                },
                scan_piece(
                    img,
                    p as int,
                    depth as int,
                    scene,
                    base,
                    bindata@.len() as int,
                    stringdata@.len() as int,
                ),
            ),
        invariant
            img == image@,
            pos < old(queue)@.len(),
            base == c00_type.spec_base_offset(),
            address == old(queue)@[pos as int].0,
            entry_scene == old(queue)@[pos as int].1,
            start == address - base,
            address >= base,
            start <= p,
            depth <= p - start,
            b0 == old(bindata)@.len(),
            s0 == old(stringdata)@.len(),
            a0 == *old(argann_size),
            good == function_fits(img, base, address, entry_scene, b0, s0),
            queue_grew(old(queue)@, queue@, base),
            queue@ == enqueue_all(old(queue)@, calls),
            is_prefix(old(bindata)@, bindata@),
            bindata@.len() <= u32::MAX,
            bindata@.len() >= b0 + 4 * count,
            a0 <= b0,
            a0 <= *argann_size,
            *argann_size - a0 <= bindata@.len() - b0 - 4 * count,
            is_prefix(old(stringdata)@, stringdata@),
            pointers_within(pointers@, b0, bindata@.len() as int),
        ensures
            function_end(img, start, 0, entry_scene) is Some,
            count >= 1,
            scan_piece(img, start, 0, entry_scene, base, b0, s0) == Some(
                Piece {
                    code: bindata@.subrange(b0, bindata@.len() as int),
                    pool: stringdata@.subrange(s0, stringdata@.len() as int),
                    ptrs: pointers@,
                    calls: calls,
                    ann: *argann_size - a0,
                },
            ),
        decreases img.len() - p,
    {
        proof {
            if good {
                let total = scan_piece(img, start, 0, entry_scene, base, b0, s0)->0;
                assert(scan_piece(img, p as int, depth as int, scene, base, bindata@.len() as int, stringdata@.len() as int) is Some);
                lemma_scan_piece_first(img, p as int, depth as int, scene, base, bindata@.len() as int, stringdata@.len() as int);
                assert(bindata@.len() <= b0 + total.code.len());
                assert(instr_fits(img, p as int, scene, base, bindata@.len() as int, stringdata@.len() as int));
            }
        }
        if bindata.len() > (u32::MAX - 256) as usize {
            return Err(C00Error::TooLarge);
        }
        let ghost b_iter = bindata@;
        let ghost s_iter = stringdata@;
        let ghost p_iter = pointers@;
        let ghost a_iter = *argann_size;
        let ghost q_iter = queue@;
        let ghost old_scene = scene;
        let w = match extract_instruction(
            c00_type,
            image,
            queue,
            p,
            scene,
            bindata,
            stringdata,
            argann_size,
            &mut pointers,
        ) {
            Ok(w) => w,
            Err(e) => {
                proof {
                    lemma_queue_grew_trans(old(queue)@, q_iter, queue@, base);
                }
                return Err(e);
            },
        };
        let ghost pc = instr_piece(img, p as int, old_scene, base, b_iter.len() as int, s_iter.len() as int)->0;
        proof {
            lemma_arg_count_bound(w);
            lemma_queue_grew_trans(old(queue)@, q_iter, queue@, base);
        }
        let n = image.len();
        let argc = ((w & 0x3C00) >> 10) as usize;
        assert(argc == arg_count(w));
        let next = p + 4 + 4 * argc;
        assert(next <= n);
        let mut done = false;
        if is_scene_op(w) {
            if argc > 0 {
                match read_u32(image, p + 4) {
                    Some(v) => {
                        scene = v;
                    },
                    None => {},
                }
            }
        } else if is_call_op(w).is_some() {
        } else if is_string_op(w, scene).is_some() {
        } else if is_depth_op(w).is_some() {
            depth = depth + 1;
        } else if is_undepth_op(w).is_some() {
            if depth > 0 {
                depth = depth - 1;
            }
        } else if is_return_op(w).is_some() {
            if depth == 0 {
                done = true;
            }
        }
        proof {
            let prev = Piece {
                code: b_iter.subrange(b0, b_iter.len() as int),
                pool: s_iter.subrange(s0, s_iter.len() as int),
                ptrs: p_iter,
                calls: calls,
                ann: a_iter - a0,
            };
            lemma_enqueue_all_append(old(queue)@, calls, pc.calls);
            calls = calls + pc.calls;
            assert(bindata@.subrange(b0, bindata@.len() as int) =~= prev.code + pc.code);
            assert(stringdata@.subrange(s0, stringdata@.len() as int) =~= prev.pool + pc.pool);
            lemma_is_prefix_append(b_iter, pc.code);
            lemma_is_prefix_trans(old(bindata)@, b_iter, bindata@);
            lemma_is_prefix_append(s_iter, pc.pool);
            lemma_is_prefix_trans(old(stringdata)@, s_iter, stringdata@);
            assert forall|i: int| 0 <= i < pointers@.len() implies b0 <= (
            #[trigger] pointers@[i]).offset() && pointers@[i].offset() + 4 <= bindata@.len() by {
                if i >= p_iter.len() {
                    assert(pointers@[i] == pc.ptrs[i - p_iter.len()]);
                } else {
                    assert(pointers@[i] == p_iter[i]);
                }
            }
            lemma_piece_join_assoc(
                prev,
                pc,
                scan_piece(img, next as int, depth as int, scene, base, bindata@.len() as int, stringdata@.len() as int),
            );
        }
        p = next;
        count = count + 1;
        if done {
            break;
        }
    }
    Ok(pointers)
}

proof fn lemma_enqueue_all_append(q: Seq<(u32, u32)>, a: Seq<(u32, u32)>, b: Seq<(u32, u32)>)
    ensures
        enqueue_all(q, a + b) == enqueue_all(enqueue_all(q, a), b),
    decreases b.len(),
{
    if b.len() == 0 {
        assert(a + b =~= a);
    } else {
        assert((a + b).drop_last() =~= a + b.drop_last());
        lemma_enqueue_all_append(q, a, b.drop_last());
    }
}

/// Table entries whose start address is at least this were patched in.
pub const PATCHED_MIN: u32 = 0x550000;

/// The scene register value that entry points start with.
pub const NO_SCENE: u32 = 0xFF;

/// The index of the first entry with `order[i] == target`.
fn position_of(order: &Vec<u32>, target: u32) -> (r: Option<usize>)
    ensures
        match r {
            Some(i) => i < order@.len() && order@[i as int] == target && forall|j: int|
                0 <= j < i ==> order@[j] != target,
            None => forall|j: int| 0 <= j < order@.len() ==> order@[j] != target,
        },
{
    let mut i: usize = 0;
    while i < order.len()
        invariant
            i <= order@.len(),
            forall|j: int| 0 <= j < i ==> order@[j] != target,
        decreases order@.len() - i,
    {
        if order[i] == target {
            return Some(i);
        }
        i = i + 1;
    }
    None
}

/// The first index at which `order` holds `target`.
pub open spec fn first_index(order: Seq<u32>, target: u32) -> Option<int> {
    if exists|i: int| 0 <= i < order.len() && order[i] == target {
        Some(
            choose|i: int|
                0 <= i < order.len() && order[i] == target && forall|j: int|
                    0 <= j < i ==> order[j] != target,
        )
    } else {
        None
    }
}

/// The value that relocation writes for a pointer: a string's pool offset
/// moved past the code, or the final offset of the called function (found
/// by its address in `order`, its offset at the same index of `positions`).
pub open spec fn relocated(
    ptr: Pointer,
    code_len: int,
    order: Seq<u32>,
    positions: Seq<u32>,
) -> Option<u32> {
    match ptr {
        Pointer::String { points_to, .. } => if points_to + code_len <= u32::MAX {
            Some((points_to + code_len) as u32)
        } else {
            None
        },
        Pointer::Tickflow { points_to, .. } => match first_index(order, points_to) {
            Some(i) => Some(positions[i]),
            None => None,
        },
    }
}

/// `data` after every pointer's field has been overwritten, in order, with
/// its relocated value.
pub open spec fn relocate_all(
    data: Seq<u8>,
    ptrs: Seq<Pointer>,
    code_len: int,
    order: Seq<u32>,
    positions: Seq<u32>,
) -> Option<Seq<u8>>
    decreases ptrs.len(),
{
    if ptrs.len() == 0 {
        Some(data)
    } else {
        match relocate_all(data, ptrs.drop_last(), code_len, order, positions) {
            None => None,
            Some(d) => {
                let off = ptrs.last().offset() as int;
                match relocated(ptrs.last(), code_len, order, positions) {
                    Some(v) => if off + 4 <= d.len() {
                        Some(d.subrange(0, off) + le(v) + d.subrange(off + 4, d.len() as int))
                    } else {
                        None
                    },
                    None => None,
                }
            },
        }
    }
}

proof fn lemma_relocate_all_none(
    data: Seq<u8>,
    ptrs: Seq<Pointer>,
    code_len: int,
    order: Seq<u32>,
    positions: Seq<u32>,
    j: int,
)
    requires
        0 <= j <= ptrs.len(),
        relocate_all(data, ptrs.subrange(0, j), code_len, order, positions) is None,
    ensures
        relocate_all(data, ptrs, code_len, order, positions) is None,
    decreases ptrs.len(),
{
    if j < ptrs.len() {
        assert(ptrs.drop_last().subrange(0, j) =~= ptrs.subrange(0, j));
        lemma_relocate_all_none(data, ptrs.drop_last(), code_len, order, positions, j);
    } else {
        assert(ptrs.subrange(0, j) =~= ptrs);
    }
}

/// Overwrites each pointer's field with its relocated value: the deferred
/// writes of extraction, applied once every function has its offset.
pub fn relocate(
    bindata: &mut Vec<u8>,
    pointers: &Vec<Pointer>,
    code_len: usize,
    order: &Vec<u32>,
    positions: &Vec<u32>,
) -> (r: Result<(), C00Error>)
    requires
        order@.len() == positions@.len(),
    ensures
        match relocate_all(old(bindata)@, pointers@, code_len as int, order@, positions@) {
            Some(d) => r is Ok && final(bindata)@ == d,
            None => r is Err,
        },
{
    let mut k: usize = 0;
    assert(pointers@.subrange(0, 0) =~= Seq::<Pointer>::empty());
    while k < pointers.len()
        invariant
            k <= pointers@.len(),
            order@.len() == positions@.len(),
            relocate_all(old(bindata)@, pointers@.subrange(0, k as int), code_len as int, order@, positions@)
                == Some(bindata@),
        decreases pointers@.len() - k,
    {
        proof {
            assert(pointers@.subrange(0, k + 1).drop_last() =~= pointers@.subrange(0, k as int));
        }
        let ptr = pointers[k];
        let value = match ptr {
            Pointer::String { points_to, .. } => {
                if code_len > u32::MAX as usize || points_to as usize > u32::MAX as usize - code_len {
                    proof {
                        lemma_relocate_all_none(old(bindata)@, pointers@, code_len as int, order@, positions@, k + 1);
                    }
                    return Err(C00Error::TooLarge);
                }
                points_to + code_len as u32
            },
            Pointer::Tickflow { points_to, .. } => {
                match position_of(order, points_to) {
                    Some(i) => {
                        proof {
                            let c = choose|c: int|
                                0 <= c < order@.len() && order@[c] == points_to && forall|j: int|
                                    0 <= j < c ==> order@[j] != points_to;
                            if c < i {
                                assert(order@[c] != points_to);
                            } else if i < c {
                                assert(order@[i as int] != points_to);
                            }
                        }
                        positions[i]
                    },
                    None => {
                        proof {
                            lemma_relocate_all_none(old(bindata)@, pointers@, code_len as int, order@, positions@, k + 1);
                        }
                        return Err(C00Error::UnresolvedCallTarget);
                    },
                }
            },
        };
        let off = match ptr {
            Pointer::String { offset, .. } => offset,
            Pointer::Tickflow { offset, .. } => offset,
        };
        if off as usize > bindata.len() || bindata.len() - (off as usize) < 4 {
            proof {
                lemma_relocate_all_none(old(bindata)@, pointers@, code_len as int, order@, positions@, k + 1);
            }
            return Err(C00Error::Truncated);
        }
        write_u32_at(bindata, off as usize, value);
        k = k + 1;
    }
    assert(pointers@.subrange(0, pointers@.len() as int) =~= pointers@);
    Ok(())
}

/// Two pointers at the same target are relocated to the same value: all
/// calls to one function meet at its single copy.
pub proof fn lemma_same_target_same_offset(
    a: Pointer,
    b: Pointer,
    code_len: int,
    order: Seq<u32>,
    positions: Seq<u32>,
)
    requires
        a is Tickflow,
        b is Tickflow,
        a->Tickflow_points_to == b->Tickflow_points_to,
    ensures
        relocated(a, code_len, order, positions) == relocated(b, code_len, order, positions),
{
}

/// The state of the worklist walk over one game's call graph.
pub struct Walk {
    pub queue: Seq<(u32, u32)>,
    pub pos: int,
    pub code: Seq<u8>,
    pub pool: Seq<u8>,
    pub ptrs: Seq<Pointer>,
    /// Each extracted function's address relative to the image.
    pub order: Seq<u32>,
    /// Each extracted function's code offset, annotations left out.
    pub positions: Seq<u32>,
    pub ann: int,
}

/// Extracts the function at the walk's position and queues what it calls.
pub open spec fn walk_step(img: Seq<u8>, base: u32, w: Walk) -> Option<Walk> {
    let (addr, scene) = w.queue[w.pos];
    if addr < base {
        None
    } else {
        match scan_piece(img, addr - base, 0, scene, base, w.code.len() as int, w.pool.len() as int) {
            None => None,
            Some(pc) => Some(
                Walk {
                    queue: enqueue_all(w.queue, pc.calls),
                    pos: w.pos + 1,
                    code: w.code + pc.code,
                    pool: w.pool + pc.pool,
                    ptrs: w.ptrs + pc.ptrs,
                    order: w.order.push((addr - base) as u32),
                    positions: w.positions.push((w.code.len() - w.ann) as u32),
                    ann: w.ann + pc.ann,
                },
            ),
        }
    }
}

/// Steps the walk until its worklist is exhausted, at most `fuel` times.
pub open spec fn walk(img: Seq<u8>, base: u32, w: Walk, fuel: nat) -> Option<Walk>
    decreases fuel,
{
    if w.pos < 0 || w.pos >= w.queue.len() {
        Some(w)
    } else if fuel == 0 {
        None
    } else {
        match walk_step(img, base, w) {
            None => None,
            Some(w2) => walk(img, base, w2, (fuel - 1) as nat),
        }
    }
}

/// More steps than a game whose code fits 32-bit offsets can take.
pub open spec fn walk_fuel() -> nat {
    0x40000000
}

/// The worklist that a game's walk starts from: its start, then its assets
/// entry when that is patched too.
pub open spec fn seed_queue(start: u32, assets: u32) -> Seq<(u32, u32)> {
    let q = seq![(start, NO_SCENE)];
    if assets >= PATCHED_MIN {
        enqueued(q, assets, NO_SCENE)
    } else {
        q
    }
}

pub open spec fn start_walk(start: u32, assets: u32) -> Walk {
    Walk {
        queue: seed_queue(start, assets),
        pos: 0,
        code: Seq::empty(),
        pool: Seq::empty(),
        ptrs: Seq::empty(),
        order: Seq::empty(),
        positions: Seq::empty(),
        ann: 0,
    }
}

proof fn lemma_enqueued_props(q: Seq<(u32, u32)>, a: u32, scene: u32)
    requires
        addresses_distinct(q),
    ensures
        addresses_distinct(enqueued(q, a, scene)),
        is_prefix(q, enqueued(q, a, scene)),
        has_address(enqueued(q, a, scene), a),
{
    let q1 = enqueued(q, a, scene);
    if has_address(q, a) {
        assert(q.subrange(0, q.len() as int) =~= q);
    } else {
        assert(q1.subrange(0, q.len() as int) =~= q);
        assert(q1[q.len() as int].0 == a);
        assert forall|i: int, j: int| 0 <= i < j < q1.len() implies #[trigger] q1[i].0 != #[trigger] q1[j].0 by {
            if j == q.len() {
                assert(q1[i] == q[i]);
            }
        }
    }
}

proof fn lemma_enqueue_all_props(q: Seq<(u32, u32)>, calls: Seq<(u32, u32)>)
    requires
        addresses_distinct(q),
    ensures
        addresses_distinct(enqueue_all(q, calls)),
        is_prefix(q, enqueue_all(q, calls)),
    decreases calls.len(),
{
    if calls.len() == 0 {
        assert(q.subrange(0, q.len() as int) =~= q);
    } else {
        lemma_enqueue_all_props(q, calls.drop_last());
        let q1 = enqueue_all(q, calls.drop_last());
        lemma_enqueued_props(q1, calls.last().0, calls.last().1);
        lemma_is_prefix_trans(q, q1, enqueue_all(q, calls));
    }
}

/// What holds of every state of a walk: its worklist has distinct
/// addresses, and each extracted function's relative address is that of
/// its worklist entry.
pub open spec fn walk_inv(w: Walk, base: u32) -> bool {
    &&& addresses_distinct(w.queue)
    &&& 0 <= w.pos <= w.queue.len()
    &&& w.order.len() == w.pos
    &&& forall|i: int|
        0 <= i < w.pos ==> #[trigger] w.queue[i].0 >= base && w.order[i] == (w.queue[i].0 - base) as u32
}

proof fn lemma_walk_inv(img: Seq<u8>, base: u32, w: Walk, fuel: nat)
    requires
        walk_inv(w, base),
    ensures
        walk(img, base, w, fuel) matches Some(w2) ==> walk_inv(w2, base),
    decreases fuel,
{
    if 0 <= w.pos < w.queue.len() && fuel > 0 {
        match walk_step(img, base, w) {
            None => {},
            Some(w2) => {
                let pc = scan_piece(
                    img,
                    w.queue[w.pos].0 - base,
                    0,
                    w.queue[w.pos].1,
                    base,
                    w.code.len() as int,
                    w.pool.len() as int,
                )->0;
                lemma_enqueue_all_props(w.queue, pc.calls);
                assert forall|i: int| 0 <= i < w2.pos implies #[trigger] w2.queue[i].0 >= base
                    && w2.order[i] == (w2.queue[i].0 - base) as u32 by {
                    assert(w2.queue.subrange(0, w.queue.len() as int)[i] == w2.queue[i]);
                }
                lemma_walk_inv(img, base, w2, (fuel - 1) as nat);
            },
        }
    }
}

/// However many call sites name an address, a game's walk extracts the
/// function there once: the functions it extracts have pairwise distinct
/// addresses.
pub proof fn lemma_walk_extracts_once(img: Seq<u8>, base: u32, start: u32, assets: u32)
    ensures
        walk(img, base, start_walk(start, assets), walk_fuel()) matches Some(w) ==> forall|i: int, j: int|
            0 <= i < j < w.order.len() ==> w.order[i] != w.order[j],
{
    let w0 = start_walk(start, assets);
    let q = seq![(start, NO_SCENE)];
    assert(addresses_distinct(q));
    if assets >= PATCHED_MIN {
        lemma_enqueued_props(q, assets, NO_SCENE);
    }
    lemma_walk_inv(img, base, w0, walk_fuel());
    match walk(img, base, w0, walk_fuel()) {
        Some(w) => {
            assert forall|i: int, j: int| 0 <= i < j < w.order.len() implies w.order[i] != w.order[j] by {
                assert(w.queue[i].0 != w.queue[j].0);
            }
        },
        None => {},
    }
}

/// A game after extraction: its assets offset, and its data (the relocated
/// code, the end-of-code marker and the string pool).
pub open spec fn game_data(img: Seq<u8>, base: u32, start: u32, assets: u32) -> Option<(u32, Seq<u8>)> {
    if start < base || (assets >= PATCHED_MIN && assets < base) {
        None
    } else {
        match walk(img, base, start_walk(start, assets), walk_fuel()) {
            None => None,
            Some(w) => match relocate_all(w.code, w.ptrs, w.code.len() - w.ann, w.order, w.positions) {
                None => None,
                Some(d) => {
                    let entry = if assets >= PATCHED_MIN {
                        match first_index(w.order, (assets - base) as u32) {
                            Some(i) => Some(w.positions[i]),
                            None => None,
                        }
                    } else {
                        Some(assets)
                    };
                    match entry {
                        Some(a) => Some((a, d + le(0xFFFFFFFE) + w.pool)),
                        None => None,
                    }
                },
            },
        }
    }
}

/// The game has an extraction outcome whose code and pool stay within
/// 32-bit offsets.
pub open spec fn game_fits(img: Seq<u8>, base: u32, start: u32, assets: u32) -> bool {
    game_data(img, base, start, assets) is Some && match walk(
        img,
        base,
        start_walk(start, assets),
        walk_fuel(),
    ) {
        Some(w) => w.code.len() + 256 <= u32::MAX && w.pool.len() <= u32::MAX,
        None => false,
    }
}

proof fn lemma_walk_mono(img: Seq<u8>, base: u32, w: Walk, fuel: nat)
    requires
        walk(img, base, w, fuel) is Some,
    ensures
        w.code.len() <= walk(img, base, w, fuel)->0.code.len(),
        w.pool.len() <= walk(img, base, w, fuel)->0.pool.len(),
    decreases fuel,
{
    if 0 <= w.pos < w.queue.len() && fuel > 0 {
        let w2 = walk_step(img, base, w)->0;
        lemma_walk_mono(img, base, w2, (fuel - 1) as nat);
    }
}

proof fn lemma_walk_step_fits(img: Seq<u8>, base: u32, start: u32, assets: u32, cur: Walk, fuel: nat)
    requires
        game_fits(img, base, start, assets),
        walk(img, base, start_walk(start, assets), walk_fuel()) == walk(img, base, cur, fuel),
        0 <= cur.pos < cur.queue.len(),
        fuel >= 1,
    ensures
        function_fits(
            img,
            base,
            cur.queue[cur.pos].0,
            cur.queue[cur.pos].1,
            cur.code.len() as int,
            cur.pool.len() as int,
        ),
{
    let w1 = walk_step(img, base, cur)->0;
    lemma_walk_mono(img, base, w1, (fuel - 1) as nat);
}

/// Extracts one game: every function reachable from its entry points,
/// copied once each in discovery order, with calls and strings rebased so
/// that the code starts at offset zero and the string pool follows it.
#[verifier::rlimit(60)]
pub fn extract_game(c00_type: &C00Type, image: &[u8], game: &TickompilerBinary) -> (r: Result<
    TickompilerBinary,
    C00Error,
>)
    ensures
        game_fits(image@, c00_type.spec_base_offset(), game.start, game.assets) ==> r is Ok,
        game.start < c00_type.spec_base_offset() ==> r == Err::<TickompilerBinary, C00Error>(
            C00Error::BelowBase,
        ),
        game.start >= c00_type.spec_base_offset() && function_end(
            image@,
            game.start - c00_type.spec_base_offset(),
            0,
            NO_SCENE,
        ) is None ==> r is Err,
        r matches Ok(t) ==> t.index == game.index && t.start == 0 && game_data(
            image@,
            c00_type.spec_base_offset(),
            game.start,
            game.assets,
        ) == Some((t.assets, t.data@)),
{
    let base = c00_type.base_offset();
    if game.start < base {
        return Err(C00Error::BelowBase);
    }
    let mut queue: Vec<(u32, u32)> = Vec::new();
    queue.push((game.start, NO_SCENE));
    if game.assets >= PATCHED_MIN {
        if game.assets < base {
            return Err(C00Error::BelowBase);
        }
        enqueue(&mut queue, game.assets, NO_SCENE);
    }
    let mut func_order: Vec<u32> = Vec::new();
    let mut func_positions: Vec<u32> = Vec::new();
    let mut bindata: Vec<u8> = Vec::new();
    let mut stringdata: Vec<u8> = Vec::new();
    let mut pointers: Vec<Pointer> = Vec::new();
    let mut argann_size: usize = 0;
    let mut pos: usize = 0;
    let ghost good = game_fits(image@, base, game.start, game.assets);
    proof {
        assert(queue@ =~= seed_queue(game.start, game.assets));
    }
    while pos < queue.len()
        invariant
            walk(image@, base, start_walk(game.start, game.assets), walk_fuel()) == walk(
                image@,
                base,
                Walk {
                    queue: queue@,
                    pos: pos as int,
                    code: bindata@,
                    pool: stringdata@,
                    ptrs: pointers@,
                    order: func_order@,
                    positions: func_positions@,
                    ann: argann_size as int,
                },
                (walk_fuel() - pos) as nat,
            ),
            queue@.len() >= 1,
            queue@[0] == (game.start, NO_SCENE),
            base == c00_type.spec_base_offset(),
            game.start >= base,
            addresses_distinct(queue@),
            forall|i: int| 0 <= i < queue@.len() ==> #[trigger] queue@[i].0 >= base,
            pos <= queue@.len(),
            func_order@.len() == pos,
            func_positions@.len() == pos,
            bindata@.len() <= u32::MAX,
            bindata@.len() >= 4 * pos,
            argann_size <= bindata@.len(),
            pointers_within(pointers@, 0, bindata@.len() as int),
            pos == 0 ==> bindata@.len() == 0,
            pos > 0 ==> function_end(image@, game.start - base, 0, NO_SCENE) is Some,
            good == game_fits(image@, base, game.start, game.assets),
        decreases u32::MAX + 4 - bindata@.len(),
    {
        let ghost o_head = func_order@;
        let ghost pos_head = func_positions@;
        let addr = queue[pos].0;
        func_order.push(addr - base);
        func_positions.push((bindata.len() - argann_size) as u32);
        let ghost b_before = bindata@;
        let ghost q_before = queue@;
        let ghost p_before = pointers@;
        let ghost s_before = stringdata@;
        let ghost a_before = argann_size;
        proof {
            if good {
                lemma_walk_step_fits(
                    image@,
                    base,
                    game.start,
                    game.assets,
                    Walk {
                        queue: q_before,
                        pos: pos as int,
                        code: b_before,
                        pool: stringdata@,
                        ptrs: p_before,
                        order: o_head,
                        positions: pos_head,
                        ann: argann_size as int,
                    },
                    (walk_fuel() - pos) as nat,
                );
            }
        }
        let ghost o_before = func_order@.drop_last();
        let ghost pos_before = func_positions@.drop_last();
        let found = extract_tickflow(
            c00_type,
            image,
            &mut queue,
            pos,
            &mut bindata,
            &mut stringdata,
            &mut argann_size,
        );
        let ps = match found {
            Ok(ps) => ps,
            Err(e) => {
                return Err(e);
            },
        };
        proof {
            assert(queue@[0] == q_before[0]) by {
                assert(queue@.subrange(0, q_before.len() as int)[0] == queue@[0]);
            }
            assert forall|i: int| 0 <= i < queue@.len() implies #[trigger] queue@[i].0 >= base by {
                if i < q_before.len() {
                    assert(queue@.subrange(0, q_before.len() as int)[i] == queue@[i]);
                }
            }
        }
        let mut k: usize = 0;
        assert(p_before + ps@.subrange(0, 0) =~= p_before);
        while k < ps.len()
            invariant
                k <= ps@.len(),
                pointers_within(ps@, b_before.len() as int, bindata@.len() as int),
                pointers_within(pointers@, 0, bindata@.len() as int),
                pointers@ == p_before + ps@.subrange(0, k as int),
            decreases ps@.len() - k,
        {
            pointers.push(ps[k]);
            assert(p_before + ps@.subrange(0, k + 1) =~= (p_before + ps@.subrange(0, k as int)).push(ps@[k as int]));
            k = k + 1;
        }
        proof {
            assert(ps@.subrange(0, ps@.len() as int) =~= ps@);
            let pc = scan_piece(image@, addr - base, 0, q_before[pos as int].1, base, b_before.len() as int, s_before.len() as int)->0;
            assert(bindata@ =~= b_before + pc.code);
            assert(stringdata@ =~= s_before + pc.pool);
            assert(func_order@ =~= o_before.push((addr - base) as u32));
            assert(func_positions@ =~= pos_before.push((b_before.len() - a_before) as u32));
            assert(pointers@ =~= p_before + pc.ptrs);
            assert(queue@ == enqueue_all(q_before, pc.calls));
            let cur = Walk {
                queue: q_before,
                pos: pos as int,
                code: b_before,
                pool: s_before,
                ptrs: p_before,
                order: o_before,
                positions: pos_before,
                ann: a_before as int,
            };
            assert(walk_step(image@, base, cur) == Some(Walk {
                queue: queue@,
                pos: pos + 1,
                code: bindata@,
                pool: stringdata@,
                ptrs: pointers@,
                order: func_order@,
                positions: func_positions@,
                ann: argann_size as int,
            }));
        }
        pos = pos + 1;
    }
    let bin_len = bindata.len() - argann_size;
    let ghost wend = Walk {
        queue: queue@,
        pos: pos as int,
        code: bindata@,
        pool: stringdata@,
        ptrs: pointers@,
        order: func_order@,
        positions: func_positions@,
        ann: argann_size as int,
    };
    assert(walk(image@, base, start_walk(game.start, game.assets), walk_fuel()) == Some(wend));
    relocate(&mut bindata, &pointers, bin_len, &func_order, &func_positions)?;
    let ghost relocated_code = bindata@;
    push_u32(&mut bindata, 0xFFFFFFFE);
    append_bytes(&mut bindata, stringdata.as_slice());
    let assets = if game.assets >= PATCHED_MIN {
        match position_of(&func_order, game.assets - base) {
            Some(i) => {
                proof {
                    let target = (game.assets - base) as u32;
                    let c = choose|c: int|
                        0 <= c < func_order@.len() && func_order@[c] == target && forall|j: int|
                            0 <= j < c ==> func_order@[j] != target;
                    if c < i {
                        assert(func_order@[c] != target);
                    } else if i < c {
                        assert(func_order@[i as int] != target);
                    }
                }
                func_positions[i]
            },
            None => {
                return Err(C00Error::UnresolvedCallTarget);
            },
        }
    } else {
        game.assets
    };
    proof {
        lemma_le_len(0xFFFFFFFE);
        assert(bindata@ =~= relocated_code + le(0xFFFFFFFE) + stringdata@);
    }
    Ok(TickompilerBinary { index: game.index, start: 0, assets, data: bindata })
}

/// Byte offset of the tempo table.
pub const TEMPO_TABLE: usize = 0x1558;

/// Byte offset of the endless game table.
pub const ENDLESS_TABLE: usize = 0x3358;

/// The image must reach this far to hold every table.
pub const TABLES_END: usize = 0x3580;

/// The patched entries of a game table of `n` entries of `stride` bytes at
/// `p0`, as (index, start, assets), in table order.
pub open spec fn patched_games(img: Seq<u8>, p0: int, stride: int, first: u32, n: nat) -> Seq<
    (u32, u32, u32),
>
    decreases n,
{
    if n == 0 {
        Seq::empty()
    } else {
        let prev = patched_games(img, p0, stride, first, (n - 1) as nat);
        let p = p0 + stride * (n - 1);
        let start = word_at(img, p + 4);
        if start >= PATCHED_MIN {
            prev.push(((first + n - 1) as u32, start, word_at(img, p + 8)))
        } else {
            prev
        }
    }
}

/// The patched entries of the tempo table, as (id1, id2, position).
pub open spec fn patched_tempos(img: Seq<u8>, n: nat) -> Seq<(u32, u32, u32)>
    decreases n,
{
    if n == 0 {
        Seq::empty()
    } else {
        let prev = patched_tempos(img, (n - 1) as nat);
        let p = TEMPO_TABLE + (n - 1) * 16;
        let pos = word_at(img, p + 12);
        if pos >= PATCHED_MIN {
            prev.push((word_at(img, p), word_at(img, p + 4), pos))
        } else {
            prev
        }
    }
}

pub open spec fn game_key(t: TickompilerBinary) -> (u32, u32, u32) {
    (t.index, t.start, t.assets)
}

/// Collects the patched entries of a game table.
fn scan_games(
    image: &[u8],
    p0: usize,
    stride: usize,
    first: u32,
    n: u32,
    games: &mut Vec<TickompilerBinary>,
)
    requires
        1 <= n,
        p0 + stride * (n - 1) + 12 <= image@.len(),
        first + n <= 0x200,
    ensures
        final(games)@.map_values(|t: TickompilerBinary| game_key(t)) == old(games)@.map_values(
            |t: TickompilerBinary| game_key(t),
        ) + patched_games(image@, p0 as int, stride as int, first, n as nat),
{
    let ghost g0 = old(games)@.map_values(|t: TickompilerBinary| game_key(t));
    let len = image.len();
    let mut i: u32 = 0;
    while i < n
        invariant
            len == image@.len(),
            i <= n,
            1 <= n,
            p0 + stride * (n - 1) + 12 <= image@.len(),
            first + n <= 0x200,
            games@.map_values(|t: TickompilerBinary| game_key(t)) == g0 + patched_games(
                image@,
                p0 as int,
                stride as int,
                first,
                i as nat,
            ),
        decreases n - i,
    {
        proof {
            assert(stride * i <= stride * (n - 1)) by (nonlinear_arith)
                requires
                    i < n,
            ;
        }
        let p = p0 + stride * (i as usize);
        let start = read_u32(image, p + 4).unwrap();
        let assets = read_u32(image, p + 8).unwrap();
        if start >= PATCHED_MIN {
            let ghost before = games@;
            let index = first + i;
            games.push(TickompilerBinary { index, start, assets, data: Vec::new() });
            assert(games@.map_values(|t: TickompilerBinary| game_key(t)) =~= before.map_values(
                |t: TickompilerBinary| game_key(t),
            ).push((index, start, assets)));
            assert(patched_games(image@, p0 as int, stride as int, first, (i + 1) as nat)
                == patched_games(image@, p0 as int, stride as int, first, i as nat).push(
                (index, start, assets),
            ));
            assert(games@.map_values(|t: TickompilerBinary| game_key(t)) =~= g0 + patched_games(
                image@,
                p0 as int,
                stride as int,
                first,
                (i + 1) as nat,
            ));
        } else {
            assert(patched_games(image@, p0 as int, stride as int, first, (i + 1) as nat)
                == patched_games(image@, p0 as int, stride as int, first, i as nat));
        }
        i = i + 1;
    }
}

/// Collects the patched entries of the tempo table.
fn scan_tempos(image: &[u8]) -> (r: Vec<TempoTable>)
    requires
        TEMPO_TABLE + 0x1E0 * 16 <= image@.len(),
    ensures
        r@.map_values(|t: TempoTable| (t.id1, t.id2, t.pos)) == patched_tempos(image@, 0x1E0),
{
    let mut out: Vec<TempoTable> = Vec::new();
    let mut i: usize = 0;
    while i < 0x1E0
        invariant
            i <= 0x1E0,
            TEMPO_TABLE + 0x1E0 * 16 <= image@.len(),
            out@.map_values(|t: TempoTable| (t.id1, t.id2, t.pos)) == patched_tempos(
                image@,
                i as nat,
            ),
        decreases 0x1E0 - i,
    {
        let p = TEMPO_TABLE + 16 * i;
        let id1 = read_u32(image, p).unwrap();
        let id2 = read_u32(image, p + 4).unwrap();
        let unk = read_u32(image, p + 8).unwrap();
        let pos = read_u32(image, p + 12).unwrap();
        if pos >= PATCHED_MIN {
            let ghost before = out@;
            out.push(TempoTable { id1, id2, unk, pos });
            assert(out@.map_values(|t: TempoTable| (t.id1, t.id2, t.pos)) =~= before.map_values(
                |t: TempoTable| (t.id1, t.id2, t.pos),
            ).push((id1, id2, pos)));
        }
        i = i + 1;
    }
    out
}

/// The curves of the patched tempo entries `table` (as id1, id2, position):
/// one per identifier other than 0xFFFFFFFF, both with the points stored at
/// the position.
pub open spec fn tempos_from(img: Seq<u8>, base: u32, table: Seq<(u32, u32, u32)>) -> Option<
    Seq<(u32, Seq<TempoVal>)>,
>
    decreases table.len(),
{
    if table.len() == 0 {
        Some(Seq::empty())
    } else {
        let (id1, id2, pos) = table.last();
        let vals = if pos < base {
            None
        } else {
            tempo_run(img, pos - base)
        };
        match (tempos_from(img, base, table.drop_last()), vals) {
            (Some(prev), Some(v)) => Some(
                prev + (if id1 != 0xFFFFFFFF {
                    seq![(id1, v)]
                } else {
                    Seq::empty()
                }) + (if id2 != 0xFFFFFFFF {
                    seq![(id2, v)]
                } else {
                    Seq::empty()
                }),
            ),
            _ => None,
        }
    }
}

pub open spec fn tempo_views(ts: Seq<Tempo>) -> Seq<(u32, Seq<TempoVal>)> {
    ts.map_values(|t: Tempo| (t.id, t.data@))
}

fn copy_vals(v: &Vec<TempoVal>) -> (r: Vec<TempoVal>)
    ensures
        r@ == v@,
{
    let mut out: Vec<TempoVal> = Vec::new();
    let mut i: usize = 0;
    while i < v.len()
        invariant
            i <= v@.len(),
            out@ == v@.subrange(0, i as int),
        decreases v@.len() - i,
    {
        out.push(v[i]);
        assert(out@ =~= v@.subrange(0, i + 1));
        i = i + 1;
    }
    assert(v@.subrange(0, v@.len() as int) =~= v@);
    out
}

/// The patched entries of the game table, then of the endless game table,
/// as (index, start, assets).
pub open spec fn patched_entries(img: Seq<u8>) -> Seq<(u32, u32, u32)> {
    patched_games(img, 0, 0x34, 0, 0x68) + patched_games(img, ENDLESS_TABLE as int, 0x24, 0x100, 0x10)
}

/// The image holds every table, each patched game has an extraction outcome
/// within 32-bit offsets, and each patched tempo can be read.
pub open spec fn image_fits(img: Seq<u8>, base: u32) -> bool {
    &&& img.len() >= TABLES_END
    &&& forall|i: int|
        0 <= i < patched_entries(img).len() ==> game_fits(
            img,
            base,
            (#[trigger] patched_entries(img)[i]).1,
            patched_entries(img)[i].2,
        )
    &&& tempos_from(img, base, patched_tempos(img, 0x1E0)) is Some
}

proof fn lemma_tempos_from_prefix(img: Seq<u8>, base: u32, t: Seq<(u32, u32, u32)>, j: int)
    requires
        0 <= j <= t.len(),
        tempos_from(img, base, t) is Some,
    ensures
        tempos_from(img, base, t.subrange(0, j)) is Some,
    decreases t.len(),
{
    if j < t.len() {
        assert(t.drop_last().subrange(0, j) =~= t.subrange(0, j));
        lemma_tempos_from_prefix(img, base, t.drop_last(), j);
    } else {
        assert(t.subrange(0, j) =~= t);
    }
}

impl C00Bin {
    pub fn base_offset(&self) -> (r: u32)
        ensures
            r == self.c00_type.spec_base_offset(),
    {
        self.c00_type.base_offset()
    }

    /// Extracts every patched game and tempo of an image. The game table
    /// (0x68 entries), the tempo table and the endless game table (0x10 entries) are
    /// read in that order; an entry counts as patched when its start (or,
    /// for a tempo, its data) lies at 0x550000 or above.
    pub fn from_file(image: &[u8], c00_type: C00Type) -> (r: Result<C00Bin, C00Error>)
        ensures
            image@.len() < TABLES_END ==> r == Err::<C00Bin, C00Error>(C00Error::Truncated),
            image_fits(image@, c00_type.spec_base_offset()) ==> r is Ok,
            r matches Ok(c) ==> {
                &&& c.c00_type == c00_type
                &&& c.tickflows@.map_values(|t: TickompilerBinary| t.index) == patched_entries(
                    image@,
                ).map_values(|g: (u32, u32, u32)| g.0)
                &&& forall|i: int| 0 <= i < c.tickflows@.len() ==> (#[trigger] c.tickflows@[i]).start == 0
                &&& forall|i: int|
                    0 <= i < c.tickflows@.len() ==> game_data(
                        image@,
                        c00_type.spec_base_offset(),
                        patched_entries(image@)[i].1,
                        patched_entries(image@)[i].2,
                    ) == Some((c.tickflows@[i].assets, #[trigger] c.tickflows@[i].data@))
                &&& tempos_from(image@, c00_type.spec_base_offset(), patched_tempos(image@, 0x1E0))
                    == Some(tempo_views(c.tempos@))
            },
    {
        if image.len() < TABLES_END {
            return Err(C00Error::Truncated);
        }
        let mut games: Vec<TickompilerBinary> = Vec::new();
        scan_games(image, 0, 0x34, 0, 0x68, &mut games);
        let table = scan_tempos(image);
        scan_games(image, ENDLESS_TABLE, 0x24, 0x100, 0x10, &mut games);
        let ghost keys = games@.map_values(|t: TickompilerBinary| game_key(t));
        let ghost good = image_fits(image@, c00_type.spec_base_offset());
        assert(keys =~= patched_games(image@, 0, 0x34, 0, 0x68) + patched_games(
            image@,
            ENDLESS_TABLE as int,
            0x24,
            0x100,
            0x10,
        ));
        assert(keys == patched_entries(image@));
        proof {
            if good {
                assert forall|j: int| 0 <= j < games@.len() implies game_fits(
                    image@,
                    c00_type.spec_base_offset(),
                    (#[trigger] games@[j]).start,
                    games@[j].assets,
                ) by {
                    assert(keys[j] == game_key(games@[j]));
                }
            }
        }
        let mut tickflows: Vec<TickompilerBinary> = Vec::new();
        let mut i: usize = 0;
        while i < games.len()
            invariant
                good == image_fits(image@, c00_type.spec_base_offset()),
                good ==> forall|j: int| 0 <= j < games@.len() ==> game_fits(
                    image@,
                    c00_type.spec_base_offset(),
                    (#[trigger] games@[j]).start,
                    games@[j].assets,
                ),
                i <= games@.len(),
                image@.len() >= TABLES_END,
                tickflows@.len() == i,
                forall|j: int|
                    0 <= j < i ==> (#[trigger] tickflows@[j]).index == games@[j].index
                        && tickflows@[j].start == 0 && game_data(
                        image@,
                        c00_type.spec_base_offset(),
                        games@[j].start,
                        games@[j].assets,
                    ) == Some((tickflows@[j].assets, tickflows@[j].data@)),
            decreases games@.len() - i,
        {
            let t = extract_game(&c00_type, image, &games[i])?;
            tickflows.push(t);
            i = i + 1;
        }
        let mut tempos: Vec<Tempo> = Vec::new();
        let mut k: usize = 0;
        let ghost tview = table@.map_values(|t: TempoTable| (t.id1, t.id2, t.pos));
        assert(tview.subrange(0, 0) =~= Seq::<(u32, u32, u32)>::empty());
        assert(tempo_views(tempos@) =~= Seq::empty());
        while k < table.len()
            invariant
                image@.len() >= TABLES_END,
                good == image_fits(image@, c00_type.spec_base_offset()),
                tview == patched_tempos(image@, 0x1E0),
                k <= table@.len(),
                tview == table@.map_values(|t: TempoTable| (t.id1, t.id2, t.pos)),
                tempos_from(image@, c00_type.spec_base_offset(), tview.subrange(0, k as int))
                    == Some(tempo_views(tempos@)),
            decreases table@.len() - k,
        {
            let entry = table[k];
            proof {
                assert(tview.subrange(0, k + 1).drop_last() =~= tview.subrange(0, k as int));
                assert(tview.subrange(0, k + 1).last() == (entry.id1, entry.id2, entry.pos));
            }
            proof {
                if good {
                    lemma_tempos_from_prefix(image@, c00_type.spec_base_offset(), tview, k + 1);
                }
            }
            let vals = read_tempo_vals(&c00_type, image, entry.pos)?;
            let ghost before = tempo_views(tempos@);
            if entry.id1 != 0xFFFFFFFF {
                let copy = copy_vals(&vals);
                tempos.push(Tempo { id: entry.id1, data: copy });
            }
            let ghost mid = tempo_views(tempos@);
            if entry.id2 != 0xFFFFFFFF {
                tempos.push(Tempo { id: entry.id2, data: vals });
            }
            proof {
                let first = if entry.id1 != 0xFFFFFFFF {
                    seq![(entry.id1, vals@)]
                } else {
                    Seq::empty()
                };
                let second = if entry.id2 != 0xFFFFFFFF {
                    seq![(entry.id2, vals@)]
                } else {
                    Seq::empty()
                };
                assert(mid =~= before + first);
                assert(tempo_views(tempos@) =~= before + first + second);
            }
            k = k + 1;
        }
        assert(tview.subrange(0, table@.len() as int) =~= tview);
        let ghost idx = (patched_games(image@, 0, 0x34, 0, 0x68) + patched_games(
            image@,
            ENDLESS_TABLE as int,
            0x24,
            0x100,
            0x10,
        )).map_values(|g: (u32, u32, u32)| g.0);
        assert(tickflows@.map_values(|t: TickompilerBinary| t.index) =~= idx) by {
            assert forall|j: int| 0 <= j < tickflows@.len() implies #[trigger] tickflows@[j].index
                == idx[j] by {
                assert(keys[j] == game_key(games@[j]));
            }
        }
        Ok(C00Bin { c00_type, base_patch: Patch, tickflows, tempos })
    }
}

/// A linked binary file: table index, start, assets, data, then zeros when
/// the length is not a multiple of four (eight minus the remainder).
pub open spec fn binary_file(t: TickompilerBinary) -> Seq<u8> {
    let body = le(t.index) + le(t.start) + le(t.assets) + t.data@;
    let r = body.len() % 4;
    body + Seq::new(
        (if r != 0 {
            8 - r
        } else {
            0
        }) as nat,
        |i: int| 0u8,
    )
}

impl TickompilerBinary {
    /// The bytes of this binary as a file.
    pub fn to_file(&self) -> (r: Vec<u8>)
        ensures
            r@ == binary_file(*self),
    {
        let mut out: Vec<u8> = Vec::new();
        push_u32(&mut out, self.index);
        push_u32(&mut out, self.start);
        push_u32(&mut out, self.assets);
        append_bytes(&mut out, self.data.as_slice());
        let ghost body = out@;
        proof {
            lemma_le_len(self.index);
            lemma_le_len(self.start);
            lemma_le_len(self.assets);
            assert(body =~= le(self.index) + le(self.start) + le(self.assets) + self.data@);
        }
        let r = out.len() % 4;
        let pad: usize = if r != 0 {
            8 - r
        } else {
            0
        };
        let mut k: usize = 0;
        while k < pad
            invariant
                k <= pad,
                out@ == body + Seq::new(k as nat, |i: int| 0u8),
            decreases pad - k,
        {
            out.push(0);
            assert(out@ =~= body + Seq::new((k + 1) as nat, |i: int| 0u8));
            k = k + 1;
        }
        out
    }
}

} // verus!
