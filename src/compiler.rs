//! The two-pass assembler: statements in, a linked binary out. Pass one
//! resolves each command and sizes it, which fixes every label's offset;
//! pass two emits instruction words, argument annotations and the string
//! pool that follows the code.

pub mod commands;

use crate::compiler::commands::{catalog, resolve_command, resolve_spec};
use crate::wire::{
    append_bytes, le, lemma_le_len, lemma_word_at_le, lemma_words_le_len, lemma_words_le_push,
    push_u32, push_words, word_at, words_le,
};
use vstd::prelude::*;

verus! {

/// An argument as written in source.
#[derive(Clone, Debug)]
pub enum Value {
    Integer(i32),
    /// The offset of the named label.
    Label(String),
    /// The offset of the string in the pool that follows the code.
    String { value: String, is_unicode: bool },
}

/// A command given by opcode or by mnemonic.
#[derive(Clone, Debug)]
pub enum CommandName {
    Raw(i32),
    Named(String),
}

/// A statement as the parser hands it over.
#[derive(Clone, Debug)]
pub enum Statement {
    Label(String),
    Command { cmd: CommandName, arg0: Option<u32>, args: Vec<Value> },
}

/// A statement after command resolution: a label, or an opcode with its
/// selector and full argument list. Opcode 0xFFFF is a raw array, of bytes
/// for selector 0 and of 32-bit integers for selector 1.
#[derive(Clone, Debug)]
pub enum Resolved {
    Label(String),
    Command { cmd: u16, arg0: u32, args: Vec<Value> },
}

/// A source file: its table index, entry offsets if given explicitly, and
/// its statements.
#[derive(Clone, Debug)]
pub struct Program {
    pub index: u32,
    pub start: Option<i32>,
    pub assets: Option<i32>,
    pub statements: Vec<Statement>,
}

/// The formats a program can be assembled to.
#[derive(Clone, Copy, Debug, PartialEq, Eq, Structural)]
pub enum CompiledFileType {
    Tickompiler,
    BTKS,
}

pub const RAW_ARRAY: u16 = 0xFFFF;

/// Zero bytes that round `n` up to a multiple of four.
pub open spec fn pad4(n: int) -> int {
    if n % 4 != 0 {
        4 - n % 4
    } else {
        0
    }
}

/// The bytes that a statement takes in the code; annotations take none.
pub open spec fn stmt_len(s: Resolved) -> int {
    match s {
        Resolved::Label(_) => 0,
        Resolved::Command { cmd, arg0, args } => if cmd != RAW_ARRAY {
            4 * (1 + args@.len() as int)
        } else if arg0 == 0 {
            args@.len() + pad4(args@.len() as int)
        } else {
            4 * args@.len() as int
        },
    }
}

/// The bytes that `ss` takes in the code.
pub open spec fn code_len(ss: Seq<Resolved>) -> int
    decreases ss.len(),
{
    if ss.len() == 0 {
        0
    } else {
        code_len(ss.drop_last()) + stmt_len(ss.last())
    }
}

pub open spec fn is_label(s: Resolved, name: Seq<char>) -> bool {
    s matches Resolved::Label(l) && l@ == name
}

/// The first statement that defines label `name`.
pub open spec fn first_label(ss: Seq<Resolved>, name: Seq<char>, k: int) -> bool {
    &&& 0 <= k < ss.len()
    &&& is_label(ss[k], name)
    &&& forall|j: int| 0 <= j < k ==> !is_label(#[trigger] ss[j], name)
}

/// The offset of label `name`: the length of everything before its first
/// definition.
pub open spec fn label_pos(ss: Seq<Resolved>, name: Seq<char>) -> Option<int> {
    if exists|k: int| first_label(ss, name, k) {
        let k = choose|k: int| first_label(ss, name, k);
        Some(code_len(ss.subrange(0, k)))
    } else {
        None
    }
}

pub proof fn lemma_code_len_prefix(ss: Seq<Resolved>, i: int)
    requires
        0 <= i <= ss.len(),
    ensures
        0 <= code_len(ss.subrange(0, i)) <= code_len(ss),
    decreases ss.len(),
{
    if i < ss.len() {
        assert(ss.drop_last().subrange(0, i) =~= ss.subrange(0, i));
        lemma_code_len_prefix(ss.drop_last(), i);
    } else {
        assert(ss.subrange(0, i) =~= ss);
        lemma_code_len_nonneg(ss);
    }
}

pub proof fn lemma_code_len_nonneg(ss: Seq<Resolved>)
    ensures
        code_len(ss) >= 0,
    decreases ss.len(),
{
    if ss.len() > 0 {
        lemma_code_len_nonneg(ss.drop_last());
    }
}

/// The code length of one statement.
fn statement_len(s: &Resolved) -> (r: usize)
    requires
        stmt_len(*s) <= i32::MAX,
    ensures
        r == stmt_len(*s),
{
    match s {
        Resolved::Label(_) => 0,
        Resolved::Command { cmd, arg0, args } => {
            if *cmd != RAW_ARRAY {
                4 * (1 + args.len())
            } else if *arg0 == 0 {
                args.len() + if args.len() % 4 != 0 {
                    4 - args.len() % 4
                } else {
                    0
                }
            } else {
                4 * args.len()
            }
        },
    }
}

/// The offset of label `name`: the summed code length of every statement
/// before its first definition.
pub fn get_pos_of_label(cmds: &Vec<Resolved>, name: &String) -> (r: Option<i32>)
    requires
        code_len(cmds@) <= i32::MAX,
    ensures
        match label_pos(cmds@, name@) {
            Some(p) => 0 <= p <= i32::MAX && r == Some(p as i32),
            None => r is None,
        },
{
    let mut cumulative: usize = 0;
    let mut i: usize = 0;
    while i < cmds.len()
        invariant
            i <= cmds@.len(),
            code_len(cmds@) <= i32::MAX,
            cumulative == code_len(cmds@.subrange(0, i as int)),
            forall|j: int| 0 <= j < i ==> !is_label(#[trigger] cmds@[j], name@),
        decreases cmds@.len() - i,
    {
        proof {
            lemma_code_len_prefix(cmds@, i + 1);
            assert(cmds@.subrange(0, i + 1).drop_last() =~= cmds@.subrange(0, i as int));
        }
        match &cmds[i] {
            Resolved::Label(l) => {
                if l.eq(name) {
                    proof {
                        assert(first_label(cmds@, name@, i as int));
                        let k = choose|k: int| first_label(cmds@, name@, k);
                        assert(k == i);
                        lemma_code_len_prefix(cmds@, i as int);
                    }
                    return Some(cumulative as i32);
                }
            },
            Resolved::Command { .. } => {},
        }
        let len = statement_len(&cmds[i]);
        cumulative = cumulative + len;
        i = i + 1;
    }
    proof {
        if exists|k: int| first_label(cmds@, name@, k) {
            let k = choose|k: int| first_label(cmds@, name@, k);
            assert(!is_label(cmds@[k], name@));
        }
    }
    None
}

/// The UTF-16 code units of one character.
pub open spec fn char_utf16(c: char) -> Seq<u16> {
    let v = c as u32;
    if v < 0x10000 {
        seq![v as u16]
    } else {
        let w = v - 0x10000;
        seq![(0xD800 + w / 0x400) as u16, (0xDC00 + w % 0x400) as u16]
    }
}

/// The UTF-16 code units of a string.
pub open spec fn utf16_of(cs: Seq<char>) -> Seq<u16>
    decreases cs.len(),
{
    if cs.len() == 0 {
        Seq::empty()
    } else {
        utf16_of(cs.drop_last()) + char_utf16(cs.last())
    }
}

/// Relies on str::encode_utf16: the UTF-16 code units of the string, in order.
#[verifier::external_body]
fn utf16_units(s: &str) -> (r: Vec<u16>)
    ensures
        r@ == utf16_of(s@),
{
    s.encode_utf16().collect()
}

pub open spec fn units_le(us: Seq<u16>) -> Seq<u8>
    decreases us.len(),
{
    if us.len() == 0 {
        Seq::empty()
    } else {
        units_le(us.drop_last()) + seq![(us.last() % 256) as u8, (us.last() / 256) as u8]
    }
}

pub open spec fn zeros(n: int) -> Seq<u8> {
    Seq::new(n as nat, |i: int| 0u8)
}

/// The bytes of a string before its terminator: UTF-16LE or UTF-8.
pub open spec fn string_body(value: Seq<char>, is_unicode: bool) -> Seq<u8> {
    if is_unicode {
        units_le(utf16_of(value))
    } else {
        vstd::utf8::encode_utf8(value)
    }
}

/// A string as stored in the pool: its body, a terminator of one unit, and
/// zeros up to a multiple of four bytes.
pub open spec fn pool_string(value: Seq<char>, is_unicode: bool) -> Seq<u8> {
    let b = string_body(value, is_unicode);
    if is_unicode {
        b + zeros(
            if b.len() % 4 == 2 {
                2
            } else {
                4
            },
        )
    } else {
        b + zeros(4 - b.len() % 4)
    }
}

proof fn lemma_units_le_len(us: Seq<u16>)
    ensures
        units_le(us).len() == 2 * us.len(),
    decreases us.len(),
{
    if us.len() > 0 {
        lemma_units_le_len(us.drop_last());
    }
}

/// Every string placed in the pool is a whole number of words, and its body
/// is followed by a NUL unit (two bytes for UTF-16, one otherwise).
pub proof fn lemma_pool_string(value: Seq<char>, is_unicode: bool)
    ensures
        ({
            let b = string_body(value, is_unicode);
            let s = pool_string(value, is_unicode);
            let w: int = if is_unicode {
                2
            } else {
                1
            };
            &&& s.len() % 4 == 0
            &&& s.subrange(0, b.len() as int) == b
            &&& s.len() >= b.len() + w
            &&& s.subrange(b.len() as int, b.len() + w) == zeros(w)
        }),
{
    let b = string_body(value, is_unicode);
    let s = pool_string(value, is_unicode);
    if is_unicode {
        lemma_units_le_len(utf16_of(value));
    }
    let w: int = if is_unicode {
        2
    } else {
        1
    };
    assert(s.subrange(0, b.len() as int) =~= b);
    assert(s.subrange(b.len() as int, b.len() + w) =~= zeros(w));
}

/// Encodes a string for the pool.
pub fn encode_string(value: &String, is_unicode: bool) -> (r: Vec<u8>)
    ensures
        r@ == pool_string(value@, is_unicode),
{
    let mut out: Vec<u8> = Vec::new();
    if is_unicode {
        let units = utf16_units(value.as_str());
        let mut i: usize = 0;
        while i < units.len()
            invariant
                i <= units@.len(),
                out@ == units_le(units@.subrange(0, i as int)),
            decreases units@.len() - i,
        {
            let u = units[i];
            out.push((u % 256) as u8);
            out.push((u / 256) as u8);
            proof {
                let s = units@.subrange(0, i + 1);
                assert(s.drop_last() =~= units@.subrange(0, i as int));
                assert(out@ =~= units_le(s));
            }
            i = i + 1;
        }
        assert(units@.subrange(0, units@.len() as int) =~= units@);
    } else {
        let bytes = value.as_str().as_bytes();
        append_bytes(&mut out, bytes);
        assert(out@ =~= string_body(value@, is_unicode));
    }
    let ghost body = out@;
    let pad: usize = if is_unicode {
        if out.len() % 4 == 2 {
            2
        } else {
            4
        }
    } else {
        4 - out.len() % 4
    };
    let mut k: usize = 0;
    while k < pad
        invariant
            k <= pad,
            out@ == body + zeros(k as int),
        decreases pad - k,
    {
        out.push(0);
        assert(out@ =~= body + zeros(k + 1));
        k = k + 1;
    }
    out
}

/// Why a program could not be assembled.
#[derive(Clone, Debug)]
pub enum CompileError {
    /// A named command failed to resolve.
    Resolve(commands::ResolveError),
    /// `bytes` and `int` take no selector.
    ArrayArg0,
    /// A raw array holds something other than integers.
    ArrayNotInteger,
    /// A command has more than 15 arguments.
    TooManyArguments,
    /// No label of this name is defined.
    UnresolvedLabel(String),
    /// The code or the string pool outgrew 32-bit signed offsets.
    TooLarge,
}

/// An instruction word: opcode in bits 0-9, argument count in bits 10-13,
/// selector from bit 14.
pub open spec fn command_word(cmd: u16, n: int, arg0: u32) -> u32 {
    ((cmd % 0x400) + n * 0x400 + (arg0 % 0x40000) * 0x4000) as u32
}

pub open spec fn string_tag(is_unicode: bool) -> int {
    if is_unicode {
        1
    } else {
        2
    }
}

/// The argument words, the annotation entries and the pool bytes for
/// `args`, with string offsets counted from `base`.
pub open spec fn args_emit(args: Seq<Value>, ss: Seq<Resolved>, base: int) -> Option<
    (Seq<u32>, Seq<u32>, Seq<u8>),
>
    decreases args.len(),
{
    if args.len() == 0 {
        Some((Seq::empty(), Seq::empty(), Seq::empty()))
    } else {
        match args_emit(args.drop_last(), ss, base) {
            None => None,
            Some((w, a, p)) => {
                let i = args.len() - 1;
                match args.last() {
                    Value::Integer(x) => Some((w.push(x as u32), a, p)),
                    Value::Label(l) => match label_pos(ss, l@) {
                        Some(pos) => Some((w.push(pos as u32), a.push((i * 256) as u32), p)),
                        None => None,
                    },
                    Value::String { value, is_unicode } => if base + p.len() <= i32::MAX {
                        Some(
                            (
                                w.push((base + p.len()) as u32),
                                a.push((i * 256 + string_tag(is_unicode)) as u32),
                                p + pool_string(value@, is_unicode),
                            ),
                        )
                    } else {
                        None
                    },
                }
            },
        }
    }
}

/// The values of a raw array, if all are integers.
pub open spec fn array_ints(args: Seq<Value>) -> Option<Seq<i32>>
    decreases args.len(),
{
    if args.len() == 0 {
        Some(Seq::empty())
    } else {
        match (array_ints(args.drop_last()), args.last()) {
            (Some(xs), Value::Integer(x)) => Some(xs.push(x)),
            _ => None,
        }
    }
}

/// A raw array: an annotation of kind 3 giving its byte length, then its
/// bytes padded to a word, or its integers.
pub open spec fn raw_array_bytes(arg0: u32, args: Seq<Value>) -> Option<Seq<u8>> {
    match array_ints(args) {
        None => None,
        Some(xs) => if arg0 == 0 {
            Some(
                le(0xFFFFFFFF) + le(1) + le((3 + xs.len() * 256) as u32) + xs.map_values(
                    |x: i32| x as u8,
                ) + zeros(pad4(xs.len() as int)),
            )
        } else if arg0 == 1 {
            Some(
                le(0xFFFFFFFF) + le(1) + le((3 + 4 * xs.len() * 256) as u32) + words_le(
                    xs.map_values(|x: i32| x as u32),
                ),
            )
        } else {
            None
        },
    }
}

/// The annotation record before an instruction with `a` as entries: none
/// where no argument needs one.
pub open spec fn annotation(a: Seq<u32>) -> Seq<u8> {
    if a.len() > 0 {
        le(0xFFFFFFFF) + le(a.len() as u32) + words_le(a)
    } else {
        Seq::empty()
    }
}

/// The code bytes and the pool bytes of one command, with string offsets
/// counted from `base`.
pub open spec fn command_bytes(
    cmd: u16,
    arg0: u32,
    args: Seq<Value>,
    ss: Seq<Resolved>,
    base: int,
) -> Option<(Seq<u8>, Seq<u8>)> {
    if args.len() > 15 {
        None
    } else if cmd == RAW_ARRAY {
        match raw_array_bytes(arg0, args) {
            Some(b) => Some((b, Seq::empty())),
            None => None,
        }
    } else {
        match args_emit(args, ss, base) {
            None => None,
            Some((w, a, p)) => Some(
                (annotation(a) + le(command_word(cmd, args.len() as int, arg0)) + words_le(w), p),
            ),
        }
    }
}

proof fn lemma_args_emit_none(args: Seq<Value>, ss: Seq<Resolved>, base: int, j: int)
    requires
        0 <= j <= args.len(),
        args_emit(args.subrange(0, j), ss, base) is None,
    ensures
        args_emit(args, ss, base) is None,
    decreases args.len(),
{
    if j < args.len() {
        assert(args.drop_last().subrange(0, j) =~= args.subrange(0, j));
        lemma_args_emit_none(args.drop_last(), ss, base, j);
    } else {
        assert(args.subrange(0, j) =~= args);
    }
}

proof fn lemma_array_ints_none(args: Seq<Value>, j: int)
    requires
        0 <= j <= args.len(),
        array_ints(args.subrange(0, j)) is None,
    ensures
        array_ints(args) is None,
    decreases args.len(),
{
    if j < args.len() {
        assert(args.drop_last().subrange(0, j) =~= args.subrange(0, j));
        lemma_array_ints_none(args.drop_last(), j);
    } else {
        assert(args.subrange(0, j) =~= args);
    }
}

/// Emits one command: its annotation record, word and arguments to `out`,
/// its strings to `pool`.
fn emit_command(
    cmd: u16,
    arg0: u32,
    args: &Vec<Value>,
    all: &Vec<Resolved>,
    code_size: usize,
    out: &mut Vec<u8>,
    pool: &mut Vec<u8>,
) -> (r: Result<(), CompileError>)
    requires
        code_len(all@) <= i32::MAX,
        code_size == code_len(all@),
    ensures
        match command_bytes(cmd, arg0, args@, all@, code_size + old(pool)@.len()) {
            Some((b, q)) => r is Ok && final(out)@ == old(out)@ + b && final(pool)@ == old(pool)@
                + q,
            None => r is Err,
        },
{
    if args.len() > 15 {
        return Err(CompileError::TooManyArguments);
    }
    if cmd == RAW_ARRAY {
        return emit_raw_array(arg0, args, out);
    }
    let ghost base = code_size + old(pool)@.len();
    let mut words: Vec<u32> = Vec::new();
    let mut anns: Vec<u32> = Vec::new();
    let mut i: usize = 0;
    assert(pool@.subrange(0, pool@.len() as int) =~= pool@);
    assert(args_emit(args@.subrange(0, 0), all@, base) == Some(
        (words@, anns@, pool@.subrange(old(pool)@.len() as int, pool@.len() as int)),
    ));
    while i < args.len()
        invariant
            i <= args@.len(),
            args@.len() <= 15,
            cmd != RAW_ARRAY,
            code_len(all@) <= i32::MAX,
            code_size == code_len(all@),
            base == code_size + old(pool)@.len(),
            *out == *old(out),
            args_emit(args@.subrange(0, i as int), all@, base) == Some(
                (words@, anns@, pool@.subrange(old(pool)@.len() as int, pool@.len() as int)),
            ),
            is_prefix_u8(old(pool)@, pool@),
        decreases args@.len() - i,
    {
        proof {
            assert(args@.subrange(0, i + 1).drop_last() =~= args@.subrange(0, i as int));
        }
        let ghost p_before = pool@;
        match &args[i] {
            Value::Integer(x) => {
                #[verifier::truncate]
                let w = *x as u32;
                words.push(w);
            },
            Value::Label(l) => {
                match get_pos_of_label(all, l) {
                    Some(pos) => {
                        words.push(pos as u32);
                        anns.push((i as u32) * 256);
                    },
                    None => {
                        proof {
                            lemma_args_emit_none(args@, all@, base, i + 1);
                        }
                        return Err(CompileError::UnresolvedLabel(l.clone()));
                    },
                }
            },
            Value::String { value, is_unicode } => {
                if pool.len() > i32::MAX as usize - code_size {
                    proof {
                        lemma_args_emit_none(args@, all@, base, i + 1);
                    }
                    return Err(CompileError::TooLarge);
                }
                words.push((code_size + pool.len()) as u32);
                anns.push((i as u32) * 256 + if *is_unicode { 1 } else { 2 });
                let bytes = encode_string(value, *is_unicode);
                append_bytes(pool, bytes.as_slice());
            },
        }
        proof {
            assert(pool@.subrange(old(pool)@.len() as int, pool@.len() as int) =~= p_before.subrange(
                old(pool)@.len() as int,
                p_before.len() as int,
            ) + pool@.subrange(p_before.len() as int, pool@.len() as int));
            assert(pool@.subrange(0, old(pool)@.len() as int) =~= old(pool)@);
        }
        i = i + 1;
    }
    assert(args@.subrange(0, args@.len() as int) =~= args@);
    let n = args.len() as u32;
    let w = (cmd % 0x400) as u32 + n * 0x400 + (arg0 % 0x40000) * 0x4000;
    if anns.len() > 0 {
        push_u32(out, 0xFFFFFFFF);
        push_u32(out, anns.len() as u32);
        push_words(out, &anns);
    }
    push_u32(out, w);
    push_words(out, &words);
    assert(out@ =~= old(out)@ + (annotation(anns@) + le(command_word(cmd, n as int, arg0))
        + words_le(words@)));
    Ok(())
}

pub open spec fn is_prefix_u8(a: Seq<u8>, b: Seq<u8>) -> bool {
    a.len() <= b.len() && b.subrange(0, a.len() as int) == a
}

/// Emits a raw array.
fn emit_raw_array(arg0: u32, args: &Vec<Value>, out: &mut Vec<u8>) -> (r: Result<(), CompileError>)
    requires
        args@.len() <= 15,
    ensures
        match raw_array_bytes(arg0, args@) {
            Some(b) => r is Ok && final(out)@ == old(out)@ + b,
            None => r is Err,
        },
{
    let mut xs: Vec<i32> = Vec::new();
    let mut i: usize = 0;
    while i < args.len()
        invariant
            i <= args@.len(),
            args@.len() <= 15,
            xs@.len() == i,
            array_ints(args@.subrange(0, i as int)) == Some(xs@),
            *out == *old(out),
        decreases args@.len() - i,
    {
        proof {
            assert(args@.subrange(0, i + 1).drop_last() =~= args@.subrange(0, i as int));
        }
        match &args[i] {
            Value::Integer(x) => xs.push(*x),
            _ => {
                proof {
                    lemma_array_ints_none(args@, i + 1);
                }
                return Err(CompileError::ArrayNotInteger);
            },
        }
        i = i + 1;
    }
    assert(args@.subrange(0, args@.len() as int) =~= args@);
    if arg0 > 1 {
        return Err(CompileError::ArrayArg0);
    }
    let n = xs.len() as u32;
    push_u32(out, 0xFFFFFFFF);
    push_u32(out, 1);
    if arg0 == 0 {
        push_u32(out, 3 + n * 256);
        let mut k: usize = 0;
        while k < xs.len()
            invariant
                k <= xs@.len(),
                xs@.len() == n,
                out@ == old(out)@ + le(0xFFFFFFFF) + le(1) + le((3 + n * 256) as u32)
                    + xs@.subrange(0, k as int).map_values(|x: i32| x as u8),
            decreases xs@.len() - k,
        {
            #[verifier::truncate]
            let b = xs[k] as u8;
            out.push(b);
            assert(xs@.subrange(0, k + 1).map_values(|x: i32| x as u8) =~= xs@.subrange(
                0,
                k as int,
            ).map_values(|x: i32| x as u8).push(b));
            k = k + 1;
        }
        assert(xs@.subrange(0, xs@.len() as int) =~= xs@);
        let ghost before = out@;
        let pad: usize = if xs.len() % 4 != 0 {
            4 - xs.len() % 4
        } else {
            0
        };
        let mut j: usize = 0;
        while j < pad
            invariant
                j <= pad,
                out@ == before + zeros(j as int),
            decreases pad - j,
        {
            out.push(0);
            assert(out@ =~= before + zeros(j + 1));
            j = j + 1;
        }
    } else {
        push_u32(out, 3 + 4 * n * 256);
        let mut k: usize = 0;
        while k < xs.len()
            invariant
                k <= xs@.len(),
                xs@.len() == n,
                out@ == old(out)@ + le(0xFFFFFFFF) + le(1) + le((3 + 4 * n * 256) as u32)
                    + words_le(xs@.subrange(0, k as int).map_values(|x: i32| x as u32)),
            decreases xs@.len() - k,
        {
            #[verifier::truncate]
            let w = xs[k] as u32;
            push_u32(out, w);
            proof {
                assert(xs@.subrange(0, k + 1).map_values(|x: i32| x as u32) =~= xs@.subrange(
                    0,
                    k as int,
                ).map_values(|x: i32| x as u32).push(w));
                lemma_words_le_push(xs@.subrange(0, k as int).map_values(|x: i32| x as u32), w);
            }
            k = k + 1;
        }
        assert(xs@.subrange(0, xs@.len() as int) =~= xs@);
    }
    Ok(())
}

/// The code bytes and the pool of the statements `ss`, with labels looked up
/// in `all` and string offsets counted from `code_size`.
pub open spec fn emit_all(ss: Seq<Resolved>, all: Seq<Resolved>, code_size: int) -> Option<
    (Seq<u8>, Seq<u8>),
>
    decreases ss.len(),
{
    if ss.len() == 0 {
        Some((Seq::empty(), Seq::empty()))
    } else {
        match emit_all(ss.drop_last(), all, code_size) {
            None => None,
            Some((c, p)) => match ss.last() {
                Resolved::Label(_) => Some((c, p)),
                Resolved::Command { cmd, arg0, args } => match command_bytes(
                    cmd,
                    arg0,
                    args@,
                    all,
                    code_size + p.len(),
                ) {
                    Some((b, q)) => Some((c + b, p + q)),
                    None => None,
                },
            },
        }
    }
}

/// An entry offset: the explicit one, else the offset of the label `name`.
pub open spec fn entry_offset(explicit: Option<i32>, ss: Seq<Resolved>, name: Seq<char>) -> Option<
    i32,
> {
    match explicit {
        Some(x) => Some(x),
        None => match label_pos(ss, name) {
            Some(p) => Some(p as i32),
            None => None,
        },
    }
}

/// The linked binary: table index, start and assets offsets, the code,
/// the end-of-code marker and the string pool.
pub open spec fn linked(index: u32, start: Option<i32>, assets: Option<i32>, ss: Seq<Resolved>) -> Option<
    Seq<u8>,
> {
    if code_len(ss) > i32::MAX {
        None
    } else {
        match (
            entry_offset(start, ss, "start"@),
            entry_offset(assets, ss, "assets"@),
            emit_all(ss, ss, code_len(ss)),
        ) {
            (Some(s), Some(a), Some((c, p))) => Some(
                le(index) + le(s as u32) + le(a as u32) + c + le(0xFFFFFFFE) + p,
            ),
            _ => None,
        }
    }
}

/// The summed code length of `ss`, if it fits a signed 32-bit offset.
fn checked_code_len(ss: &Vec<Resolved>) -> (r: Option<usize>)
    ensures
        match r {
            Some(n) => n == code_len(ss@) && n <= i32::MAX,
            None => code_len(ss@) > i32::MAX,
        },
{
    let mut total: usize = 0;
    let mut i: usize = 0;
    while i < ss.len()
        invariant
            i <= ss@.len(),
            total == code_len(ss@.subrange(0, i as int)),
            total <= i32::MAX,
        decreases ss@.len() - i,
    {
        proof {
            assert(ss@.subrange(0, i + 1).drop_last() =~= ss@.subrange(0, i as int));
            lemma_code_len_prefix(ss@, i + 1);
        }
        let big = match &ss[i] {
            Resolved::Label(_) => false,
            Resolved::Command { cmd, arg0, args } => if *cmd != RAW_ARRAY {
                args.len() > 0x1FFFFFFE
            } else if *arg0 == 0 {
                args.len() > 0x7FFFFFFC
            } else {
                args.len() > 0x1FFFFFFF
            },
        };
        if big {
            return None;
        }
        let len = statement_len(&ss[i]);
        if len > i32::MAX as usize - total {
            return None;
        }
        total = total + len;
        i = i + 1;
    }
    assert(ss@.subrange(0, ss@.len() as int) =~= ss@);
    Some(total)
}

/// Resolves an entry offset: the explicit one, else the label's.
fn entry(explicit: Option<i32>, ss: &Vec<Resolved>, name: &str) -> (r: Result<i32, CompileError>)
    requires
        code_len(ss@) <= i32::MAX,
    ensures
        match entry_offset(explicit, ss@, name@) {
            Some(x) => r == Ok::<i32, CompileError>(x),
            None => r is Err,
        },
{
    match explicit {
        Some(x) => Ok(x),
        None => {
            let owned = name.to_owned();
            match get_pos_of_label(ss, &owned) {
                Some(p) => Ok(p),
                None => Err(CompileError::UnresolvedLabel(owned)),
            }
        },
    }
}

/// Links resolved statements: header, code with annotations, end marker,
/// string pool.
pub fn link(index: u32, start: Option<i32>, assets: Option<i32>, resolved: &Vec<Resolved>) -> (r:
    Result<Vec<u8>, CompileError>)
    ensures
        match linked(index, start, assets, resolved@) {
            Some(b) => r matches Ok(v) && v@ == b,
            None => r is Err,
        },
{
    let total = match checked_code_len(resolved) {
        Some(n) => n,
        None => {
            return Err(CompileError::TooLarge);
        },
    };
    let s = entry(start, resolved, "start")?;
    let a = entry(assets, resolved, "assets")?;
    let mut out: Vec<u8> = Vec::new();
    push_u32(&mut out, index);
    #[verifier::truncate]
    let su = s as u32;
    #[verifier::truncate]
    let au = a as u32;
    push_u32(&mut out, su);
    push_u32(&mut out, au);
    let ghost header = out@;
    let mut pool: Vec<u8> = Vec::new();
    let mut i: usize = 0;
    assert(out@ =~= header + Seq::<u8>::empty());
    while i < resolved.len()
        invariant
            i <= resolved@.len(),
            total == code_len(resolved@),
            total <= i32::MAX,
            emit_all(resolved@.subrange(0, i as int), resolved@, total as int) matches Some((c, p))
                && out@ == header + c && pool@ == p,
        decreases resolved@.len() - i,
    {
        proof {
            assert(resolved@.subrange(0, i + 1).drop_last() =~= resolved@.subrange(0, i as int));
        }
        match &resolved[i] {
            Resolved::Label(_) => {},
            Resolved::Command { cmd, arg0, args } => {
                let ghost before = out@;
                let r = emit_command(*cmd, *arg0, args, resolved, total, &mut out, &mut pool);
                if r.is_err() {
                    proof {
                        lemma_emit_all_none(resolved@, resolved@, total as int, i + 1);
                    }
                    return Err(r.unwrap_err());
                }
                assert(out@ =~= header + (before.subrange(header.len() as int, before.len() as int)
                    + out@.subrange(before.len() as int, out@.len() as int)));
            },
        }
        i = i + 1;
    }
    assert(resolved@.subrange(0, resolved@.len() as int) =~= resolved@);
    push_u32(&mut out, 0xFFFFFFFE);
    append_bytes(&mut out, pool.as_slice());
    assert(out@ =~= linked(index, start, assets, resolved@)->0);
    Ok(out)
}

proof fn lemma_emit_all_none(ss: Seq<Resolved>, all: Seq<Resolved>, code_size: int, j: int)
    requires
        0 <= j <= ss.len(),
        emit_all(ss.subrange(0, j), all, code_size) is None,
    ensures
        emit_all(ss, all, code_size) is None,
    decreases ss.len(),
{
    if j < ss.len() {
        assert(ss.drop_last().subrange(0, j) =~= ss.subrange(0, j));
        lemma_emit_all_none(ss.drop_last(), all, code_size, j);
    } else {
        assert(ss.subrange(0, j) =~= ss);
    }
}

pub open spec fn arg0_or_zero(arg0: Option<u32>) -> u32 {
    match arg0 {
        Some(a) => a,
        None => 0,
    }
}

/// Whether `t` is what pass one makes of statement `s`.
pub open spec fn statement_resolves(s: Statement, t: Resolved) -> bool {
    match (s, t) {
        (Statement::Label(a), Resolved::Label(b)) => a == b,
        (Statement::Command { cmd, arg0, args }, Resolved::Command { cmd: c, arg0: a, args: v }) => {
            match cmd {
                CommandName::Raw(x) => c == x as u16 && a == arg0_or_zero(arg0) && v@ == args@,
                CommandName::Named(n) => if n@ == "bytes"@ {
                    arg0_or_zero(arg0) == 0 && c == RAW_ARRAY && a == 0 && v@ == args@
                } else if n@ == "int"@ {
                    arg0_or_zero(arg0) == 0 && c == RAW_ARRAY && a == 1 && v@ == args@
                } else {
                    resolve_spec(catalog(), n@, arg0, args@) == Ok::<(u16, u32, Seq<Value>), commands::Failure>((c, a, v@))
                },
            }
        },
        _ => false,
    }
}

/// Whether pass one rejects statement `s`.
pub open spec fn statement_fails(s: Statement) -> bool {
    match s {
        Statement::Command { cmd: CommandName::Named(n), arg0, args } => if n@ == "bytes"@ || n@
            == "int"@ {
            arg0_or_zero(arg0) != 0
        } else {
            resolve_spec(catalog(), n@, arg0, args@) is Err
        },
        _ => false,
    }
}

fn resolve_statement(s: Statement) -> (r: Result<Resolved, CompileError>)
    ensures
        statement_fails(s) ==> r is Err,
        !statement_fails(s) ==> (r matches Ok(t) && statement_resolves(s, t)),
{
    match s {
        Statement::Label(l) => Ok(Resolved::Label(l)),
        Statement::Command { cmd, arg0, args } => {
            let a0 = match arg0 {
                Some(a) => a,
                None => 0,
            };
            match cmd {
                CommandName::Raw(x) => {
                    #[verifier::truncate]
                    let c = x as u16;
                    Ok(Resolved::Command { cmd: c, arg0: a0, args })
                },
                CommandName::Named(n) => {
                    let bytes = "bytes".to_owned();
                    let ints = "int".to_owned();
                    if n.eq(&bytes) || n.eq(&ints) {
                        if a0 != 0 {
                            return Err(CompileError::ArrayArg0);
                        }
                        let kind: u32 = if n.eq(&bytes) { 0 } else { 1 };
                        Ok(Resolved::Command { cmd: RAW_ARRAY, arg0: kind, args })
                    } else {
                        match resolve_command(&n, arg0, args) {
                            Ok((c, a, v)) => Ok(Resolved::Command { cmd: c, arg0: a, args: v }),
                            Err(e) => Err(CompileError::Resolve(e)),
                        }
                    }
                },
            }
        },
    }
}

/// Pass one: resolves every command against the catalog.
pub fn resolve_statements(statements: Vec<Statement>) -> (r: Result<Vec<Resolved>, CompileError>)
    ensures
        (exists|i: int| 0 <= i < statements@.len() && statement_fails(#[trigger] statements@[i]))
            ==> r is Err,
        r matches Ok(rs) ==> rs@.len() == statements@.len() && forall|i: int|
            0 <= i < statements@.len() ==> statement_resolves(
                #[trigger] statements@[i],
                rs@[i],
            ),
        (forall|i: int| 0 <= i < statements@.len() ==> !statement_fails(#[trigger] statements@[i]))
            ==> r is Ok,
{
    let ghost given = statements@;
    let mut out: Vec<Resolved> = Vec::new();
    let mut i: usize = 0;
    let n = statements.len();
    let mut rest = statements;
    while i < n
        invariant
            n == given.len(),
            given == statements@,
            i <= n,
            rest@ == given.subrange(i as int, n as int),
            out@.len() == i,
            forall|j: int| 0 <= j < i ==> !statement_fails(#[trigger] given[j]),
            forall|j: int| 0 <= j < i ==> statement_resolves(#[trigger] given[j], out@[j]),
        decreases n - i,
    {
        let s = rest.remove(0);
        assert(s == given[i as int]);
        assert(rest@ =~= given.subrange(i + 1, n as int));
        match resolve_statement(s) {
            Ok(t) => {
                out.push(t);
            },
            Err(e) => {
                assert(statement_fails(statements@[i as int]));
                return Err(e);
            },
        }
        i = i + 1;
    }
    Ok(out)
}

/// Whether `rs` is what pass one makes of `stmts`.
pub open spec fn resolved_from(stmts: Seq<Statement>, rs: Seq<Resolved>) -> bool {
    rs.len() == stmts.len() && forall|i: int|
        0 <= i < stmts.len() ==> statement_resolves(#[trigger] stmts[i], rs[i])
}

/// Assembles a program into a linked binary: pass one resolves and sizes
/// every statement, pass two emits the header, the code with its argument
/// annotations, the end-of-code marker and the string pool.
pub fn to_btkm(cmds: Program) -> (r: Result<Vec<u8>, CompileError>)
    ensures
        (exists|i: int|
            0 <= i < cmds.statements@.len() && statement_fails(#[trigger] cmds.statements@[i]))
            ==> r is Err,
        (forall|i: int|
            0 <= i < cmds.statements@.len() ==> !statement_fails(#[trigger] cmds.statements@[i]))
            ==> exists|rs: Seq<Resolved>|
            resolved_from(cmds.statements@, rs) && match linked(
                cmds.index,
                cmds.start,
                cmds.assets,
                rs,
            ) {
                Some(b) => r matches Ok(v) && v@ == b,
                None => r is Err,
            },
{
    let Program { index, start, assets, statements } = cmds;
    let resolved = resolve_statements(statements)?;
    let r = link(index, start, assets, &resolved);
    assert(resolved_from(cmds.statements@, resolved@));
    r
}

/// The number of arguments that are label or string references.
pub open spec fn pointer_count(args: Seq<Value>) -> nat
    decreases args.len(),
{
    if args.len() == 0 {
        0
    } else {
        pointer_count(args.drop_last()) + if args.last() is Integer {
            0nat
        } else {
            1nat
        }
    }
}

proof fn lemma_args_emit_counts(args: Seq<Value>, ss: Seq<Resolved>, base: int)
    requires
        args_emit(args, ss, base) is Some,
    ensures
        (args_emit(args, ss, base)->0).0.len() == args.len(),
        (args_emit(args, ss, base)->0).1.len() == pointer_count(args),
    decreases args.len(),
{
    if args.len() > 0 {
        lemma_args_emit_counts(args.drop_last(), ss, base);
    }
}

/// An instruction with label or string arguments is preceded by exactly one
/// annotation record, whose count is the number of such arguments; one
/// without them starts with its instruction word.
pub proof fn lemma_annotation_precedes(
    cmd: u16,
    arg0: u32,
    args: Seq<Value>,
    ss: Seq<Resolved>,
    base: int,
)
    requires
        cmd != RAW_ARRAY,
        command_bytes(cmd, arg0, args, ss, base) is Some,
    ensures
        ({
            let b = (command_bytes(cmd, arg0, args, ss, base)->0).0;
            let k = pointer_count(args) as int;
            let w = le(command_word(cmd, args.len() as int, arg0));
            &&& k > 0 ==> b.subrange(0, 8) == le(0xFFFFFFFF) + le(k as u32) && b.subrange(
                8 + 4 * k,
                12 + 4 * k,
            ) == w
            &&& k == 0 ==> b.subrange(0, 4) == w
            &&& b.len() == (if k > 0 {
                8 + 4 * k
            } else {
                0
            }) + 4 + 4 * args.len()
        }),
{
    let (ws, a, p) = args_emit(args, ss, base)->0;
    lemma_args_emit_counts(args, ss, base);
    lemma_words_le_len(a);
    lemma_words_le_len(ws);
    lemma_le_len(0xFFFFFFFF);
    lemma_le_len(a.len() as u32);
    lemma_le_len(command_word(cmd, args.len() as int, arg0));
    let b = (command_bytes(cmd, arg0, args, ss, base)->0).0;
    let k = pointer_count(args) as int;
    let w = le(command_word(cmd, args.len() as int, arg0));
    if k > 0 {
        assert(b.subrange(0, 8) =~= le(0xFFFFFFFF) + le(k as u32));
        assert(b.subrange(8 + 4 * k, 12 + 4 * k) =~= w);
    } else {
        assert(b.subrange(0, 4) =~= w);
    }
}

proof fn lemma_emit_all_prefix(ss: Seq<Resolved>, all: Seq<Resolved>, cs: int, m: int)
    requires
        0 <= m <= ss.len(),
        emit_all(ss, all, cs) is Some,
    ensures
        emit_all(ss.subrange(0, m), all, cs) matches Some((c0, p0)) && is_prefix_u8(
            c0,
            (emit_all(ss, all, cs)->0).0,
        ) && is_prefix_u8(p0, (emit_all(ss, all, cs)->0).1),
    decreases ss.len(),
{
    if m < ss.len() {
        assert(ss.drop_last().subrange(0, m) =~= ss.subrange(0, m));
        lemma_emit_all_prefix(ss.drop_last(), all, cs, m);
        let (c1, p1) = emit_all(ss.drop_last(), all, cs)->0;
        let (c, p) = emit_all(ss, all, cs)->0;
        let (c0, p0) = emit_all(ss.subrange(0, m), all, cs)->0;
        assert(c.subrange(0, c1.len() as int) =~= c1);
        assert(p.subrange(0, p1.len() as int) =~= p1);
        assert(c.subrange(0, c0.len() as int) =~= c1.subrange(0, c0.len() as int));
        assert(p.subrange(0, p0.len() as int) =~= p1.subrange(0, p0.len() as int));
    } else {
        assert(ss.subrange(0, m) =~= ss);
        let (c, p) = emit_all(ss, all, cs)->0;
        assert(c.subrange(0, c.len() as int) =~= c);
        assert(p.subrange(0, p.len() as int) =~= p);
    }
}

/// The bytes that command `m` of `ss` contributes start at this offset of
/// the code.
pub open spec fn command_offset(ss: Seq<Resolved>, m: int) -> int {
    (emit_all(ss.subrange(0, m), ss, code_len(ss))->0).0.len() as int
}

proof fn lemma_linked_code(index: u32, start: Option<i32>, assets: Option<i32>, ss: Seq<Resolved>)
    requires
        linked(index, start, assets, ss) is Some,
    ensures
        emit_all(ss, ss, code_len(ss)) is Some,
        linked(index, start, assets, ss)->0.len() >= 12 + (emit_all(ss, ss, code_len(ss))->0).0.len(),
        linked(index, start, assets, ss)->0.subrange(
            12,
            12 + (emit_all(ss, ss, code_len(ss))->0).0.len() as int,
        ) == (emit_all(ss, ss, code_len(ss))->0).0,
{
    let c = (emit_all(ss, ss, code_len(ss))->0).0;
    let out = linked(index, start, assets, ss)->0;
    let ls = entry_offset(start, ss, "start"@)->0;
    let la = entry_offset(assets, ss, "assets"@)->0;
    lemma_le_len(index);
    lemma_le_len(ls as u32);
    lemma_le_len(la as u32);
    assert(out.subrange(12, 12 + c.len() as int) =~= c);
}

/// The bytes of command `m` stand in a linked binary after the header and
/// the bytes of the commands before it.
proof fn lemma_linked_command_bytes(
    index: u32,
    start: Option<i32>,
    assets: Option<i32>,
    ss: Seq<Resolved>,
    m: int,
)
    requires
        linked(index, start, assets, ss) is Some,
        0 <= m < ss.len(),
        ss[m] is Command,
    ensures
        ({
            let cs = code_len(ss);
            let p0 = (emit_all(ss.subrange(0, m), ss, cs)->0).1;
            let args = ss[m]->Command_args@;
            let cb = command_bytes(ss[m]->Command_cmd, ss[m]->Command_arg0, args, ss, cs + p0.len());
            let out = linked(index, start, assets, ss)->0;
            let at = 12 + command_offset(ss, m);
            &&& cb is Some
            &&& at + (cb->0).0.len() <= out.len()
            &&& out.subrange(at, at + (cb->0).0.len()) == (cb->0).0
        }),
{
    let cs = code_len(ss);
    lemma_linked_code(index, start, assets, ss);
    lemma_emit_all_prefix(ss, ss, cs, m);
    lemma_emit_all_prefix(ss, ss, cs, m + 1);
    let (c0, p0) = emit_all(ss.subrange(0, m), ss, cs)->0;
    let (c1, p1) = emit_all(ss.subrange(0, m + 1), ss, cs)->0;
    let c = (emit_all(ss, ss, cs)->0).0;
    let sub = ss.subrange(0, m + 1);
    assert(sub.drop_last() =~= ss.subrange(0, m));
    let args = ss[m]->Command_args@;
    let b = (command_bytes(ss[m]->Command_cmd, ss[m]->Command_arg0, args, ss, cs + p0.len())->0).0;
    assert(c1 == c0 + b);
    let out = linked(index, start, assets, ss)->0;
    let lo = c0.len() as int;
    assert(is_prefix_u8(c1, c));
    assert(c1.subrange(lo, lo + b.len()) =~= b);
    assert(c.subrange(lo, lo + b.len()) =~= c.subrange(0, c1.len() as int).subrange(lo, lo + b.len()));
    let code = out.subrange(12, 12 + c.len() as int);
    assert(out.subrange(12 + lo, 12 + lo + b.len()) =~= code.subrange(lo, lo + b.len()));
}

/// In a linked binary, the instruction of every command with label or
/// string arguments is preceded by exactly one annotation record, whose
/// count is the number of such arguments; a command without them starts
/// with its instruction word. The code starts after the 12-byte header.
pub proof fn lemma_linked_annotation(
    index: u32,
    start: Option<i32>,
    assets: Option<i32>,
    ss: Seq<Resolved>,
    m: int,
)
    requires
        linked(index, start, assets, ss) is Some,
        0 <= m < ss.len(),
        ss[m] matches Resolved::Command { cmd, .. } && cmd != RAW_ARRAY,
    ensures
        ({
            let out = linked(index, start, assets, ss)->0;
            let args = ss[m]->Command_args@;
            let w = le(command_word(ss[m]->Command_cmd, args.len() as int, ss[m]->Command_arg0));
            let at = 12 + command_offset(ss, m);
            let k = pointer_count(args) as int;
            &&& k > 0 ==> out.subrange(at, at + 8) == le(0xFFFFFFFF) + le(k as u32) && out.subrange(
                at + 8 + 4 * k,
                at + 12 + 4 * k,
            ) == w
            &&& k == 0 ==> out.subrange(at, at + 4) == w
        }),
{
    let cs = code_len(ss);
    lemma_linked_command_bytes(index, start, assets, ss, m);
    let p0 = (emit_all(ss.subrange(0, m), ss, cs)->0).1;
    let args = ss[m]->Command_args@;
    let cmd = ss[m]->Command_cmd;
    let arg0 = ss[m]->Command_arg0;
    let b = (command_bytes(cmd, arg0, args, ss, cs + p0.len())->0).0;
    lemma_annotation_precedes(cmd, arg0, args, ss, cs + p0.len());
    let out = linked(index, start, assets, ss)->0;
    let at: int = 12 + command_offset(ss, m);
    let k = pointer_count(args) as int;
    let sb = out.subrange(at, at + b.len());
    if k > 0 {
        assert(out.subrange(at, at + 8) =~= sb.subrange(0, 8));
        assert(out.subrange(at + 8 + 4 * k, at + 12 + 4 * k) =~= sb.subrange(8 + 4 * k, 12 + 4 * k));
    } else {
        assert(out.subrange(at, at + 4) =~= sb.subrange(0, 4));
    }
}

proof fn lemma_args_emit_prefix(args: Seq<Value>, ss: Seq<Resolved>, base: int, j: int)
    requires
        0 <= j <= args.len(),
        args_emit(args, ss, base) is Some,
    ensures
        args_emit(args.subrange(0, j), ss, base) matches Some((wj, aj, pj)) && wj == (args_emit(
            args,
            ss,
            base,
        )->0).0.subrange(0, j) && is_prefix_u8(pj, (args_emit(args, ss, base)->0).2),
    decreases args.len(),
{
    lemma_args_emit_counts(args, ss, base);
    if j < args.len() {
        assert(args.drop_last().subrange(0, j) =~= args.subrange(0, j));
        lemma_args_emit_prefix(args.drop_last(), ss, base, j);
        lemma_args_emit_counts(args.drop_last(), ss, base);
        let w1 = (args_emit(args.drop_last(), ss, base)->0).0;
        let w = (args_emit(args, ss, base)->0).0;
        assert(w.subrange(0, j) =~= w1.subrange(0, j));
        let p1 = (args_emit(args.drop_last(), ss, base)->0).2;
        let p = (args_emit(args, ss, base)->0).2;
        let pj = (args_emit(args.subrange(0, j), ss, base)->0).2;
        assert(p.subrange(0, p1.len() as int) =~= p1);
        assert(p.subrange(0, pj.len() as int) =~= p1.subrange(0, pj.len() as int));
    } else {
        assert(args.subrange(0, j) =~= args);
        let w = (args_emit(args, ss, base)->0).0;
        assert(w.subrange(0, j) =~= w);
        let p = (args_emit(args, ss, base)->0).2;
        assert(p.subrange(0, p.len() as int) =~= p);
    }
}

proof fn lemma_words_le_at(ws: Seq<u32>, i: int)
    requires
        0 <= i < ws.len(),
    ensures
        words_le(ws).len() == 4 * ws.len(),
        words_le(ws).subrange(4 * i, 4 * i + 4) == le(ws[i]),
    decreases ws.len(),
{
    lemma_words_le_len(ws);
    lemma_words_le_len(ws.drop_last());
    lemma_le_len(ws.last());
    if i < ws.len() - 1 {
        lemma_words_le_at(ws.drop_last(), i);
        assert(words_le(ws).subrange(4 * i, 4 * i + 4) =~= words_le(ws.drop_last()).subrange(
            4 * i,
            4 * i + 4,
        ));
    } else {
        assert(words_le(ws).subrange(4 * i, 4 * i + 4) =~= le(ws.last()));
    }
}

/// In a linked binary, the word written for a label argument is the summed
/// code length of every statement before the label's first definition;
/// it follows the command's annotation record and instruction word.
pub proof fn lemma_linked_label(
    index: u32,
    start: Option<i32>,
    assets: Option<i32>,
    ss: Seq<Resolved>,
    m: int,
    i: int,
    k: int,
)
    requires
        linked(index, start, assets, ss) is Some,
        0 <= m < ss.len(),
        ss[m] matches Resolved::Command { cmd, .. } && cmd != RAW_ARRAY,
        0 <= i < ss[m]->Command_args@.len(),
        ss[m]->Command_args@[i] matches Value::Label(l) && first_label(ss, l@, k),
    ensures
        ({
            let out = linked(index, start, assets, ss)->0;
            let n = pointer_count(ss[m]->Command_args@) as int;
            let at = 12 + command_offset(ss, m) + (if n > 0 {
                8 + 4 * n
            } else {
                0
            }) + 4 + 4 * i;
            out.subrange(at, at + 4) == le(code_len(ss.subrange(0, k)) as u32)
        }),
{
    let cs = code_len(ss);
    lemma_linked_command_bytes(index, start, assets, ss, m);
    let p0 = (emit_all(ss.subrange(0, m), ss, cs)->0).1;
    let args = ss[m]->Command_args@;
    let cmd = ss[m]->Command_cmd;
    let arg0 = ss[m]->Command_arg0;
    let base = cs + p0.len();
    let b = (command_bytes(cmd, arg0, args, ss, base)->0).0;
    lemma_annotation_precedes(cmd, arg0, args, ss, base);
    lemma_args_emit_counts(args, ss, base);
    let (w, a, p) = args_emit(args, ss, base)->0;
    lemma_args_emit_prefix(args, ss, base, i);
    lemma_args_emit_prefix(args, ss, base, i + 1);
    let sub = args.subrange(0, i + 1);
    assert(sub.drop_last() =~= args.subrange(0, i));
    assert(sub.last() == args[i]);
    lemma_label_argument(sub, ss, base, k);
    let wi = (args_emit(sub, ss, base)->0).0;
    assert(w[i] == wi[i]);
    lemma_words_le_at(w, i);
    lemma_le_len(command_word(cmd, args.len() as int, arg0));
    let n = pointer_count(args) as int;
    let annlen: int = if n > 0 {
        8 + 4 * n
    } else {
        0
    };
    lemma_le_len(0xFFFFFFFF);
    lemma_le_len(a.len() as u32);
    lemma_words_le_len(a);
    assert(annotation(a).len() == annlen);
    assert(b.subrange(annlen + 4 + 4 * i, annlen + 8 + 4 * i) =~= words_le(w).subrange(4 * i, 4 * i + 4));
    let out = linked(index, start, assets, ss)->0;
    let at0: int = 12 + command_offset(ss, m);
    let sb = out.subrange(at0, at0 + b.len());
    assert(out.subrange(at0 + annlen + 4 + 4 * i, at0 + annlen + 8 + 4 * i) =~= sb.subrange(
        annlen + 4 + 4 * i,
        annlen + 8 + 4 * i,
    ));
}

proof fn lemma_linked_pool(index: u32, start: Option<i32>, assets: Option<i32>, ss: Seq<Resolved>)
    requires
        linked(index, start, assets, ss) is Some,
    ensures
        ({
            let (c, p) = emit_all(ss, ss, code_len(ss))->0;
            let out = linked(index, start, assets, ss)->0;
            &&& out.len() == 16 + c.len() + p.len()
            &&& out.subrange(16 + c.len() as int, out.len() as int) == p
        }),
{
    let (c, p) = emit_all(ss, ss, code_len(ss))->0;
    let out = linked(index, start, assets, ss)->0;
    let ls = entry_offset(start, ss, "start"@)->0;
    let la = entry_offset(assets, ss, "assets"@)->0;
    lemma_le_len(index);
    lemma_le_len(ls as u32);
    lemma_le_len(la as u32);
    lemma_le_len(0xFFFFFFFE);
    assert(out.subrange(16 + c.len() as int, out.len() as int) =~= p);
}

/// The annotation record's length for `n` label or string arguments.
pub open spec fn annotation_len(n: int) -> int {
    if n > 0 {
        8 + 4 * n
    } else {
        0
    }
}

proof fn lemma_command_string(
    cmd: u16,
    arg0: u32,
    args: Seq<Value>,
    ss: Seq<Resolved>,
    base: int,
    i: int,
)
    requires
        cmd != RAW_ARRAY,
        command_bytes(cmd, arg0, args, ss, base) is Some,
        0 <= i < args.len(),
        args[i] is String,
    ensures
        ({
            let (b, q) = command_bytes(cmd, arg0, args, ss, base)->0;
            let e = pool_string(args[i]->String_value@, args[i]->String_is_unicode);
            let pi = (args_emit(args.subrange(0, i), ss, base)->0).2;
            let at = annotation_len(pointer_count(args) as int) + 4 + 4 * i;
            &&& base + pi.len() <= i32::MAX
            &&& at + 4 <= b.len()
            &&& b.subrange(at, at + 4) == le((base + pi.len()) as u32)
            &&& pi.len() + e.len() <= q.len()
            &&& q.subrange(pi.len() as int, pi.len() + e.len() as int) == e
        }),
{
    let b = (command_bytes(cmd, arg0, args, ss, base)->0).0;
    lemma_annotation_precedes(cmd, arg0, args, ss, base);
    lemma_args_emit_counts(args, ss, base);
    let (w, a, p) = args_emit(args, ss, base)->0;
    lemma_args_emit_prefix(args, ss, base, i);
    lemma_args_emit_prefix(args, ss, base, i + 1);
    let sub = args.subrange(0, i + 1);
    assert(sub.drop_last() =~= args.subrange(0, i));
    assert(sub.last() == args[i]);
    let pi = (args_emit(args.subrange(0, i), ss, base)->0).2;
    let pi1 = (args_emit(sub, ss, base)->0).2;
    let wi = (args_emit(sub, ss, base)->0).0;
    let e = pool_string(args[i]->String_value@, args[i]->String_is_unicode);
    assert(pi1 == pi + e);
    assert(w[i] == wi[i]);
    let pl = pi.len() as int;
    let el = e.len() as int;
    assert(p.subrange(0, pi1.len() as int) == pi1);
    assert(p.subrange(pl, pl + el) =~= pi1.subrange(pl, pi1.len() as int));
    lemma_words_le_at(w, i);
    lemma_le_len(command_word(cmd, args.len() as int, arg0));
    lemma_le_len(0xFFFFFFFF);
    lemma_le_len(a.len() as u32);
    lemma_words_le_len(a);
    let annlen = annotation_len(pointer_count(args) as int);
    assert(annotation(a).len() == annlen);
    assert(b.subrange(annlen + 4 + 4 * i, annlen + 8 + 4 * i) =~= words_le(w).subrange(4 * i, 4 * i + 4));
}

/// In a linked binary, the word written for a string argument is the code
/// length plus the offset of the string's entry in the pool that follows
/// the end-of-code marker; that entry is the string's body, its NUL unit and
/// zero padding to a multiple of four bytes, and entries follow one another
/// in emission order.
pub proof fn lemma_linked_string(
    index: u32,
    start: Option<i32>,
    assets: Option<i32>,
    ss: Seq<Resolved>,
    m: int,
    i: int,
)
    requires
        linked(index, start, assets, ss) is Some,
        0 <= m < ss.len(),
        ss[m] matches Resolved::Command { cmd, .. } && cmd != RAW_ARRAY,
        0 <= i < ss[m]->Command_args@.len(),
        ss[m]->Command_args@[i] is String,
    ensures
        ({
            let out = linked(index, start, assets, ss)->0;
            let v = ss[m]->Command_args@[i];
            let e = pool_string(v->String_value@, v->String_is_unicode);
            let at = 12 + command_offset(ss, m) + annotation_len(
                pointer_count(ss[m]->Command_args@) as int,
            ) + 4 + 4 * i;
            let pool_at = 16 + (emit_all(ss, ss, code_len(ss))->0).0.len();
            let off = word_at(out, at) - code_len(ss);
            &&& 0 <= off
            &&& pool_at + off + e.len() <= out.len()
            &&& out.subrange(pool_at + off, pool_at + off + e.len()) == e
        }),
{
    let cs = code_len(ss);
    lemma_linked_command_bytes(index, start, assets, ss, m);
    lemma_linked_pool(index, start, assets, ss);
    lemma_emit_all_prefix(ss, ss, cs, m);
    lemma_emit_all_prefix(ss, ss, cs, m + 1);
    let (c0, p0) = emit_all(ss.subrange(0, m), ss, cs)->0;
    let (c1, p1) = emit_all(ss.subrange(0, m + 1), ss, cs)->0;
    let (c, pool) = emit_all(ss, ss, cs)->0;
    let sub_ss = ss.subrange(0, m + 1);
    assert(sub_ss.drop_last() =~= ss.subrange(0, m));
    let args = ss[m]->Command_args@;
    let cmd = ss[m]->Command_cmd;
    let arg0 = ss[m]->Command_arg0;
    let base = cs + p0.len();
    let (b, q) = command_bytes(cmd, arg0, args, ss, base)->0;
    assert(p1 == p0 + q);
    lemma_command_string(cmd, arg0, args, ss, base, i);
    let pi = (args_emit(args.subrange(0, i), ss, base)->0).2;
    let e = pool_string(args[i]->String_value@, args[i]->String_is_unicode);
    let off: int = p0.len() as int + pi.len() as int;
    let el = e.len() as int;
    assert(pool.subrange(0, p1.len() as int) == p1);
    assert(pool.subrange(off, off + el) =~= p1.subrange(off, off + el));
    assert(p1.subrange(off, off + el) =~= q.subrange(pi.len() as int, pi.len() as int + el));
    let out = linked(index, start, assets, ss)->0;
    let pool_at: int = 16 + c.len() as int;
    assert(out.subrange(pool_at + off, pool_at + off + el) =~= out.subrange(pool_at, out.len() as int).subrange(
        off,
        off + el,
    ));
    let at0: int = 12 + command_offset(ss, m);
    let annlen = annotation_len(pointer_count(args) as int);
    let sb = out.subrange(at0, at0 + b.len());
    assert(out.subrange(at0 + annlen + 4 + 4 * i, at0 + annlen + 8 + 4 * i) =~= sb.subrange(
        annlen + 4 + 4 * i,
        annlen + 8 + 4 * i,
    ));
    lemma_word_at_le(out, at0 + annlen + 4 + 4 * i, (cs + off) as u32);
    lemma_code_len_nonneg(ss);
    assert(0 <= cs + off <= i32::MAX);
    assert(word_at(out, at0 + annlen + 4 + 4 * i) == cs + off);
    assert(pool_at + off + el <= out.len());
    assert(out.subrange(pool_at + off, pool_at + off + el) == e);
}

/// A label argument is emitted as the summed code length of every statement
/// before the label's first definition.
pub proof fn lemma_label_argument(args: Seq<Value>, ss: Seq<Resolved>, base: int, k: int)
    requires
        args.len() > 0,
        args.last() matches Value::Label(l) && first_label(ss, l@, k),
        args_emit(args.drop_last(), ss, base) is Some,
        code_len(ss) <= i32::MAX,
    ensures
        args_emit(args, ss, base) matches Some((w, a, p)) && w.last() == code_len(ss.subrange(0, k))
            as u32,
        0 <= code_len(ss.subrange(0, k)) <= i32::MAX,
{
    let name = args.last()->Label_0@;
    let j = choose|j: int| first_label(ss, name, j);
    if j < k {
        assert(!is_label(ss[j], name));
    } else if k < j {
        assert(!is_label(ss[k], name));
    }
    lemma_code_len_prefix(ss, k);
}

} // verus!
