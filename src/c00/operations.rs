//! The opcode classes that drive extraction: scene setters, calls, string
//! users, scope openers and closers, and returns.

use vstd::prelude::*;

verus! {

/// Clears the argument-count bits of an instruction word, keeping the opcode
/// and its sub-variant selector.
pub const OPCODE_MASK: u32 = 0xFFFFC3FF;

/// The opcode that sets the scene register (its selector is zero).
pub const SCENE_OP: u32 = 0x28;

/// An instruction class member: its masked command word and the argument
/// slots that matter to extraction.
#[derive(Debug)]
pub struct TickflowOp {
    /// Whether its string arguments are UTF-16.
    pub is_unicode: bool,
    /// Opcode in the low 10 bits, selector from bit 14 up.
    pub command: u32,
    /// Argument slots that hold a pointer.
    pub args: Vec<u8>,
    /// The scene in which alone this member applies, if any.
    pub scene: Option<u32>,
}

/// What a [`TickflowOp`] describes, for use in contracts.
pub struct OpDesc {
    pub is_unicode: bool,
    pub command: u32,
    pub args: Seq<u8>,
    pub scene: Option<u32>,
}

impl View for TickflowOp {
    type V = OpDesc;

    open spec fn view(&self) -> OpDesc {
        OpDesc {
            is_unicode: self.is_unicode,
            command: self.command,
            args: self.args@,
            scene: self.scene,
        }
    }
}

/// The command word of opcode `num` with selector `arg0`.
pub open spec fn command_word(num: u32, arg0: u32) -> u32 {
    (num + arg0 * 0x4000) as u32
}

pub open spec fn desc(num: u32, arg0: u32, args: Seq<u8>, scene: Option<u32>, is_unicode: bool) -> OpDesc {
    OpDesc { is_unicode, command: command_word(num, arg0), args, scene }
}

fn op(num: u32, arg0: u32, args: Vec<u8>, scene: Option<u32>, is_unicode: bool) -> (r: TickflowOp)
    requires
        num < 0x400,
        arg0 < 8,
    ensures
        r@ == desc(num, arg0, args@, scene, is_unicode),
{
    TickflowOp { is_unicode, command: num + arg0 * 0x4000, args, scene }
}

fn slots1(a: u8) -> (r: Vec<u8>)
    ensures
        r@ == seq![a],
{
    let mut r = Vec::new();
    r.push(a);
    assert(r@ =~= seq![a]);
    r
}

fn slots2(a: u8, b: u8) -> (r: Vec<u8>)
    ensures
        r@ == seq![a, b],
{
    let mut r = slots1(a);
    r.push(b);
    assert(r@ =~= seq![a, b]);
    r
}

fn slots3(a: u8, b: u8, c: u8) -> (r: Vec<u8>)
    ensures
        r@ == seq![a, b, c],
{
    let mut r = slots2(a, b);
    r.push(c);
    assert(r@ =~= seq![a, b, c]);
    r
}

/// Whether a table member applies to `command` in `scene`.
pub open spec fn applies(d: OpDesc, command: u32, scene: u32) -> bool {
    d.command == command && match d.scene {
        Some(s) => s == scene,
        None => true,
    }
}

/// The first member of `table` that applies to `command` in `scene`.
pub open spec fn first_applying(table: Seq<OpDesc>, command: u32, scene: u32) -> Option<OpDesc>
    decreases table.len(),
{
    if table.len() == 0 {
        None
    } else if applies(table[0], command, scene) {
        Some(table[0])
    } else {
        first_applying(table.subrange(1, table.len() as int), command, scene)
    }
}

pub open spec fn view_op(o: Option<TickflowOp>) -> Option<OpDesc> {
    match o {
        Some(t) => Some(t@),
        None => None,
    }
}

pub open spec fn views(v: Seq<TickflowOp>) -> Seq<OpDesc> {
    v.map_values(|t: TickflowOp| t@)
}

/// Looks `command` up in `table`, front to back.
fn find_op(table: Vec<TickflowOp>, command: u32, scene: u32) -> (r: Option<TickflowOp>)
    ensures
        view_op(r) == first_applying(views(table@), command, scene),
{
    let ghost whole = views(table@);
    let ghost n = table@.len();
    let mut rest = table;
    let mut i: usize = 0;
    assert(whole.subrange(0, n as int) =~= whole);
    while i < rest.len()
        invariant
            rest@.len() == n,
            i <= n,
            whole == views(rest@),
            whole == views(table@),
            first_applying(whole, command, scene) == first_applying(
                whole.subrange(i as int, n as int),
                command,
                scene,
            ),
        decreases n - i,
    {
        proof {
            let tail = whole.subrange(i as int, n as int);
            assert(tail[0] == rest@[i as int]@);
            assert(tail.subrange(1, tail.len() as int) =~= whole.subrange(i + 1, n as int));
        }
        let hit = rest[i].command == command && match rest[i].scene {
            Some(s) => s == scene,
            None => true,
        };
        if hit {
            let ghost d = rest@[i as int]@;
            assert(applies(d, command, scene));
            assert(whole.subrange(i as int, n as int)[0] == d);
            assert(first_applying(whole.subrange(i as int, n as int), command, scene) == Some(d));
            let found = rest.swap_remove(i);
            assert(found@ == d);
            return Some(found);
        }
        i = i + 1;
    }
    None
}

/// Instructions with string arguments; some apply only in one scene.
pub open spec fn string_op_table() -> Seq<OpDesc> {
    seq![
        desc(0x31, 0, seq![1u8], None, true),
        desc(0x35, 0, seq![1u8], None, true),
        desc(0x39, 0, seq![1u8], None, true),
        desc(0x3B, 0, seq![2u8], None, false),
        desc(0x3E, 0, seq![1u8], None, true),
        desc(0x5D, 0, seq![1u8], None, true),
        desc(0x5D, 2, seq![0u8], None, true),
        desc(0x61, 2, seq![0u8], None, true),
        desc(0x65, 1, seq![1u8], None, false),
        desc(0x66, 0, seq![1u8], None, false),
        desc(0x67, 1, seq![1u8], None, false),
        desc(0x68, 1, seq![1u8], None, false),
        desc(0x93, 0, seq![2u8, 3u8], None, false),
        desc(0x94, 0, seq![1u8, 2u8, 3u8], None, false),
        desc(0x95, 0, seq![1u8], None, false),
        desc(0xAF, 2, seq![2u8], None, false),
        desc(0xB0, 4, seq![1u8], None, false),
        desc(0xB0, 5, seq![1u8], None, false),
        desc(0xB0, 6, seq![1u8], None, false),
        desc(0xB5, 0, seq![0u8], None, false),
        desc(0x105, 0, seq![0u8], Some(0x1), false),
        desc(0x107, 0, seq![0u8], Some(0xC), false),
        desc(0x107, 1, seq![0u8], Some(0xC), false),
        desc(0x106, 0, seq![0u8], Some(0x18), false),
        desc(0x106, 0, seq![0u8], Some(0x2A), false),
        desc(0x10B, 0, seq![0u8], Some(0x2C), false),
        desc(0x107, 0, seq![0u8], Some(0x39), false),
        desc(0x107, 1, seq![0u8], Some(0x39), false),
        desc(0x108, 0, seq![0u8], Some(0x39), false),
        desc(0x109, 0, seq![0u8, 1u8], Some(0x39), false),
        desc(0x10A, 0, seq![0u8], Some(0x39), false),
    ]
}

/// Instructions with string arguments; some apply only in one scene.
pub fn string_ops() -> (r: Vec<TickflowOp>)
    ensures
        views(r@) == string_op_table(),
{
    let mut v: Vec<TickflowOp> = Vec::new();
    v.push(op(0x31, 0, slots1(1u8), None, true));
    v.push(op(0x35, 0, slots1(1u8), None, true));
    v.push(op(0x39, 0, slots1(1u8), None, true));
    v.push(op(0x3B, 0, slots1(2u8), None, false));
    v.push(op(0x3E, 0, slots1(1u8), None, true));
    v.push(op(0x5D, 0, slots1(1u8), None, true));
    v.push(op(0x5D, 2, slots1(0u8), None, true));
    v.push(op(0x61, 2, slots1(0u8), None, true));
    v.push(op(0x65, 1, slots1(1u8), None, false));
    v.push(op(0x66, 0, slots1(1u8), None, false));
    v.push(op(0x67, 1, slots1(1u8), None, false));
    v.push(op(0x68, 1, slots1(1u8), None, false));
    v.push(op(0x93, 0, slots2(2u8, 3u8), None, false));
    v.push(op(0x94, 0, slots3(1u8, 2u8, 3u8), None, false));
    v.push(op(0x95, 0, slots1(1u8), None, false));
    v.push(op(0xAF, 2, slots1(2u8), None, false));
    v.push(op(0xB0, 4, slots1(1u8), None, false));
    v.push(op(0xB0, 5, slots1(1u8), None, false));
    v.push(op(0xB0, 6, slots1(1u8), None, false));
    v.push(op(0xB5, 0, slots1(0u8), None, false));
    v.push(op(0x105, 0, slots1(0u8), Some(0x1), false));
    v.push(op(0x107, 0, slots1(0u8), Some(0xC), false));
    v.push(op(0x107, 1, slots1(0u8), Some(0xC), false));
    v.push(op(0x106, 0, slots1(0u8), Some(0x18), false));
    v.push(op(0x106, 0, slots1(0u8), Some(0x2A), false));
    v.push(op(0x10B, 0, slots1(0u8), Some(0x2C), false));
    v.push(op(0x107, 0, slots1(0u8), Some(0x39), false));
    v.push(op(0x107, 1, slots1(0u8), Some(0x39), false));
    v.push(op(0x108, 0, slots1(0u8), Some(0x39), false));
    v.push(op(0x109, 0, slots2(0u8, 1u8), Some(0x39), false));
    v.push(op(0x10A, 0, slots1(0u8), Some(0x39), false));
    assert(views(v@) =~= string_op_table());
    v
}

/// Instructions that call or start tickflow at an address argument.
pub open spec fn call_op_table() -> Seq<OpDesc> {
    seq![
        desc(0x1, 1, seq![1u8], None, false),
        desc(0x2, 0, seq![0u8], None, false),
        desc(0x3, 2, seq![0u8], None, false),
        desc(0x6, 0, seq![0u8], None, false),
    ]
}

/// Instructions that call or start tickflow at an address argument.
pub fn call_ops() -> (r: Vec<TickflowOp>)
    ensures
        views(r@) == call_op_table(),
{
    let mut v: Vec<TickflowOp> = Vec::new();
    v.push(op(0x1, 1, slots1(1u8), None, false));
    v.push(op(0x2, 0, slots1(0u8), None, false));
    v.push(op(0x3, 2, slots1(0u8), None, false));
    v.push(op(0x6, 0, slots1(0u8), None, false));
    assert(views(v@) =~= call_op_table());
    v
}

/// Instructions that open a nested scope (conditions and switches).
pub open spec fn depth_op_table() -> Seq<OpDesc> {
    seq![
        desc(0x16, 0, Seq::empty(), None, false),
        desc(0x16, 1, Seq::empty(), None, false),
        desc(0x16, 2, Seq::empty(), None, false),
        desc(0x16, 3, Seq::empty(), None, false),
        desc(0x16, 4, Seq::empty(), None, false),
        desc(0x16, 5, Seq::empty(), None, false),
        desc(0x19, 0, Seq::empty(), None, false),
    ]
}

/// Instructions that open a nested scope (conditions and switches).
pub fn depth_ops() -> (r: Vec<TickflowOp>)
    ensures
        views(r@) == depth_op_table(),
{
    let mut v: Vec<TickflowOp> = Vec::new();
    v.push(op(0x16, 0, Vec::new(), None, false));
    v.push(op(0x16, 1, Vec::new(), None, false));
    v.push(op(0x16, 2, Vec::new(), None, false));
    v.push(op(0x16, 3, Vec::new(), None, false));
    v.push(op(0x16, 4, Vec::new(), None, false));
    v.push(op(0x16, 5, Vec::new(), None, false));
    v.push(op(0x19, 0, Vec::new(), None, false));
    assert(views(v@) =~= depth_op_table());
    v
}

/// Instructions that close a nested scope.
pub open spec fn undepth_op_table() -> Seq<OpDesc> {
    seq![
        desc(0x18, 0, Seq::empty(), None, false),
        desc(0x1D, 0, Seq::empty(), None, false),
    ]
}

/// Instructions that close a nested scope.
pub fn undepth_ops() -> (r: Vec<TickflowOp>)
    ensures
        views(r@) == undepth_op_table(),
{
    let mut v: Vec<TickflowOp> = Vec::new();
    v.push(op(0x18, 0, Vec::new(), None, false));
    v.push(op(0x1D, 0, Vec::new(), None, false));
    assert(views(v@) =~= undepth_op_table());
    v
}

/// Instructions that end a function at scope depth zero.
pub open spec fn return_op_table() -> Seq<OpDesc> {
    seq![
        desc(0x7, 0, Seq::empty(), None, false),
        desc(0x8, 0, Seq::empty(), None, false),
    ]
}

/// Instructions that end a function at scope depth zero.
pub fn return_ops() -> (r: Vec<TickflowOp>)
    ensures
        views(r@) == return_op_table(),
{
    let mut v: Vec<TickflowOp> = Vec::new();
    v.push(op(0x7, 0, Vec::new(), None, false));
    v.push(op(0x8, 0, Vec::new(), None, false));
    assert(views(v@) =~= return_op_table());
    v
}


/// The first string instruction that applies to the word `opcode` in `scene`.
pub fn is_string_op(opcode: u32, scene: u32) -> (r: Option<TickflowOp>)
    ensures
        view_op(r) == first_applying(string_op_table(), opcode & OPCODE_MASK, scene),
{
    find_op(string_ops(), opcode & OPCODE_MASK, scene)
}

/// Whether the word `op` sets the scene register.
pub fn is_scene_op(op: u32) -> (r: bool)
    ensures
        r == (op & OPCODE_MASK == SCENE_OP),
{
    SCENE_OP == op & OPCODE_MASK
}

/// The call instruction that the word `opcode` is, if any.
pub fn is_call_op(opcode: u32) -> (r: Option<TickflowOp>)
    ensures
        view_op(r) == first_applying(call_op_table(), opcode & OPCODE_MASK, 0),
{
    find_op(call_ops(), opcode & OPCODE_MASK, 0)
}

/// The scope-opening instruction that the word `opcode` is, if any.
pub fn is_depth_op(opcode: u32) -> (r: Option<TickflowOp>)
    ensures
        view_op(r) == first_applying(depth_op_table(), opcode & OPCODE_MASK, 0),
{
    find_op(depth_ops(), opcode & OPCODE_MASK, 0)
}

/// The scope-closing instruction that the word `opcode` is, if any.
pub fn is_undepth_op(opcode: u32) -> (r: Option<TickflowOp>)
    ensures
        view_op(r) == first_applying(undepth_op_table(), opcode & OPCODE_MASK, 0),
{
    find_op(undepth_ops(), opcode & OPCODE_MASK, 0)
}

/// The return instruction that the word `opcode` is, if any.
pub fn is_return_op(opcode: u32) -> (r: Option<TickflowOp>)
    ensures
        view_op(r) == first_applying(return_op_table(), opcode & OPCODE_MASK, 0),
{
    find_op(return_ops(), opcode & OPCODE_MASK, 0)
}

} // verus!
