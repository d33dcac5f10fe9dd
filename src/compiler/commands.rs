//! The command catalog and the resolution of named commands against it.

use crate::compiler::Value;
use vstd::prelude::*;

verus! {

/// The kind of an argument, as error reports name it.
#[derive(Clone, Copy, Debug, PartialEq, Eq, Structural)]
pub enum ArgKind {
    Integer,
    Label,
    String,
    UnicodeString,
}

/// Why a named command could not be resolved.
#[derive(Clone, Debug)]
pub enum ResolveError {
    /// The argument count lies outside `min..=max`.
    WrongArgCount { cmd: String, min: usize, max: usize, got: usize },
    /// Argument `arg` (counting a selector given as argument) has the wrong kind.
    WrongArgType { cmd: String, arg: usize, expected: ArgKind, got: ArgKind },
    /// The command has a fixed selector, so none may be given.
    Arg0IsSet(String),
    /// No command has this name.
    Undefined(String),
}

/// The declared type of an argument slot.
#[derive(Clone, Copy, Debug, PartialEq, Eq, Structural)]
pub enum ArgType {
    Int,
    /// A string; `true` for UTF-16.
    String(bool),
    Label,
    /// An optional integer with its default.
    Opt(i32),
}

/// Where a command's selector comes from.
#[derive(Clone, Copy, Debug, PartialEq, Eq, Structural)]
pub enum Arg0Type {
    /// Fixed by the command.
    Fixed(u32),
    /// Taken from the first argument.
    Argument,
    /// Given by the caller, zero by default.
    Any,
}

/// A catalog entry: opcode, selector policy and argument slots.
#[derive(Clone, Debug)]
pub struct CmdDef {
    pub num: u16,
    pub arg0: Arg0Type,
    pub args: Vec<ArgType>,
}

pub struct CmdDefView {
    pub num: u16,
    pub arg0: Arg0Type,
    pub args: Seq<ArgType>,
}

impl View for CmdDef {
    type V = CmdDefView;

    open spec fn view(&self) -> CmdDefView {
        CmdDefView { num: self.num, arg0: self.arg0, args: self.args@ }
    }
}

/// Whether slot `t` is optional.
pub open spec fn is_opt(t: ArgType) -> bool {
    t matches ArgType::Opt(_)
}

/// The index of the first optional slot, or the slot count.
pub open spec fn first_opt(slots: Seq<ArgType>) -> int
    decreases slots.len(),
{
    if slots.len() == 0 {
        0
    } else if is_opt(slots[0]) {
        0
    } else {
        1 + first_opt(slots.subrange(1, slots.len() as int))
    }
}

proof fn lemma_first_opt(slots: Seq<ArgType>)
    ensures
        0 <= first_opt(slots) <= slots.len(),
        first_opt(slots) < slots.len() ==> is_opt(slots[first_opt(slots)]),
        forall|j: int| 0 <= j < first_opt(slots) ==> !is_opt(#[trigger] slots[j]),
    decreases slots.len(),
{
    if slots.len() > 0 && !is_opt(slots[0]) {
        let rest = slots.subrange(1, slots.len() as int);
        lemma_first_opt(rest);
        assert forall|j: int| 0 <= j < first_opt(slots) implies !is_opt(#[trigger] slots[j]) by {
            if j > 0 {
                assert(slots[j] == rest[j - 1]);
            }
        }
    }
}

impl CmdDef {
    pub fn new(num: u16, arg0: Arg0Type, args: Vec<ArgType>) -> (r: Self)
        ensures
            r@ == (CmdDefView { num, arg0, args: args@ }),
    {
        CmdDef { num, arg0, args }
    }

    /// A catalog entry under its mnemonic.
    pub fn named(name: &str, num: u16, arg0: Arg0Type, args: Vec<ArgType>) -> (r: (String, Self))
        ensures
            r.0@ == name@,
            r.1@ == (CmdDefView { num, arg0, args: args@ }),
    {
        (name.to_owned(), Self::new(num, arg0, args))
    }

    /// The accepted argument counts: from the first optional slot to all.
    pub fn calc_arg_range(&self) -> (r: (usize, usize))
        ensures
            r.0 == first_opt(self.args@),
            r.1 == self.args@.len(),
    {
        proof {
            lemma_first_opt(self.args@);
        }
        let end = self.args.len();
        let mut i: usize = 0;
        while i < end
            invariant
                end == self.args@.len(),
                i <= end,
                first_opt(self.args@) >= i,
                forall|j: int| 0 <= j < first_opt(self.args@) ==> !is_opt(#[trigger] self.args@[j]),
                first_opt(self.args@) < end ==> is_opt(self.args@[first_opt(self.args@)]),
                first_opt(self.args@) <= end,
            decreases end - i,
        {
            if let ArgType::Opt(_) = self.args[i] {
                return (i, end);
            }
            i = i + 1;
        }
        (end, end)
    }
}

/// The kind of a supplied value.
pub open spec fn value_kind(v: Value) -> ArgKind {
    match v {
        Value::Integer(_) => ArgKind::Integer,
        Value::Label(_) => ArgKind::Label,
        Value::String { is_unicode, .. } => if is_unicode {
            ArgKind::UnicodeString
        } else {
            ArgKind::String
        },
    }
}

/// The kind that a slot takes.
pub open spec fn slot_kind(t: ArgType) -> ArgKind {
    match t {
        ArgType::Int | ArgType::Opt(_) => ArgKind::Integer,
        ArgType::Label => ArgKind::Label,
        ArgType::String(u) => if u {
            ArgKind::UnicodeString
        } else {
            ArgKind::String
        },
    }
}

fn kind_of_value(v: &Value) -> (r: ArgKind)
    ensures
        r == value_kind(*v),
{
    match v {
        Value::Integer(_) => ArgKind::Integer,
        Value::Label(_) => ArgKind::Label,
        Value::String { is_unicode, .. } => if *is_unicode {
            ArgKind::UnicodeString
        } else {
            ArgKind::String
        },
    }
}

fn kind_of_slot(t: ArgType) -> (r: ArgKind)
    ensures
        r == slot_kind(t),
{
    match t {
        ArgType::Int | ArgType::Opt(_) => ArgKind::Integer,
        ArgType::Label => ArgKind::Label,
        ArgType::String(u) => if u {
            ArgKind::UnicodeString
        } else {
            ArgKind::String
        },
    }
}

fn slots0() -> (r: Vec<ArgType>)
    ensures
        r@ == Seq::<ArgType>::empty(),
{
    let mut r: Vec<ArgType> = Vec::new();
    assert(r@ =~= Seq::<ArgType>::empty());
    r
}

fn slots1(t0: ArgType) -> (r: Vec<ArgType>)
    ensures
        r@ == seq![t0],
{
    let mut r: Vec<ArgType> = Vec::new();
    r.push(t0);
    assert(r@ =~= seq![t0]);
    r
}

fn slots2(t0: ArgType, t1: ArgType) -> (r: Vec<ArgType>)
    ensures
        r@ == seq![t0, t1],
{
    let mut r: Vec<ArgType> = Vec::new();
    r.push(t0);
    r.push(t1);
    assert(r@ =~= seq![t0, t1]);
    r
}

fn slots3(t0: ArgType, t1: ArgType, t2: ArgType) -> (r: Vec<ArgType>)
    ensures
        r@ == seq![t0, t1, t2],
{
    let mut r: Vec<ArgType> = Vec::new();
    r.push(t0);
    r.push(t1);
    r.push(t2);
    assert(r@ =~= seq![t0, t1, t2]);
    r
}

fn slots5(t0: ArgType, t1: ArgType, t2: ArgType, t3: ArgType, t4: ArgType) -> (r: Vec<ArgType>)
    ensures
        r@ == seq![t0, t1, t2, t3, t4],
{
    let mut r: Vec<ArgType> = Vec::new();
    r.push(t0);
    r.push(t1);
    r.push(t2);
    r.push(t3);
    r.push(t4);
    assert(r@ =~= seq![t0, t1, t2, t3, t4]);
    r
}

fn slots6(t0: ArgType, t1: ArgType, t2: ArgType, t3: ArgType, t4: ArgType, t5: ArgType) -> (r: Vec<ArgType>)
    ensures
        r@ == seq![t0, t1, t2, t3, t4, t5],
{
    let mut r: Vec<ArgType> = Vec::new();
    r.push(t0);
    r.push(t1);
    r.push(t2);
    r.push(t3);
    r.push(t4);
    r.push(t5);
    assert(r@ =~= seq![t0, t1, t2, t3, t4, t5]);
    r
}

pub open spec fn catalog_part0() -> Seq<(Seq<char>, CmdDefView)> {
    seq![
        ("async_sub"@, CmdDefView { num: 0, arg0: Arg0Type::Any, args: seq![ArgType::Int, ArgType::Opt(0), ArgType::Opt(2000)] }),
        ("get_async"@, CmdDefView { num: 1, arg0: Arg0Type::Fixed(0), args: seq![ArgType::Int, ArgType::Opt(0)] }),
        ("set_func"@, CmdDefView { num: 1, arg0: Arg0Type::Fixed(1), args: seq![ArgType::Int, ArgType::Label] }),
        ("async_call"@, CmdDefView { num: 2, arg0: Arg0Type::Any, args: seq![ArgType::Label, ArgType::Opt(0)] }),
        ("kill_all"@, CmdDefView { num: 3, arg0: Arg0Type::Fixed(0), args: Seq::empty() }),
        ("kill_cat"@, CmdDefView { num: 3, arg0: Arg0Type::Fixed(1), args: seq![ArgType::Int] }),
        ("kill_loc"@, CmdDefView { num: 3, arg0: Arg0Type::Fixed(2), args: seq![ArgType::Label] }),
        ("kill_sub"@, CmdDefView { num: 3, arg0: Arg0Type::Fixed(3), args: seq![ArgType::Int] }),
        ("sub"@, CmdDefView { num: 4, arg0: Arg0Type::Any, args: seq![ArgType::Int] }),
        ("get_sync"@, CmdDefView { num: 5, arg0: Arg0Type::Any, args: seq![ArgType::Int] }),
        ("call"@, CmdDefView { num: 6, arg0: Arg0Type::Any, args: seq![ArgType::Label] }),
        ("return"@, CmdDefView { num: 7, arg0: Arg0Type::Any, args: Seq::empty() }),
        ("stop"@, CmdDefView { num: 8, arg0: Arg0Type::Any, args: Seq::empty() }),
        ("set_cat"@, CmdDefView { num: 9, arg0: Arg0Type::Any, args: seq![ArgType::Int] }),
        ("set_condvar"@, CmdDefView { num: 0xa, arg0: Arg0Type::Any, args: seq![ArgType::Int] }),
        ("add_condvar"@, CmdDefView { num: 0xb, arg0: Arg0Type::Any, args: seq![ArgType::Int] }),
        ("push_condvar"@, CmdDefView { num: 0xc, arg0: Arg0Type::Any, args: Seq::empty() }),
        ("pop_condvar"@, CmdDefView { num: 0xd, arg0: Arg0Type::Any, args: Seq::empty() }),
        ("rest"@, CmdDefView { num: 0xe, arg0: Arg0Type::Argument, args: Seq::empty() }),
        ("getrest"@, CmdDefView { num: 0xf, arg0: Arg0Type::Fixed(0), args: seq![ArgType::Int] }),
    ]
}

fn commands_part0(v: &mut Vec<(String, CmdDef)>)
    ensures
        entries_view(final(v)@) == entries_view(old(v)@) + catalog_part0(),
{
    let ghost start = entries_view(v@);
    v.push(CmdDef::named("async_sub", 0, Arg0Type::Any, slots3(ArgType::Int, ArgType::Opt(0), ArgType::Opt(2000))));
    v.push(CmdDef::named("get_async", 1, Arg0Type::Fixed(0), slots2(ArgType::Int, ArgType::Opt(0))));
    v.push(CmdDef::named("set_func", 1, Arg0Type::Fixed(1), slots2(ArgType::Int, ArgType::Label)));
    v.push(CmdDef::named("async_call", 2, Arg0Type::Any, slots2(ArgType::Label, ArgType::Opt(0))));
    v.push(CmdDef::named("kill_all", 3, Arg0Type::Fixed(0), slots0()));
    v.push(CmdDef::named("kill_cat", 3, Arg0Type::Fixed(1), slots1(ArgType::Int)));
    v.push(CmdDef::named("kill_loc", 3, Arg0Type::Fixed(2), slots1(ArgType::Label)));
    v.push(CmdDef::named("kill_sub", 3, Arg0Type::Fixed(3), slots1(ArgType::Int)));
    v.push(CmdDef::named("sub", 4, Arg0Type::Any, slots1(ArgType::Int)));
    v.push(CmdDef::named("get_sync", 5, Arg0Type::Any, slots1(ArgType::Int)));
    v.push(CmdDef::named("call", 6, Arg0Type::Any, slots1(ArgType::Label)));
    v.push(CmdDef::named("return", 7, Arg0Type::Any, slots0()));
    v.push(CmdDef::named("stop", 8, Arg0Type::Any, slots0()));
    v.push(CmdDef::named("set_cat", 9, Arg0Type::Any, slots1(ArgType::Int)));
    v.push(CmdDef::named("set_condvar", 0xa, Arg0Type::Any, slots1(ArgType::Int)));
    v.push(CmdDef::named("add_condvar", 0xb, Arg0Type::Any, slots1(ArgType::Int)));
    v.push(CmdDef::named("push_condvar", 0xc, Arg0Type::Any, slots0()));
    v.push(CmdDef::named("pop_condvar", 0xd, Arg0Type::Any, slots0()));
    v.push(CmdDef::named("rest", 0xe, Arg0Type::Argument, slots0()));
    v.push(CmdDef::named("getrest", 0xf, Arg0Type::Fixed(0), slots1(ArgType::Int)));
    assert(entries_view(v@) =~= start + catalog_part0());
}

pub open spec fn catalog_part1() -> Seq<(Seq<char>, CmdDefView)> {
    seq![
        ("setrest"@, CmdDefView { num: 0xf, arg0: Arg0Type::Fixed(1), args: seq![ArgType::Int, ArgType::Int] }),
        ("rest_reset"@, CmdDefView { num: 0x11, arg0: Arg0Type::Any, args: Seq::empty() }),
        ("unrest"@, CmdDefView { num: 0x12, arg0: Arg0Type::Argument, args: Seq::empty() }),
        ("label"@, CmdDefView { num: 0x14, arg0: Arg0Type::Argument, args: Seq::empty() }),
        ("goto"@, CmdDefView { num: 0x15, arg0: Arg0Type::Argument, args: Seq::empty() }),
        ("if"@, CmdDefView { num: 0x16, arg0: Arg0Type::Fixed(0), args: seq![ArgType::Int] }),
        ("if_neq"@, CmdDefView { num: 0x16, arg0: Arg0Type::Fixed(1), args: seq![ArgType::Int] }),
        ("if_lt"@, CmdDefView { num: 0x16, arg0: Arg0Type::Fixed(2), args: seq![ArgType::Int] }),
        ("if_leq"@, CmdDefView { num: 0x16, arg0: Arg0Type::Fixed(3), args: seq![ArgType::Int] }),
        ("if_gt"@, CmdDefView { num: 0x16, arg0: Arg0Type::Fixed(4), args: seq![ArgType::Int] }),
        ("if_geq"@, CmdDefView { num: 0x16, arg0: Arg0Type::Fixed(5), args: seq![ArgType::Int] }),
        ("else"@, CmdDefView { num: 0x17, arg0: Arg0Type::Any, args: Seq::empty() }),
        ("endif"@, CmdDefView { num: 0x18, arg0: Arg0Type::Any, args: Seq::empty() }),
        ("switch"@, CmdDefView { num: 0x19, arg0: Arg0Type::Any, args: Seq::empty() }),
        ("case"@, CmdDefView { num: 0x1A, arg0: Arg0Type::Argument, args: Seq::empty() }),
        ("break"@, CmdDefView { num: 0x1B, arg0: Arg0Type::Any, args: Seq::empty() }),
        ("default"@, CmdDefView { num: 0x1C, arg0: Arg0Type::Any, args: Seq::empty() }),
        ("endswitch"@, CmdDefView { num: 0x1D, arg0: Arg0Type::Any, args: Seq::empty() }),
        ("set_countdown"@, CmdDefView { num: 0x1E, arg0: Arg0Type::Fixed(0), args: seq![ArgType::Int] }),
        ("set_countdown_condvar"@, CmdDefView { num: 0x1E, arg0: Arg0Type::Fixed(1), args: Seq::empty() }),
    ]
}

fn commands_part1(v: &mut Vec<(String, CmdDef)>)
    ensures
        entries_view(final(v)@) == entries_view(old(v)@) + catalog_part1(),
{
    let ghost start = entries_view(v@);
    v.push(CmdDef::named("setrest", 0xf, Arg0Type::Fixed(1), slots2(ArgType::Int, ArgType::Int)));
    v.push(CmdDef::named("rest_reset", 0x11, Arg0Type::Any, slots0()));
    v.push(CmdDef::named("unrest", 0x12, Arg0Type::Argument, slots0()));
    v.push(CmdDef::named("label", 0x14, Arg0Type::Argument, slots0()));
    v.push(CmdDef::named("goto", 0x15, Arg0Type::Argument, slots0()));
    v.push(CmdDef::named("if", 0x16, Arg0Type::Fixed(0), slots1(ArgType::Int)));
    v.push(CmdDef::named("if_neq", 0x16, Arg0Type::Fixed(1), slots1(ArgType::Int)));
    v.push(CmdDef::named("if_lt", 0x16, Arg0Type::Fixed(2), slots1(ArgType::Int)));
    v.push(CmdDef::named("if_leq", 0x16, Arg0Type::Fixed(3), slots1(ArgType::Int)));
    v.push(CmdDef::named("if_gt", 0x16, Arg0Type::Fixed(4), slots1(ArgType::Int)));
    v.push(CmdDef::named("if_geq", 0x16, Arg0Type::Fixed(5), slots1(ArgType::Int)));
    v.push(CmdDef::named("else", 0x17, Arg0Type::Any, slots0()));
    v.push(CmdDef::named("endif", 0x18, Arg0Type::Any, slots0()));
    v.push(CmdDef::named("switch", 0x19, Arg0Type::Any, slots0()));
    v.push(CmdDef::named("case", 0x1A, Arg0Type::Argument, slots0()));
    v.push(CmdDef::named("break", 0x1B, Arg0Type::Any, slots0()));
    v.push(CmdDef::named("default", 0x1C, Arg0Type::Any, slots0()));
    v.push(CmdDef::named("endswitch", 0x1D, Arg0Type::Any, slots0()));
    v.push(CmdDef::named("set_countdown", 0x1E, Arg0Type::Fixed(0), slots1(ArgType::Int)));
    v.push(CmdDef::named("set_countdown_condvar", 0x1E, Arg0Type::Fixed(1), slots0()));
    assert(entries_view(v@) =~= start + catalog_part1());
}

pub open spec fn catalog_part2() -> Seq<(Seq<char>, CmdDefView)> {
    seq![
        ("get_countdown_init"@, CmdDefView { num: 0x1E, arg0: Arg0Type::Fixed(2), args: Seq::empty() }),
        ("get_countdown_prog"@, CmdDefView { num: 0x1E, arg0: Arg0Type::Fixed(3), args: Seq::empty() }),
        ("get_countdown"@, CmdDefView { num: 0x1E, arg0: Arg0Type::Fixed(4), args: Seq::empty() }),
        ("dec_countdown"@, CmdDefView { num: 0x1E, arg0: Arg0Type::Fixed(5), args: Seq::empty() }),
        ("speed"@, CmdDefView { num: 0x24, arg0: Arg0Type::Any, args: seq![ArgType::Int] }),
        ("speed_relative"@, CmdDefView { num: 0x25, arg0: Arg0Type::Any, args: seq![ArgType::Int, ArgType::Int, ArgType::Int] }),
        ("engine"@, CmdDefView { num: 0x28, arg0: Arg0Type::Any, args: seq![ArgType::Int] }),
        ("game_model"@, CmdDefView { num: 0x2A, arg0: Arg0Type::Fixed(0), args: seq![ArgType::Int, ArgType::Int] }),
        ("game_cellanim"@, CmdDefView { num: 0x2A, arg0: Arg0Type::Fixed(2), args: seq![ArgType::Int, ArgType::Int] }),
        ("game_effect"@, CmdDefView { num: 0x2A, arg0: Arg0Type::Fixed(3), args: seq![ArgType::Int, ArgType::Int] }),
        ("game_layout"@, CmdDefView { num: 0x2A, arg0: Arg0Type::Fixed(4), args: seq![ArgType::Int, ArgType::Int] }),
        ("set_model"@, CmdDefView { num: 0x31, arg0: Arg0Type::Fixed(0), args: seq![ArgType::Int, ArgType::String(true), ArgType::Opt(1)] }),
        ("remove_model"@, CmdDefView { num: 0x31, arg0: Arg0Type::Fixed(1), args: seq![ArgType::Int] }),
        ("has_model"@, CmdDefView { num: 0x31, arg0: Arg0Type::Fixed(2), args: seq![ArgType::Int] }),
        ("set_cellanim"@, CmdDefView { num: 0x35, arg0: Arg0Type::Fixed(0), args: seq![ArgType::Int, ArgType::String(true), ArgType::Opt(-1i32)] }),
        ("cellanim_busy"@, CmdDefView { num: 0x35, arg0: Arg0Type::Fixed(1), args: seq![ArgType::Int] }),
        ("remove_cellanim"@, CmdDefView { num: 0x35, arg0: Arg0Type::Fixed(3), args: seq![ArgType::Int] }),
        ("set_effect"@, CmdDefView { num: 0x39, arg0: Arg0Type::Fixed(0), args: seq![ArgType::Int, ArgType::String(true), ArgType::Opt(-1i32)] }),
        ("effect_busy"@, CmdDefView { num: 0x39, arg0: Arg0Type::Fixed(1), args: seq![ArgType::Int] }),
        ("remove_effect"@, CmdDefView { num: 0x39, arg0: Arg0Type::Fixed(7), args: seq![ArgType::Int] }),
    ]
}

fn commands_part2(v: &mut Vec<(String, CmdDef)>)
    ensures
        entries_view(final(v)@) == entries_view(old(v)@) + catalog_part2(),
{
    let ghost start = entries_view(v@);
    v.push(CmdDef::named("get_countdown_init", 0x1E, Arg0Type::Fixed(2), slots0()));
    v.push(CmdDef::named("get_countdown_prog", 0x1E, Arg0Type::Fixed(3), slots0()));
    v.push(CmdDef::named("get_countdown", 0x1E, Arg0Type::Fixed(4), slots0()));
    v.push(CmdDef::named("dec_countdown", 0x1E, Arg0Type::Fixed(5), slots0()));
    v.push(CmdDef::named("speed", 0x24, Arg0Type::Any, slots1(ArgType::Int)));
    v.push(CmdDef::named("speed_relative", 0x25, Arg0Type::Any, slots3(ArgType::Int, ArgType::Int, ArgType::Int)));
    v.push(CmdDef::named("engine", 0x28, Arg0Type::Any, slots1(ArgType::Int)));
    v.push(CmdDef::named("game_model", 0x2A, Arg0Type::Fixed(0), slots2(ArgType::Int, ArgType::Int)));
    v.push(CmdDef::named("game_cellanim", 0x2A, Arg0Type::Fixed(2), slots2(ArgType::Int, ArgType::Int)));
    v.push(CmdDef::named("game_effect", 0x2A, Arg0Type::Fixed(3), slots2(ArgType::Int, ArgType::Int)));
    v.push(CmdDef::named("game_layout", 0x2A, Arg0Type::Fixed(4), slots2(ArgType::Int, ArgType::Int)));
    v.push(CmdDef::named("set_model", 0x31, Arg0Type::Fixed(0), slots3(ArgType::Int, ArgType::String(true), ArgType::Opt(1))));
    v.push(CmdDef::named("remove_model", 0x31, Arg0Type::Fixed(1), slots1(ArgType::Int)));
    v.push(CmdDef::named("has_model", 0x31, Arg0Type::Fixed(2), slots1(ArgType::Int)));
    v.push(CmdDef::named("set_cellanim", 0x35, Arg0Type::Fixed(0), slots3(ArgType::Int, ArgType::String(true), ArgType::Opt(-1i32))));
    v.push(CmdDef::named("cellanim_busy", 0x35, Arg0Type::Fixed(1), slots1(ArgType::Int)));
    v.push(CmdDef::named("remove_cellanim", 0x35, Arg0Type::Fixed(3), slots1(ArgType::Int)));
    v.push(CmdDef::named("set_effect", 0x39, Arg0Type::Fixed(0), slots3(ArgType::Int, ArgType::String(true), ArgType::Opt(-1i32))));
    v.push(CmdDef::named("effect_busy", 0x39, Arg0Type::Fixed(1), slots1(ArgType::Int)));
    v.push(CmdDef::named("remove_effect", 0x39, Arg0Type::Fixed(7), slots1(ArgType::Int)));
    assert(entries_view(v@) =~= start + catalog_part2());
}

pub open spec fn catalog_part3() -> Seq<(Seq<char>, CmdDefView)> {
    seq![
        ("set_layout"@, CmdDefView { num: 0x3E, arg0: Arg0Type::Fixed(0), args: seq![ArgType::Int, ArgType::String(true), ArgType::Opt(-1i32)] }),
        ("layout_busy"@, CmdDefView { num: 0x3E, arg0: Arg0Type::Fixed(1), args: seq![ArgType::Int] }),
        ("remove_layout"@, CmdDefView { num: 0x3E, arg0: Arg0Type::Fixed(7), args: seq![ArgType::Int] }),
        ("play_sfx"@, CmdDefView { num: 0x40, arg0: Arg0Type::Any, args: seq![ArgType::Int] }),
        ("set_sfx"@, CmdDefView { num: 0x5D, arg0: Arg0Type::Any, args: seq![ArgType::Int, ArgType::String(true)] }),
        ("remove_sfx"@, CmdDefView { num: 0x5F, arg0: Arg0Type::Any, args: seq![ArgType::Int] }),
        ("input"@, CmdDefView { num: 0x6A, arg0: Arg0Type::Any, args: seq![ArgType::Int] }),
        ("fade"@, CmdDefView { num: 0x7D, arg0: Arg0Type::Any, args: seq![ArgType::Int, ArgType::Int, ArgType::Int] }),
        ("zoom"@, CmdDefView { num: 0x7E, arg0: Arg0Type::Fixed(0), args: seq![ArgType::Int, ArgType::Int, ArgType::Int] }),
        ("zoom_gradual"@, CmdDefView { num: 0x7E, arg0: Arg0Type::Fixed(1), args: seq![ArgType::Int, ArgType::Int, ArgType::Int, ArgType::Int, ArgType::Int, ArgType::Int] }),
        ("pan"@, CmdDefView { num: 0x7F, arg0: Arg0Type::Fixed(0), args: seq![ArgType::Int, ArgType::Int, ArgType::Int] }),
        ("pan_gradual"@, CmdDefView { num: 0x7F, arg0: Arg0Type::Fixed(1), args: seq![ArgType::Int, ArgType::Int, ArgType::Int, ArgType::Int, ArgType::Int, ArgType::Int] }),
        ("rotate"@, CmdDefView { num: 0x80, arg0: Arg0Type::Fixed(0), args: seq![ArgType::Int, ArgType::Int] }),
        ("rotate_gradual"@, CmdDefView { num: 0x80, arg0: Arg0Type::Fixed(1), args: seq![ArgType::Int, ArgType::Int, ArgType::Int, ArgType::Int, ArgType::Int] }),
        ("star"@, CmdDefView { num: 0xAE, arg0: Arg0Type::Any, args: seq![ArgType::Int] }),
        ("debug"@, CmdDefView { num: 0xB5, arg0: Arg0Type::Any, args: seq![ArgType::String(false)] }),
        ("random"@, CmdDefView { num: 0xB8, arg0: Arg0Type::Argument, args: Seq::empty() }),
    ]
}

fn commands_part3(v: &mut Vec<(String, CmdDef)>)
    ensures
        entries_view(final(v)@) == entries_view(old(v)@) + catalog_part3(),
{
    let ghost start = entries_view(v@);
    v.push(CmdDef::named("set_layout", 0x3E, Arg0Type::Fixed(0), slots3(ArgType::Int, ArgType::String(true), ArgType::Opt(-1i32))));
    v.push(CmdDef::named("layout_busy", 0x3E, Arg0Type::Fixed(1), slots1(ArgType::Int)));
    v.push(CmdDef::named("remove_layout", 0x3E, Arg0Type::Fixed(7), slots1(ArgType::Int)));
    v.push(CmdDef::named("play_sfx", 0x40, Arg0Type::Any, slots1(ArgType::Int)));
    v.push(CmdDef::named("set_sfx", 0x5D, Arg0Type::Any, slots2(ArgType::Int, ArgType::String(true))));
    v.push(CmdDef::named("remove_sfx", 0x5F, Arg0Type::Any, slots1(ArgType::Int)));
    v.push(CmdDef::named("input", 0x6A, Arg0Type::Any, slots1(ArgType::Int)));
    v.push(CmdDef::named("fade", 0x7D, Arg0Type::Any, slots3(ArgType::Int, ArgType::Int, ArgType::Int)));
    v.push(CmdDef::named("zoom", 0x7E, Arg0Type::Fixed(0), slots3(ArgType::Int, ArgType::Int, ArgType::Int)));
    v.push(CmdDef::named("zoom_gradual", 0x7E, Arg0Type::Fixed(1), slots6(ArgType::Int, ArgType::Int, ArgType::Int, ArgType::Int, ArgType::Int, ArgType::Int)));
    v.push(CmdDef::named("pan", 0x7F, Arg0Type::Fixed(0), slots3(ArgType::Int, ArgType::Int, ArgType::Int)));
    v.push(CmdDef::named("pan_gradual", 0x7F, Arg0Type::Fixed(1), slots6(ArgType::Int, ArgType::Int, ArgType::Int, ArgType::Int, ArgType::Int, ArgType::Int)));
    v.push(CmdDef::named("rotate", 0x80, Arg0Type::Fixed(0), slots2(ArgType::Int, ArgType::Int)));
    v.push(CmdDef::named("rotate_gradual", 0x80, Arg0Type::Fixed(1), slots5(ArgType::Int, ArgType::Int, ArgType::Int, ArgType::Int, ArgType::Int)));
    v.push(CmdDef::named("star", 0xAE, Arg0Type::Any, slots1(ArgType::Int)));
    v.push(CmdDef::named("debug", 0xB5, Arg0Type::Any, slots1(ArgType::String(false))));
    v.push(CmdDef::named("random", 0xB8, Arg0Type::Argument, slots0()));
    assert(entries_view(v@) =~= start + catalog_part3());
}

/// The mnemonics of the tickflow commands, with their definitions.
pub open spec fn catalog() -> Seq<(Seq<char>, CmdDefView)> {
    catalog_part0() + catalog_part1() + catalog_part2() + catalog_part3()
}

pub open spec fn entries_view(v: Seq<(String, CmdDef)>) -> Seq<(Seq<char>, CmdDefView)> {
    v.map_values(|e: (String, CmdDef)| (e.0@, e.1@))
}

/// The command catalog, in lookup order.
pub fn tickompiler_commands() -> (r: Vec<(String, CmdDef)>)
    ensures
        entries_view(r@) == catalog(),
{
    let mut v: Vec<(String, CmdDef)> = Vec::new();
    assert(entries_view(v@) =~= Seq::empty());
    commands_part0(&mut v);
    commands_part1(&mut v);
    commands_part2(&mut v);
    commands_part3(&mut v);
    assert(Seq::<(Seq<char>, CmdDefView)>::empty() + catalog_part0() =~= catalog_part0());
    v
}

/// The definition under the first catalog entry named `name`.
pub open spec fn find_def(cat: Seq<(Seq<char>, CmdDefView)>, name: Seq<char>) -> Option<CmdDefView>
    decreases cat.len(),
{
    if cat.len() == 0 {
        None
    } else if cat[0].0 == name {
        Some(cat[0].1)
    } else {
        find_def(cat.subrange(1, cat.len() as int), name)
    }
}

/// A resolution failure, as contracts speak of it.
pub enum Failure {
    WrongArgCount { min: int, max: int, got: int },
    WrongArgType { arg: int, expected: ArgKind, got: ArgKind },
    Arg0IsSet,
    Undefined,
}

impl ResolveError {
    pub open spec fn failure(self) -> Failure {
        match self {
            ResolveError::WrongArgCount { min, max, got, .. } => Failure::WrongArgCount {
                min: min as int,
                max: max as int,
                got: got as int,
            },
            ResolveError::WrongArgType { arg, expected, got, .. } => Failure::WrongArgType {
                arg: arg as int,
                expected,
                got,
            },
            ResolveError::Arg0IsSet(_) => Failure::Arg0IsSet,
            ResolveError::Undefined(_) => Failure::Undefined,
        }
    }

    /// The command that failed to resolve.
    pub open spec fn command(self) -> String {
        match self {
            ResolveError::WrongArgCount { cmd, .. } => cmd,
            ResolveError::WrongArgType { cmd, .. } => cmd,
            ResolveError::Arg0IsSet(cmd) => cmd,
            ResolveError::Undefined(cmd) => cmd,
        }
    }
}

/// The first supplied value from index `i` on whose kind differs from its slot's.
pub open spec fn mismatch_from(slots: Seq<ArgType>, vals: Seq<Value>, i: int) -> Option<int>
    decreases vals.len() - i,
{
    if i < 0 || i >= vals.len() {
        None
    } else if value_kind(vals[i]) != slot_kind(slots[i]) {
        Some(i)
    } else {
        mismatch_from(slots, vals, i + 1)
    }
}

/// The defaults of the slots from `j` on, if all of them are optional.
pub open spec fn defaults_from(slots: Seq<ArgType>, j: int) -> Option<Seq<Value>>
    decreases slots.len() - j,
{
    if j < 0 || j >= slots.len() {
        Some(Seq::empty())
    } else {
        match (slots[j], defaults_from(slots, j + 1)) {
            (ArgType::Opt(v), Some(d)) => Some(seq![Value::Integer(v)] + d),
            _ => None,
        }
    }
}

pub open spec fn count_failure(def: CmdDefView, got: int) -> Failure {
    Failure::WrongArgCount { min: first_opt(def.args), max: def.args.len() as int, got }
}

/// Checks supplied values against the slots of `def` and fills in the
/// defaults of missing optional ones; `shift` counts a selector that was
/// given as the first argument.
pub open spec fn check_args(def: CmdDefView, sel: u32, vals: Seq<Value>, shift: int) -> Result<
    (u16, u32, Seq<Value>),
    Failure,
> {
    if vals.len() < first_opt(def.args) || vals.len() > def.args.len() {
        Err(count_failure(def, vals.len() as int))
    } else {
        match mismatch_from(def.args, vals, 0) {
            Some(i) => Err(
                Failure::WrongArgType {
                    arg: i + shift,
                    expected: slot_kind(def.args[i]),
                    got: value_kind(vals[i]),
                },
            ),
            None => match defaults_from(def.args, vals.len() as int) {
                Some(d) => Ok((def.num, sel, vals + d)),
                None => Err(count_failure(def, vals.len() as int)),
            },
        }
    }
}

/// Resolution of the command `name` against `cat`: its opcode, selector and
/// complete argument list.
pub open spec fn resolve_spec(
    cat: Seq<(Seq<char>, CmdDefView)>,
    name: Seq<char>,
    arg0: Option<u32>,
    args: Seq<Value>,
) -> Result<(u16, u32, Seq<Value>), Failure> {
    match find_def(cat, name) {
        None => Err(Failure::Undefined),
        Some(def) => match def.arg0 {
            Arg0Type::Fixed(c) => if arg0 is Some {
                Err(Failure::Arg0IsSet)
            } else {
                check_args(def, c, args, 0)
            },
            Arg0Type::Argument => if args.len() == 0 {
                Err(count_failure(def, 0))
            } else {
                match args[0] {
                    Value::Integer(x) => check_args(
                        def,
                        x as u32,
                        args.subrange(1, args.len() as int),
                        1,
                    ),
                    v => Err(
                        Failure::WrongArgType {
                            arg: 0,
                            expected: ArgKind::Integer,
                            got: value_kind(v),
                        },
                    ),
                }
            },
            Arg0Type::Any => {
                let sel = match arg0 {
                    Some(s) => s,
                    None => 0,
                };
                if sel != 0 {
                    Ok((def.num, sel, args))
                } else {
                    check_args(def, sel, args, 0)
                }
            },
        },
    }
}

pub open spec fn resolves_as(
    r: Result<(u16, u32, Vec<Value>), ResolveError>,
    expected: Result<(u16, u32, Seq<Value>), Failure>,
    name: Seq<char>,
) -> bool {
    match expected {
        Ok((n, s, v)) => r matches Ok((n2, s2, v2)) && n2 == n && s2 == s && v2@ == v,
        Err(f) => r matches Err(e) && e.failure() == f && e.command()@ == name,
    }
}

fn find_in(cat: &Vec<(String, CmdDef)>, name: &String) -> (r: Option<usize>)
    ensures
        match find_def(entries_view(cat@), name@) {
            Some(d) => r matches Some(i) && i < cat@.len() && cat@[i as int].1@ == d,
            None => r is None,
        },
{
    let ghost whole = entries_view(cat@);
    let mut i: usize = 0;
    assert(whole.subrange(0, whole.len() as int) =~= whole);
    while i < cat.len()
        invariant
            i <= cat@.len(),
            whole == entries_view(cat@),
            find_def(whole, name@) == find_def(whole.subrange(i as int, whole.len() as int), name@),
        decreases cat@.len() - i,
    {
        proof {
            let tail = whole.subrange(i as int, whole.len() as int);
            assert(tail[0] == (cat@[i as int].0@, cat@[i as int].1@));
            assert(tail.subrange(1, tail.len() as int) =~= whole.subrange(i + 1, whole.len() as int));
        }
        if cat[i].0.eq(name) {
            return Some(i);
        }
        i = i + 1;
    }
    None
}

/// Checks values against the slots of `def` and fills in defaults.
fn check_values(def: &CmdDef, cmd: &String, sel: u32, vals: Vec<Value>, shift: usize) -> (r: Result<
    (u16, u32, Vec<Value>),
    ResolveError,
>)
    requires
        shift <= 1,
    ensures
        resolves_as(r, check_args(def@, sel, vals@, shift as int), cmd@),
{
    let (min, max) = def.calc_arg_range();
    let n = vals.len();
    if n < min || n > max {
        return Err(ResolveError::WrongArgCount { cmd: cmd.clone(), min, max, got: n });
    }
    let mut i: usize = 0;
    while i < n
        invariant
            n == vals@.len(),
            n <= max,
            n >= min,
            min == first_opt(def.args@),
            max == def.args@.len(),
            i <= n,
            shift <= 1,
            mismatch_from(def.args@, vals@, 0) == mismatch_from(def.args@, vals@, i as int),
        decreases n - i,
    {
        let got = kind_of_value(&vals[i]);
        let expected = kind_of_slot(def.args[i]);
        if got != expected {
            return Err(ResolveError::WrongArgType { cmd: cmd.clone(), arg: i + shift, expected, got });
        }
        i = i + 1;
    }
    let ghost given = vals@;
    let mut out = vals;
    let mut j: usize = n;
    while j < max
        invariant
            defaults_from(def.args@, n as int) == match defaults_from(def.args@, j as int) {
                Some(d) => Some(out@.subrange(n as int, out@.len() as int) + d),
                None => None::<Seq<Value>>,
            },
            n <= j <= max,
            n >= min,
            n == given.len(),
            given == vals@,
            min == first_opt(def.args@),
            max == def.args@.len(),
            mismatch_from(def.args@, vals@, 0) is None,
            out@.len() == j,
            out@.subrange(0, n as int) == given,
        decreases max - j,
    {
        match def.args[j] {
            ArgType::Opt(v) => {
                let ghost before = out@;
                out.push(Value::Integer(v));
                proof {
                    assert(out@.subrange(0, n as int) =~= before.subrange(0, n as int));
                    match defaults_from(def.args@, j + 1) {
                        Some(d) => {
                            assert(out@.subrange(n as int, out@.len() as int) + d =~= before.subrange(
                                n as int,
                                before.len() as int,
                            ) + (seq![Value::Integer(v)] + d));
                        },
                        None => {},
                    }
                }
            },
            _ => {
                return Err(ResolveError::WrongArgCount { cmd: cmd.clone(), min, max, got: n });
            },
        }
        j = j + 1;
    }
    proof {
        assert(j == max);
        assert(defaults_from(def.args@, j as int) == Some(Seq::<Value>::empty()));
        assert(out@ =~= given + out@.subrange(n as int, out@.len() as int));
        assert(out@.subrange(n as int, out@.len() as int) + Seq::<Value>::empty() =~= out@.subrange(
            n as int,
            out@.len() as int,
        ));
    }
    Ok((def.num, sel, out))
}

/// Resolves the command `cmd` against the catalog `cat`.
pub fn resolve_with(
    cat: &Vec<(String, CmdDef)>,
    cmd: &String,
    arg0: Option<u32>,
    args: Vec<Value>,
) -> (r: Result<(u16, u32, Vec<Value>), ResolveError>)
    ensures
        resolves_as(r, resolve_spec(entries_view(cat@), cmd@, arg0, args@), cmd@),
{
    let i = match find_in(cat, cmd) {
        Some(i) => i,
        None => {
            return Err(ResolveError::Undefined(cmd.clone()));
        },
    };
    let def = &cat[i].1;
    match def.arg0 {
        Arg0Type::Fixed(c) => {
            if arg0.is_some() {
                return Err(ResolveError::Arg0IsSet(cmd.clone()));
            }
            check_values(def, cmd, c, args, 0)
        },
        Arg0Type::Argument => {
            if args.len() == 0 {
                let (min, max) = def.calc_arg_range();
                return Err(ResolveError::WrongArgCount { cmd: cmd.clone(), min, max, got: 0 });
            }
            let mut rest = args;
            let first = rest.remove(0);
            assert(rest@ =~= args@.subrange(1, args@.len() as int));
            match first {
                Value::Integer(x) => {
                    #[verifier::truncate]
                    let sel = x as u32;
                    check_values(def, cmd, sel, rest, 1)
                },
                v => {
                    let got = kind_of_value(&v);
                    Err(
                        ResolveError::WrongArgType {
                            cmd: cmd.clone(),
                            arg: 0,
                            expected: ArgKind::Integer,
                            got,
                        },
                    )
                },
            }
        },
        Arg0Type::Any => {
            let sel = match arg0 {
                Some(s) => s,
                None => 0,
            };
            if sel != 0 {
                return Ok((def.num, sel, args));
            }
            check_values(def, cmd, sel, args, 0)
        },
    }
}

/// Resolves the command `cmd` against the tickflow command catalog.
pub fn resolve_command(cmd: &String, arg0: Option<u32>, args: Vec<Value>) -> (r: Result<
    (u16, u32, Vec<Value>),
    ResolveError,
>)
    ensures
        resolves_as(r, resolve_spec(catalog(), cmd@, arg0, args@), cmd@),
{
    let cat = tickompiler_commands();
    resolve_with(&cat, cmd, arg0, args)
}

} // verus!
