use deckompiler::compiler::commands::{resolve_command, ArgKind, ResolveError};
use deckompiler::compiler::{
    encode_string, get_pos_of_label, to_btkm, CommandName, CompileError, Program, Resolved,
    Statement, Value,
};

fn words(bytes: &[u8]) -> Vec<u32> {
    bytes
        .chunks(4)
        .map(|c| u32::from_le_bytes([c[0], c[1], c[2], c[3]]))
        .collect()
}

fn named(name: &str, arg0: Option<u32>, args: Vec<Value>) -> Statement {
    Statement::Command { cmd: CommandName::Named(name.to_string()), arg0, args }
}

fn program(statements: Vec<Statement>) -> Program {
    Program { index: 7, start: Some(0), assets: Some(0), statements }
}

#[test]
fn call_label_stop_links_to_offset_eight() {
    let p = program(vec![
        named("call", None, vec![Value::Label("L1".to_string())]),
        Statement::Label("L1".to_string()),
        named("stop", None, vec![]),
    ]);
    let out = to_btkm(p).unwrap();
    assert_eq!(
        words(&out),
        vec![7, 0, 0, 0xFFFF_FFFF, 1, 0, 6 | (1 << 10), 8, 8, 0xFFFF_FFFE]
    );
}

#[test]
fn label_offset_is_sum_of_preceding_lengths() {
    let rs = vec![
        Resolved::Command { cmd: 1, arg0: 0, args: vec![Value::Integer(1), Value::Integer(2)] },
        Resolved::Command { cmd: 0xFFFF, arg0: 0, args: vec![Value::Integer(1); 5] },
        Resolved::Command { cmd: 0xFFFF, arg0: 1, args: vec![Value::Integer(1); 2] },
        Resolved::Label("x".to_string()),
        Resolved::Label("x".to_string()),
    ];
    assert_eq!(get_pos_of_label(&rs, &"x".to_string()), Some(12 + 8 + 8));
    assert_eq!(get_pos_of_label(&rs, &"y".to_string()), None);
}

#[test]
fn start_and_assets_labels_fill_the_header() {
    let p = Program {
        index: 3,
        start: None,
        assets: None,
        statements: vec![
            Statement::Label("assets".to_string()),
            named("stop", None, vec![]),
            Statement::Label("start".to_string()),
            named("return", None, vec![]),
        ],
    };
    let out = to_btkm(p).unwrap();
    assert_eq!(words(&out), vec![3, 4, 0, 8, 7, 0xFFFF_FFFE]);
}

#[test]
fn missing_start_label_is_an_error() {
    let p = Program { index: 0, start: None, assets: Some(0), statements: vec![] };
    assert!(matches!(to_btkm(p), Err(CompileError::UnresolvedLabel(l)) if l == "start"));
}

#[test]
fn string_argument_is_annotated_and_pooled() {
    let p = program(vec![named(
        "set_sfx",
        None,
        vec![Value::Integer(5), Value::String { value: "ab".to_string(), is_unicode: true }],
    )]);
    let out = to_btkm(p).unwrap();
    let w = words(&out);
    // header, annotation with one entry (slot 1, UTF-16), word, args, marker, pool
    assert_eq!(&w[..6], &[7, 0, 0, 0xFFFF_FFFF, 1, (1 << 8) + 1]);
    assert_eq!(w[6], 0x5D | (2 << 10));
    assert_eq!(w[7], 5);
    assert_eq!(w[8], 12);
    assert_eq!(w[9], 0xFFFF_FFFE);
    assert_eq!(&out[40..], &[b'a', 0, b'b', 0, 0, 0, 0, 0]);
}

#[test]
fn instruction_without_pointers_has_no_annotation() {
    let p = program(vec![named("speed", None, vec![Value::Integer(100)])]);
    let out = to_btkm(p).unwrap();
    assert_eq!(words(&out), vec![7, 0, 0, 0x24 | (1 << 10), 100, 0xFFFF_FFFE]);
}

#[test]
fn optional_arguments_take_defaults() {
    let p = program(vec![named("async_sub", None, vec![Value::Integer(3)])]);
    let out = to_btkm(p).unwrap();
    assert_eq!(words(&out), vec![7, 0, 0, 3 << 10, 3, 0, 2000, 0xFFFF_FFFE]);
}

#[test]
fn fixed_selector_is_packed_from_bit_fourteen() {
    let p = program(vec![named("if_gt", None, vec![Value::Integer(1)])]);
    let out = to_btkm(p).unwrap();
    assert_eq!(words(&out)[3], 0x16 | (1 << 10) | (4 << 14));
}

#[test]
fn raw_byte_array_is_padded() {
    let p = program(vec![
        named("bytes", None, vec![Value::Integer(1), Value::Integer(2), Value::Integer(0x1FF)]),
        named("int", None, vec![Value::Integer(-1)]),
    ]);
    let out = to_btkm(p).unwrap();
    let mut expected: Vec<u8> = Vec::new();
    for w in [7u32, 0, 0, 0xFFFF_FFFF, 1, 3 + (3 << 8)] {
        expected.extend(w.to_le_bytes());
    }
    expected.extend([1, 2, 0xFF, 0]);
    for w in [0xFFFF_FFFFu32, 1, 3 + (4 << 8), 0xFFFF_FFFF, 0xFFFF_FFFE] {
        expected.extend(w.to_le_bytes());
    }
    assert_eq!(out, expected);
}

#[test]
fn raw_command_keeps_its_opcode() {
    let p = program(vec![Statement::Command {
        cmd: CommandName::Raw(0x123),
        arg0: Some(2),
        args: vec![Value::Integer(9)],
    }]);
    let out = to_btkm(p).unwrap();
    assert_eq!(words(&out), vec![7, 0, 0, 0x123 | (1 << 10) | (2 << 14), 9, 0xFFFF_FFFE]);
}

#[test]
fn array_commands_reject_a_selector() {
    let p = program(vec![named("bytes", Some(1), vec![])]);
    assert!(matches!(to_btkm(p), Err(CompileError::ArrayArg0)));
}

#[test]
fn array_of_labels_is_rejected() {
    let p = program(vec![named("int", None, vec![Value::Label("a".to_string())])]);
    assert!(matches!(to_btkm(p), Err(CompileError::ArrayNotInteger)));
}

#[test]
fn more_than_fifteen_arguments_is_an_error() {
    let p = program(vec![Statement::Command {
        cmd: CommandName::Raw(1),
        arg0: None,
        args: vec![Value::Integer(0); 16],
    }]);
    assert!(matches!(to_btkm(p), Err(CompileError::TooManyArguments)));
}

#[test]
fn unknown_label_is_an_error() {
    let p = program(vec![named("call", None, vec![Value::Label("nowhere".to_string())])]);
    assert!(matches!(to_btkm(p), Err(CompileError::UnresolvedLabel(l)) if l == "nowhere"));
}

#[test]
fn unknown_command_is_undefined() {
    let r = resolve_command(&"frobnicate".to_string(), None, vec![]);
    assert!(matches!(r, Err(ResolveError::Undefined(c)) if c == "frobnicate"));
}

#[test]
fn fixed_selector_cannot_be_given() {
    let r = resolve_command(&"kill_all".to_string(), Some(1), vec![]);
    assert!(matches!(r, Err(ResolveError::Arg0IsSet(_))));
}

#[test]
fn argument_count_outside_range() {
    let r = resolve_command(&"async_sub".to_string(), None, vec![]);
    assert!(matches!(r, Err(ResolveError::WrongArgCount { min: 1, max: 3, got: 0, .. })));
    let r = resolve_command(&"rest".to_string(), None, vec![]);
    assert!(matches!(r, Err(ResolveError::WrongArgCount { min: 0, max: 0, got: 0, .. })));
}

#[test]
fn argument_type_mismatch() {
    let r = resolve_command(&"call".to_string(), None, vec![Value::Integer(4)]);
    assert!(matches!(
        r,
        Err(ResolveError::WrongArgType { arg: 0, expected: ArgKind::Label, got: ArgKind::Integer, .. })
    ));
    let ascii = Value::String { value: "m".to_string(), is_unicode: false };
    let r = resolve_command(&"set_model".to_string(), None, vec![Value::Integer(0), ascii]);
    assert!(matches!(
        r,
        Err(ResolveError::WrongArgType {
            arg: 1,
            expected: ArgKind::UnicodeString,
            got: ArgKind::String,
            ..
        })
    ));
    let r = resolve_command(&"rest".to_string(), None, vec![Value::Label("x".to_string())]);
    assert!(matches!(
        r,
        Err(ResolveError::WrongArgType { arg: 0, expected: ArgKind::Integer, got: ArgKind::Label, .. })
    ));
}

#[test]
fn selector_from_first_argument() {
    let (num, arg0, args) = resolve_command(&"rest".to_string(), None, vec![Value::Integer(48)]).unwrap();
    assert_eq!((num, arg0, args.len()), (0xE, 48, 0));
}

#[test]
fn any_selector_skips_checks_when_nonzero() {
    let (num, arg0, args) =
        resolve_command(&"sub".to_string(), Some(3), vec![Value::Label("a".to_string())]).unwrap();
    assert_eq!((num, arg0, args.len()), (4, 3, 1));
}

#[test]
fn pool_strings_are_word_multiples() {
    assert_eq!(encode_string(&"ab".to_string(), false), vec![b'a', b'b', 0, 0]);
    assert_eq!(encode_string(&"abcd".to_string(), false), vec![b'a', b'b', b'c', b'd', 0, 0, 0, 0]);
    assert_eq!(encode_string(&"abc".to_string(), true), vec![b'a', 0, b'b', 0, b'c', 0, 0, 0]);
    assert_eq!(encode_string(&"".to_string(), true), vec![0, 0, 0, 0]);
    for s in ["", "a", "ab", "abc", "abcd", "\u{e9}t\u{e9}"] {
        for u in [false, true] {
            let e = encode_string(&s.to_string(), u);
            assert_eq!(e.len() % 4, 0);
        }
    }
}

#[test]
fn utf16_uses_surrogate_pairs() {
    let e = encode_string(&"\u{1F600}".to_string(), true);
    assert_eq!(e, vec![0x3D, 0xD8, 0x00, 0xDE, 0, 0, 0, 0]);
}

#[test]
fn resolution_errors_stop_assembly() {
    let p = program(vec![named("kill_all", Some(2), vec![])]);
    assert!(matches!(to_btkm(p), Err(CompileError::Resolve(ResolveError::Arg0IsSet(_)))));
}
