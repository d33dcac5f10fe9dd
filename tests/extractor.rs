use deckompiler::c00::operations::{is_call_op, is_return_op, is_scene_op, is_string_op};
use deckompiler::c00::{
    enqueue, read_string, relocate, C00Bin, C00Error, C00Type, Pointer, TickompilerBinary,
};

const BASE: u32 = 0x0C00_0000;
const CODE: usize = 0x4000;

fn put(image: &mut Vec<u8>, at: usize, words: &[u32]) {
    for (i, w) in words.iter().enumerate() {
        image[at + 4 * i..at + 4 * i + 4].copy_from_slice(&w.to_le_bytes());
    }
}

fn words(bytes: &[u8]) -> Vec<u32> {
    bytes
        .chunks(4)
        .map(|c| u32::from_le_bytes([c[0], c[1], c[2], c[3]]))
        .collect()
}

/// An image whose first game starts at the code area.
fn image_with_game(code: &[u32], extra: &[(usize, &[u32])]) -> Vec<u8> {
    let mut image = vec![0u8; 0x5000];
    put(&mut image, 4, &[BASE + CODE as u32, 0]);
    put(&mut image, CODE, code);
    for (at, ws) in extra {
        put(&mut image, *at, ws);
    }
    image
}

#[test]
fn base_offsets() {
    assert_eq!(C00Type::RHMPatch.base_offset(), 0x0C00_0000);
    assert_eq!(C00Type::SaltwaterUS.base_offset(), 0x060A_9008);
    assert_eq!(C00Type::SaltwaterKR.base_offset(), 0x060A_9008);
}

#[test]
fn two_calls_to_one_function_extract_it_once() {
    let sub = BASE + 0x4100;
    let call = 6 | (1 << 10);
    let image = image_with_game(&[call, sub, call, sub, 7], &[(0x4100, &[7])]);
    let c00 = C00Bin::from_file(&image, C00Type::RHMPatch).unwrap();
    assert_eq!(c00.tickflows.len(), 1);
    let t = &c00.tickflows[0];
    assert_eq!((t.index, t.start), (0, 0));
    assert_eq!(
        words(&t.data),
        vec![
            0xFFFF_FFFF, 1, 0, call, 20, 0xFFFF_FFFF, 1, 0, call, 20, 7, 7, 0xFFFF_FFFE
        ]
    );
}

#[test]
fn enqueue_ignores_a_known_address() {
    let mut q = vec![(10u32, 0xFFu32)];
    enqueue(&mut q, 20, 1);
    enqueue(&mut q, 20, 2);
    enqueue(&mut q, 10, 3);
    assert_eq!(q, vec![(10, 0xFF), (20, 1)]);
}

#[test]
fn inner_return_does_not_end_the_function() {
    let if_op = 0x16 | (1 << 10);
    let image = image_with_game(&[if_op, 1, 7, 0x18, 7, 0x99], &[]);
    let c00 = C00Bin::from_file(&image, C00Type::RHMPatch).unwrap();
    assert_eq!(words(&c00.tickflows[0].data), vec![if_op, 1, 7, 0x18, 7, 0xFFFF_FFFE]);
}

#[test]
fn scan_past_the_image_is_truncated() {
    let mut image = image_with_game(&[], &[]);
    put(&mut image, 4, &[BASE + 0x4FFC, 0]);
    put(&mut image, 0x4FFC, &[0x24 | (1 << 10)]);
    assert!(matches!(C00Bin::from_file(&image, C00Type::RHMPatch), Err(C00Error::Truncated)));
}

#[test]
fn short_image_is_truncated() {
    let image = vec![0u8; 0x100];
    assert!(matches!(C00Bin::from_file(&image, C00Type::RHMPatch), Err(C00Error::Truncated)));
}

#[test]
fn entry_below_base_is_rejected() {
    let mut image = image_with_game(&[7], &[]);
    put(&mut image, 4, &[0x60_0000, 0]);
    assert!(matches!(C00Bin::from_file(&image, C00Type::RHMPatch), Err(C00Error::BelowBase)));
}

#[test]
fn strings_are_copied_and_rebased() {
    let set_sfx = 0x5D | (2 << 10);
    let image = image_with_game(&[set_sfx, 3, BASE + 0x4200, 7], &[(0x4200, &[0x0062_0061, 0])]);
    let c00 = C00Bin::from_file(&image, C00Type::RHMPatch).unwrap();
    let data = &c00.tickflows[0].data;
    assert_eq!(words(&data[..32]), vec![0xFFFF_FFFF, 1, (1 << 8) + 1, set_sfx, 3, 16, 7, 0xFFFF_FFFE]);
    assert_eq!(&data[32..], &[b'a', 0, b'b', 0, 0, 0, 0, 0]);
}

#[test]
fn scene_changes_string_classes() {
    assert!(is_scene_op(0x28 | (1 << 10)));
    assert!(!is_scene_op(0x29));
    assert!(is_string_op(0x105, 1).is_some());
    assert!(is_string_op(0x105, 2).is_none());
    let op = is_string_op(0x109 | (2 << 10), 0x39).unwrap();
    assert_eq!(op.args, vec![0, 1]);
    assert!(!op.is_unicode);
    assert_eq!(is_call_op(1 | (1 << 14) | (2 << 10)).unwrap().args, vec![1]);
    assert!(is_call_op(1).is_none());
    assert!(is_return_op(8).is_some());
}

#[test]
fn read_string_pads_and_handles_missing() {
    let mut image = vec![0u8; 16];
    image[0..3].copy_from_slice(b"abc");
    assert_eq!(
        read_string(&C00Type::RHMPatch, &image, BASE as u64, false).unwrap(),
        b"abc\0\0\0\0\0".to_vec()
    );
    image[0..3].copy_from_slice(b"ab\0");
    assert_eq!(read_string(&C00Type::RHMPatch, &image, BASE as u64, false).unwrap(), b"ab\0\0".to_vec());
    image[0..4].copy_from_slice(b"abcd");
    assert_eq!(
        read_string(&C00Type::RHMPatch, &image, BASE as u64, false).unwrap(),
        b"abcd\0\0\0\0".to_vec()
    );
    assert_eq!(read_string(&C00Type::RHMPatch, &image, 0x100, true).unwrap(), vec![0, 0]);
    let full = vec![1u8; 8];
    assert!(matches!(
        read_string(&C00Type::RHMPatch, &full, BASE as u64, false),
        Err(C00Error::Truncated)
    ));
}

#[test]
fn patched_tempos_are_read_until_the_loop_flag() {
    let mut image = image_with_game(&[7], &[]);
    let entry = 0x1558;
    put(&mut image, entry, &[0x0100_0200, 0xFFFF_FFFF, 0, BASE + 0x4400]);
    put(&mut image, 0x4400, &[0x3F80_0000, 32000, 0, 0x4000_0000, 16000, 1]);
    let c00 = C00Bin::from_file(&image, C00Type::RHMPatch).unwrap();
    assert_eq!(c00.tempos.len(), 1);
    assert_eq!(c00.tempos[0].id, 0x0100_0200);
    assert_eq!(c00.tempos[0].data.len(), 2);
    assert_eq!(c00.tempos[0].data[1].loop_val, 1);
}

#[test]
fn call_without_its_argument_is_rejected() {
    let image = image_with_game(&[6, 7], &[]);
    assert!(matches!(
        C00Bin::from_file(&image, C00Type::RHMPatch),
        Err(C00Error::MissingArgument)
    ));
}

#[test]
fn calls_below_the_patched_region_are_left_alone() {
    let call = 6 | (1 << 10);
    let image = image_with_game(&[call, 0x0010_0000, 7], &[]);
    let c00 = C00Bin::from_file(&image, C00Type::RHMPatch).unwrap();
    assert_eq!(words(&c00.tickflows[0].data), vec![call, 0x0010_0000, 7, 0xFFFF_FFFE]);
    assert_eq!(c00.base_offset(), BASE);
}

#[test]
fn binary_file_is_padded_past_a_word() {
    let t = TickompilerBinary { index: 1, start: 2, assets: 3, data: vec![9, 9] };
    let bytes = t.to_file();
    assert_eq!(bytes.len(), 12 + 2 + 6);
    assert_eq!(&bytes[..14], &[1, 0, 0, 0, 2, 0, 0, 0, 3, 0, 0, 0, 9, 9]);
    let u = TickompilerBinary { index: 1, start: 2, assets: 3, data: vec![9, 9, 9, 9] };
    assert_eq!(u.to_file().len(), 16);
}

#[test]
fn assets_entry_is_relocated_too() {
    let call = 6 | (1 << 10);
    let mut image = image_with_game(&[call, BASE + 0x4100, 7], &[(0x4100, &[7]), (0x4200, &[8])]);
    put(&mut image, 4, &[BASE + CODE as u32, BASE + 0x4200]);
    let c00 = C00Bin::from_file(&image, C00Type::RHMPatch).unwrap();
    let t = &c00.tickflows[0];
    // start function (12 code bytes), then assets at 12, then the callee at 16
    assert_eq!(t.assets, 12);
    assert_eq!(words(&t.data), vec![0xFFFF_FFFF, 1, 0, call, 16, 7, 8, 7, 0xFFFF_FFFE]);
}

#[test]
fn deferred_writes_use_final_offsets() {
    let mut data = vec![0u8; 12];
    let ptrs = vec![
        Pointer::Tickflow { offset: 0, points_to: 0x100 },
        Pointer::String { offset: 4, points_to: 8 },
        Pointer::Tickflow { offset: 8, points_to: 0x100 },
    ];
    relocate(&mut data, &ptrs, 40, &vec![0x80, 0x100], &vec![0, 24]).unwrap();
    assert_eq!(words(&data), vec![24, 48, 24]);
    let missing = vec![Pointer::Tickflow { offset: 0, points_to: 0x200 }];
    assert!(matches!(
        relocate(&mut data, &missing, 40, &vec![0x80], &vec![0]),
        Err(C00Error::UnresolvedCallTarget)
    ));
}

#[test]
fn tempo_entry_with_two_ids_gives_two_curves() {
    let mut image = image_with_game(&[7], &[]);
    put(&mut image, 0x1558 + 16, &[0x0100_0300, 0x0100_0301, 0, BASE + 0x4400]);
    put(&mut image, 0x4400, &[0x3F80_0000, 100, 0x8000]);
    let c00 = C00Bin::from_file(&image, C00Type::RHMPatch).unwrap();
    assert_eq!(c00.tempos.len(), 2);
    assert_eq!((c00.tempos[0].id, c00.tempos[1].id), (0x0100_0300, 0x0100_0301));
    assert_eq!(c00.tempos[1].data[0].time, 100);
}
