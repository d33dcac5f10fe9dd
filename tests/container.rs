use deckompiler::btks::{read_header, FlowSection, Pointer, PointerType, BTKS};
use deckompiler::common::{Tempo, TempoVal};

fn flow(data: Vec<u8>) -> FlowSection {
    FlowSection { start_offset: 4, tickflow_data: data }
}

fn linked(index: u32, start: u32, assets: u32, code: &[u32], pool: &[u8]) -> Vec<u8> {
    let mut out = Vec::new();
    for w in [index, start, assets].iter().chain(code.iter()) {
        out.extend(w.to_le_bytes());
    }
    out.extend(0xFFFF_FFFEu32.to_le_bytes());
    out.extend(pool);
    out
}

#[test]
fn pointer_record_is_offset_then_kind() {
    let p = Pointer { offset: 0x0102_0304, ptype: PointerType::Tickflow };
    assert_eq!(p.to_bin(), [4, 3, 2, 1, 1]);
    let s = Pointer { offset: 8, ptype: PointerType::String };
    assert_eq!(s.to_bin(), [8, 0, 0, 0, 0]);
}

#[test]
fn streamed_tempo_ids() {
    assert!(!Tempo { id: 0x0100_0101, data: vec![] }.is_streamed());
    assert!(!Tempo { id: 0x0100_0281, data: vec![] }.is_streamed());
    assert!(Tempo { id: 0x0100_0282, data: vec![] }.is_streamed());
}

#[test]
fn header_reports_sections_and_size() {
    let b = BTKS {
        flow: flow(vec![1, 2, 3, 4]),
        ptro: vec![Pointer { offset: 0, ptype: PointerType::String }],
        tmpo: vec![],
        strd: vec![b'h', b'i', 0, 0],
    };
    let bytes = b.to_btks_file().unwrap();
    assert_eq!(&bytes[..4], b"BTKS");
    let h = read_header(&bytes).unwrap();
    assert_eq!(h.section_count, 3);
    assert_eq!(h.total_size as usize, bytes.len());
    assert_eq!(h.total_size, 0x18 + (0xC + 4) + (0xC + 5) + (0x8 + 4));
    assert_eq!((h.revision, h.header_size), (2, 0x18));
    assert_eq!(&bytes[0x18..0x1C], b"FLOW");
    assert_eq!(&bytes[0x28..0x2C], b"PTRO");
    assert_eq!(&bytes[0x39..0x3D], b"STRD");
}

#[test]
fn flow_alone_is_one_section() {
    let b = BTKS { flow: flow(vec![]), ptro: vec![], tmpo: vec![], strd: vec![] };
    let bytes = b.to_btks_file().unwrap();
    let h = read_header(&bytes).unwrap();
    assert_eq!((h.section_count, h.total_size), (1, 0x18 + 0xC));
    assert_eq!(bytes.len(), 0x24);
}

#[test]
fn tempo_section_counts_its_points() {
    let t = Tempo { id: 0x0100_0101, data: vec![TempoVal { beats: 0x3F80_0000, time: 5, loop_val: 2 }] };
    let b = BTKS { flow: flow(vec![]), ptro: vec![], tmpo: vec![t], strd: vec![] };
    let bytes = b.to_btks_file().unwrap();
    let h = read_header(&bytes).unwrap();
    assert_eq!(h.section_count, 2);
    assert_eq!(h.total_size as usize, bytes.len());
    let tmpo = &bytes[0x24..];
    assert_eq!(&tmpo[..4], b"TMPO");
    assert_eq!(u32::from_le_bytes([tmpo[4], tmpo[5], tmpo[6], tmpo[7]]), 0xC + 12 + 12);
    // id, count, streamed flag (built-in id: not streamed), one point
    assert_eq!(&tmpo[12..24], &[0x01, 0x01, 0x00, 0x01, 1, 0, 0, 0, 0, 0, 0, 0]);
}

#[test]
fn read_header_rejects_other_files() {
    assert!(read_header(b"BTKX\0\0\0\0\0\0\0\0\0\0\0\0\0\0\0\0\0\0\0\0").is_none());
    assert!(read_header(b"BTKS").is_none());
}

#[test]
fn linked_binary_becomes_container() {
    let bin = linked(
        1,
        0,
        4,
        &[0xFFFF_FFFF, 2, 0, (1 << 8) + 2, 6 | (2 << 10), 8, 18, 8],
        b"hey\0",
    );
    let (b, gprac) = BTKS::extract_tickflow(&bin, vec![]).unwrap();
    assert!(gprac.is_none());
    assert_eq!(b.flow.start_offset, 4);
    let mut code = Vec::new();
    for w in [6 | (2 << 10), 8u32, 2, 8] {
        code.extend(w.to_le_bytes());
    }
    assert_eq!(b.flow.tickflow_data, code);
    assert_eq!(
        b.ptro,
        vec![
            Pointer { offset: 4, ptype: PointerType::Tickflow },
            Pointer { offset: 8, ptype: PointerType::String }
        ]
    );
    assert_eq!(b.strd, b"hey\0".to_vec());
}

#[test]
fn endless_game_gives_two_containers() {
    let bin = linked(0x101, 0x10, 0x20, &[8, 7], &[]);
    let (main, gprac) = BTKS::extract_tickflow(&bin, vec![]).unwrap();
    let gprac = gprac.unwrap();
    assert_eq!(main.flow.start_offset, 0x20);
    assert_eq!(gprac.flow.start_offset, 0x10);
    assert!(main.ptro.is_empty() && gprac.ptro.is_empty());
    let a = main.to_btks_file().unwrap();
    let b = gprac.to_btks_file().unwrap();
    assert_eq!(read_header(&a).unwrap().section_count, 1);
    assert_eq!(read_header(&b).unwrap().section_count, 1);
}

#[test]
fn string_before_pool_is_rejected() {
    let bin = linked(1, 0, 0, &[0xFFFF_FFFF, 1, 2, 0xB5 | (1 << 10), 0], &[0, 0, 0, 0]);
    assert!(BTKS::extract_tickflow(&bin, vec![]).is_err());
}

#[test]
fn short_binary_is_rejected() {
    assert!(BTKS::extract_tickflow(&[1, 0, 0], vec![]).is_err());
}
