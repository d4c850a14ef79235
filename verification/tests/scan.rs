use jpeg::huffman::{BitStream, DecodeError};
use jpeg::parsing::{
    parse, ComponentId, ComponentSOF, ComponentSOS, Destination, HuffmanTable, Segments,
    StartOfFrame, StartOfScan,
};
use jpeg::scan::{read_symbol, scan_blocks, AcAction, PrevDC, ScanState};

fn huffman_payload(selector: u8, counts: &[u8], symbols: &[u8]) -> Vec<u8> {
    let mut payload = vec![selector];
    for k in 0..16 {
        payload.push(if k < counts.len() { counts[k] } else { 0 });
    }
    payload.extend_from_slice(symbols);
    payload
}

fn table(selector: u8, counts: &[u8], symbols: &[u8]) -> HuffmanTable {
    HuffmanTable::new(&huffman_payload(selector, counts, symbols)).unwrap()
}

/// DC luminance: 00 to 110 for the categories 0 to 5, then longer codes up to 11.
fn dc_luminance() -> HuffmanTable {
    table(0x00, &[0, 1, 5, 1, 1, 1, 1, 1, 1], &[0, 1, 2, 3, 4, 5, 6, 7, 8, 9, 10, 11])
}

/// AC luminance: 00 ends the block, 01 is a coefficient of one bit, 100 is a
/// run of sixteen zeros, 101 is one zero and a coefficient of one bit.
fn ac_luminance() -> HuffmanTable {
    table(0x10, &[0, 2, 2], &[0x00, 0x01, 0xF0, 0x11])
}

/// DC chrominance: 00, 01, 10 for the categories 0 to 2, 110 for 3.
fn dc_chrominance() -> HuffmanTable {
    table(0x01, &[0, 3, 1], &[0, 1, 2, 3])
}

/// AC chrominance: 00 ends the block, 01 is a coefficient of one bit.
fn ac_chrominance() -> HuffmanTable {
    table(0x11, &[0, 2], &[0x00, 0x01])
}

fn component(id: ComponentId, factors: (u8, u8), quantization_table: u8) -> ComponentSOF {
    ComponentSOF { id, factors, quantization_table }
}

fn frame(luma_factors: (u8, u8)) -> StartOfFrame {
    StartOfFrame {
        precision: 8,
        height: 16,
        width: 16,
        components: vec![
            component(ComponentId::LumY, luma_factors, 0),
            component(ComponentId::ChromCb, (1, 1), 1),
            component(ComponentId::ChromCr, (1, 1), 1),
        ],
    }
}

fn scan_of(data: &[u8]) -> StartOfScan<'_> {
    StartOfScan {
        components: vec![
            ComponentSOS { dc_table: Destination::Luminance, ac_table: Destination::Luminance },
            ComponentSOS { dc_table: Destination::Chrominance, ac_table: Destination::Chrominance },
            ComponentSOS { dc_table: Destination::Chrominance, ac_table: Destination::Chrominance },
        ],
        data,
    }
}

fn segments_of(data: &[u8], luma_factors: (u8, u8)) -> Segments<'_> {
    Segments {
        application: None,
        quantization_tables: Vec::new(),
        start_of_frame: Some(frame(luma_factors)),
        huffman_tables: vec![dc_luminance(), ac_luminance(), dc_chrominance(), ac_chrominance()],
        start_of_scan: Some(scan_of(data)),
    }
}

/// Packs a text of zeros and ones into bytes, filling the last byte with
/// ones and stuffing a zero byte behind every 0xFF.
fn pack(bits: &str) -> Vec<u8> {
    let mut bytes = Vec::new();
    let mut current: u8 = 0;
    let mut used = 0;
    for c in bits.chars() {
        if c != '0' && c != '1' {
            continue;
        }
        current = (current << 1) | (c == '1') as u8;
        used += 1;
        if used == 8 {
            bytes.push(current);
            if current == 0xFF {
                bytes.push(0x00);
            }
            current = 0;
            used = 0;
        }
    }
    if used > 0 {
        while used < 8 {
            current = (current << 1) | 1;
            used += 1;
        }
        bytes.push(current);
        if current == 0xFF {
            bytes.push(0x00);
        }
    }
    bytes
}

fn block_with(values: &[(usize, i16)]) -> [i16; 64] {
    let mut block = [0i16; 64];
    for (at, value) in values {
        block[*at] = *value;
    }
    block
}

#[test]
fn scan_test_huffman_and_bits() {
    let bytes = [0b11110111, 0b11110100];

    let mut bit_stream = BitStream::new(&bytes);
    let mut table = dc_luminance();
    let tree = &mut table.tree;
    let mut value = 0;
    for _ in 0..16 {
        let bit = bit_stream.next_bit().unwrap();
        if let Ok(Some(x)) = tree.forward(bit) {
            value = bit_stream.get_coeff(x).unwrap();
            break;
        };
    }
    assert_eq!(value, 127);

    for _ in 0..16 {
        let bit = bit_stream.next_bit().unwrap();
        if let Ok(Some(x)) = tree.forward(bit) {
            value = bit_stream.get_coeff(x).unwrap();
            break;
        };
    }
    assert_eq!(value, -1);
}

#[test]
fn one_unit_of_six_blocks() {
    let data = [0xF7, 0xF0, 0x00, 0x00, 0x3F];
    let mut segments = segments_of(&data, (2, 2));
    let blocks = scan_blocks(&mut segments);
    assert_eq!(blocks.len(), 6);
    assert_eq!(blocks[0], block_with(&[(0, 127)]));
    assert_eq!(blocks[1], block_with(&[(0, 127)]));
    assert_eq!(blocks[2], block_with(&[(0, 127)]));
    assert_eq!(blocks[3], block_with(&[(0, 127)]));
    assert_eq!(blocks[4], [0i16; 64]);
    assert_eq!(blocks[5], [0i16; 64]);
}

#[test]
fn coefficients_runs_and_end_of_block() {
    let data = pack("011 10  01 1  101 0  100  01 1  00");
    let mut segments = segments_of(&data, (2, 2));
    let blocks = scan_blocks(&mut segments);
    assert_eq!(blocks.len(), 1);
    assert_eq!(blocks[0], block_with(&[(0, 2), (1, 1), (3, -1), (20, 1)]));
}

#[test]
fn run_that_reaches_the_last_place_completes_the_block() {
    let data = pack("00 100 100 100 100   010 1 00");
    let mut segments = segments_of(&data, (2, 2));
    let blocks = scan_blocks(&mut segments);
    assert_eq!(blocks.len(), 2);
    assert_eq!(blocks[0], [0i16; 64]);
    assert_eq!(blocks[1], block_with(&[(0, 1)]));
}

#[test]
fn coefficient_at_the_last_place_completes_the_block() {
    let mut bits = String::from("00 100 100 100");
    for _ in 0..14 {
        bits.push_str(" 01 1");
    }
    bits.push_str(" 01 0");
    bits.push_str("  010 0 00");
    let data = pack(&bits);
    let mut segments = segments_of(&data, (2, 2));
    let blocks = scan_blocks(&mut segments);
    assert_eq!(blocks.len(), 2);
    let mut expected = [0i16; 64];
    for at in 49..63 {
        expected[at] = 1;
    }
    expected[63] = -1;
    assert_eq!(blocks[0], expected);
    assert_eq!(blocks[1], block_with(&[(0, -1)]));
}

#[test]
fn run_before_the_last_place_stores_there() {
    let mut bits = String::from("00 100 100 100");
    for _ in 0..12 {
        bits.push_str(" 01 1");
    }
    bits.push_str(" 101 0");
    bits.push_str(" 00");
    bits.push_str("  00 00");
    let data = pack(&bits);
    let mut segments = segments_of(&data, (2, 2));
    let blocks = scan_blocks(&mut segments);
    assert_eq!(blocks.len(), 2);
    let mut expected = [0i16; 64];
    for at in 49..61 {
        expected[at] = 1;
    }
    expected[62] = -1;
    assert_eq!(blocks[0], expected);
    assert_eq!(blocks[1], [0i16; 64]);
}

#[test]
fn symbol_at_the_last_place_is_stored_there_or_ends_the_block() {
    let mut bits = String::from("00 100 100 100");
    for _ in 0..14 {
        bits.push_str(" 01 1");
    }
    bits.push_str(" 101 0");
    bits.push_str("  00 100 100 100");
    for _ in 0..14 {
        bits.push_str(" 01 1");
    }
    bits.push_str(" 00");
    bits.push_str("  00 00");
    let data = pack(&bits);
    let mut segments = segments_of(&data, (2, 2));
    let blocks = scan_blocks(&mut segments);
    assert_eq!(blocks.len(), 3);
    let mut first = [0i16; 64];
    for at in 49..63 {
        first[at] = 1;
    }
    let mut second = first;
    first[63] = -1;
    second[63] = 0;
    assert_eq!(blocks[0], first);
    assert_eq!(blocks[1], second);
    assert_eq!(blocks[2], [0i16; 64]);
}

#[test]
fn dc_values_add_up_within_each_component() {
    let data = pack("011 11 00  010 0 00  00 00  100 000 00   10 11 00  01 0 00   011 10 00");
    let mut segments = segments_of(&data, (2, 2));
    let blocks = scan_blocks(&mut segments);
    assert_eq!(blocks.len(), 7);
    assert_eq!(blocks[0][0], 3);
    assert_eq!(blocks[1][0], 2);
    assert_eq!(blocks[2][0], 2);
    assert_eq!(blocks[3][0], -5);
    assert_eq!(blocks[4][0], 3);
    assert_eq!(blocks[5][0], -1);
    assert_eq!(blocks[6][0], -3);
}

#[test]
fn units_follow_the_sampling_factors() {
    let data = pack("010 1 00  01 1 00  10 11 00  010 1 00  01 0 00");
    let mut segments = segments_of(&data, (1, 1));
    let blocks = scan_blocks(&mut segments);
    assert_eq!(blocks.len(), 5);
    assert_eq!(blocks[0][0], 1);
    assert_eq!(blocks[1][0], 1);
    assert_eq!(blocks[2][0], 3);
    assert_eq!(blocks[3][0], 2);
    assert_eq!(blocks[4][0], 0);
    let wide = pack("00 00  00 00  01 1 00  01 1 00");
    let mut two = segments_of(&wide, (2, 1));
    let blocks = scan_blocks(&mut two);
    assert_eq!(blocks.len(), 4);
    assert_eq!(blocks[2][0], 1);
    assert_eq!(blocks[3][0], 1);
}

#[test]
fn stuffed_bytes_are_no_data() {
    let data = pack("1111110 111111111 01 1 00   00 00");
    assert_eq!(data[..3], [0xFD, 0xFF, 0x00]);
    let mut segments = segments_of(&data, (2, 2));
    let blocks = scan_blocks(&mut segments);
    assert_eq!(blocks.len(), 2);
    assert_eq!(blocks[0], block_with(&[(0, 511), (1, 1)]));
    assert_eq!(blocks[1], block_with(&[(0, 511)]));
}

#[test]
fn marker_stops_the_scan_and_keeps_whole_blocks() {
    let mut data = pack("00 00  010 1 00");
    data.extend_from_slice(&[0xFF, 0xD0]);
    data.extend(pack("00 00 00 00"));
    let mut segments = segments_of(&data, (2, 2));
    let blocks = scan_blocks(&mut segments);
    assert_eq!(blocks.len(), 2);
    assert_eq!(blocks[1][0], 1);
}

#[test]
fn span_that_ends_within_a_block_drops_the_block() {
    let data = pack("010 1 00  011 11 01 1 01");
    let mut segments = segments_of(&data, (2, 2));
    let blocks = scan_blocks(&mut segments);
    assert_eq!(blocks.len(), 1);
    assert_eq!(blocks[0], block_with(&[(0, 1)]));
}

#[test]
fn bits_without_a_code_stop_the_scan() {
    let data = pack("00 00  00 11 00 00");
    let mut segments = segments_of(&data, (2, 2));
    let blocks = scan_blocks(&mut segments);
    assert_eq!(blocks.len(), 1);
    assert_eq!(segments.huffman_tables[1].tree.forward(0), Ok(None));
    assert_eq!(segments.huffman_tables[1].tree.forward(0), Ok(Some(0)));
}

#[test]
fn category_above_fifteen_stops_the_scan() {
    let data = pack("1 00  0 0000000000000000 00");
    let mut segments = segments_of(&data, (2, 2));
    segments.huffman_tables[0] = table(0x00, &[2], &[16, 0]);
    let blocks = scan_blocks(&mut segments);
    assert_eq!(blocks.len(), 1);
}

#[test]
fn dc_value_that_leaves_sixteen_bits_stops_the_scan() {
    let data = pack("0 111111111111111 00   0 111111111111111 00");
    let mut segments = segments_of(&data, (2, 2));
    segments.huffman_tables[0] = table(0x00, &[1], &[15]);
    let blocks = scan_blocks(&mut segments);
    assert_eq!(blocks.len(), 1);
    assert_eq!(blocks[0][0], 32767);
    let low = pack("0 000000000000000 00   0 000000000000000 00");
    let mut segments = segments_of(&low, (2, 2));
    segments.huffman_tables[0] = table(0x00, &[1], &[15]);
    let blocks = scan_blocks(&mut segments);
    assert_eq!(blocks.len(), 1);
    assert_eq!(blocks[0][0], -32767);
}

#[test]
fn scan_without_its_tables_gives_no_block() {
    let data = pack("00 00 00 00");
    let mut no_scan = segments_of(&data, (2, 2));
    no_scan.start_of_scan = None;
    assert_eq!(scan_blocks(&mut no_scan).len(), 0);
    let mut no_tables = segments_of(&data, (2, 2));
    no_tables.huffman_tables.clear();
    assert_eq!(scan_blocks(&mut no_tables).len(), 0);
    let mut no_ac = segments_of(&data, (2, 2));
    no_ac.huffman_tables.remove(1);
    assert_eq!(scan_blocks(&mut no_ac).len(), 0);
    let mut one_component = segments_of(&data, (1, 1));
    one_component.start_of_scan.as_mut().unwrap().components.truncate(1);
    assert_eq!(scan_blocks(&mut one_component).len(), 1);
    let mut no_frame = segments_of(&data, (2, 2));
    no_frame.start_of_frame = None;
    assert_eq!(scan_blocks(&mut no_frame).len(), 2);
}

#[test]
fn tables_are_found_by_class_and_slot() {
    let data = pack("010 1 00  00 00  00 00  00 00  01 1 00  10 11 00");
    let mut segments = segments_of(&data, (2, 2));
    segments.huffman_tables =
        vec![ac_chrominance(), dc_chrominance(), ac_luminance(), dc_luminance()];
    let blocks = scan_blocks(&mut segments);
    assert_eq!(blocks.len(), 6);
    assert_eq!(blocks[0][0], 1);
    assert_eq!(blocks[4][0], 1);
    assert_eq!(blocks[5][0], 3);
}

#[test]
fn scan_starts_from_the_root_and_ends_on_it() {
    let data = pack("010 1 00  1111");
    let mut segments = segments_of(&data, (2, 2));
    assert_eq!(segments.huffman_tables[0].tree.forward(1), Ok(None));
    assert_eq!(segments.huffman_tables[1].tree.forward(1), Ok(None));
    let blocks = scan_blocks(&mut segments);
    assert_eq!(blocks.len(), 1);
    assert_eq!(segments.huffman_tables[0].tree.forward(0), Ok(None));
    assert_eq!(segments.huffman_tables[0].tree.forward(0), Ok(Some(0)));
    assert_eq!(segments.huffman_tables[1].tree.forward(0), Ok(None));
}

#[test]
fn scan_of_a_parsed_file() {
    let mut file = vec![0xFF, 0xD8];
    let frame: [u8; 15] = [8, 0, 8, 0, 8, 3, 1, 0x22, 0, 2, 0x11, 1, 3, 0x11, 1];
    let mut push = |kind: u8, payload: &[u8]| {
        let length = payload.len() + 2;
        file.extend_from_slice(&[0xFF, kind, (length >> 8) as u8, (length & 0xFF) as u8]);
        file.extend_from_slice(payload);
    };
    push(0xC0, &frame);
    push(0xC4, &huffman_payload(0x01, &[0, 3, 1], &[0, 1, 2, 3]));
    push(0xC4, &huffman_payload(0x11, &[0, 2], &[0x00, 0x01]));
    push(0xC4, &huffman_payload(0x10, &[0, 2, 2], &[0x00, 0x01, 0xF0, 0x11]));
    push(0xC4, &huffman_payload(
        0x00,
        &[0, 1, 5, 1, 1, 1, 1, 1, 1],
        &[0, 1, 2, 3, 4, 5, 6, 7, 8, 9, 10, 11],
    ));
    push(0xDA, &[3, 1, 0x00, 2, 0x11, 3, 0x11, 0, 63, 0]);
    file.extend_from_slice(&[0xF7, 0xF0, 0x00, 0x00, 0x3F, 0xFF, 0xD9]);
    let mut segments = parse(&file).unwrap();
    let blocks = scan_blocks(&mut segments);
    assert_eq!(blocks.len(), 6);
    assert_eq!(blocks[3][0], 127);
    assert_eq!(blocks[5][0], 0);
}

#[test]
fn read_symbol_walks_to_a_leaf() {
    let data = pack("111111110 010 1111");
    let mut table = dc_luminance();
    let mut stream = BitStream::new(&data);
    assert_eq!(data, [0xFF, 0x00, 0x2F]);
    assert_eq!(read_symbol(&mut table.tree, &mut stream), Ok(11));
    assert_eq!(stream.get_pos(), 17);
    assert_eq!(read_symbol(&mut table.tree, &mut stream), Ok(1));
    assert_eq!(stream.get_pos(), 20);
    assert_eq!(
        read_symbol(&mut table.tree, &mut stream),
        Err(DecodeError::UnexpectedEndOfStream)
    );
    assert_eq!(stream.get_pos(), 24);
    let mut fresh = dc_luminance();
    let mut other = BitStream::new(&[0xFF, 0x00, 0xFF, 0x00]);
    assert_eq!(read_symbol(&mut fresh.tree, &mut other), Err(DecodeError::TreeDecodeFailure));
    assert_eq!(other.get_pos(), 17);
}

#[test]
fn blocks_come_in_units_of_six() {
    let mut state = ScanState::start(4);
    let mut order = Vec::new();
    for _ in 0..13 {
        order.push((state.component, state.remaining, state.index));
        state = state.advance(4);
    }
    let unit = [
        (ComponentId::LumY, 4, 0),
        (ComponentId::LumY, 3, 0),
        (ComponentId::LumY, 2, 0),
        (ComponentId::LumY, 1, 0),
        (ComponentId::ChromCb, 4, 0),
        (ComponentId::ChromCr, 4, 0),
    ];
    for (n, state) in order.iter().enumerate() {
        assert_eq!(*state, unit[n % 6]);
    }
}

#[test]
fn units_of_one_and_of_no_luminance_block() {
    let mut state = ScanState::start(1);
    state = state.advance(1);
    assert_eq!(state.component, ComponentId::ChromCb);
    state = state.advance(1);
    assert_eq!(state.component, ComponentId::ChromCr);
    state = state.advance(1);
    assert_eq!(state, ScanState { component: ComponentId::LumY, remaining: 1, index: 0 });
    let none = ScanState::start(0).advance(0);
    assert_eq!(none.component, ComponentId::ChromCb);
    let mid = ScanState { component: ComponentId::LumY, remaining: 2, index: 40 };
    assert_eq!(
        mid.advance(4),
        ScanState { component: ComponentId::LumY, remaining: 1, index: 0 }
    );
}

#[test]
fn what_an_ac_symbol_asks_for() {
    assert_eq!(AcAction::of(1, 0x00), AcAction::EndOfBlock);
    assert_eq!(AcAction::of(63, 0x00), AcAction::EndOfBlock);
    assert_eq!(AcAction::of(1, 0x01), AcAction::Store { at: 1, category: 1 });
    assert_eq!(AcAction::of(5, 0x37), AcAction::Store { at: 8, category: 7 });
    assert_eq!(AcAction::of(1, 0xF0), AcAction::Store { at: 16, category: 0 });
    assert_eq!(AcAction::of(47, 0xFA), AcAction::Store { at: 62, category: 10 });
    assert_eq!(AcAction::of(48, 0xFA), AcAction::StoreLast { category: 10 });
    assert_eq!(AcAction::of(62, 0x12), AcAction::StoreLast { category: 2 });
    assert_eq!(AcAction::of(63, 0x05), AcAction::StoreLast { category: 5 });
    assert_eq!(AcAction::of(60, 0xF3), AcAction::StoreLast { category: 3 });
}

#[test]
fn previous_dc_of_each_component() {
    let previous = PrevDC { lum: 1, cb: 2, cr: 3 };
    assert_eq!(previous.of(ComponentId::LumY), 1);
    assert_eq!(previous.of(ComponentId::ChromCb), 2);
    assert_eq!(previous.of(ComponentId::ChromCr), 3);
    assert_eq!(previous.with(ComponentId::ChromCb, -9), PrevDC { lum: 1, cb: -9, cr: 3 });
    assert_eq!(previous.with(ComponentId::LumY, 7), PrevDC { lum: 7, cb: 2, cr: 3 });
    assert_eq!(previous.with(ComponentId::ChromCr, 0), PrevDC { lum: 1, cb: 2, cr: 0 });
}
