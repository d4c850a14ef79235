use jpeg::huffman::{BitStream, DecodeError, Node, Tree};
use jpeg::parsing::{Class, Destination, HuffmanTable};

/// Payload of a table segment for DC luminance: codes of length 2 to 9.
fn dc_luminance_payload() -> Vec<u8> {
    let mut payload = vec![0x00];
    payload.extend_from_slice(&[0, 1, 5, 1, 1, 1, 1, 1, 1, 0, 0, 0, 0, 0, 0, 0]);
    payload.extend_from_slice(&[0, 1, 2, 3, 4, 5, 6, 7, 8, 9, 10, 11]);
    payload
}

#[test]
fn test_bit_stream() {
    let bytes = [0xFF, 0x00, 0b01001100];

    let mut bit_stream = BitStream::new(&bytes);

    assert_eq!(bit_stream.next_bit(), Some(1), "Next bit test");
    assert_eq!(bit_stream.next_bit(), Some(1), "Next bit test");
    assert_eq!(bit_stream.next_bit(), Some(1), "Next bit test");
    assert_eq!(bit_stream.next_bit(), Some(1), "Next bit test");
    assert_eq!(bit_stream.next_bit(), Some(1), "Next bit test");
    assert_eq!(bit_stream.next_bit(), Some(1), "Next bit test");
    assert_eq!(bit_stream.next_bit(), Some(1), "Next bit test");
    assert_eq!(bit_stream.next_bit(), Some(1), "Next bit test");
    assert_eq!(bit_stream.next_bit(), Some(0), "Next bit test");
    assert_eq!(bit_stream.next_bit(), Some(1), "Next bit test");
    assert_eq!(bit_stream.next_bit(), Some(0), "Next bit test");
    assert_eq!(bit_stream.next_bit(), Some(0), "Next bit test");
}

#[test]
fn test_bit_stream_over() {
    let bytes = [0b11001100, 0xFF, 0x01, 0b11001100];

    let mut bit_stream = BitStream::new(&bytes);

    assert_eq!(bit_stream.next_bit(), Some(1), "Next bit test");
    assert_eq!(bit_stream.next_bit(), Some(1), "Next bit test");
    assert_eq!(bit_stream.next_bit(), Some(0), "Next bit test");
    assert_eq!(bit_stream.next_bit(), Some(0), "Next bit test");
    assert_eq!(bit_stream.next_bit(), Some(1), "Next bit test");
    assert_eq!(bit_stream.next_bit(), Some(1), "Next bit test");
    assert_eq!(bit_stream.next_bit(), Some(0), "Next bit test");
    assert_eq!(bit_stream.next_bit(), Some(0), "Next bit test");
    assert_eq!(bit_stream.next_bit(), None, "Next bit test");
    assert_eq!(bit_stream.next_bit(), None, "Next bit test");
}

#[test]
fn test_bit_stream_get_coeff() {
    let bytes = [0b01110000, 0b10111110, 0b00001101];

    let mut bit_stream = BitStream::new(&bytes);

    assert_eq!(bit_stream.get_coeff(0), Ok(0), "Next bit test");
    assert_eq!(bit_stream.next_bit(), Some(0), "Next bit test");
    assert_eq!(bit_stream.get_pos(), 1, "Next bit test");
    assert_eq!(bit_stream.get_coeff(3), Ok(7), "Next bit test");
    assert_eq!(bit_stream.get_pos(), 4, "Next bit test");
    assert_eq!(bit_stream.get_coeff(3), Ok(-7), "Next bit test");
    assert_eq!(bit_stream.get_pos(), 7, "Next bit test");
    assert_eq!(bit_stream.next_bit(), Some(0), "Next bit test");
    assert_eq!(bit_stream.next_bit(), Some(1), "Next bit test");
    assert_eq!(bit_stream.get_coeff(5), Ok(-16), "Next bit test");
    assert_eq!(bit_stream.get_coeff(6), Ok(32), "Next bit test");
    assert_eq!(bit_stream.next_bit(), Some(1), "Next bit test");
    assert_eq!(bit_stream.get_coeff(3), Ok(5), "Next bit test");
}

#[test]
fn test_huffman() {
    let mut table = HuffmanTable::new(&dc_luminance_payload()).unwrap();
    let tree = &mut table.tree;

    assert_eq!(tree.forward(0), Ok(None));
    assert_eq!(tree.forward(0), Ok(Some(0)));

    assert_eq!(tree.forward(0), Ok(None));
    assert_eq!(tree.forward(1), Ok(None));
    assert_eq!(tree.forward(0), Ok(Some(1)));

    for _ in 0..8 {
        assert_eq!(tree.forward(1), Ok(None));
    }
    assert_eq!(tree.forward(0), Ok(Some(11)));

    for _ in 0..8 {
        assert_eq!(tree.forward(1), Ok(None));
    }
    assert_eq!(tree.forward(1), Err(DecodeError::TreeDecodeFailure), "No child");
}

#[test]
fn huffman_test_huffman_and_bits() {
    let bytes = [0b11110111, 0b11110100];

    let mut bit_stream = BitStream::new(&bytes);
    let mut table = HuffmanTable::new(&dc_luminance_payload()).unwrap();
    let tree = &mut table.tree;
    let mut value = 0;
    for _ in 0..16 {
        let bit = bit_stream.next_bit().unwrap();
        if let Ok(Some(x)) = tree.forward(bit) {
            value = bit_stream.get_coeff(x).unwrap();
            break;
        };
    }
    assert_eq!(value, 127);

    for _ in 0..16 {
        let bit = bit_stream.next_bit().unwrap();
        if let Ok(Some(x)) = tree.forward(bit) {
            value = bit_stream.get_coeff(x).unwrap();
            break;
        };
    }
    assert_eq!(value, -1);
}

#[test]
fn magnitude_of_category_three() {
    let mut high = BitStream::new(&[0b11100000]);
    assert_eq!(high.get_coeff(3), Ok(7));
    let mut low = BitStream::new(&[0b00000000]);
    assert_eq!(low.get_coeff(3), Ok(-7));
    let mut edge = BitStream::new(&[0b10001100]);
    assert_eq!(edge.get_coeff(3), Ok(4));
    assert_eq!(edge.get_coeff(3), Ok(-4));
}

#[test]
fn category_zero_reads_nothing() {
    let mut stream = BitStream::new(&[0b10110000]);
    assert_eq!(stream.get_coeff(0), Ok(0));
    assert_eq!(stream.get_pos(), 0);
    assert_eq!(stream.next_bit(), Some(1));
    let mut empty = BitStream::new(&[]);
    assert_eq!(empty.get_coeff(0), Ok(0));
}

#[test]
fn widest_category_fits() {
    let mut stream = BitStream::new(&[0xFF, 0x00, 0xFE, 0x00, 0x00]);
    assert_eq!(stream.get_coeff(15), Ok(32767));
    assert_eq!(stream.get_pos(), 23);
    assert_eq!(stream.next_bit(), Some(0));
    assert_eq!(stream.get_coeff(15), Ok(-32767));
}

#[test]
fn get_coeff_fails_when_the_span_ends() {
    let bytes = [0b10100000];
    let mut bit_stream = BitStream::new(&bytes);
    assert_eq!(bit_stream.get_coeff(6), Ok(40));
    assert_eq!(bit_stream.get_coeff(3), Err(DecodeError::UnexpectedEndOfStream));
    assert_eq!(bit_stream.get_pos(), 8);
    assert_eq!(bit_stream.next_bit(), None);
}

#[test]
fn empty_span_ends_at_once() {
    let mut stream = BitStream::new(&[]);
    assert_eq!(stream.next_bit(), None);
    assert_eq!(stream.get_pos(), 0);
    assert_eq!(stream.get_coeff(1), Err(DecodeError::UnexpectedEndOfStream));
}

#[test]
fn leading_zero_byte_is_data() {
    let mut stream = BitStream::new(&[0x00, 0x80]);
    for _ in 0..8 {
        assert_eq!(stream.next_bit(), Some(0));
    }
    assert_eq!(stream.next_bit(), Some(1));
    assert_eq!(stream.get_pos(), 9);
}

#[test]
fn stuffed_byte_counts_in_the_position() {
    let mut stream = BitStream::new(&[0xFF, 0x00, 0b01001100]);
    for _ in 0..8 {
        assert_eq!(stream.next_bit(), Some(1));
    }
    assert_eq!(stream.get_pos(), 8);
    assert_eq!(stream.next_bit(), Some(0));
    assert_eq!(stream.get_pos(), 17);
}

#[test]
fn stuffed_byte_at_the_end_ends_the_span() {
    let mut stream = BitStream::new(&[0xFF, 0x00]);
    for _ in 0..8 {
        assert_eq!(stream.next_bit(), Some(1));
    }
    assert_eq!(stream.next_bit(), None);
    assert_eq!(stream.next_bit(), None);
    assert_eq!(stream.get_pos(), 8);
}

#[test]
fn marker_ends_the_span_for_good() {
    let mut stream = BitStream::new(&[0xFF, 0xD0, 0x12]);
    for _ in 0..20 {
        assert_eq!(stream.next_bit(), None);
    }
    assert_eq!(stream.get_pos(), 0);
    let mut last = BitStream::new(&[0x80, 0xFF]);
    for _ in 0..8 {
        assert!(last.next_bit().is_some());
    }
    assert_eq!(last.next_bit(), None);
}

#[test]
fn marker_behind_a_stuffed_byte() {
    let mut stream = BitStream::new(&[0xFF, 0x00, 0xFF, 0xD9]);
    for _ in 0..8 {
        assert_eq!(stream.next_bit(), Some(1));
    }
    assert_eq!(stream.next_bit(), Some(1));
    assert_eq!(stream.next_bit(), None);
    assert_eq!(stream.next_bit(), None);
}

#[test]
fn new_tree_has_no_child() {
    let mut tree = Tree::new();
    assert_eq!(tree.forward(0), Err(DecodeError::TreeDecodeFailure));
    assert_eq!(tree.forward(1), Err(DecodeError::TreeDecodeFailure));
    let _node = Node::new();
}

#[test]
fn forward_refuses_what_is_no_bit() {
    let mut tree = Tree::new();
    tree.insert_code(0b10, 2, 7);
    assert_eq!(tree.forward(2), Err(DecodeError::TreeDecodeFailure));
    assert_eq!(tree.forward(255), Err(DecodeError::TreeDecodeFailure));
    assert_eq!(tree.forward(1), Ok(None));
    assert_eq!(tree.forward(3), Err(DecodeError::TreeDecodeFailure));
    assert_eq!(tree.forward(0), Ok(Some(7)));
}

#[test]
fn insert_code_takes_the_low_bits() {
    let mut tree = Tree::new();
    tree.insert_code(0b1111_1111_1111_0101, 3, 9);
    assert_eq!(tree.forward(1), Ok(None));
    assert_eq!(tree.forward(0), Ok(None));
    assert_eq!(tree.forward(1), Ok(Some(9)));
}

#[test]
fn insert_code_of_sixteen_bits() {
    let mut tree = Tree::new();
    tree.insert_code(0x8001, 16, 200);
    assert_eq!(tree.forward(1), Ok(None));
    for _ in 0..14 {
        assert_eq!(tree.forward(0), Ok(None));
    }
    assert_eq!(tree.forward(0), Err(DecodeError::TreeDecodeFailure));
    assert_eq!(tree.forward(1), Ok(Some(200)));
}

#[test]
fn later_symbol_replaces_the_earlier_one() {
    let mut tree = Tree::new();
    tree.insert_code(0, 1, 4);
    tree.insert_code(0, 1, 5);
    assert_eq!(tree.forward(0), Ok(Some(5)));
}

#[test]
fn failed_step_keeps_the_cursor() {
    let mut tree = Tree::new();
    tree.insert_code(0b01, 2, 3);
    assert_eq!(tree.forward(0), Ok(None));
    assert_eq!(tree.forward(0), Err(DecodeError::TreeDecodeFailure));
    assert_eq!(tree.forward(1), Ok(Some(3)));
}

#[test]
fn reset_puts_the_cursor_on_the_root() {
    let mut tree = Tree::new();
    tree.insert_code(0b01, 2, 3);
    assert_eq!(tree.forward(0), Ok(None));
    tree.reset();
    assert_eq!(tree.forward(0), Ok(None));
    assert_eq!(tree.forward(1), Ok(Some(3)));
}

#[test]
fn every_codeword_of_a_table_decodes_to_its_symbol() {
    let mut table = HuffmanTable::new(&dc_luminance_payload()).unwrap();
    assert_eq!(table.class, Class::DC);
    assert_eq!(table.destination, Destination::Luminance);
    let words: [(u16, u8); 12] = [
        (0b00, 2),
        (0b010, 3),
        (0b011, 3),
        (0b100, 3),
        (0b101, 3),
        (0b110, 3),
        (0b1110, 4),
        (0b11110, 5),
        (0b111110, 6),
        (0b1111110, 7),
        (0b11111110, 8),
        (0b111111110, 9),
    ];
    for (symbol, (code, length)) in words.iter().enumerate() {
        for k in (0..*length).rev() {
            let bit = ((code >> k) & 1) as u8;
            let step = table.tree.forward(bit);
            if k == 0 {
                assert_eq!(step, Ok(Some(symbol as u8)));
            } else {
                assert_eq!(step, Ok(None));
            }
        }
    }
}
