use bncsv::compr::{decode, DecoderUnfold, DecodingTree};
use bncsv::errors::BncsvError;
use bncsv::utf8::{build_utf8_lookup_table, eoc_symbol, standard_symbols, BnCsvConverter, Utf8Converter};

#[test]
fn test_round_trip_simple() {
    let input = b"12,3.4\n".to_vec();
    let (encoded, err) = Utf8Converter::encode(&input);
    assert!(err.is_none());
    assert_eq!(encoded, vec![0xAE, 0x3A, 0xA5, 0x96, 0x00]);
    let (decoded, derr) = Utf8Converter::decode(&encoded);
    assert!(derr.is_none());
    assert_eq!(decoded, input);
}

#[test]
fn test_encode_single_invalid_byte() {
    let (out, err) = Utf8Converter::encode(&vec![0x41]);
    assert_eq!(err, Some(BncsvError::InvalidData));
    assert!(out.is_empty());
}

#[test]
fn test_encode_failure_for_every_unsupported_byte() {
    for b in 0..=255u8 {
        let supported = b == 0x0A || b == 0x0D || b == 0x2C || b == 0x2D || b == 0x2E
            || (0x30..=0x39).contains(&b);
        let (_, err) = Utf8Converter::encode(&vec![b]);
        if supported {
            assert!(err.is_none(), "byte {} should encode", b);
        } else {
            assert_eq!(err, Some(BncsvError::InvalidData), "byte {} should fail", b);
        }
    }
}

#[test]
fn test_encode_partial_output_before_error() {
    // Three digits give 12 code bits: one whole byte is delivered before
    // the error, and the four bits of the broken group are dropped.
    let (out, err) = Utf8Converter::encode(&b"111A".to_vec());
    assert_eq!(err, Some(BncsvError::InvalidData));
    assert_eq!(out, vec![0b10101010]);
}

#[test]
fn test_encode_empty_input() {
    let (out, err) = Utf8Converter::encode(&Vec::new());
    assert!(err.is_none());
    assert_eq!(out, vec![0x60]);
    let (decoded, derr) = Utf8Converter::decode(&out);
    assert!(derr.is_none());
    assert!(decoded.is_empty());
}

#[test]
fn test_carriage_returns_are_dropped() {
    let (a, aerr) = Utf8Converter::encode(&b"1\r2".to_vec());
    let (b, berr) = Utf8Converter::encode(&b"12".to_vec());
    assert!(aerr.is_none() && berr.is_none());
    assert_eq!(a, b);
    let (decoded, derr) = Utf8Converter::decode(&a);
    assert!(derr.is_none());
    assert_eq!(decoded, b"12".to_vec());
}

#[test]
fn test_round_trip_larger() {
    let mut input = Vec::new();
    for row in 0..50 {
        for col in 0..8 {
            for d in [row + col, 10 - col, row % 7] {
                input.extend_from_slice((d as i64).to_string().as_bytes());
                input.push(b'.');
                input.push(b'0' + (d % 10) as u8);
                input.push(b',');
            }
        }
        input.push(b'\r');
        input.push(b'\n');
    }
    let (encoded, err) = Utf8Converter::encode(&input);
    assert!(err.is_none());
    let (decoded, derr) = Utf8Converter::decode(&encoded);
    assert!(derr.is_none());
    let expected: Vec<u8> = input.iter().copied().filter(|&b| b != b'\r').collect();
    assert_eq!(decoded, expected);
}

#[test]
fn test_decode_rejects_non_bit_value() {
    let tree = DecodingTree::new(&standard_symbols());
    let (out, err) = decode(tree, &eoc_symbol(), vec![5]);
    assert!(out.is_empty());
    assert_eq!(err, Some(BncsvError::InvalidData));
}

#[test]
fn test_decode_bits_of_one_digit() {
    // The code of '1' followed by the end-of-content code.
    let bits = vec![1, 0, 1, 0, 0, 1, 1, 0, 0, 0];
    let tree = DecodingTree::new(&standard_symbols());
    let (out, err) = decode(tree, &eoc_symbol(), bits);
    assert!(err.is_none());
    assert_eq!(out, vec![b'1']);
}

#[test]
fn test_padding_tolerance() {
    // Appending one to seven zero bits after the end-of-content code does
    // not change what is decoded.
    let base = vec![1, 0, 1, 0, 0, 1, 1, 0, 0, 0];
    for extra in 1..=7usize {
        let mut bits = base.clone();
        bits.extend(std::iter::repeat(0).take(extra));
        let tree = DecodingTree::new(&standard_symbols());
        let (out, err) = decode(tree, &eoc_symbol(), bits);
        assert!(err.is_none());
        assert_eq!(out, vec![b'1']);
    }
}

#[test]
fn test_decode_truncated_input_is_lenient() {
    // The code of '1' and then an unfinished code: the partial symbol is
    // dropped silently.
    let bits = vec![1, 0, 1, 0, 0, 1];
    let tree = DecodingTree::new(&standard_symbols());
    let (out, err) = decode(tree, &eoc_symbol(), bits);
    assert!(err.is_none());
    assert_eq!(out, vec![b'1']);
}

#[test]
fn test_input_after_eoc_is_ignored() {
    let bits = vec![0, 1, 1, 0, 0, 0, 1, 1, 1, 1];
    let tree = DecodingTree::new(&standard_symbols());
    let (out, err) = decode(tree, &eoc_symbol(), bits);
    assert!(err.is_none());
    assert!(out.is_empty());
}

#[test]
fn test_prefix_code_property() {
    let symbols = standard_symbols();
    for (i, a) in symbols.iter().enumerate() {
        for (j, b) in symbols.iter().enumerate() {
            if i != j {
                let is_prefix =
                    a.bits.len() <= b.bits.len() && a.bits[..] == b.bits[..a.bits.len()];
                assert!(!is_prefix, "code {} is a prefix of code {}", i, j);
            }
        }
    }
}

#[test]
fn test_decoder_unfold_yields_symbols() {
    let bits = vec![1, 0, 1, 0, 1, 1, 1, 0, 0, 1, 1, 0, 0, 0];
    let tree = DecodingTree::new(&standard_symbols());
    let mut unfold = DecoderUnfold::new(bits, tree, eoc_symbol());
    let first = unfold.next().unwrap().unwrap();
    assert_eq!(first.value, b'1');
    let second = unfold.next().unwrap().unwrap();
    assert_eq!(second.value, b'2');
    assert!(unfold.next().is_none());
}

#[test]
fn test_lookup_table_contents() {
    let table = build_utf8_lookup_table();
    assert_eq!(table.len(), 255);
    assert_eq!(table[b'5' as usize], Some(vec![0, 0, 0]));
    assert_eq!(table[b',' as usize], Some(vec![0, 0, 1]));
    assert_eq!(table[13], Some(vec![]));
    assert_eq!(table[b'A' as usize], None);
    assert_eq!(table[0], None);
}
