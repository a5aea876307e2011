use systems::deflate::{BitReader, BitWriter, Compressor, Deflate, Lz77Token};

#[test]
fn test_lz77_basic_match() {
    let data = b"abracadabra";
    let tokens = Deflate::lz77_compress(data);
    let mut match_count = 0;
    for t in &tokens {
        match t {
            Lz77Token::Literal(_) => (),
            Lz77Token::Match { .. } => match_count += 1,
        }
    }
    assert!(match_count > 0);
}

#[test]
fn test_bit_writer_reader() {
    let mut writer = BitWriter::new();
    writer.write_bits(0b101, 3);
    writer.write_bits(0b1100, 4);
    writer.write_bits(0b1, 1);
    let bytes = writer.flush();

    let mut reader = BitReader::new(&bytes);
    assert_eq!(reader.read_bits(3), Some(0b101));
    assert_eq!(reader.read_bits(4), Some(0b1100));
    assert_eq!(reader.read_bits(1), Some(0b1));
    assert_eq!(reader.read_bits(1), None);
}

#[test]
fn test_deflate_compress_decompress_empty() {
    let data = b"";
    let compressed = Deflate::compress(data);
    let decompressed = Deflate::decompress(&compressed).unwrap();
    assert_eq!(data, decompressed.as_slice());
}

#[test]
fn test_deflate_compress_decompress_no_matches() {
    let data = b"abcdefg";
    let compressed = Deflate::compress(data);
    let decompressed = Deflate::decompress(&compressed).unwrap();
    assert_eq!(data, decompressed.as_slice());
}

#[test]
fn test_deflate_compress_decompress_highly_compressible() {
    let data = vec![b'A'; 1000];
    let compressed = Deflate::compress(&data);
    assert!(compressed.len() < 100);
    let decompressed = Deflate::decompress(&compressed).unwrap();
    assert_eq!(data, decompressed);
}

#[test]
fn test_deflate_compress_decompress_mixed() {
    let data = b"The quick brown fox jumps over the lazy dog. The quick brown fox jumps again!";
    let compressed = Deflate::compress(data);
    let decompressed = Deflate::decompress(&compressed).unwrap();
    assert_eq!(data, decompressed.as_slice());
}

#[test]
fn deflate_lz77_tokens_exact() {
    // "aaaa": a literal, then a 3-byte copy from one byte back.
    let tokens = Deflate::lz77_compress(b"aaaa");
    assert_eq!(tokens, vec![Lz77Token::Literal(b'a'), Lz77Token::Match { length: 3, distance: 1 }]);
    let tokens = Deflate::lz77_compress(b"abcabc");
    assert_eq!(
        tokens,
        vec![
            Lz77Token::Literal(b'a'),
            Lz77Token::Literal(b'b'),
            Lz77Token::Literal(b'c'),
            Lz77Token::Match { length: 3, distance: 3 },
        ]
    );
}

#[test]
fn deflate_round_trip_many_inputs() {
    let mut inputs: Vec<Vec<u8>> = vec![vec![0u8], vec![255u8; 3], (0..=255u8).collect(), b"ab".repeat(400)];
    let mut x: u32 = 12345;
    let mut noisy = Vec::new();
    for _ in 0..2000 {
        x = x.wrapping_mul(1103515245).wrapping_add(12345);
        noisy.push((x >> 16) as u8 % 7);
    }
    inputs.push(noisy);
    for data in inputs {
        let packed = Deflate::compress(&data);
        assert_eq!(Deflate::decompress(&packed).unwrap(), data);
    }
}

#[test]
fn deflate_decompress_errors() {
    // A lone internal-node bit and nothing after it: the tree cannot be read.
    assert_eq!(Deflate::decompress(&[0u8]), Err("Failed to read Huffman tree"));
    // A valid stream cut short loses its end marker.
    let packed = Deflate::compress(b"hello hello hello");
    let cut = &packed[..packed.len() - 2];
    assert!(Deflate::decompress(cut).is_err());
}

#[test]
fn deflate_bit_reader_long_reads() {
    let mut w = BitWriter::new();
    w.write_bits(0xDEAD_BEEF, 32);
    w.write_bits(0x3, 2);
    let bytes = w.flush();
    assert_eq!(bytes.len(), 5);
    let mut r = BitReader::new(&bytes);
    assert_eq!(r.read_bits(32), Some(0xDEAD_BEEF));
    assert_eq!(r.read_bit(), Some(true));
    assert_eq!(r.read_bit(), Some(true));
    assert_eq!(r.read_bits(6), Some(0));
    assert_eq!(r.read_bit(), None);
}
