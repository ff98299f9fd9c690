use chunked_transfer::decode_all_with;
use chunked_transfer::Decoder;
use chunked_transfer::DecoderError;

fn drain(decoder: &mut Decoder, cap: usize) -> Result<Vec<u8>, DecoderError> {
    let mut out: Vec<u8> = Vec::new();
    let mut buf: Vec<u8> = vec![0u8; cap];
    loop {
        let n = decoder.read(&mut buf)?;
        if n == 0 {
            return Ok(out);
        }
        out.extend_from_slice(&buf[..n]);
    }
}

#[test]
fn test_valid_chunk_decode() {
    let source = "3\r\nhel\r\nb\r\nlo world!!!\r\n0\r\n\r\n".to_string().into_bytes();
    let mut decoded = Decoder::new(source);

    let string = String::from_utf8(drain(&mut decoded, 32).unwrap()).unwrap();

    assert_eq!(string, "hello world!!!");
}

#[test]
fn test_decode_zero_length() {
    let mut decoder = Decoder::new(b"0\r\n\r\n".to_vec());

    let decoded = String::from_utf8(drain(&mut decoder, 32).unwrap()).unwrap();

    assert_eq!(decoded, "");
}

#[test]
fn test_decode_invalid_chunk_length() {
    let mut decoder = Decoder::new(b"m\r\n\r\n".to_vec());

    assert!(drain(&mut decoder, 32).is_err());
}

#[test]
fn invalid_input1() {
    let source = "2\r\nhel\r\nb\r\nlo world!!!\r\n0\r\n".to_string().into_bytes();
    let mut decoded = Decoder::new(source);

    let _ = drain(&mut decoded, 32).is_err();
}

#[test]
fn invalid_input2() {
    let source = "3\rhel\r\nb\r\nlo world!!!\r\n0\r\n".to_string().into_bytes();
    let mut decoded = Decoder::new(source);

    let _ = drain(&mut decoded, 32).is_err();
}

#[test]
fn worked_example_decodes_exactly() {
    let encoded = b"3\r\nhel\r\nb\r\nlo world!!!\r\n0\r\n\r\n".to_vec();
    assert_eq!(decode_all_with(encoded, 1024), Ok(b"hello world!!!".to_vec()));
}

#[test]
fn buffer_size_independence() {
    let encoded = b"3\r\nhel\r\nb\r\nlo world!!!\r\n0\r\n\r\n";
    let whole = decode_all_with(encoded.to_vec(), 4096);
    assert_eq!(decode_all_with(encoded.to_vec(), 1), whole);
    assert_eq!(decode_all_with(encoded.to_vec(), 2), whole);
    assert_eq!(decode_all_with(encoded.to_vec(), 7), whole);
    assert_eq!(whole, Ok(b"hello world!!!".to_vec()));
}

#[test]
fn terminal_chunk_is_clean_end_not_error() {
    assert_eq!(decode_all_with(b"0\r\n\r\n".to_vec(), 1), Ok(Vec::new()));
}

#[test]
fn malformed_size_is_reported_as_such() {
    assert_eq!(
        decode_all_with(b"m\r\n\r\n".to_vec(), 8),
        Err(DecoderError::MalformedChunkSize)
    );
}

#[test]
fn size_line_missing_newline_is_malformed() {
    let encoded = b"3\rhel\r\nb\r\nlo world!!!\r\n0\r\n".to_vec();
    assert_eq!(decode_all_with(encoded, 8), Err(DecoderError::MalformedChunkSize));
}

#[test]
fn wrong_bytes_after_chunk_data_are_a_missing_terminator() {
    let encoded = b"2\r\nhel\r\nb\r\nlo world!!!\r\n0\r\n".to_vec();
    assert_eq!(decode_all_with(encoded, 8), Err(DecoderError::MissingChunkTerminator));
}

#[test]
fn empty_size_token_is_malformed() {
    assert_eq!(
        decode_all_with(b"\r\n0\r\n\r\n".to_vec(), 8),
        Err(DecoderError::MalformedChunkSize)
    );
}

#[test]
fn chunk_extension_is_rejected_not_stripped() {
    let encoded = b"3;ext=1\r\nhel\r\n0\r\n\r\n".to_vec();
    assert_eq!(decode_all_with(encoded, 8), Err(DecoderError::MalformedChunkSize));
}

#[test]
fn overflowing_size_is_malformed() {
    let encoded = b"10000000000000000\r\nx\r\n0\r\n\r\n".to_vec();
    assert_eq!(decode_all_with(encoded, 8), Err(DecoderError::MalformedChunkSize));
}

#[test]
fn largest_spellable_size_is_not_an_overflow() {
    // 16 digits spell usize::MAX itself on a 64-bit machine: the size parses,
    // and the stream then fails only for want of that much data.
    let encoded = b"ffffffffffffffff\r\nx".to_vec();
    assert_eq!(decode_all_with(encoded, 8), Err(DecoderError::UnexpectedEndOfSource));
}

#[test]
fn uppercase_hex_size_is_accepted() {
    let encoded = b"B\r\nlo world!!!\r\n0\r\n\r\n".to_vec();
    assert_eq!(decode_all_with(encoded, 16), Ok(b"lo world!!!".to_vec()));
}

#[test]
fn source_exhausted_mid_chunk_is_an_error_not_an_end() {
    assert_eq!(
        decode_all_with(b"4\r\nab".to_vec(), 8),
        Err(DecoderError::UnexpectedEndOfSource)
    );
}

#[test]
fn source_exhausted_before_size_line_ends() {
    assert_eq!(
        decode_all_with(b"3".to_vec(), 8),
        Err(DecoderError::UnexpectedEndOfSource)
    );
}

#[test]
fn missing_final_crlf_after_terminal_chunk() {
    assert_eq!(
        decode_all_with(b"0\r\n".to_vec(), 8),
        Err(DecoderError::UnexpectedEndOfSource)
    );
    assert_eq!(
        decode_all_with(b"0\r\nx\r\n".to_vec(), 8),
        Err(DecoderError::MissingChunkTerminator)
    );
}

#[test]
fn zero_capacity_read_is_a_no_op() {
    let mut decoder = Decoder::new(b"3\r\nhel\r\n0\r\n\r\n".to_vec());
    let mut empty: Vec<u8> = Vec::new();
    assert_eq!(decoder.read(&mut empty), Ok(0));
    // nothing was consumed: the full body still decodes afterwards
    assert_eq!(drain(&mut decoder, 16), Ok(b"hel".to_vec()));
}

#[test]
fn partial_reads_cross_the_chunk_little_by_little() {
    let mut decoder = Decoder::new(b"3\r\nhel\r\n0\r\n\r\n".to_vec());
    let mut buf: Vec<u8> = vec![0u8; 2];
    assert_eq!(decoder.read(&mut buf), Ok(2));
    assert_eq!(&buf[..2], b"he");
    assert_eq!(decoder.read(&mut buf), Ok(1));
    assert_eq!(&buf[..1], b"l");
    assert_eq!(decoder.read(&mut buf), Ok(0));
}

#[test]
fn reads_after_the_end_keep_reporting_zero() {
    let mut decoder = Decoder::new(b"0\r\n\r\n".to_vec());
    let mut buf: Vec<u8> = vec![0u8; 4];
    assert_eq!(decoder.read(&mut buf), Ok(0));
    assert_eq!(decoder.read(&mut buf), Ok(0));
    assert_eq!(decoder.read(&mut buf), Ok(0));
}

#[test]
fn empty_slices_between_chunks_of_a_round_trip() {
    // "ab" and "c" framed as chunks, as the round-trip law encodes them
    let encoded = b"2\r\nab\r\n1\r\nc\r\n0\r\n\r\n".to_vec();
    assert_eq!(decode_all_with(encoded, 1), Ok(b"abc".to_vec()));
}
