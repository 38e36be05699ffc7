use letitrust::dns::{decode_txt_answers, encode_txt_query};
use letitrust::ReconError;

#[test]
fn query_encodes_to_wire_bytes() {
    let bytes = encode_txt_query("example.com").unwrap();
    // A DNS message starts with a 12-byte header, followed by the question.
    assert!(bytes.len() > 12);
    // One question, no answers.
    assert_eq!(&bytes[4..12], &[0, 1, 0, 0, 0, 0, 0, 1]);
}

#[test]
fn encoded_query_decodes_with_no_answers() {
    let bytes = encode_txt_query("example.com").unwrap();
    let answers = decode_txt_answers(&bytes).unwrap();
    assert!(answers.is_empty());
}

#[test]
fn truncated_reply_is_a_codec_error() {
    let r = decode_txt_answers(&[0u8, 1u8, 2u8]);
    assert!(matches!(r, Err(ReconError::Codec(_))));
}
