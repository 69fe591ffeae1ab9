use acorntorrent::error::DecodeError;
use acorntorrent::metainfo::BMetainfo;

#[test]
fn it_works() {
    assert_eq!(2 + 2, 4);
}

#[test]
fn empty_input_is_a_parse_failure() {
    let r = BMetainfo::from_bytes(&[]);
    assert!(matches!(r, Err(DecodeError::ParseFailure)));
}
