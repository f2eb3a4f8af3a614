use heed::types::{ByteSlice, FixedSlice, Ordcode, SerdeBincode, SerdeJson, Str, Unit};
use heed::{BytesDecode, BytesEncode};

#[test]
fn str_codec_round_trips_utf8() {
    let bytes = <Str as BytesEncode>::bytes_encode("hello wörld").unwrap();
    assert_eq!(bytes, "hello wörld".as_bytes().to_vec());
    let back = <Str as BytesDecode>::bytes_decode(&bytes).unwrap();
    assert_eq!(back, String::from("hello wörld"));
}

#[test]
fn str_codec_rejects_invalid_utf8() {
    assert_eq!(<Str as BytesDecode>::bytes_decode(&[0xFF, 0xFE]), None);
    assert_eq!(<Str as BytesDecode>::bytes_decode(&[0xC3]), None);
}

#[test]
fn byte_slice_codec_is_the_identity() {
    let bytes = <ByteSlice as BytesEncode>::bytes_encode(&[1, 2, 3]).unwrap();
    assert_eq!(bytes, vec![1, 2, 3]);
    let back = <ByteSlice as BytesDecode>::bytes_decode(&bytes).unwrap();
    assert_eq!(back, vec![1, 2, 3]);
}

#[test]
fn unit_codec_stores_nothing() {
    let bytes = <Unit as BytesEncode>::bytes_encode(&()).unwrap();
    assert_eq!(bytes, Vec::<u8>::new());
    assert_eq!(<Unit as BytesDecode>::bytes_decode(&bytes), Some(()));
    assert_eq!(<Unit as BytesDecode>::bytes_decode(&[9, 9]), Some(()));
}

#[test]
fn fixed_slice_codec_checks_the_length() {
    let bytes = <FixedSlice<4> as BytesEncode>::bytes_encode(&[1, 2, 3, 4]).unwrap();
    assert_eq!(bytes, vec![1, 2, 3, 4]);
    let back = <FixedSlice<4> as BytesDecode>::bytes_decode(&bytes).unwrap();
    assert_eq!(back, [1, 2, 3, 4]);
    assert_eq!(<FixedSlice<4> as BytesDecode>::bytes_decode(&[1, 2, 3]), None);
    assert_eq!(<FixedSlice<4> as BytesDecode>::bytes_decode(&[1, 2, 3, 4, 5]), None);
}

#[test]
fn bincode_codec_round_trips() {
    let bytes = SerdeBincode::<u32>::bytes_encode(&1234).unwrap();
    // The outside serializer really ran: a bare u32 is not stored as the
    // number's decimal text nor as the empty string.
    assert!(!bytes.is_empty());
    let back: u32 = SerdeBincode::<u32>::bytes_decode(&bytes).unwrap();
    assert_eq!(back, 1234);

    let pair = (String::from("k"), 7u64);
    let bytes = SerdeBincode::<(String, u64)>::bytes_encode(&pair).unwrap();
    let back: (String, u64) = SerdeBincode::<(String, u64)>::bytes_decode(&bytes).unwrap();
    assert_eq!(back, pair);
}

#[test]
fn json_codec_round_trips() {
    let value = vec![String::from("a"), String::from("b")];
    let bytes = SerdeJson::<Vec<String>>::bytes_encode(&value).unwrap();
    assert_eq!(bytes, b"[\"a\",\"b\"]".to_vec());
    let back: Vec<String> = SerdeJson::<Vec<String>>::bytes_decode(&bytes).unwrap();
    assert_eq!(back, value);
    assert_eq!(SerdeJson::<Vec<String>>::bytes_decode(b"not json"), None);
}

#[test]
fn ordcode_codec_preserves_order_and_caps_length() {
    let a = Ordcode::<u64>::bytes_encode(&3).unwrap();
    let b = Ordcode::<u64>::bytes_encode(&300).unwrap();
    assert!(a < b, "the ascending encoding keeps numeric order byte-wise");
    let back: u64 = Ordcode::<u64>::bytes_decode(&b).unwrap();
    assert_eq!(back, 300);

    // An encoding reaching the key ceiling is an encoding failure.
    let long = vec![7u8; 600];
    assert_eq!(Ordcode::<Vec<u8>>::bytes_encode(&long), None);
}
