//! The wire codec: serializer, parser, digests, media value objects.

use maruska::args::parse_args;
use maruska::hash;
use maruska::json::{get_field, parse_bytes, to_bytes, Value};
use maruska::media::{corrected_end_time, parse_dec_ns, Media, Playing, Request};

fn s(x: &str) -> Value {
    Value::Str(x.as_bytes().to_vec())
}

fn obj(pairs: Vec<(&str, Value)>) -> Value {
    Value::Obj(
        pairs
            .into_iter()
            .map(|(k, v)| (k.as_bytes().to_vec(), v))
            .collect(),
    )
}

fn field<'a>(v: &'a Value, k: &str) -> &'a Value {
    get_field(v, k).expect("missing field")
}

fn str_of(v: &Value) -> Vec<u8> {
    match v {
        Value::Str(b) => b.clone(),
        _ => panic!("not a string"),
    }
}

#[test]
fn md5() {
    assert_eq!(hash::md5(b""), b"d41d8cd98f00b204e9800998ecf8427e".to_vec());
    assert_eq!(hash::md5(b"a"), b"0cc175b9c0f1b6a831c399e269772661".to_vec());
    assert_eq!(hash::md5(b"abc"), b"900150983cd24fb0d6963f7d28e17f72".to_vec());
    assert_eq!(
        hash::md5(b"message digest"),
        b"f96b697d7cb7938d525a2f31aaf161d0".to_vec()
    );
    assert_eq!(
        hash::md5(b"abcdefghijklmnopqrstuvwxyz"),
        b"c3fcd3d76192e4007dfb496cca67e13b".to_vec()
    );
    assert_eq!(
        hash::md5(b"ABCDEFGHIJKLMNOPQRSTUVWXYZabcdefghijklmnopqrstuvwxyz0123456789"),
        b"d174ab98d277d9f5a5611c2c9f419d9f".to_vec()
    );
    assert_eq!(
        hash::md5(b"12345678901234567890123456789012345678901234567890123456789012345678901234567890"),
        b"57edf4a22be3c955ac49da2e2107b67a".to_vec()
    );
}

#[test]
fn serialize_message() {
    let m = obj(vec![
        ("type", s("follow")),
        (
            "which",
            Value::Arr(vec![s("playing"), s("requests")]),
        ),
    ]);
    assert_eq!(
        to_bytes(&m),
        br#"{"type":"follow","which":["playing","requests"]}"#.to_vec()
    );
}

#[test]
fn serialize_scalars() {
    assert_eq!(to_bytes(&Value::Null), b"null".to_vec());
    assert_eq!(to_bytes(&Value::Bool(true)), b"true".to_vec());
    assert_eq!(to_bytes(&Value::Bool(false)), b"false".to_vec());
    assert_eq!(to_bytes(&Value::Int(0)), b"0".to_vec());
    assert_eq!(to_bytes(&Value::Int(1234567890)), b"1234567890".to_vec());
    assert_eq!(to_bytes(&Value::Num(b"2.5".to_vec())), b"2.5".to_vec());
}

#[test]
fn serialize_escapes() {
    let v = Value::Str(b"a\"b\\c\nd".to_vec());
    assert_eq!(to_bytes(&v), br#""a\"b\\c\u000ad""#.to_vec());
}

#[test]
fn parse_structures() {
    let v = parse_bytes(b" {\"a\": [1, 2.5, null, true, \"x\\n\", \"\\u00e9\"] } ")
        .expect("should parse");
    let arr = match field(&v, "a") {
        Value::Arr(elems) => elems,
        _ => panic!("not an array"),
    };
    assert_eq!(arr.len(), 6);
    assert!(matches!(arr[0], Value::Int(1)));
    assert!(matches!(&arr[1], Value::Num(raw) if raw == b"2.5"));
    assert!(matches!(arr[2], Value::Null));
    assert!(matches!(arr[3], Value::Bool(true)));
    assert!(matches!(&arr[4], Value::Str(b) if b == b"x\n"));
    assert!(matches!(&arr[5], Value::Str(b) if b == &[0xC3u8, 0xA9].to_vec()));
}

#[test]
fn parse_rejects_malformed() {
    assert!(parse_bytes(b"{").is_none());
    assert!(parse_bytes(b"[1,]").is_none());
    assert!(parse_bytes(b"tru").is_none());
    assert!(parse_bytes(b"1 2").is_none());
    assert!(parse_bytes(b"\"unterminated").is_none());
    assert!(parse_bytes(b"").is_none());
}

#[test]
fn parse_round_trip() {
    let text = br#"{"type":"query_media","query":"beatles","token":4,"skip":75,"count":45}"#;
    let v = parse_bytes(text).expect("should parse");
    assert_eq!(to_bytes(&v), text.to_vec());
}

#[test]
fn value_round_trip_with_escapes() {
    // serialize, parse back, serialize again: the texts must agree
    let v = obj(vec![
        ("text", Value::Str(b"line\nbreak \"quoted\" back\\slash".to_vec())),
        (
            "mixed",
            Value::Arr(vec![
                Value::Null,
                Value::Bool(false),
                Value::Int(42),
                Value::Num(b"-3.25".to_vec()),
                obj(vec![("inner", s("x"))]),
            ]),
        ),
    ]);
    let text = to_bytes(&v);
    let parsed = parse_bytes(&text).expect("own rendering should parse");
    assert_eq!(to_bytes(&parsed), text);
}

#[test]
fn parse_rejects_surrogate_escapes() {
    assert!(parse_bytes(br#""\ud800""#).is_none());
    assert!(parse_bytes(br#""\zbad""#).is_none());
}

#[test]
fn decimal_nanoseconds() {
    assert_eq!(parse_dec_ns(b"231"), 231_000_000_000);
    assert_eq!(parse_dec_ns(b"231.5"), 231_500_000_000);
    assert_eq!(parse_dec_ns(b"-1.25"), -1_250_000_000);
    assert_eq!(parse_dec_ns(b"0.4571419"), 457_141_900);
    assert_eq!(parse_dec_ns(b"1e3"), 0);
    assert_eq!(parse_dec_ns(b"99999999999999999999"), i64::MAX);
}

#[test]
fn clock_skew_correction() {
    assert_eq!(corrected_end_time(100, 90, 95), 105);
    assert_eq!(corrected_end_time(100, 95, 90), 95);
    assert_eq!(corrected_end_time(i64::MAX, 0, 1), i64::MAX);
}

fn expected_media() -> Media {
    Media {
        artist: b"Queens Of The Stone Age".to_vec(),
        key: b"56bafc2c8dc01b4ea67fad9c".to_vec(),
        length_ns: 231_000_000_000,
        title: b"In the Fade".to_vec(),
        uploaded_by: b"dsprenkels".to_vec(),
    }
}

#[test]
fn decode_media() {
    let input = br#"
        {
           "artist":"Queens Of The Stone Age",
           "key":"56bafc2c8dc01b4ea67fad9c",
           "length":231,
           "title":"In the Fade",
           "uploadedByKey":"dsprenkels"
        }
    "#;
    let v = parse_bytes(input).expect("should parse");
    assert_eq!(Media::from_value(&v).expect("should decode"), expected_media());
}

#[test]
fn decode_playing() {
    let input = br#"
        {
          "byKey":"bkoks",
          "endTime":1459420207.0,
          "media":{
            "artist":"Queens Of The Stone Age",
            "key":"56bafc2c8dc01b4ea67fad9c",
            "length":231,
            "title":"In the Fade",
            "uploadedByKey":"dsprenkels"
          },
          "serverTime":1459419970.4571419
        }
    "#;
    let v = parse_bytes(input).expect("should parse");
    let got = Playing::from_value(&v, 1_459_419_970_457_141_900).expect("should decode");
    assert_eq!(got.requested_by, Some(b"bkoks".to_vec()));
    assert_eq!(got.media, expected_media());
}

#[test]
fn decode_request() {
    let input = br#"
        {
          "byKey":"bkoks",
          "key":3,
          "media":{
            "artist":"Queens Of The Stone Age",
            "key":"56bafc2c8dc01b4ea67fad9c",
            "length":231,
            "title":"In the Fade",
            "uploadedByKey":"dsprenkels"
          }
        }
    "#;
    let v = parse_bytes(input).expect("should parse");
    let expected = Request {
        by: Some(b"bkoks".to_vec()),
        key: 3,
        media: expected_media(),
    };
    assert_eq!(Request::from_value(&v).expect("should decode"), expected);
}

#[test]
fn decode_media_missing_field() {
    let v = parse_bytes(br#"{"artist":"x","key":"k","length":1,"title":"t"}"#).unwrap();
    assert!(Media::from_value(&v).is_none());
    let ok = str_of(field(
        &parse_bytes(br#"{"a":"b"}"#).unwrap(),
        "a",
    ));
    assert_eq!(ok, b"b".to_vec());
}

#[test]
fn args_scan() {
    let toks = vec![
        b"--host".to_vec(),
        b"http://example.net/api".to_vec(),
        b"--version".to_vec(),
    ];
    let args = parse_args(toks);
    assert_eq!(args.flag_host, Some(b"http://example.net/api".to_vec()));
    assert!(args.flag_version);
    assert!(!args.flag_help);
    let args2 = parse_args(vec![b"-h".to_vec()]);
    assert!(args2.flag_help);
    assert_eq!(args2.flag_host, None);
}
