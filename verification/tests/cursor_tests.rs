use tanoshi::cursor::{decode_cursor, encode_cursor};
use tanoshi::error::Error;

fn round_trip(timestamp: i64, id: i64) {
    let token = encode_cursor(timestamp, id);
    assert_eq!(decode_cursor(&token), Ok((timestamp, id)));
}

#[test]
fn cursor_round_trip_simple() {
    round_trip(1, 2);
    round_trip(0, 0);
    round_trip(1_600_000_000, 42);
}

#[test]
fn cursor_round_trip_negative_and_extreme() {
    round_trip(-1, 7);
    round_trip(-1_000_000, -3);
    round_trip(i64::MAX, i64::MAX);
    round_trip(i64::MIN, i64::MIN);
    round_trip(i64::MIN, i64::MAX);
}

#[test]
fn cursor_is_base64_of_decimal_pair() {
    // "1#2" is the plain text; its standard base64 is "MSMy"
    assert_eq!(encode_cursor(1, 2), "MSMy");
    assert_eq!(encode_cursor(5, 7), base64::encode("5#7"));
    assert_eq!(
        encode_cursor(1_600_000_000, 42),
        base64::encode("1600000000#42")
    );
}

#[test]
fn cursor_decode_rejects_garbage() {
    assert_eq!(decode_cursor("!!!"), Err(Error::MalformedCursor));
    assert_eq!(decode_cursor(""), Err(Error::MalformedCursor));
    // valid base64, but no '#' separated decimal pair inside
    assert_eq!(
        decode_cursor(&base64::encode("hello")),
        Err(Error::MalformedCursor)
    );
    assert_eq!(
        decode_cursor(&base64::encode("1#2#3")),
        Err(Error::MalformedCursor)
    );
    assert_eq!(
        decode_cursor(&base64::encode("#1")),
        Err(Error::MalformedCursor)
    );
    assert_eq!(
        decode_cursor(&base64::encode("1#")),
        Err(Error::MalformedCursor)
    );
    assert_eq!(
        decode_cursor(&base64::encode("-#1")),
        Err(Error::MalformedCursor)
    );
}

#[test]
fn cursor_decode_rejects_out_of_range() {
    // one above i64::MAX
    assert_eq!(
        decode_cursor(&base64::encode("9223372036854775808#1")),
        Err(Error::MalformedCursor)
    );
    // one below i64::MIN
    assert_eq!(
        decode_cursor(&base64::encode("1#-9223372036854775809")),
        Err(Error::MalformedCursor)
    );
    // the exact bounds still parse
    assert_eq!(
        decode_cursor(&base64::encode("9223372036854775807#-9223372036854775808")),
        Ok((i64::MAX, i64::MIN))
    );
}

#[test]
fn cursor_decode_accepts_plain_decimal_forms() {
    assert_eq!(decode_cursor(&base64::encode("007#-0")), Ok((7, 0)));
}
