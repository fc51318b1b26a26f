use nearby::position::CurrentPos;
use nearby::wire::{encode_position, parse_roster};

fn pos(lati: i64, longi: i64, name: &str) -> CurrentPos {
    CurrentPos { lati, longi, name: String::from(name) }
}

#[test]
fn encode_whole_degrees() {
    let body = encode_position(&pos(10_000_000, 20_000_000, "Ana"));
    assert_eq!(body, "{\"lati\":10.0,\"longi\":20.0,\"name\":\"Ana\"}");
}

#[test]
fn encode_trims_fraction_but_keeps_one_digit() {
    let body = encode_position(&pos(-45_500_000, 2_000_001, ""));
    assert_eq!(body, "{\"lati\":-45.5,\"longi\":2.000001,\"name\":\"\"}");
}

#[test]
fn encode_zero() {
    let body = encode_position(&pos(0, 0, "x"));
    assert_eq!(body, "{\"lati\":0.0,\"longi\":0.0,\"name\":\"x\"}");
}

#[test]
fn encode_escapes_quote_and_backslash() {
    let body = encode_position(&pos(0, 0, "a\"b\\c"));
    assert_eq!(body, "{\"lati\":0.0,\"longi\":0.0,\"name\":\"a\\\"b\\\\c\"}");
}

#[test]
fn parse_single_entry() {
    let v = parse_roster("[{\"lati\":1,\"longi\":2,\"name\":\"Bob\"}]").unwrap();
    assert_eq!(v.len(), 1);
    assert_eq!(v[0].lati, 1_000_000);
    assert_eq!(v[0].longi, 2_000_000);
    assert_eq!(v[0].name, "Bob");
}

#[test]
fn parse_empty_array() {
    let v = parse_roster("[]").unwrap();
    assert!(v.is_empty());
}

#[test]
fn parse_two_entries_with_fractions() {
    let v = parse_roster(
        "[{\"lati\":1.5,\"longi\":-2.25,\"name\":\"A\"},{\"lati\":0,\"longi\":0.000001,\"name\":\"B\"}]",
    )
    .unwrap();
    assert_eq!(v.len(), 2);
    assert_eq!(v[0].lati, 1_500_000);
    assert_eq!(v[0].longi, -2_250_000);
    assert_eq!(v[0].name, "A");
    assert_eq!(v[1].lati, 0);
    assert_eq!(v[1].longi, 1);
    assert_eq!(v[1].name, "B");
}

#[test]
fn parse_unescapes_name() {
    let v = parse_roster("[{\"lati\":0,\"longi\":0,\"name\":\"a\\\"b\\\\c\"}]").unwrap();
    assert_eq!(v[0].name, "a\"b\\c");
}

#[test]
fn parse_rejects_malformed_bodies() {
    for bad in [
        "",
        "x",
        "[",
        "[]x",
        "[{\"lati\":1,\"longi\":2,\"name\":\"Bob\"}",
        "[{\"lati\":1,\"longi\":2,\"name\":\"Bob\"}]x",
        "[{\"longi\":2,\"lati\":1,\"name\":\"Bob\"}]",
        "[ {\"lati\":1,\"longi\":2,\"name\":\"Bob\"} ]",
        "[{\"lati\":,\"longi\":2,\"name\":\"Bob\"}]",
        "[{\"lati\":1,\"longi\":2,\"name\":\"Bob\"},]",
        "[{\"lati\":1,\"longi\":2,\"name\":\"Bo",
        "[{\"lati\":1,\"longi\":2,\"name\":\"B\\nb\"}]",
        "[{\"lati\":0.1234567,\"longi\":2,\"name\":\"Bob\"}]",
        "[{\"lati\":1234567890,\"longi\":2,\"name\":\"Bob\"}]",
        "[{\"lati\":1.,\"longi\":2,\"name\":\"Bob\"}]",
        "[{\"lati\":-,\"longi\":2,\"name\":\"Bob\"}]",
    ] {
        assert!(parse_roster(bad).is_err(), "must reject {:?}", bad);
    }
}

#[test]
fn parse_rejects_out_of_range_coordinates() {
    assert!(parse_roster("[{\"lati\":91,\"longi\":0,\"name\":\"x\"}]").is_err());
    assert!(parse_roster("[{\"lati\":-91,\"longi\":0,\"name\":\"x\"}]").is_err());
    assert!(parse_roster("[{\"lati\":0,\"longi\":181,\"name\":\"x\"}]").is_err());
    assert!(parse_roster("[{\"lati\":0,\"longi\":-180.000001,\"name\":\"x\"}]").is_err());
    assert!(parse_roster("[{\"lati\":90,\"longi\":180,\"name\":\"x\"}]").is_ok());
    assert!(parse_roster("[{\"lati\":-90,\"longi\":-180,\"name\":\"x\"}]").is_ok());
}

#[test]
fn encoded_positions_parse_back() {
    let people = [
        pos(10_000_000, 20_000_000, "Ana"),
        pos(-45_500_000, 2_000_001, "a\"b\\c"),
        pos(0, -180_000_000, ""),
        pos(90_000_000, 179_999_999, "Zoe"),
    ];
    let mut body = String::from("[");
    for (k, p) in people.iter().enumerate() {
        if k > 0 {
            body.push(',');
        }
        body.push_str(&encode_position(p));
    }
    body.push(']');
    let back = parse_roster(&body).unwrap();
    assert_eq!(back.len(), people.len());
    for (p, q) in people.iter().zip(back.iter()) {
        assert_eq!(p.lati, q.lati);
        assert_eq!(p.longi, q.longi);
        assert_eq!(p.name, q.name);
    }
}
