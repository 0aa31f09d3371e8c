use rinha_vini::parse::{
    array_contains, extract_str, find_array_after, find_bool_after, find_number,
    find_number_after, find_string_after, mcc_lookup, parse_last_transaction, parse_number,
    parse_payload, skip_to_value,
};
use rinha_vini::vector::{Feature, Query, Span, D};

const PAYLOAD: &str = r#"{
  "id": "tx-3576980410",
  "transaction": {
    "amount": 384.88,
    "installments": 3,
    "requested_at": "2026-03-11T20:23:35Z"
  },
  "customer": {
    "avg_amount": 769.76,
    "tx_count_24h": 3,
    "known_merchants": ["MERC-009", "MERC-001"]
  },
  "merchant": {
    "id": "MERC-001",
    "mcc": "5912",
    "avg_amount": 298.95
  },
  "terminal": {
    "is_online": false,
    "card_present": true,
    "km_from_home": 13.7090520965
  },
  "last_transaction": {
    "timestamp": "2026-03-11T14:58:35Z",
    "km_from_current": 18.8626479774
  }
}"#;

fn text(body: &[u8], s: Span) -> &str {
    std::str::from_utf8(&body[s.start..s.end]).unwrap()
}

fn scaled(body: &[u8], f: Feature) -> (&str, u32) {
    match f {
        Feature::Scaled { number, limit } => (text(body, number), limit),
        other => panic!("not scaled: {:?}", other),
    }
}

fn fraction(part: u32, whole: u32) -> Feature {
    Feature::Fraction { part, whole }
}

#[test]
fn a_payload_gives_its_query() {
    let body = PAYLOAD.as_bytes();
    let q = parse_payload(body).unwrap();
    assert!(!q.no_history);
    assert_eq!(scaled(body, q.v[0]), ("384.88", 10000));
    assert_eq!(scaled(body, q.v[1]), ("3", 12));
    match q.v[2] {
        Feature::Ratio { number, base, limit } => {
            assert_eq!(text(body, number), "384.88");
            assert_eq!(text(body, base), "769.76");
            assert_eq!(limit, 10);
        }
        other => panic!("not a ratio: {:?}", other),
    }
    assert_eq!(q.v[3], fraction(20, 23));
    assert_eq!(q.v[4], fraction(2, 6));
    assert_eq!(
        q.v[5],
        Feature::Elapsed { seconds: 5 * 3600 + 25 * 60, limit: 1440 }
    );
    assert_eq!(scaled(body, q.v[6]), ("18.8626479774", 1000));
    assert_eq!(scaled(body, q.v[7]), ("13.7090520965", 1000));
    assert_eq!(scaled(body, q.v[8]), ("3", 20));
    assert_eq!(q.v[9], fraction(0, 1));
    assert_eq!(q.v[10], fraction(1, 1));
    assert_eq!(q.v[11], fraction(0, 1));
    assert_eq!(q.v[12], fraction(20, 100));
    assert_eq!(scaled(body, q.v[13]), ("298.95", 10000));
}

#[test]
fn a_null_last_transaction_is_no_history() {
    let at = PAYLOAD.find("\"last_transaction\"").unwrap();
    let body = format!("{}\"last_transaction\": null\n}}", &PAYLOAD[..at]);
    let q = parse_payload(body.as_bytes()).unwrap();
    assert!(q.no_history);
    for k in 0..D {
        assert_eq!(q.v[k] == Feature::Missing, k == 5 || k == 6);
    }
    let body = &PAYLOAD[..at];
    assert!(parse_payload(body.as_bytes()).unwrap().no_history);
}

#[test]
fn an_empty_last_transaction_is_history_at_zero() {
    let at = PAYLOAD.find("\"last_transaction\"").unwrap();
    let body = format!("{}\"last_transaction\": {{}}\n}}", &PAYLOAD[..at]);
    let q = parse_payload(body.as_bytes()).unwrap();
    assert!(!q.no_history);
    assert_eq!(q.v[5], Feature::Elapsed { seconds: 0, limit: 1440 });
    assert_eq!(q.v[6], fraction(0, 1));
}

#[test]
fn a_later_last_transaction_counts_as_now() {
    let body = PAYLOAD.replace("2026-03-11T14:58:35Z", "2026-03-12T14:58:35Z");
    let q = parse_payload(body.as_bytes()).unwrap();
    assert_eq!(q.v[5], Feature::Elapsed { seconds: 0, limit: 1440 });
}

#[test]
fn an_unknown_merchant_is_flagged() {
    let body = PAYLOAD.replace("\"MERC-009\", \"MERC-001\"", "\"MERC-009\"");
    assert_eq!(parse_payload(body.as_bytes()).unwrap().v[11], fraction(1, 1));
    let body = PAYLOAD.replace("\"MERC-009\", \"MERC-001\"", "");
    assert_eq!(parse_payload(body.as_bytes()).unwrap().v[11], fraction(1, 1));
}

#[test]
fn a_payload_without_a_field_is_malformed() {
    for key in [
        "\"amount\"",
        "\"installments\"",
        "\"requested_at\"",
        "\"avg_amount\"",
        "\"tx_count_24h\"",
        "\"known_merchants\"",
        "\"mcc\"",
        "\"km_from_home\"",
        "\"is_online\"",
        "\"card_present\"",
    ] {
        let body = PAYLOAD.replace(key, "\"x\"");
        assert!(parse_payload(body.as_bytes()).is_none(), "{}", key);
    }
    assert!(parse_payload(b"").is_none());
    assert!(parse_payload(b"{}").is_none());
    assert!(parse_payload(b"not json").is_none());
}

#[test]
fn a_payload_with_an_unreadable_value_is_malformed() {
    for (from, to) in [
        ("384.88", "\"much\""),
        ("384.88", "3.8.4"),
        ("\"installments\": 3", "\"installments\": e"),
        ("\"2026-03-11T20:23:35Z\"", "20260311"),
        ("2026-03-11T20:23:35Z", "2026-03-11T !:23:35Z"),
        ("false", "0"),
        ("[\"MERC-009\", \"MERC-001\"]", "\"MERC-001\""),
        ("[\"MERC-009\", \"MERC-001\"]", "[\"MERC-009\", \"MERC-001\""),
    ] {
        let body = PAYLOAD.replace(from, to);
        assert_ne!(body, PAYLOAD);
        assert!(parse_payload(body.as_bytes()).is_none(), "{}", to);
    }
}

#[test]
fn a_payload_that_is_cut_anywhere_is_no_panic() {
    for n in 0..PAYLOAD.len() {
        let _ = parse_payload(&PAYLOAD.as_bytes()[..n]);
    }
}

#[test]
fn numbers_are_recognized() {
    for t in ["0", "-1", "+1", "1.", ".5", "1.5", "1e3", "1E-3", "-.5e+10", "007"] {
        assert_eq!(
            parse_number(t.as_bytes(), 0),
            Some(Span { start: 0, end: t.len() }),
            "{}",
            t
        );
        assert!(t.parse::<f32>().is_ok());
    }
    for t in ["", "-", ".", "e3", "1e", "1e+", "1.2.3", "1-2", "--1", "+-1", "1e3.5"] {
        assert_eq!(parse_number(t.as_bytes(), 0), None, "{}", t);
        assert!(t.parse::<f32>().is_err());
    }
    assert_eq!(parse_number(b"a12,", 1), Some(Span { start: 1, end: 3 }));
    assert_eq!(parse_number(b"12", 3), None);
    assert_eq!(parse_number(b"12", 2), None);
}

#[test]
fn values_begin_past_the_colon_and_blanks() {
    assert_eq!(skip_to_value(b"\"k\" : \t 5", 3), Some(8));
    assert_eq!(skip_to_value(b"\"k\":5", 3), Some(4));
    assert_eq!(skip_to_value(b"\"k\"", 3), Some(4));
}

#[test]
fn fields_are_found_after_a_position() {
    let b = b"{\"a\": 1, \"a\": -2.5e1, \"s\": \"x y\", \"t\": true, \"f\":false, \"n\": null}";
    assert_eq!(find_number(b, b"\"a\""), Some(Span { start: 6, end: 7 }));
    let s = find_number_after(b, b"\"a\"", 6).unwrap();
    assert_eq!(extract_str(b, s), b"-2.5e1");
    assert_eq!(find_number(b, b"\"z\""), None);
    assert_eq!(find_number(b, b"\"s\""), None);
    let s = find_string_after(b, b"\"s\"", 0).unwrap();
    assert_eq!(extract_str(b, s), b"x y");
    assert_eq!(find_string_after(b, b"\"a\"", 0), None);
    assert_eq!(find_string_after(b"\"s\": \"open", b"\"s\"", 0), None);
    assert_eq!(find_string_after(b"\"s\"", b"\"s\"", 0), None);
    assert_eq!(find_bool_after(b, b"\"t\"", 0), Some(true));
    assert_eq!(find_bool_after(b, b"\"f\"", 0), Some(false));
    assert_eq!(find_bool_after(b, b"\"n\"", 0), None);
    assert_eq!(find_bool_after(b, b"\"z\"", 0), None);
}

#[test]
fn arrays_are_found_whole() {
    let key = b"\"k\"";
    assert_eq!(
        find_array_after(b"\"k\": [\"a\", \"b\"], 1", key, 0),
        Some(&b"\"a\", \"b\""[..])
    );
    assert_eq!(find_array_after(b"\"k\":[]", key, 0), Some(&b""[..]));
    assert_eq!(find_array_after(b"\"k\":[1,[2],3]]", key, 0), Some(&b"1,[2],3"[..]));
    assert_eq!(find_array_after(b"\"k\":[1,2", key, 0), None);
    assert_eq!(find_array_after(b"\"k\":[1,[2]", key, 0), None);
    assert_eq!(find_array_after(b"\"k\":[", key, 0), None);
    assert_eq!(find_array_after(b"\"k\":1", key, 0), None);
    assert_eq!(find_array_after(b"\"k\"", key, 0), None);
}

#[test]
fn array_items_are_found() {
    let arr = b"\"MERC-001\", \"MERC-002\",\"\"";
    assert!(array_contains(arr, b"MERC-001"));
    assert!(array_contains(arr, b"MERC-002"));
    assert!(array_contains(arr, b""));
    assert!(!array_contains(arr, b"MERC"));
    assert!(!array_contains(arr, b", "));
    assert!(!array_contains(b"", b""));
    assert!(array_contains(b"\"open", b"open"));
    assert!(!array_contains(b"bare", b"bare"));
}

#[test]
fn every_merchant_category_has_its_risk() {
    for (mcc, risk) in [
        ("5411", 15),
        ("5812", 30),
        ("5912", 20),
        ("5944", 45),
        ("7801", 80),
        ("7802", 75),
        ("7995", 85),
        ("4511", 35),
        ("5311", 25),
        ("5999", 50),
        ("", 50),
        ("54110", 50),
    ] {
        assert_eq!(mcc_lookup(mcc.as_bytes()), risk, "{}", mcc);
    }
}

#[test]
fn the_last_transaction_is_read() {
    let body = PAYLOAD.as_bytes();
    let req = find_string_after(body, b"\"requested_at\"", 0).unwrap();
    let (seconds, km, has) = parse_last_transaction(body, 0, &req);
    assert_eq!(seconds, 19500);
    assert_eq!(extract_str(body, km.unwrap()), b"18.8626479774");
    assert!(has);
    let none = b"\"last_transaction\": null";
    assert_eq!(
        parse_last_transaction(none, 0, &Span { start: 0, end: 0 }),
        (0, None, false)
    );
    assert_eq!(
        parse_last_transaction(b"{}", 0, &Span { start: 0, end: 0 }),
        (0, None, false)
    );
}

#[test]
fn the_default_query_is_zero() {
    let q = Query::default();
    assert!(!q.no_history);
    for k in 0..D {
        assert_eq!(q.v[k], fraction(0, 1));
    }
}

const MEMBERS: [&str; 6] = [
    r#""id":"tx-1""#,
    r#""transaction":{"amount":41.12,"installments":2,"requested_at":"2026-03-11T18:45:53Z"}"#,
    r#""customer":{"avg_amount":82.24,"tx_count_24h":3,"known_merchants":["MERC-003","MERC-016"]}"#,
    r#""merchant":{"id":"MERC-016","mcc":"5411","avg_amount":60.25}"#,
    r#""terminal":{"is_online":false,"card_present":true,"km_from_home":29.23}"#,
    r#""last_transaction":{"timestamp":"2026-03-11T18:40:00Z","km_from_current":7.5}"#,
];

fn components(body: &str) -> Vec<String> {
    let q = parse_payload(body.as_bytes()).unwrap();
    let show = |s: Span| text(body.as_bytes(), s).to_string();
    q.v.iter()
        .map(|&f| match f {
            Feature::Scaled { number, limit } => format!("{}/{}", show(number), limit),
            Feature::Ratio { number, base, limit } => {
                format!("{}/{}/{}", show(number), show(base), limit)
            }
            other => format!("{:?}", other),
        })
        .collect()
}

fn orders(n: usize) -> Vec<Vec<usize>> {
    if n == 0 {
        return vec![Vec::new()];
    }
    let mut all = Vec::new();
    for shorter in orders(n - 1) {
        for at in 0..n {
            let mut order = shorter.clone();
            order.insert(at, n - 1);
            all.push(order);
        }
    }
    all
}

#[test]
fn order_and_id_have_no_influence() {
    let expected = components(&format!("{{{}}}", MEMBERS.join(",")));
    assert_eq!(expected[0], "41.12/10000");
    assert_eq!(expected[2], "41.12/82.24/10");
    assert_eq!(expected[6], "7.5/1000");
    assert_eq!(expected[13], "60.25/10000");
    let all = orders(6);
    assert_eq!(all.len(), 720);
    for order in all {
        for id in [r#""id":"tx-1""#, r#""id":"a, {b}: [c]""#, r#""id":"""#] {
            let members: Vec<&str> = order
                .iter()
                .map(|&k| if k == 0 { id } else { MEMBERS[k] })
                .collect();
            assert_eq!(components(&format!("{{{}}}", members.join(","))), expected);
        }
    }
}

#[test]
fn an_id_that_is_a_name_can_have_influence() {
    let members = [
        r#""id":"merchant""#,
        MEMBERS[1],
        MEMBERS[2],
        MEMBERS[3],
        MEMBERS[4],
        MEMBERS[5],
    ];
    let body = format!("{{{}}}", members.join(","));
    // The section is taken to begin at the id, so the customer's average comes first.
    assert_eq!(components(&body)[13], "82.24/10000");
}

#[test]
fn a_payload_cut_within_its_merchants_is_malformed() {
    let body = format!("{{{}}}", MEMBERS.join(","));
    let members = [MEMBERS[1], MEMBERS[3], MEMBERS[4], MEMBERS[5], MEMBERS[2]];
    let last = format!("{{{}", members.join(","));
    assert!(parse_payload(last.as_bytes()).is_some());
    let at = last.find("MERC-016\"]").unwrap();
    assert!(parse_payload(&last.as_bytes()[..at + 9]).is_none());
    assert!(parse_payload(&last.as_bytes()[..at + 10]).is_some());
    assert!(parse_payload(body.as_bytes()).is_some());
}
