use rinha_fraud::request::{
    Customer, FraudRequest, LastTransaction, Merchant, MerchantList, Terminal, Transaction,
};
use rinha_fraud::vector::{
    assemble, mcc_risk_bytes, vectorize, vectorize_body, Measures, ScaledNumbers, ScaledParts, Traits,
};
use serde_json::Value;

const DOCUMENTED: [i16; 14] = [
    41, 1667, 500, 7826, 3333, -10000, -10000, 292, 1500, 0, 10000, 0, 1500, 60,
];

fn scaled(value: f64) -> i16 {
    (value.clamp(0.0, 1.0) * 10_000.0).round() as i16
}

fn against_average(amount: f64, average: f64) -> f64 {
    if average > 0.0 {
        (amount / average) / 10.0
    } else if amount <= 0.0 {
        0.0
    } else {
        1.0
    }
}

fn scale_request(m: Measures<f64>) -> ScaledNumbers {
    let (seconds, km) = m.last.unwrap_or((0, 0.0));
    ScaledNumbers {
        amount: scaled(m.amount / 10_000.0),
        ratio: scaled(against_average(m.amount, m.customer_avg)),
        minutes: scaled(seconds as f64 / 60.0 / 1_440.0),
        last_km: scaled(km / 1_000.0),
        km_from_home: scaled(m.km_from_home / 1_000.0),
        merchant_avg: scaled(m.merchant_avg / 10_000.0),
    }
}

fn number(text: &[u8]) -> f64 {
    std::str::from_utf8(text).unwrap().parse().unwrap()
}

fn scale_texts<'a>(m: Measures<&'a [u8]>) -> ScaledNumbers {
    scale_request(Measures {
        amount: number(m.amount),
        customer_avg: number(m.customer_avg),
        merchant_avg: number(m.merchant_avg),
        km_from_home: number(m.km_from_home),
        last: m.last.map(|(seconds, km)| (seconds, number(km))),
    })
}

fn scale_count<'a>(text: &'a [u8], whole: u8) -> i16 {
    scaled(number(text) / whole as f64)
}

fn vector_of(text: &str) -> Option<[i16; 14]> {
    let value: Value = serde_json::from_str(text).unwrap();
    let names: Vec<&str> = value["customer"]["known_merchants"]
        .as_array()
        .unwrap()
        .iter()
        .map(|name| name.as_str().unwrap())
        .collect();
    let last = &value["last_transaction"];
    let request = FraudRequest {
        transaction: Transaction {
            amount: value["transaction"]["amount"].as_f64().unwrap(),
            installments: value["transaction"]["installments"].as_u64().unwrap() as u16,
            requested_at: value["transaction"]["requested_at"].as_str().unwrap(),
        },
        customer: Customer {
            avg_amount: value["customer"]["avg_amount"].as_f64().unwrap(),
            tx_count_24h: value["customer"]["tx_count_24h"].as_u64().unwrap() as u16,
            known_merchants: MerchantList::from_names(&names),
        },
        merchant: Merchant {
            id: value["merchant"]["id"].as_str().unwrap(),
            mcc: value["merchant"]["mcc"].as_str().unwrap(),
            avg_amount: value["merchant"]["avg_amount"].as_f64().unwrap(),
        },
        terminal: Terminal {
            is_online: value["terminal"]["is_online"].as_bool().unwrap(),
            card_present: value["terminal"]["card_present"].as_bool().unwrap(),
            km_from_home: value["terminal"]["km_from_home"].as_f64().unwrap(),
        },
        last_transaction: if last.is_null() {
            None
        } else {
            Some(LastTransaction {
                timestamp: last["timestamp"].as_str().unwrap(),
                km_from_current: last["km_from_current"].as_f64().unwrap(),
            })
        },
    };
    vectorize(&request, scale_request)
}

const WITH_LAST: &str = r#"{
  "id": "tx-2",
  "transaction": { "amount": 9505.97, "installments": 10, "requested_at": "2026-03-14T05:15:12Z" },
  "customer": { "avg_amount": 81.28, "tx_count_24h": 20, "known_merchants": ["A", "B", "C", "D", "E", "MERC-068"] },
  "merchant": { "id": "MERC-068", "mcc": "7802", "avg_amount": 54.86 },
  "terminal": { "is_online": true, "card_present": false, "km_from_home": 952.27 },
  "last_transaction": { "timestamp": "2026-03-14T03:03:12Z", "km_from_current": 18.86 }
}"#;

#[test]
fn vectorizes_documented_legit_example() {
    let vector = vector_of(
        r#"{
          "id": "tx-1329056812",
          "transaction": { "amount": 41.12, "installments": 2, "requested_at": "2026-03-11T18:45:53Z" },
          "customer": { "avg_amount": 82.24, "tx_count_24h": 3, "known_merchants": ["MERC-003", "MERC-016"] },
          "merchant": { "id": "MERC-016", "mcc": "5411", "avg_amount": 60.25 },
          "terminal": { "is_online": false, "card_present": true, "km_from_home": 29.23 },
          "last_transaction": null
        }"#,
    )
    .unwrap();
    assert_eq!(vector, DOCUMENTED);
}

#[test]
fn direct_body_parser_matches_documented_example() {
    let body = br#"{
      "id": "tx-1329056812",
      "transaction": { "amount": 41.12, "installments": 2, "requested_at": "2026-03-11T18:45:53Z" },
      "customer": { "avg_amount": 82.24, "tx_count_24h": 3, "known_merchants": ["MERC-003", "MERC-016"] },
      "merchant": { "id": "MERC-016", "mcc": "5411", "avg_amount": 60.25 },
      "terminal": { "is_online": false, "card_present": true, "km_from_home": 29.23 },
      "last_transaction": null
    }"#;

    assert_eq!(
        vectorize_body(body, scale_texts, scale_count).unwrap(),
        [41, 1667, 500, 7826, 3333, -10000, -10000, 292, 1500, 0, 10000, 0, 1500, 60]
    );
}

#[test]
fn earlier_transactions_are_scaled() {
    let expected = [
        9506, 8333, 10000, 2174, 8333, 917, 189, 9523, 10000, 10000, 0, 0, 7500, 55,
    ];
    assert_eq!(vector_of(WITH_LAST), Some(expected));
    assert_eq!(vectorize_body(WITH_LAST.as_bytes(), scale_texts, scale_count), Some(expected));
}

#[test]
fn merchants_beyond_the_first_four_are_known() {
    let others = WITH_LAST.replace("\"MERC-068\"]", "\"MERC-069\"]");
    assert_eq!(vector_of(WITH_LAST).unwrap()[11], 0);
    assert_eq!(vector_of(&others).unwrap()[11], 10_000);
    assert_eq!(vectorize_body(others.as_bytes(), scale_texts, scale_count).unwrap()[11], 10_000);
    let first = WITH_LAST.replace("\"A\"", "\"MERC-068\"").replace("\"MERC-068\"]", "\"Z\"]");
    assert_eq!(vector_of(&first).unwrap()[11], 0);
}

#[test]
fn bodies_without_a_field_have_no_vector() {
    for key in [
        "transaction", "amount", "installments", "requested_at", "customer", "avg_amount",
        "tx_count_24h", "known_merchants", "merchant", "id\": \"MERC", "mcc", "terminal",
        "is_online", "card_present", "km_from_home", "last_transaction", "timestamp",
        "km_from_current",
    ] {
        let broken = WITH_LAST.replace(&format!("\"{key}"), "\"x");
        assert!(vectorize_body(broken.as_bytes(), scale_texts, scale_count).is_none(), "{key}");
    }
    assert!(vectorize_body(b"", scale_texts, scale_count).is_none());
}

#[test]
fn malformed_values_have_no_vector() {
    for (good, bad) in [
        ("9505.97", "9505.9.7"),
        ("9505.97", "-"),
        ("9505.97", "95-05"),
        ("\"2026-03-14T05:15:12Z\"", "20"),
        ("\"2026-03-14T05:15:12Z\"", "\"2026\""),
        ("true", "maybe"),
        ("[\"A\"", "\"A\""),
        ("\"2026-03-14T03:03:12Z\"", "\"then\""),
    ] {
        let broken = WITH_LAST.replacen(good, bad, 1);
        assert!(vectorize_body(broken.as_bytes(), scale_texts, scale_count).is_none(), "{bad}");
    }
}

#[test]
fn numbers_may_be_negative_or_bare() {
    let odd = WITH_LAST
        .replace("952.27", "-952.27")
        .replace("18.86", ".5")
        .replace("54.86", "54.");
    let vector = vectorize_body(odd.as_bytes(), scale_texts, scale_count).unwrap();
    assert_eq!(vector[7], 0);
    assert_eq!(vector[6], 5);
    assert_eq!(vector[13], 54);
}

#[test]
fn bad_times_of_a_request_have_no_vector() {
    assert!(vector_of(&WITH_LAST.replace("2026-03-14T05", "2026-03-14Tx5")).is_none());
    assert!(vector_of(&WITH_LAST.replace("2026-03-14T03", "2026-03-14Tx3")).is_none());
}

#[test]
fn shares_equal_the_rounded_floating_point_shares() {
    let parts = ScaledParts {
        amount: 1,
        installments: 2,
        ratio: 3,
        minutes: 4,
        last_km: 5,
        km_from_home: 6,
        tx_count: 7,
        merchant_avg: 8,
    };
    for hour in 0..=255u8 {
        for weekday_monday0 in 0..=6u8 {
            let traits = Traits {
                hour,
                weekday_monday0,
                has_last: true,
                is_online: false,
                card_present: false,
                merchant_known: true,
                mcc_risk: 5_000,
            };
            let vector = assemble(&traits, &parts);
            assert_eq!(vector[3], scaled(hour as f64 / 23.0));
            assert_eq!(vector[4], scaled(weekday_monday0 as f64 / 6.0));
            assert_eq!(vector, [1, 2, 3, vector[3], vector[4], 4, 5, 6, 7, 0, 0, 0, 5_000, 8]);
        }
    }
}

#[test]
fn categories_have_their_risks() {
    let table: [(&[u8], f64); 12] = [
        (b"5411", 0.15),
        (b"5812", 0.30),
        (b"5912", 0.20),
        (b"5944", 0.45),
        (b"7801", 0.80),
        (b"7802", 0.75),
        (b"7995", 0.85),
        (b"4511", 0.35),
        (b"5311", 0.25),
        (b"5999", 0.50),
        (b"0000", 0.50),
        (b"", 0.50),
    ];
    for (mcc, risk) in table {
        assert_eq!(mcc_risk_bytes(mcc), scaled(risk));
        assert_eq!(mcc_risk_bytes(mcc) as f32 / 10_000.0, risk as f32);
    }
}

const COMPACT: &str = "{\"id\":\"tx-3\",\"transaction\":{\"amount\":384.88,\"installments\":3,\"requested_at\":\"2026-03-11T20:23:35Z\"},\"customer\":{\"avg_amount\":769.76,\"tx_count_24h\":3,\"known_merchants\":[\"MERC-009\",\"MERC-001\"]},\"merchant\":{\"id\":\"MERC-001\",\"mcc\":\"5912\",\"avg_amount\":298.95},\"terminal\":{\"is_online\":false,\"card_present\":true,\"km_from_home\":13.71},\"last_transaction\":{\"timestamp\":\"2026-03-11T14:58:35Z\",\"km_from_current\":18.86}}";

#[test]
fn bodies_and_requests_agree() {
    let changes = [
        ("tx-3", "transaction"),
        ("tx-3", ""),
        ("2026-03-11T20:23:35Z", "customer"),
        ("\"MERC-009\",\"MERC-001\"", ""),
        ("MERC-009", "merchant"),
        ("\"MERC-009\",\"MERC-001\"", "\"id\",\"mcc\",\"merchant\""),
        ("{\"id\":\"MERC-001\"", "{\"id\":\"mcc\""),
        ("{\"id\":\"MERC-001\"", "{\"id\":\"terminal\""),
        ("5912", "avg_amount"),
        ("5912", "terminal"),
        ("2026-03-11T14:58:35Z", "km_from_current"),
        ("{\"timestamp\":\"2026-03-11T14:58:35Z\",\"km_from_current\":18.86}", "null"),
    ];
    let found = vectorize_body(COMPACT.as_bytes(), scale_texts, scale_count);
    assert!(found.is_some());
    assert_eq!(found, vector_of(COMPACT));
    for (from, to) in changes {
        let text = COMPACT.replacen(from, to, 1);
        assert_ne!(text, COMPACT);
        assert_eq!(vectorize_body(text.as_bytes(), scale_texts, scale_count), vector_of(&text));
    }
}

#[test]
fn names_may_be_mistaken_for_keys() {
    let listed = COMPACT.replacen("\"MERC-009\",\"MERC-001\"", "\"merchant\",\"id\"", 1);
    assert!(vector_of(&listed).is_some());
    assert_eq!(vectorize_body(listed.as_bytes(), scale_texts, scale_count), None);
    let named = COMPACT.replacen("{\"id\":\"MERC-001\"", "{\"id\":\"avg_amount\"", 1);
    assert!(vector_of(&named).is_some());
    assert_eq!(vectorize_body(named.as_bytes(), scale_texts, scale_count), None);
}

#[test]
fn white_space_between_tokens_does_not_count() {
    let mut spread = String::new();
    let mut quoted = false;
    for c in COMPACT.chars() {
        if c == '"' {
            quoted = !quoted;
        }
        if !quoted && "{}[]:,".contains(c) {
            spread.push_str(" \t\r\n");
            spread.push(c);
            spread.push_str("\n  ");
        } else {
            spread.push(c);
        }
    }
    let expected = vector_of(COMPACT);
    assert!(expected.is_some());
    assert_eq!(vector_of(&spread), expected);
    assert_eq!(vectorize_body(spread.as_bytes(), scale_texts, scale_count), expected);
    let without = "{\"timestamp\":\"2026-03-11T14:58:35Z\",\"km_from_current\":18.86}";
    for last in ["null", " null ", "\n\tnull\r\n"] {
        let text = COMPACT.replacen(without, last, 1);
        let found = vectorize_body(text.as_bytes(), scale_texts, scale_count);
        assert_eq!(found, vector_of(&text));
        assert_eq!(found.unwrap()[5], -10_000);
    }
    for known in ["[ ]", "[\n\"MERC-001\"\t]", "[ \"MERC-002\" , \"MERC-001\" ]", "[\t\"MERC-002\" ]"] {
        let text = COMPACT.replacen("[\"MERC-009\",\"MERC-001\"]", known, 1);
        assert_eq!(vectorize_body(text.as_bytes(), scale_texts, scale_count), vector_of(&text));
    }
}

#[test]
fn counts_are_shares_of_twelve_and_twenty() {
    for count in (0..=40u16).chain([99, 1_000, 4_000, 65_535]) {
        let text = COMPACT
            .replacen("\"installments\":3", &format!("\"installments\":{count}"), 1)
            .replacen("\"tx_count_24h\":3", &format!("\"tx_count_24h\":{count}"), 1);
        let vector = vector_of(&text).unwrap();
        assert_eq!(vector[1], scaled(count as f64 / 12.0));
        assert_eq!(vector[8], scaled(count as f64 / 20.0));
        assert_eq!(vectorize_body(text.as_bytes(), scale_texts, scale_count), Some(vector));
    }
    for (count, installments, recent) in [
        ("007", 5_833, 3_500),
        ("1000000000000000000000000", 10_000, 10_000),
        ("2.5", 2_083, 1_250),
        ("-4", 0, 0),
        ("3.", 2_500, 1_500),
    ] {
        let text = COMPACT
            .replacen("\"installments\":3", &format!("\"installments\":{count}"), 1)
            .replacen("\"tx_count_24h\":3", &format!("\"tx_count_24h\":{count}"), 1);
        let vector = vectorize_body(text.as_bytes(), scale_texts, scale_count).unwrap();
        assert_eq!((vector[1], vector[8]), (installments, recent));
    }
}
