use rinha_fraud::fraud_scoring::{
    array_contains_merchant_id, parse_fast_fields, read_features, score_fraud_body, score_request,
    Comparisons, ModelInputs, RuleNumbers,
};
use rinha_fraud::time::parse_utc_timestamp;

fn number(text: &[u8]) -> f32 {
    std::str::from_utf8(text).unwrap().parse().unwrap()
}

fn compare<'a>(n: RuleNumbers<'a>) -> Comparisons {
    let amount = number(n.amount);
    let average = number(n.customer_avg);
    let safe = if average <= 0.0 { 1.0 } else { average };
    let km = number(n.km_from_home);
    Comparisons {
        small_amount: amount <= 500.0,
        small_ratio: amount / safe <= 0.50001,
        near_home: km <= 50.0,
        large_amount: amount >= 5_000.0,
        far_from_home: km >= 150.0,
    }
}

fn never<'a>(_: ModelInputs<'a>) -> bool {
    panic!("the rules decide")
}

fn always<'a>(_: ModelInputs<'a>) -> bool {
    true
}

struct Case {
    amount: &'static str,
    installments: &'static str,
    tx_count: &'static str,
    merchant: &'static str,
    mcc: &'static str,
    km: &'static str,
    last: &'static str,
}

const LEGIT: Case = Case {
    amount: "41.12",
    installments: "2",
    tx_count: "3",
    merchant: "MERC-016",
    mcc: "5411",
    km: "29.23",
    last: "null",
};

const FRAUD: Case = Case {
    amount: "9505.97",
    installments: "10",
    tx_count: "20",
    merchant: "MERC-068",
    mcc: "7802",
    km: "952.27",
    last: "null",
};

fn body(case: &Case) -> String {
    format!(
        "{{\"id\":\"tx-1\",\"transaction\":{{\"amount\":{},\"installments\":{},\"requested_at\":\"2026-03-11T18:45:53Z\"}},\"customer\":{{\"avg_amount\":82.24,\"tx_count_24h\":{},\"known_merchants\":[\"MERC-003\",\"MERC-016\"]}},\"merchant\":{{\"id\":\"{}\",\"mcc\":\"{}\",\"avg_amount\":60.25}},\"terminal\":{{\"is_online\":false,\"card_present\":true,\"km_from_home\":{}}},\"last_transaction\":{}}}",
        case.amount, case.installments, case.tx_count, case.merchant, case.mcc, case.km, case.last
    )
}

#[test]
fn rules_decide_clear_cases() {
    assert_eq!(score_fraud_body(body(&LEGIT).as_bytes(), compare, never), Some(0));
    assert_eq!(score_fraud_body(body(&FRAUD).as_bytes(), compare, never), Some(5));
}

#[test]
fn the_model_decides_the_rest() {
    for case in [
        Case { amount: "41.13", ..LEGIT },
        Case { installments: "4", ..LEGIT },
        Case { tx_count: "6", ..LEGIT },
        Case { merchant: "MERC-017", ..LEGIT },
        Case { mcc: "5944", ..LEGIT },
        Case { km: "50.5", ..LEGIT },
        Case { amount: "4999.5", ..FRAUD },
        Case { installments: "4", ..FRAUD },
        Case { tx_count: "5", ..FRAUD },
        Case { merchant: "MERC-003", ..FRAUD },
        Case { mcc: "5411", ..FRAUD },
        Case { km: "149.5", ..FRAUD },
    ] {
        let text = body(&case);
        assert_eq!(score_fraud_body(text.as_bytes(), compare, always), Some(5));
        assert_eq!(score_fraud_body(text.as_bytes(), compare, |_: ModelInputs<'_>| false), Some(0));
    }
}

#[test]
fn the_model_sees_the_request() {
    let case = Case {
        installments: "12",
        last: "{\"timestamp\":\"2026-03-11T18:43:50Z\",\"km_from_current\":18.86}",
        ..LEGIT
    };
    let text = body(&case);
    let score = score_fraud_body(text.as_bytes(), compare, |m: ModelInputs<'_>| {
        assert_eq!(m.amount, b"41.12");
        assert_eq!(m.customer_avg, b"82.24");
        assert_eq!(m.km_from_home, b"29.23");
        assert_eq!(m.merchant_avg, b"60.25");
        assert_eq!(m.installments, 12);
        assert_eq!(m.tx_count_24h, 3);
        assert_eq!((m.hour, m.weekday_monday0), (18, 2));
        assert!(!m.is_online && m.card_present && m.merchant_known);
        assert_eq!(m.mcc_risk, 1_500);
        assert_eq!(m.last, Some((123, &b"18.86"[..])));
        true
    });
    assert_eq!(score, Some(5));
    let later = case.last.replace("18:43:50", "18:46:00");
    let text = body(&case).replace(case.last, &later);
    let score = score_fraud_body(text.as_bytes(), compare, |m: ModelInputs<'_>| {
        assert_eq!(m.last.unwrap().0, 0);
        false
    });
    assert_eq!(score, Some(0));
}

#[test]
fn bodies_in_another_form_have_no_score() {
    let text = body(&Case { amount: "41.13", ..LEGIT });
    for (good, bad) in [
        ("{\"id\":", "{\"ID\":"),
        (":41.13", ": 41.13"),
        (":41.13", ":-41.13"),
        ("18:45:53Z\"", "18:45:53ZZ\""),
        ("T18:", "T24:"),
        ("2026-", "2031-"),
        ("-03-11", "-02-30"),
        ("\"MERC-016\",\"mcc", "\"MERC-16\",\"mcc"),
        (":60.25", ":x"),
        (":false,", ":maybe,"),
        ("},\"last", ",\"last"),
        ("null", "{}"),
    ] {
        let broken = text.replacen(good, bad, 1);
        assert_ne!(broken, text);
        assert_eq!(score_fraud_body(broken.as_bytes(), compare, always), None, "{bad}");
    }
    assert_eq!(score_fraud_body(b"", compare, always), None);
}

#[test]
fn unreadable_bodies_are_approved() {
    assert_eq!(score_request(b"", compare, always), 0);
    assert_eq!(score_request(b"{\"id\":\"x\"}", compare, always), 0);
    let late = body(&Case { amount: "41.13", ..LEGIT }).replace("T18:", "T24:");
    assert_eq!(score_request(late.as_bytes(), compare, always), 0);
    assert_eq!(score_request(body(&FRAUD).as_bytes(), compare, never), 5);
    assert_eq!(score_request(body(&LEGIT).as_bytes(), compare, never), 0);
}

#[test]
fn request_ids_do_not_count() {
    for case in [LEGIT, FRAUD, Case { amount: "41.13", ..LEGIT }] {
        let text = body(&case);
        let score = score_fraud_body(text.as_bytes(), compare, always);
        assert!(score.is_some());
        for id in ["", "x", "tx-123456789012345"] {
            let other = text.replacen("tx-1", id, 1);
            assert_eq!(score_fraud_body(other.as_bytes(), compare, always), score);
        }
    }
}

#[test]
fn known_merchants_stand_in_slots() {
    let array = b"\"MERC-003\",\"MERC-016\"";
    assert!(array_contains_merchant_id(array, b"MERC-003"));
    assert!(array_contains_merchant_id(array, b"MERC-016"));
    assert!(!array_contains_merchant_id(array, b"MERC-017"));
    assert!(!array_contains_merchant_id(b"", b"MERC-016"));
    assert!(!array_contains_merchant_id(b"\"MERC-01", b"MERC-016"));
}

#[test]
fn stamps_agree_with_timestamps() {
    for stamp in ["2026-03-11T18:45:52Z", "2026-03-10T00:00:00Z", "2024-02-29T23:59:59Z", "2026-03-11T19:00:00Z"] {
        let requested = parse_utc_timestamp("2026-03-11T18:45:53Z").unwrap();
        let earlier = parse_utc_timestamp(stamp).unwrap();
        let last = format!("{{\"timestamp\":\"{}\",\"km_from_current\":1.5}}", stamp);
        let text = body(&LEGIT).replacen("null", &last, 1);
        let fields = parse_fast_fields(text.as_bytes()).unwrap();
        let features = read_features(text.as_bytes(), &fields).unwrap();
        assert_eq!((features.hour, features.weekday_monday0), (requested.hour, requested.weekday_monday0));
        let seconds = (requested.epoch_seconds - earlier.epoch_seconds).max(0);
        assert_eq!(features.last.unwrap().0 as i64, seconds);
    }
}
