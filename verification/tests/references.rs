use rinha_fraud::index::Point;
use rinha_fraud::reference::{InvalidReferences, ReferenceParser};

fn parse(text: &str) -> Result<Vec<Point>, InvalidReferences> {
    ReferenceParser::new(text.as_bytes()).parse_all()
}

fn number(text: &str) -> (i16, usize) {
    let mut parser = ReferenceParser::new(text.as_bytes());
    let value = parser.parse_scaled_number();
    (value, parser.offset)
}

#[test]
fn numbers_are_scaled_to_ten_thousandths() {
    assert_eq!(number("0.0041,"), (41, 6));
    assert_eq!(number("1"), (10_000, 1));
    assert_eq!(number("-1]"), (-10_000, 2));
    assert_eq!(number("0.33333"), (3_333, 7));
    assert_eq!(number("0.5"), (5_000, 3));
    assert_eq!(number("0.99999999999"), (9_999, 13));
    assert_eq!(number("-0.25"), (-2_500, 5));
    assert_eq!(number("-"), (0, 1));
    assert_eq!(number("2.x"), (20_000, 2));
    assert_eq!(number(".75"), (7_500, 3));
    assert_eq!(number("x"), (0, 0));
    assert_eq!(number("10"), (100_000i32 as i16, 2));
    assert_eq!(number("123456789"), (1_234_567_890_000i64 as i16, 9));
    assert_eq!(number("-123456789.5"), (-1_234_567_895_000i64 as i16, 12));
}

#[test]
fn references_are_read_in_order() {
    let text = r#"[
      {"vector": [0.01, 0.0833, 0.05, 0.8261, 0.1667, -1, -1, 0.0432, 0.25, 0, 1, 0, 0.2, 0.0416], "label": "legit"},
      {"vector":[1,1,1,1,1,1,1,1,1,1,1,1,1,1],"label":"fraud"}
    ]"#;
    let points = parse(text).unwrap();
    assert_eq!(points.len(), 2);
    assert_eq!(
        points[0].values,
        [100, 833, 500, 8261, 1667, -10000, -10000, 432, 2500, 0, 10000, 0, 2000, 416]
    );
    assert_eq!((points[0].label, points[0].reserved), (0, 0));
    assert_eq!(points[1].values, [10_000; 14]);
    assert_eq!((points[1].label, points[1].reserved), (1, 0));
    assert!(parse("[]").unwrap().is_empty());
}

#[test]
fn broken_references_are_refused() {
    let numbers = "1,2,3,4,5,6,7,8,9,10,11,12,13";
    for text in [
        format!("{{\"vector\":[{numbers}]"),
        format!("{{\"vector\":[{numbers},14]}}"),
        format!("{{\"vector\":[{numbers},14],\"label\":\"other\"}}"),
        format!("{{\"vector\":[{numbers},14],\"label\":}} legit fraud"),
    ] {
        assert_eq!(parse(&text).err(), Some(InvalidReferences), "{text}");
    }
    assert_eq!(InvalidReferences.message(), "invalid references json");
}

#[test]
fn fraud_wins_over_legit_before_the_object_ends() {
    let numbers = "1,2,3,4,5,6,7,8,9,10,11,12,13,14";
    let text = format!("{{\"vector\":[{numbers}],\"label\":\"legit or fraud\"}}");
    assert_eq!(parse(&text).unwrap()[0].label, 1);
    let text = format!("{{\"vector\":[{numbers}],\"label\":\"legit\"}} fraud");
    assert_eq!(parse(&text).unwrap()[0].label, 0);
}

#[test]
fn words_are_found_before_a_byte() {
    let parser = ReferenceParser { input: b"ab}cab", offset: 1 };
    assert_eq!(parser.find(b"ab"), Some(4));
    assert_eq!(parser.find_before(b"ab", b'}'), None);
    assert_eq!(parser.find_before(b"ab", b'{'), Some(4));
    assert_eq!(parser.find_before(b"b}", b'c'), Some(1));
    let mut seeker = ReferenceParser { input: b"xx-1", offset: 0 };
    assert!(seeker.seek_number().is_ok());
    assert_eq!(seeker.offset, 2);
    let mut lost = ReferenceParser { input: b"xx", offset: 0 };
    assert_eq!(lost.seek_number(), Err(InvalidReferences));
}
