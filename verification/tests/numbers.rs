use fc_parser::builder::parse_value;
use fc_parser::errors::BaseError;
use fc_parser::model::Value;
use fc_parser::numeric::is_number_literal;
use fc_parser::syntax::ValueNode;

#[test]
fn acceptance_agrees_with_float_parsing() {
    let samples = [
        "0", "1", "42", "-7", "+5", "1.5", "3.", ".5", "-0.25", "1e5", "1E5", "2e-3",
        "2e+3", "1.25e2", "inf", "INF", "Infinity", "-inf", "+infinity", "nan", "NaN",
        "-NAN", "", ".", "e5", "1e", "1e+", "--1", "1.2.3", "0x10", "1_000", " 1", "1 ",
        "abc", "infx", "nankeen", "+", "-", "+.e1", ".e1", "1.e2", "5.E-0", "in", "na",
    ];
    for t in samples {
        assert_eq!(
            is_number_literal(t),
            t.parse::<f64>().is_ok(),
            "disagreement on {:?}",
            t
        );
    }
}

#[test]
fn number_token_keeps_the_text_that_denotes_the_double() {
    match parse_value(&ValueNode::NumberTok("1.5".to_string())).unwrap() {
        Value::Number(t) => {
            assert_eq!(t, "1.5");
            assert_eq!(t.parse::<f64>().unwrap(), 1.5f64);
        },
        other => panic!("expected number, got {:?}", other),
    }
}

#[test]
fn exponent_and_sign_forms_round_trip() {
    for (text, expected) in [("-2e3", -2000.0f64), ("+0.5", 0.5f64), ("25e-2", 0.25f64)] {
        match parse_value(&ValueNode::NumberTok(text.to_string())).unwrap() {
            Value::Number(t) => assert_eq!(t.parse::<f64>().unwrap(), expected),
            other => panic!("expected number, got {:?}", other),
        }
    }
}

#[test]
fn unparseable_number_fails_with_its_text() {
    let e = parse_value(&ValueNode::NumberTok("12abc".to_string())).unwrap_err();
    assert_eq!(e.base, BaseError::NumberParse("12abc".to_string()));
    assert_eq!(e.message(), "Failed to parse number: 12abc");
}
