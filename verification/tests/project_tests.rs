use sad::project::{Complexity, Currency, Money, ParseError, Project};
use sad::test_util::{get_project, get_project_as_dic, get_record};

#[test]
fn project_from_tsv_line() {
    struct Data(Vec<&'static str>, Project);
    let cases = vec![
        Data(get_record(1), get_project(1)),
        Data(get_record(2), get_project(2)),
    ];

    for Data(input, expected) in cases {
        assert_eq!(Project::new(input).unwrap(), expected);
    }
}

#[test]
fn project_as_dic() {
    struct Data(Project, Vec<(String, String)>);
    let cases = vec![
        Data(get_project(1), get_project_as_dic(1)),
        Data(get_project(2), get_project_as_dic(2)),
    ];

    for Data(input, expected) in cases {
        assert_eq!(input.as_dic(), expected);
    }
}

#[test]
fn money_null_is_absent() {
    assert_eq!(Money::from_str("NULL").unwrap(), None);
}

#[test]
fn money_parses_six_decimals() {
    assert_eq!(Money::from_str("141415.942696").unwrap(), Some(Money::new(141415942696)));
    assert_eq!(Money::from_str("0.000001").unwrap(), Some(Money::new(1)));
    assert_eq!(Money::from_str("-2.5").unwrap(), Some(Money::new(-2500000)));
    assert_eq!(Money::from_str("7").unwrap(), Some(Money::new(7000000)));
}

#[test]
fn money_formats_six_decimals() {
    assert_eq!(Money::new(141415942696).text(), "141415.942696");
    assert_eq!(Money::new(0).text(), "0.000000");
    assert_eq!(Money::new(-2500000).text(), "-2.500000");
}

#[test]
fn money_round_trip_at_six_decimals() {
    for v in [0i64, 1, -1, 2500000, -141415942696, i64::MAX] {
        let m = Money::new(v);
        assert_eq!(Money::from_str(&m.text()).unwrap(), Some(m));
    }
}

#[test]
fn money_rejects_malformed_text() {
    assert!(matches!(Money::from_str(""), Err(ParseError::BadNumber(_))));
    assert!(matches!(Money::from_str("abc"), Err(ParseError::BadNumber(_))));
    assert!(matches!(Money::from_str("1.2.3"), Err(ParseError::BadNumber(_))));
    assert!(matches!(Money::from_str("1."), Err(ParseError::BadNumber(_))));
    assert!(matches!(Money::from_str("1.1234567"), Err(ParseError::BadNumber(_))));
    // a magnitude past the representation is rejected, not wrapped
    assert!(matches!(
        Money::from_str("99999999999999999999"),
        Err(ParseError::BadNumber(_))
    ));
}

#[test]
fn currency_null_is_absent() {
    assert_eq!(Currency::from_str("NULL").unwrap(), None);
    assert_eq!(Currency::from_str("EUR").unwrap(), Some(Currency::EUR));
}

#[test]
fn currency_unknown_token_is_an_error() {
    assert!(matches!(Currency::from_str("USD"), Err(ParseError::BadCurrency(_))));
    assert!(matches!(Currency::from_str(""), Err(ParseError::BadCurrency(_))));
    assert!(matches!(Currency::from_str("eur"), Err(ParseError::BadCurrency(_))));
}

#[test]
fn complexity_parses_the_three_grades() {
    assert_eq!(Complexity::from_str("Simple").unwrap(), Complexity::Simple);
    assert_eq!(Complexity::from_str("Moderate").unwrap(), Complexity::Moderate);
    assert_eq!(Complexity::from_str("Hazardous").unwrap(), Complexity::Hazardous);
    assert!(matches!(Complexity::from_str("simple"), Err(ParseError::BadComplexity(_))));
    assert!(matches!(Complexity::from_str("NULL"), Err(ParseError::BadComplexity(_))));
}

#[test]
fn optional_fields_are_independent() {
    // savings absent, currency present
    let p = Project::new(vec![
        "9",
        "d",
        "2014-01-01 00:00:00.000",
        "c",
        "r",
        "NULL",
        "EUR",
        "Simple",
    ])
    .unwrap();
    assert_eq!(p.savings_amount, None);
    assert_eq!(p.currency, Some(Currency::EUR));
    // savings present, currency absent
    let q = Project::new(vec![
        "9",
        "d",
        "2014-01-01 00:00:00.000",
        "c",
        "r",
        "1.5",
        "NULL",
        "Simple",
    ])
    .unwrap();
    assert_eq!(q.savings_amount, Some(Money::new(1500000)));
    assert_eq!(q.currency, None);
}

#[test]
fn record_round_trip_with_present_optionals() {
    let p = get_project(2);
    let dic = p.as_dic();
    let fields: Vec<&str> = dic.iter().map(|kv| kv.1.as_str()).collect();
    assert_eq!(Project::new(fields).unwrap(), p);
}

#[test]
fn wrong_field_count_is_a_schema_error() {
    let r = Project::new(vec!["1", "d", "2014-01-01 00:00:00.000", "c", "r", "NULL", "NULL"]);
    assert!(matches!(r, Err(ParseError::WrongColumnCount)));
}

#[test]
fn bad_date_names_the_token() {
    let r = Project::new(vec!["1", "d", "2014-13-01", "c", "r", "NULL", "NULL", "Simple"]);
    match r {
        Err(ParseError::BadDate(t)) => assert_eq!(t, "2014-13-01"),
        other => panic!("expected a date error, got {:?}", other),
    }
}

#[test]
fn error_messages_name_the_offending_token() {
    assert_eq!(
        ParseError::BadCurrency("USD".to_string()).message(),
        "currency parse error USD"
    );
    assert_eq!(
        ParseError::BadComplexity("Weird".to_string()).message(),
        "unsupported complexity Weird"
    );
    assert_eq!(ParseError::WrongColumnCount.message(), "wrong number of columns");
}
