//! Tests of year and month argument parsing.

use calr::parse_month;
use calr::parse_year;

#[test]
fn test_parse_month() {
    let res = parse_month("1");
    assert!(res.is_ok());
    assert_eq!(res.unwrap(), 1u32);

    let res = parse_month("12");
    assert!(res.is_ok());
    assert_eq!(res.unwrap(), 12u32);

    let res = parse_month("jan");
    assert!(res.is_ok());
    assert_eq!(res.unwrap(), 1u32);

    let res = parse_month("0");
    assert!(res.is_err());
    assert_eq!(
        res.unwrap_err().to_string(),
        "month \"0\" not in the range 1 through 12"
    );

    let res = parse_month("13");
    assert!(res.is_err());
    assert_eq!(
        res.unwrap_err().to_string(),
        "month \"13\" not in the range 1 through 12"
    );

    let res = parse_month("foo");
    assert!(res.is_err());
    assert_eq!(res.unwrap_err().to_string(), "invalid month \"foo\"");
}

#[test]
fn dies_year_0() {
    let expected = "year \"0\" not in the range 1 through 9999";
    assert_eq!(parse_year("0").unwrap_err(), expected);
}

#[test]
fn dies_year_13() {
    let expected = "year \"10000\" not in the range 1 through 9999";
    assert_eq!(parse_year("10000").unwrap_err(), expected);
}

#[test]
fn dies_month_0() {
    let expected = "month \"0\" not in the range 1 through 12";
    assert_eq!(parse_month("0").unwrap_err(), expected);
}

#[test]
fn dies_month_13() {
    let expected = "month \"13\" not in the range 1 through 12";
    assert_eq!(parse_month("13").unwrap_err(), expected);
}

#[test]
fn dies_invalid_month() {
    let expected = "invalid month \"foo\"";
    assert_eq!(parse_month("foo").unwrap_err(), expected);
}

#[test]
fn partial_month() {
    let expected = &[
        ("ja", 1u32),
        ("f", 2),
        ("mar", 3),
        ("ap", 4),
        ("may", 5),
        ("jun", 6),
        ("jul", 7),
        ("au", 8),
        ("s", 9),
        ("o", 10),
        ("n", 11),
        ("d", 12),
    ];
    for (arg, month) in expected {
        assert_eq!(parse_month(arg).unwrap(), *month);
    }
}

#[test]
fn ambiguous_month_prefix() {
    assert_eq!(parse_month("j").unwrap_err(), "invalid month \"j\"");
    assert_eq!(parse_month("ju").unwrap_err(), "invalid month \"ju\"");
    assert_eq!(parse_month("ma").unwrap_err(), "invalid month \"ma\"");
    assert_eq!(parse_month("a").unwrap_err(), "invalid month \"a\"");
    assert_eq!(parse_month("").unwrap_err(), "invalid month \"\"");
}

#[test]
fn case_insensitive_month_names() {
    assert_eq!(parse_month("JAN").unwrap(), 1);
    assert_eq!(parse_month("MaY").unwrap(), 5);
    assert_eq!(parse_month("AUGUST").unwrap(), 8);
    assert_eq!(parse_month("December").unwrap(), 12);
    assert_eq!(parse_month("FOO").unwrap_err(), "invalid month \"foo\"");
}

#[test]
fn numeric_edge_cases() {
    assert_eq!(parse_month("+7").unwrap(), 7);
    assert_eq!(parse_month("007").unwrap(), 7);
    assert_eq!(parse_year("2024").unwrap(), 2024);
    assert_eq!(parse_year("+5").unwrap(), 5);
    assert_eq!(parse_year("0001").unwrap(), 1);
    assert_eq!(parse_year("9999").unwrap(), 9999);
    assert_eq!(
        parse_year("-1").unwrap_err(),
        "year \"-1\" not in the range 1 through 9999"
    );
    assert_eq!(parse_year("foo").unwrap_err(), "invalid year \"foo\"");
    assert_eq!(parse_year("12bad").unwrap_err(), "invalid year \"12bad\"");
    assert_eq!(parse_year("").unwrap_err(), "invalid year \"\"");
    assert_eq!(
        parse_year("99999999999999999999").unwrap_err(),
        "invalid year \"99999999999999999999\""
    );
    assert_eq!(
        parse_month("4294967296").unwrap_err(),
        "invalid month \"4294967296\""
    );
    assert_eq!(parse_month("4294967295").unwrap_err(), "month \"4294967295\" not in the range 1 through 12");
    assert_eq!(
        parse_year("2147483648").unwrap_err(),
        "invalid year \"2147483648\""
    );
}
