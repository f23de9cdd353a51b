use brack::change::{parse_change, parse_number, Change, ParseError, Percent};
use brack::device::Device;

fn value(p: &Percent) -> f32 {
    let v = p.numer as f32 / p.denom as f32;
    if p.negative {
        -v
    } else {
        v
    }
}

#[test]
fn inc_change() {
    let c = parse_change("+10").unwrap();
    assert!(matches!(c, Change::Relative(v) if value(&v) == 10.0));

    let c = parse_change("-10").unwrap();
    assert!(matches!(c, Change::Relative(v) if value(&v) == -10.0));
}

#[test]
fn absolute_change() {
    let c = parse_change("50").unwrap();
    assert!(matches!(c, Change::Absolute(v) if value(&v) == 50.0));
    let c = parse_change("12.5").unwrap();
    assert_eq!(c, Change::Absolute(Percent { negative: false, numer: 125, denom: 10 }));
}

#[test]
fn bad_changes() {
    assert_eq!(parse_change("+abc"), Err(ParseError));
    assert_eq!(parse_change("-"), Err(ParseError));
    assert_eq!(parse_change(""), Err(ParseError));
    assert_eq!(parse_change("1.2.3"), Err(ParseError));
    assert_eq!(parse_change("ten"), Err(ParseError));
}

#[test]
fn signs_after_the_first() {
    let c = parse_change("--5").unwrap();
    assert_eq!(c, Change::Relative(Percent { negative: false, numer: 5, denom: 1 }));
    let c = parse_change("+-5").unwrap();
    assert_eq!(c, Change::Relative(Percent { negative: true, numer: 5, denom: 1 }));
}

#[test]
fn number_forms() {
    assert_eq!(parse_number(".5"), Ok(Percent { negative: false, numer: 5, denom: 10 }));
    assert_eq!(parse_number("5."), Ok(Percent { negative: false, numer: 5, denom: 1 }));
    assert_eq!(parse_number("-0.25"), Ok(Percent { negative: true, numer: 25, denom: 100 }));
    assert_eq!(parse_number("."), Err(ParseError));
    assert_eq!(
        parse_number("9999999999999999999"),
        Ok(Percent { negative: false, numer: 9999999999999999999, denom: 1 })
    );
    assert_eq!(parse_number("99999999999999999999"), Err(ParseError));
}

#[test]
fn apply_dispatches() {
    let mut dev = Device::from_contents("d".to_string(), Some("d".to_string()), "200", "50").unwrap();
    dev.apply(parse_change("+10").unwrap());
    assert_eq!(dev.current(), 70);
    dev.apply(parse_change("50").unwrap());
    assert_eq!(dev.current(), 100);
    dev.apply(parse_change("-12.5").unwrap());
    assert_eq!(dev.current(), 75);
}
