use solmarket::money::Money;
use solmarket::numbers::{canonical_url, extract_identifier, extract_postal_code, ValueError};
use solmarket::normalize::{parse_base_unit_price, parse_package_price};

#[test]
fn package_price_with_thousands_separator() {
    let r = parse_package_price("1.234,50  EUR  / Stk");
    assert_eq!(r, Ok(Money { micros: 1_234_500_000 }));
}

#[test]
fn package_price_with_prefix() {
    let r = parse_package_price("ab: 399,00  EUR  / Stk");
    assert_eq!(r, Ok(Money { micros: 399_000_000 }));
}

#[test]
fn package_price_same_value_for_every_suffix_variant() {
    let a = parse_package_price("1234,50  EUR  / Stk");
    let b = parse_package_price("1234,50  EUR/Stk");
    let c = parse_package_price("1234,50  CHF  / Stk");
    assert_eq!(a, Ok(Money { micros: 1_234_500_000 }));
    assert_eq!(a, b);
    assert_eq!(a, c);
}

#[test]
fn base_unit_price_same_value_for_every_suffix_variant() {
    let a = parse_base_unit_price("0,30  EUR  / Wp");
    let b = parse_base_unit_price("0,30  EUR / Wp");
    let c = parse_base_unit_price("0,30  CHF  / Wp");
    assert_eq!(a, Ok(Money { micros: 300_000 }));
    assert_eq!(a, b);
    assert_eq!(a, c);
}

#[test]
fn base_unit_price_unparsable_is_malformed() {
    assert_eq!(parse_base_unit_price("n/a"), Err(ValueError::MalformedValue));
    assert_eq!(parse_base_unit_price(""), Err(ValueError::MalformedValue));
}

#[test]
fn package_price_not_numeric_is_malformed() {
    assert_eq!(parse_package_price("Preis auf Anfrage"), Err(ValueError::MalformedValue));
    assert_eq!(parse_package_price("12,3,4  EUR  / Stk"), Err(ValueError::MalformedValue));
}

#[test]
fn price_with_surrounding_whitespace() {
    let r = parse_base_unit_price("  0,25  EUR  / Wp  ");
    assert_eq!(r, Ok(Money { micros: 250_000 }));
}

#[test]
fn identifier_from_url() {
    assert_eq!(extract_identifier("https://www.secondsol.com/de/anzeige/12345"), Ok(12345));
    assert_eq!(extract_identifier("/de/anzeige/77?x=1"), Ok(77));
}

#[test]
fn identifier_not_found_or_oversized() {
    assert_eq!(extract_identifier("no-digits-here"), Err(ValueError::NotFound));
    assert_eq!(
        extract_identifier("id 99999999999999999999999999"),
        Err(ValueError::MalformedValue)
    );
}

#[test]
fn identifier_of_canonical_url_is_the_identifier_again() {
    let url = canonical_url(987654);
    assert_eq!(url, "https://www.secondsol.com/de/anzeige/987654");
    assert_eq!(extract_identifier(&url), Ok(987654));
}

#[test]
fn postal_code_first_five_digit_run() {
    assert_eq!(extract_postal_code("D-10115 Berlin"), Ok(10115));
    assert_eq!(extract_postal_code("Standort: 80331, Bayern 99999"), Ok(80331));
}

#[test]
fn postal_code_with_leading_zero() {
    assert_eq!(extract_postal_code("01067 Dresden"), Ok(1067));
}

#[test]
fn postal_code_requires_exactly_five_digits() {
    assert_eq!(extract_postal_code("123456"), Err(ValueError::NotFound));
    assert_eq!(extract_postal_code("1234"), Err(ValueError::NotFound));
    assert_eq!(extract_postal_code("kein Ort"), Err(ValueError::NotFound));
}

#[test]
fn price_beyond_machine_range_is_malformed() {
    // 2^64 whole units cannot be represented in millionths.
    assert_eq!(
        parse_package_price("18.446.744.073.709.551.616  EUR  / Stk"),
        Err(ValueError::MalformedValue)
    );
}

#[test]
fn price_with_more_than_six_fraction_digits_is_malformed() {
    assert_eq!(parse_base_unit_price("0,1234567  EUR  / Wp"), Err(ValueError::MalformedValue));
    assert_eq!(parse_base_unit_price("0,123456  EUR  / Wp"), Ok(Money { micros: 123_456 }));
}

#[test]
fn whole_number_price_without_fraction() {
    assert_eq!(parse_package_price("250  EUR/Stk"), Ok(Money { micros: 250_000_000 }));
}
