use hrdbl::{Diagnostic, Level, Scaled, Unit};

fn value(scaled: Scaled) -> f64 {
    scaled.whole as f64 + scaled.rest as f64 / scaled.divisor as f64
}

#[test]
fn test_unit_apply() {
    assert_eq!(value(Unit::Byte.apply(1073741824)), 1073741824.0);
    assert_eq!(value(Unit::Kilo.apply(1073741824)), 1048576.0);
    assert_eq!(value(Unit::Mega.apply(1073741824)), 1024.0);
    assert_eq!(value(Unit::Giga.apply(1073741824)), 1.0);
    assert_eq!(value(Unit::Tera.apply(1073741824)), 0.0009765625);
    assert_eq!(value(Unit::Peta.apply(1073741824)), 0.00000095367431640625);
    assert_eq!(
        value(Unit::Exa.apply(1073741824)),
        0.0000000009313225746154785
    );
}

#[test]
fn test_unit_auto() {
    assert_eq!(Unit::auto(0), Unit::Byte);
    assert_eq!(Unit::auto(1023), Unit::Byte);
    assert_eq!(Unit::auto(1024), Unit::Kilo);
    assert_eq!(Unit::auto((1u64 << 20) as i128), Unit::Mega);
    assert_eq!(Unit::auto((1u64 << 30) as i128), Unit::Giga);
    assert_eq!(Unit::auto((1u64 << 40) as i128), Unit::Tera);
    assert_eq!(Unit::auto((1u64 << 50) as i128), Unit::Peta);
    assert_eq!(Unit::auto((1u64 << 60) as i128), Unit::Exa);
    assert_eq!(Unit::auto(i128::MAX), Unit::Exa);
}

#[test]
fn apply_keeps_quotient_and_remainder() {
    let scaled = Unit::Kilo.apply(1025);
    assert_eq!(
        scaled,
        Scaled {
            whole: 1,
            rest: 1,
            divisor: 1024
        }
    );
    let scaled = Unit::Exa.apply(u64::MAX);
    assert_eq!(scaled.whole, 15);
    assert_eq!(scaled.rest, (1u64 << 60) - 1);
    assert_eq!(scaled.divisor, 1u64 << 60);
    let scaled = Unit::Byte.apply(u64::MAX);
    assert_eq!(scaled.whole, u64::MAX);
    assert_eq!(scaled.rest, 0);
    assert_eq!(scaled.divisor, 1);
}

#[test]
fn rounded_counts_units_of_the_last_place() {
    assert_eq!(Unit::Giga.apply(1200000000).rounded(1), 11);
    assert_eq!(Unit::Giga.apply(1200000000).rounded(3), 1118);
    assert_eq!(Unit::Kilo.apply(1536).rounded(0), 2);
    assert_eq!(Unit::Kilo.apply(2560).rounded(0), 2);
    assert_eq!(Unit::Exa.apply(u64::MAX).rounded(1), 160);
    assert_eq!(
        Unit::Kilo.apply(u64::MAX).rounded(20),
        1801439850948198399902343750000000000
    );
}

#[test]
fn auto_picks_the_unit_that_holds_the_magnitude() {
    let units = [
        Unit::Byte,
        Unit::Kilo,
        Unit::Mega,
        Unit::Giga,
        Unit::Tera,
        Unit::Peta,
        Unit::Exa,
    ];
    for (index, unit) in units.iter().enumerate() {
        let low: i128 = 1i128 << (10 * index);
        let high: i128 = (1i128 << (10 * (index + 1))) - 1;
        assert_eq!(Unit::auto(low), *unit);
        assert_eq!(Unit::auto(high), *unit);
        assert_eq!(Unit::auto((low + high) / 2), *unit);
        assert_eq!(unit.exponent(), index as u32);
        assert_eq!(unit.base() as i128, low);
    }
    assert_eq!(Unit::auto(u64::MAX as i128), Unit::Exa);
}

#[test]
fn auto_falls_back_outside_its_range() {
    assert_eq!(Unit::auto(-1), Unit::Byte);
    assert_eq!(Unit::auto(i128::MIN), Unit::Byte);
    assert_eq!(Unit::auto(1i128 << 70), Unit::Exa);
    assert_eq!(Unit::auto((1i128 << 70) - 1), Unit::Exa);
}

#[test]
fn diagnose_reports_what_auto_fell_back_on() {
    assert_eq!(Unit::diagnose(0), None);
    assert_eq!(Unit::diagnose(u64::MAX as i128), None);
    assert_eq!(Unit::diagnose((1i128 << 70) - 1), None);
    assert_eq!(
        Unit::diagnose(-5),
        Some(Diagnostic::NegativeMagnitude { magnitude: -5 })
    );
    assert_eq!(
        Unit::diagnose(1i128 << 70),
        Some(Diagnostic::MagnitudeBeyondScale {
            magnitude: 1i128 << 70
        })
    );
    assert_eq!(Unit::diagnose(-5).unwrap().level(), Level::Error);
    assert_eq!(Unit::diagnose(1i128 << 70).unwrap().level(), Level::Warn);
}

#[test]
fn suffix_is_the_first_letter() {
    let units = [
        (Unit::Byte, 'B'),
        (Unit::Kilo, 'K'),
        (Unit::Mega, 'M'),
        (Unit::Giga, 'G'),
        (Unit::Tera, 'T'),
        (Unit::Peta, 'P'),
        (Unit::Exa, 'E'),
    ];
    for (unit, letter) in units {
        assert_eq!(unit.suffix(), letter);
        assert_eq!(unit.to_string(), letter.to_string());
        assert_eq!(format!("{:?}", unit).chars().next(), Some(letter));
    }
}

#[test]
fn default_unit_is_byte() {
    assert_eq!(Unit::default(), Unit::Byte);
}

#[test]
fn divisor_is_a_power_of_1024() {
    for unit in [
        Unit::Byte,
        Unit::Kilo,
        Unit::Mega,
        Unit::Giga,
        Unit::Tera,
        Unit::Peta,
        Unit::Exa,
    ] {
        assert_eq!(unit.base(), 1024u64.pow(unit.exponent()));
    }
}
