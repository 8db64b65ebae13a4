use hrdbl::{human_readable, Format, Unit};

#[test]
fn test_human_readable() {
    assert_eq!(human_readable(0u8, &Format::default()), "0B");
    assert_eq!(human_readable(1u8, &Format::default()), "1B");
    assert_eq!(human_readable(1023u32, &Format::default()), "1023B");
    assert_eq!(human_readable(1024u32, &Format::default()), "1.0K");
    assert_eq!(human_readable(1025u32, &Format::default()), "1.0K");
    assert_eq!(human_readable(1048576u32, &Format::default()), "1.0M");
    assert_eq!(human_readable(1073741824u64, &Format::default()), "1.0G");
    assert_eq!(human_readable(1200000000u64, &Format::default()), "1.1G");
    assert_eq!(human_readable(1099511627776u64, &Format::default()), "1.0T");
    assert_eq!(
        human_readable(1125899906842624u64, &Format::default()),
        "1.0P"
    );
    // One byte short of an exbibyte is still counted in Peta.
    assert_eq!(
        human_readable(1152921504606846975u64, &Format::default()),
        "1024.0P"
    );
    assert_eq!(
        human_readable(1152921504606846976u64, &Format::default()),
        "1.0E"
    );
    assert_eq!(human_readable(u64::MAX, &Default::default()), "16.0E");
}

#[test]
fn boundary_table() {
    let format = Format::default();
    assert_eq!(format.render(0), "0B");
    assert_eq!(format.render(1023), "1023B");
    assert_eq!(format.render(1024), "1.0K");
    assert_eq!(format.render(1048576), "1.0M");
    assert_eq!(format.render(1073741824), "1.0G");
    assert_eq!(format.render(1200000000), "1.1G");
    assert_eq!(format.render(1099511627776), "1.0T");
    assert_eq!(format.render(1125899906842624), "1.0P");
    assert_eq!(format.render(1152921504606846976), "1.0E");
    assert_eq!(format.render(u64::MAX), "16.0E");
}

#[test]
fn one_below_each_boundary_stays_in_the_lower_unit() {
    let format = Format::default();
    assert_eq!(format.render(1048575), "1024.0K");
    assert_eq!(format.render(1073741823), "1024.0M");
    assert_eq!(format.render(1099511627775), "1024.0G");
    assert_eq!(format.render(1125899906842623), "1024.0T");
    assert_eq!(format.render(1152921504606846975), "1024.0P");
}

#[test]
fn forced_unit_overrides_the_choice() {
    let format = Format::new(Some(Unit::Kilo), 1);
    assert_eq!(human_readable(1073741824u64, &format), "1048576.0K");
    assert_eq!(Format::new(Some(Unit::Exa), 3).render(1024), "0.000E");
    assert_eq!(Format::new(Some(Unit::Mega), 2).render(1), "0.00M");
    assert_eq!(Format::new(Some(Unit::Giga), 2).render(1610612736), "1.50G");
}

#[test]
fn forced_byte_is_the_whole_number() {
    assert_eq!(Format::new(Some(Unit::Byte), 5).render(1234567), "1234567B");
    assert_eq!(
        Format::new(Some(Unit::Byte), 0).render(u64::MAX),
        "18446744073709551615B"
    );
}

#[test]
fn precision_above_twenty_is_twenty() {
    for n in [0u64, 1, 1023, 1024, 1025, 1234567, 1200000000, u64::MAX] {
        for unit in [None, Some(Unit::Byte), Some(Unit::Kilo), Some(Unit::Exa)] {
            let capped = Format::new(unit, 20).render(n);
            assert_eq!(Format::new(unit, 999).render(n), capped);
            assert_eq!(Format::new(unit, 21).render(n), capped);
            assert_eq!(Format::new(unit, usize::MAX).render(n), capped);
        }
    }
    assert_eq!(
        Format::new(None, 999).render(1025),
        "1.00097656250000000000K"
    );
    assert_eq!(
        Format::new(Some(Unit::Exa), 20).render(1),
        "0.00000000000000000087E"
    );
}

#[test]
fn precision_zero_has_no_point() {
    assert_eq!(Format::new(None, 0).render(1024), "1K");
    assert_eq!(Format::new(None, 0).render(2047), "2K");
    assert_eq!(Format::new(None, 0).render(1048576), "1M");
}

#[test]
fn a_tie_goes_to_the_even_neighbour() {
    // 1.5, 2.5 and 3.5 kibibytes at no decimal places.
    assert_eq!(Format::new(None, 0).render(1536), "2K");
    assert_eq!(Format::new(None, 0).render(2560), "2K");
    assert_eq!(Format::new(None, 0).render(3584), "4K");
    // 1.25 and 1.75 kibibytes at one decimal place.
    assert_eq!(Format::new(None, 1).render(1280), "1.2K");
    assert_eq!(Format::new(None, 1).render(1792), "1.8K");
    // Just above and just below a tie.
    assert_eq!(Format::new(None, 0).render(2561), "3K");
    assert_eq!(Format::new(None, 0).render(2559), "2K");
}

#[test]
fn rounding_carries_into_the_whole_part() {
    assert_eq!(Format::new(None, 1).render(2047), "2.0K");
    assert_eq!(Format::new(None, 2).render(10239), "10.00K");
    assert_eq!(Format::new(Some(Unit::Kilo), 0).render(1023), "1K");
    assert_eq!(Format::new(Some(Unit::Kilo), 0).render(511), "0K");
    assert_eq!(Format::new(Some(Unit::Kilo), 0).render(512), "0K");
    assert_eq!(Format::new(Some(Unit::Kilo), 0).render(513), "1K");
}

#[test]
fn agrees_with_floating_point_formatting_where_that_is_exact() {
    let units = [
        (Unit::Kilo, 1u64 << 10),
        (Unit::Mega, 1u64 << 20),
        (Unit::Giga, 1u64 << 30),
        (Unit::Tera, 1u64 << 40),
    ];
    let mut n: u64 = 0;
    while n < (1u64 << 52) {
        for (unit, divisor) in units {
            for precision in [0usize, 1, 2, 3, 7, 20] {
                let expected = format!(
                    "{:.p$}{}",
                    n as f64 / divisor as f64,
                    unit.to_string(),
                    p = precision
                );
                assert_eq!(Format::new(Some(unit), precision).render(n), expected);
            }
        }
        n = n * 3 + 1 + (n % 7) * 128;
    }
}

#[test]
fn format_new_keeps_its_arguments() {
    let format = Format::new(Some(Unit::Tera), 7);
    assert_eq!(format.unit, Some(Unit::Tera));
    assert_eq!(format.precision, 7);
    let format = Format::default();
    assert_eq!(format.unit, None);
    assert_eq!(format.precision, 1);
}
