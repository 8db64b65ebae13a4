use hrdbl::{Config, Unit};

#[test]
fn config_new_keeps_its_arguments() {
    let config = Config::new(",".to_string(), vec![3, 1], Some(Unit::Giga), 4);
    assert_eq!(config.delimiter, ",");
    assert_eq!(config.fields, [3, 1]);
    assert_eq!(config.format.unit, Some(Unit::Giga));
    assert_eq!(config.format.precision, 4);
}

#[test]
fn config_default_is_tab_and_first_field() {
    let config = Config::default();
    assert_eq!(config.delimiter, "\t");
    assert_eq!(config.fields, [1]);
    assert_eq!(config.format.unit, None);
    assert_eq!(config.format.precision, 1);
}

#[test]
fn selects_tests_membership() {
    let config = Config::new("\t".to_string(), vec![4, 2, 2], None, 1);
    assert!(config.selects(2));
    assert!(config.selects(4));
    assert!(!config.selects(0));
    assert!(!config.selects(1));
    assert!(!config.selects(3));
    assert!(!config.selects(usize::MAX));
}
