//! Tests for configuration-text parsing.

use tomasulos::Config;
use tomasulos::ConfigError;

const GOOD: &[u8] = b"buffers\n\neff addr: 2\nfp adds: 3\nfp muls: 3\nints: 2\nreorder: 5\n\nlatencies\n\nfp_add: 2\nfp_sub: 2\nfp_mul: 5\nfp_div: 10\n";

#[test]
fn parses_complete_configuration() {
    let cfg = Config::parse(GOOD).unwrap();
    assert_eq!(cfg.eff_addr_buffer_entries, 2);
    assert_eq!(cfg.fp_add_buffer_entries, 3);
    assert_eq!(cfg.fp_mul_buffer_entries, 3);
    assert_eq!(cfg.int_buffer_entries, 2);
    assert_eq!(cfg.reorder_buffer_entries, 5);
    assert_eq!(cfg.fp_add_buffer_latency, 2);
    assert_eq!(cfg.fp_sub_buffer_latency, 2);
    assert_eq!(cfg.fp_mul_buffer_latency, 5);
    assert_eq!(cfg.fp_div_buffer_latency, 10);
}

#[test]
fn lines_without_one_colon_are_skipped() {
    let text = b"no colon here\na:b:c\neff addr: 2\nfp adds: 3\nfp muls: 3\nints: 2\nreorder: 5\nfp_add: 2\nfp_sub: 2\nfp_mul: 5\nfp_div: 10\n";
    assert!(Config::parse(text).is_ok());
}

#[test]
fn missing_parameter_is_fatal() {
    let text = b"eff addr: 2\nfp adds: 3\nfp muls: 3\nints: 2\nreorder: 5\nfp_add: 2\nfp_sub: 2\nfp_mul: 5\n";
    assert_eq!(Config::parse(text), Err(ConfigError::MissingParameter));
}

#[test]
fn duplicate_parameter_is_fatal() {
    let text = b"eff addr: 2\neff addr: 3\nfp adds: 3\nfp muls: 3\nints: 2\nreorder: 5\nfp_add: 2\nfp_sub: 2\nfp_mul: 5\nfp_div: 10\n";
    assert_eq!(Config::parse(text), Err(ConfigError::DuplicateParameter));
}

#[test]
fn unknown_parameter_is_fatal() {
    let text = b"eff addr: 2\nmystery: 9\n";
    assert_eq!(Config::parse(text), Err(ConfigError::UnknownParameter));
}

#[test]
fn non_integer_value_is_fatal() {
    let text = b"eff addr: two\n";
    assert_eq!(Config::parse(text), Err(ConfigError::InvalidValue));
}

#[test]
fn empty_text_misses_every_parameter() {
    assert_eq!(Config::parse(b""), Err(ConfigError::MissingParameter));
}
