use wall_cli::config::{
    compute_iterations, frame_interval_ms, parse_resolution, parse_u32, resolve_directory,
    ConfigError, NumError,
};

#[test]
fn resolution_parses_width_and_height() {
    assert_eq!(parse_resolution("1920x1080"), Ok((1920, 1080)));
    assert_eq!(parse_resolution("2x1"), Ok((2, 1)));
    assert_eq!(parse_resolution("0x0"), Ok((0, 0)));
}

#[test]
fn resolution_takes_the_first_two_parts() {
    assert_eq!(parse_resolution("1x2x3"), Ok((1, 2)));
}

#[test]
fn resolution_without_separator_is_missing_height() {
    assert_eq!(parse_resolution("1920"), Err(ConfigError::MissingHeight));
    assert_eq!(parse_resolution(""), Err(ConfigError::MissingHeight));
}

#[test]
fn resolution_rejects_bad_width() {
    assert_eq!(parse_resolution("x1080"), Err(ConfigError::InvalidWidth));
    assert_eq!(parse_resolution("19a0x1080"), Err(ConfigError::InvalidWidth));
    assert_eq!(parse_resolution("-2x1"), Err(ConfigError::InvalidWidth));
}

#[test]
fn resolution_rejects_bad_height() {
    assert_eq!(parse_resolution("1920x"), Err(ConfigError::InvalidHeight));
    assert_eq!(parse_resolution("1920xabc"), Err(ConfigError::InvalidHeight));
}

#[test]
fn resolution_rejects_out_of_range_values() {
    assert_eq!(parse_resolution("4294967295x1"), Ok((4294967295, 1)));
    assert_eq!(parse_resolution("4294967296x1"), Err(ConfigError::WidthTooLarge));
    assert_eq!(parse_resolution("1x4294967296"), Err(ConfigError::HeightTooLarge));
}

#[test]
fn numbers_parse_with_leading_zeros() {
    assert_eq!(parse_u32("042"), Ok(42));
    assert_eq!(parse_u32("0"), Ok(0));
    assert_eq!(parse_u32(""), Err(NumError::Invalid));
    assert_eq!(parse_u32("1 2"), Err(NumError::Invalid));
    assert_eq!(parse_u32("99999999999"), Err(NumError::TooLarge));
}

#[test]
fn iterations_combine_rate_and_duration() {
    assert_eq!(compute_iterations(2, 1), Ok(2));
    assert_eq!(compute_iterations(144, 5), Ok(720));
    assert_eq!(compute_iterations(65535, 1), Ok(65535));
    assert_eq!(compute_iterations(65535, 2), Err(ConfigError::IterationOverflow));
}

#[test]
fn frame_interval_is_whole_milliseconds() {
    assert_eq!(frame_interval_ms(144), 6);
    assert_eq!(frame_interval_ms(60), 16);
    assert_eq!(frame_interval_ms(1), 1000);
    assert_eq!(frame_interval_ms(1000), 1);
}

#[test]
fn directories_resolve_with_fallback() {
    assert_eq!(
        resolve_directory(Some("/tmp/x".to_string()), Some("/home".to_string())),
        Ok("/tmp/x".to_string())
    );
    assert_eq!(
        resolve_directory(None, Some("/home/me/.cache".to_string())),
        Ok("/home/me/.cache/wall-cli".to_string())
    );
    assert_eq!(resolve_directory(None, None), Err(ConfigError::MissingDirectory));
}
