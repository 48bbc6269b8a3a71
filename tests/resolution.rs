use mandelbrot::resolution::{parse_count, parse_field, parse_resolution, ResolutionError};

#[test]
fn square_resolution() {
    assert_eq!(parse_resolution("500x500"), Ok((500, 500)));
}

#[test]
fn padded_resolution() {
    assert_eq!(parse_resolution(" 10 x 20 "), Ok((10, 20)));
    assert_eq!(parse_resolution("\t7\u{3000}x\n8 "), Ok((7, 8)));
}

#[test]
fn height_comes_first() {
    assert_eq!(parse_resolution("480x640"), Ok((480, 640)));
}

#[test]
fn empty_resolution_lacks_height() {
    assert_eq!(parse_resolution(""), Err(ResolutionError::MissingHeight));
}

#[test]
fn resolution_without_separator_lacks_width() {
    assert_eq!(parse_resolution("500"), Err(ResolutionError::MissingWidth));
    assert_eq!(parse_resolution("   "), Err(ResolutionError::MissingWidth));
}

#[test]
fn resolution_with_two_separators() {
    assert_eq!(parse_resolution("10x20x30"), Err(ResolutionError::TooManySeparators));
    assert_eq!(parse_resolution("xx"), Err(ResolutionError::TooManySeparators));
}

#[test]
fn non_numeric_height() {
    assert_eq!(parse_resolution("ax20"), Err(ResolutionError::InvalidHeight));
    assert_eq!(parse_resolution("x20"), Err(ResolutionError::InvalidHeight));
    assert_eq!(parse_resolution("-5x20"), Err(ResolutionError::InvalidHeight));
    assert_eq!(parse_resolution("ax b"), Err(ResolutionError::InvalidHeight));
}

#[test]
fn non_numeric_width() {
    assert_eq!(parse_resolution("20xa"), Err(ResolutionError::InvalidWidth));
    assert_eq!(parse_resolution("20x"), Err(ResolutionError::InvalidWidth));
    assert_eq!(parse_resolution("20x2 0"), Err(ResolutionError::InvalidWidth));
}

#[test]
fn height_that_overflows() {
    assert_eq!(parse_resolution("4294967296x1"), Err(ResolutionError::InvalidHeight));
    assert_eq!(parse_resolution("4294967295x1"), Ok((4294967295, 1)));
}

#[test]
fn plus_sign_allowed() {
    assert_eq!(parse_resolution("+3x+4"), Ok((3, 4)));
    assert_eq!(parse_resolution("+x4"), Err(ResolutionError::InvalidHeight));
}

#[test]
fn error_messages() {
    assert_eq!(ResolutionError::MissingHeight.message(), "Invalid height!");
    assert_eq!(ResolutionError::InvalidHeight.message(), "Invalid height!");
    assert_eq!(ResolutionError::MissingWidth.message(), "Invalid width!");
    assert_eq!(ResolutionError::InvalidWidth.message(), "Invalid width!");
    assert_eq!(ResolutionError::TooManySeparators.message(), "Invalid resolution string!");
}

#[test]
fn fields_read_like_std_parse() {
    for text in ["0", "42", " 42 ", "+42", "007", "", "+", "-1", "4x", "4294967295", "4294967296"] {
        assert_eq!(parse_field(text), text.trim().parse::<u32>().ok(), "{:?}", text);
    }
}

#[test]
fn iteration_counts() {
    assert_eq!(parse_count("255"), Some(255));
    assert_eq!(parse_count(" 12\n"), Some(12));
    assert_eq!(parse_count("abc"), None);
    assert_eq!(parse_count("1.5"), None);
    assert_eq!(parse_count(&usize::MAX.to_string()), Some(usize::MAX));
    assert_eq!(parse_count("99999999999999999999999"), None);
}
