use daedal::{check_parameters, colour_scheme, parse_rgb, parse_size, ConfigError, ImageSize, ParseError};

#[test]
fn rgb_reads_three_channels() {
    assert_eq!(parse_rgb("10,2,4"), Ok([10, 2, 4]));
    assert_eq!(parse_rgb("+255,0,007"), Ok([255, 0, 7]));
}

#[test]
fn rgb_refuses_bad_numbers() {
    assert_eq!(parse_rgb("256,0,0"), Err(ParseError::InvalidNumber));
    assert_eq!(parse_rgb("a,b,c"), Err(ParseError::InvalidNumber));
    assert_eq!(parse_rgb(""), Err(ParseError::InvalidNumber));
    assert_eq!(parse_rgb(" 1,2,3"), Err(ParseError::InvalidNumber));
    assert_eq!(parse_rgb("1,,3"), Err(ParseError::InvalidNumber));
    assert_eq!(parse_rgb("+,1,2"), Err(ParseError::InvalidNumber));
    assert_eq!(parse_rgb("-1,1,2"), Err(ParseError::InvalidNumber));
}

#[test]
fn rgb_refuses_wrong_field_count() {
    assert_eq!(parse_rgb("1,2"), Err(ParseError::WrongFieldCount(2)));
    assert_eq!(parse_rgb("1,2,3,4"), Err(ParseError::WrongFieldCount(4)));
    assert_eq!(parse_rgb("7"), Err(ParseError::WrongFieldCount(1)));
}

#[test]
fn size_reads_width_and_height() {
    assert_eq!(parse_size("800x640"), Ok(ImageSize { x: 800, y: 640 }));
    assert_eq!(parse_size("800x640x2"), Ok(ImageSize { x: 800, y: 640 }));
    assert_eq!(parse_size("4294967295x1"), Ok(ImageSize { x: 4294967295, y: 1 }));
}

#[test]
fn size_refuses_bad_text() {
    assert_eq!(parse_size("800"), Err(ParseError::WrongFieldCount(1)));
    assert_eq!(parse_size("x640"), Err(ParseError::InvalidNumber));
    assert_eq!(parse_size("800x"), Err(ParseError::InvalidNumber));
    assert_eq!(parse_size("4294967296x1"), Err(ParseError::InvalidNumber));
    assert_eq!(parse_size("800,640"), Err(ParseError::InvalidNumber));
}

#[test]
fn few_stops_fall_back_to_default_scheme() {
    let default = vec![
        [2, 2, 11],
        [255, 97, 211],
        [0, 166, 166],
        [230, 170, 104],
        [140, 39, 30],
        [187, 222, 240],
    ];
    assert_eq!(colour_scheme(vec![[0, 0, 0]]), default);
    assert_eq!(colour_scheme(vec![]), default);
    assert_eq!(colour_scheme(vec![[1, 2, 3], [4, 5, 6]]), vec![[1, 2, 3], [4, 5, 6]]);
}

#[test]
fn requests_are_checked_before_rendering() {
    let size = ImageSize { x: 100, y: 80 };
    let colours = [[0u8, 0, 0]];
    assert_eq!(check_parameters(size, 50, 4, &colours), Ok(()));
    assert_eq!(
        check_parameters(ImageSize { x: 0, y: 80 }, 50, 4, &colours),
        Err(ConfigError::EmptyImage)
    );
    assert_eq!(
        check_parameters(ImageSize { x: 100, y: 0 }, 0, 0, &[]),
        Err(ConfigError::EmptyImage)
    );
    assert_eq!(check_parameters(size, 0, 4, &colours), Err(ConfigError::NoIterations));
    assert_eq!(check_parameters(size, 50, 4, &[]), Err(ConfigError::NoColours));
    assert_eq!(check_parameters(size, 50, 0, &colours), Err(ConfigError::NoWorkers));
    assert_eq!(
        check_parameters(ImageSize { x: u32::MAX, y: u32::MAX }, 50, 4, &colours),
        Err(ConfigError::TooLarge)
    );
}
