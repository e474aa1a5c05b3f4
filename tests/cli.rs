use motd::cli::{choose_entry, parse_u32, pick_entry, CliArgs, CliError, SelectError};

fn args(v: &[&str]) -> Vec<String> {
    v.iter().map(|s| s.to_string()).collect()
}

#[test]
fn no_arguments() {
    assert_eq!(CliArgs::from_args(&args(&["motd"])), Ok(CliArgs::none()));
}

#[test]
fn flags_and_entry() {
    let r = CliArgs::from_args(&args(&["motd", "--debug", "-e", "3", "--validate", "--help"])).unwrap();
    assert!(r.debug && r.validate && r.help);
    assert_eq!(r.entry, Some(3));
    assert_eq!(r.img_height, None);
}

#[test]
fn long_entry_and_image_sizes() {
    let r = CliArgs::from_args(&args(&["--entry", "12", "--img-height", "5", "--img-width", "40"])).unwrap();
    assert_eq!(r.entry, Some(12));
    assert_eq!(r.img_height, Some(5));
    assert_eq!(r.img_width, Some(40));
}

#[test]
fn entry_value_not_a_number() {
    let r = CliArgs::from_args(&args(&["-e", "x", "--debug"])).unwrap();
    assert_eq!(r.entry, None);
    assert!(r.debug);
}

#[test]
fn missing_values() {
    assert_eq!(CliArgs::from_args(&args(&["--debug", "-e"])), Err(CliError::MissingEntry));
    assert_eq!(CliArgs::from_args(&args(&["--img-height"])), Err(CliError::MissingImgHeight));
    assert_eq!(CliArgs::from_args(&args(&["--img-width"])), Err(CliError::MissingImgWidth));
    assert_eq!(CliError::MissingEntry.message(), "--entry option requires a valid line number.");
}

#[test]
fn unknown_arguments_are_ignored() {
    assert_eq!(CliArgs::from_args(&args(&["--nope", "x"])), Ok(CliArgs::none()));
}

#[test]
fn decimal_parsing() {
    assert_eq!(parse_u32("0"), Some(0));
    assert_eq!(parse_u32("+17"), Some(17));
    assert_eq!(parse_u32("4294967295"), Some(u32::MAX));
    assert_eq!(parse_u32("4294967296"), None);
    assert_eq!(parse_u32("99999999999999999999"), None);
    assert_eq!(parse_u32(""), None);
    assert_eq!(parse_u32("+"), None);
    assert_eq!(parse_u32("-1"), None);
    assert_eq!(parse_u32("12a"), None);
    assert_eq!(parse_u32(" 1"), None);
}

#[test]
fn choosing_an_entry() {
    assert_eq!(choose_entry(Some(2), 3, 0), Ok(2));
    assert_eq!(choose_entry(Some(3), 3, 0), Err(SelectError::OutOfRange { count: 3 }));
    assert_eq!(choose_entry(None, 3, 1), Ok(1));
}

#[test]
fn picking_an_entry() {
    assert_eq!(pick_entry(Some(1), 2), Ok(1));
    assert_eq!(pick_entry(Some(2), 2), Err(SelectError::OutOfRange { count: 2 }));
    for _ in 0..50 {
        let i = pick_entry(None, 3).unwrap();
        assert!(i < 3);
    }
    assert_eq!(pick_entry(None, 1), Ok(0));
}
