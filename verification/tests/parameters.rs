use move_numeric_files::parameters::{ParseError, Parameters};

#[test]
fn specifying_directory_works() {
    let starting_directory = "/starting_directory";
    let parameters = Parameters::from_args(
        &["move_numeric_files_test"],
        &["--start", "3", "--directory", starting_directory],
    )
    .expect("failed parameters parse just with directory");
    assert_eq!(
        parameters,
        Parameters {
            start: 3,
            directory_buf: String::from(starting_directory),
            keep_file: None,
        }
    );
}

#[test]
fn keep_file_omitted_defaults() {
    let parameters = Parameters::from_args(&["move_numeric_files_test"], &["--start", "3"])
        .expect("failed parameters parse just start");
    assert_eq!(
        parameters,
        Parameters {
            start: 3,
            directory_buf: String::from("."),
            keep_file: None,
        }
    );
}

#[test]
fn keep_file_option_recognized() {
    let keep_file_name = "keep_file_test_name";
    let parameters = Parameters::from_args(
        &["move_numeric_files_test"],
        &["--start", "3", "--keep-file", keep_file_name],
    )
    .expect("failed parameters parse with keep file");
    assert_eq!(
        parameters,
        Parameters {
            start: 3,
            directory_buf: String::from("."),
            keep_file: Some(keep_file_name.to_string()),
        }
    );
}

#[test]
fn no_arguments_gives_defaults() {
    let parameters =
        Parameters::from_args(&["move_numeric_files_test"], &[]).expect("failed empty parse");
    assert_eq!(parameters.start, 1);
    assert_eq!(parameters.directory_buf, ".");
    assert_eq!(parameters.keep_file, None);
    assert_eq!(parameters.directory(), ".");
}

#[test]
fn unknown_option_is_rejected() {
    let result = Parameters::from_args(&["move_numeric_files_test"], &["--frequency", "3"]);
    assert_eq!(result, Err(ParseError::UnknownOption));
}

#[test]
fn missing_value_is_rejected() {
    let result = Parameters::from_args(&["move_numeric_files_test"], &["--start"]);
    assert_eq!(result, Err(ParseError::MissingValue));
}

#[test]
fn duplicate_option_is_rejected() {
    let result =
        Parameters::from_args(&["move_numeric_files_test"], &["--start", "3", "--start", "4"]);
    assert_eq!(result, Err(ParseError::DuplicateOption));
}

#[test]
fn non_numeric_start_is_rejected() {
    let result = Parameters::from_args(&["move_numeric_files_test"], &["--start", "3x"]);
    assert_eq!(result, Err(ParseError::InvalidNumber));
}

#[test]
fn out_of_range_start_is_rejected() {
    let result = Parameters::from_args(&["move_numeric_files_test"], &["--start", "4294967296"]);
    assert_eq!(result, Err(ParseError::InvalidNumber));
}
