use unweave::UnweaveError;

#[test]
fn words_of_each_error() {
    assert_eq!(UnweaveError::ParsingFailure("Unrecognized option: 'x'".to_string()).message(),
        "Unrecognized option: 'x'");
    assert_eq!(UnweaveError::MissingOption("pattern").message(),
        "Missing required option 'pattern'");
    assert_eq!(UnweaveError::InvalidOption("tab-width").message(),
        "Invalid option 'tab-width' for selected mode");
    assert_eq!(UnweaveError::InvalidOptionValue("mode", "rows".to_string()).message(),
        "Invalid value 'rows' for option 'mode'");
    assert_eq!(UnweaveError::InvalidTwoPassReread.message(),
        "Cannot use two-pass mode reread for the specified inputs");
    assert_eq!(UnweaveError::LineAndColumnWidth.message(),
        "Cannot specify both --line-width and --column-width");
    assert_eq!(UnweaveError::InvalidOutputFilePattern('λ').message(),
        "Invalid character 'λ' in output file pattern");
    assert_eq!(UnweaveError::IncompleteOutputFilePattern.message(),
        "Incomplete output file pattern");
    assert_eq!(UnweaveError::InvalidPattern("unclosed group".to_string()).message(),
        "unclosed group");
    assert_eq!(UnweaveError::InvalidTagEncoding.message(), "Stream tag is not valid UTF-8");
}
