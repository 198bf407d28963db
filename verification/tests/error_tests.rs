use domain_tree::{DataHandlingError, NestedSimilar, ParsingError};

#[test]
fn parsing_error_from_str_copies_the_text() {
    assert_eq!(ParsingError::from_str("bad shape").error, "bad shape");
    assert_eq!(ParsingError::from_str("").error, "");
}

#[test]
fn parsing_error_new_keeps_the_text() {
    assert_eq!(ParsingError::new("bad shape".to_string()).error, "bad shape");
}

#[test]
fn parsing_error_message_has_its_prefix() {
    assert_eq!(ParsingError::from_str("bad shape").message(), "ParsingError:bad shape");
    assert_eq!(ParsingError::from_str("").message(), "ParsingError:");
}

#[test]
fn data_handling_error_wraps_a_parsing_error() {
    let error = DataHandlingError::from(ParsingError::from_str("bad shape"));
    assert!(matches!(&error, DataHandlingError::ParsingError(e) if e.error == "bad shape"));
    assert_eq!(error.message(), "YamlFileLoadingError:ParsingError:bad shape");
}

#[test]
fn data_handling_error_wraps_an_io_error() {
    let inner = std::io::Error::new(std::io::ErrorKind::NotFound, "no such directory");
    let error = DataHandlingError::from(inner);
    assert!(matches!(&error, DataHandlingError::IoError(e) if e.kind() == std::io::ErrorKind::NotFound));
    assert_eq!(error.message(), "YamlFileLoadingError:no such directory");
}

#[test]
fn data_handling_error_wraps_a_scan_error() {
    let inner = yaml_rust::YamlLoader::load_from_str("a: [unclosed\n").unwrap_err();
    let shown = format!("{}", inner);
    let error = DataHandlingError::from(inner);
    assert!(matches!(&error, DataHandlingError::ScanError(_)));
    assert_eq!(error.message(), format!("YamlFileLoadingError:{}", shown));
}

#[test]
fn denest_folds_the_outer_result() {
    let ok: Result<Result<u8, String>, String> = Ok(Ok(3));
    assert_eq!(ok.denest(), Ok(3));
    let inner: Result<Result<u8, String>, String> = Ok(Err("inner".to_string()));
    assert_eq!(inner.denest(), Err("inner".to_string()));
    let outer: Result<Result<u8, String>, String> = Err("outer".to_string());
    assert_eq!(outer.denest(), Err("outer".to_string()));
}
