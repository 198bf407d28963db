//! Error types.

use vstd::prelude::*;

verus! {

/// `std::io::Error`, carried through as an opaque value.
#[verifier::external_type_specification]
#[verifier::external_body]
pub struct ExIoError(std::io::Error);

/// `yaml_rust::ScanError`, carried through as an opaque value.
#[verifier::external_type_specification]
#[verifier::external_body]
pub struct ExScanError(yaml_rust::ScanError);

/// A structural validation error: a document, key, value or list element
/// does not have the expected shape. `error` describes the violation.
#[derive(Debug)]
pub struct ParsingError {
    pub error: String,
}

impl View for ParsingError {
    type V = Seq<char>;

    open spec fn view(&self) -> Seq<char> {
        self.error@
    }
}

impl ParsingError {
    /// An error with a copy of `e` as its description.
    pub fn from_str(e: &str) -> (r: Self)
        ensures
            r@ == e@,
    {
        Self { error: e.to_owned() }
    }

    /// An error with `error` as its description.
    pub fn new(error: String) -> (r: Self)
        ensures
            r.error == error,
    {
        Self { error }
    }

    /// The error as shown to a user: its description after `ParsingError:`.
    pub fn message(&self) -> (r: String)
        ensures
            r@ == "ParsingError:"@ + self@,
    {
        let mut out = String::from_str("ParsingError:");
        out.append(self.error.as_str());
        out
    }
}

/// Everything that can go wrong between reading documents and building the tree.
#[derive(Debug)]
pub enum DataHandlingError {
    /// A document could not be found or read.
    IoError(std::io::Error),
    /// A document's text is not well-formed.
    ScanError(yaml_rust::ScanError),
    /// A document does not have the expected shape.
    ParsingError(ParsingError),
}

/// Writes `e` as its `Display` impl in the standard library does. Nothing is
/// claimed of the text.
#[verifier::external_body]
fn io_error_text(e: &std::io::Error) -> String {
    format!("{}", e)
}

/// Writes `e` as `yaml_rust`'s `Display` impl for `ScanError` does. Nothing
/// is claimed of the text.
#[verifier::external_body]
fn scan_error_text(e: &yaml_rust::ScanError) -> String {
    format!("{}", e)
}

impl DataHandlingError {
    /// The error as shown to a user: `YamlFileLoadingError:` and then the
    /// underlying error's own text.
    pub fn message(&self) -> (r: String)
        ensures
            "YamlFileLoadingError:"@.is_prefix_of(r@),
            self matches DataHandlingError::ParsingError(e) ==> r@
                == "YamlFileLoadingError:"@ + ("ParsingError:"@ + e@),
    {
        let detail = match self {
            DataHandlingError::IoError(e) => io_error_text(e),
            DataHandlingError::ScanError(e) => scan_error_text(e),
            DataHandlingError::ParsingError(e) => e.message(),
        };
        let mut out = String::from_str("YamlFileLoadingError:");
        out.append(detail.as_str());
        out
    }
}

impl From<std::io::Error> for DataHandlingError {
    fn from(e: std::io::Error) -> (r: Self) {
        DataHandlingError::IoError(e)
    }
}

impl vstd::std_specs::convert::FromSpecImpl<std::io::Error> for DataHandlingError {
    open spec fn obeys_from_spec() -> bool {
        true
    }

    open spec fn from_spec(e: std::io::Error) -> Self {
        DataHandlingError::IoError(e)
    }
}

impl From<yaml_rust::ScanError> for DataHandlingError {
    fn from(e: yaml_rust::ScanError) -> (r: Self) {
        DataHandlingError::ScanError(e)
    }
}

impl vstd::std_specs::convert::FromSpecImpl<yaml_rust::ScanError> for DataHandlingError {
    open spec fn obeys_from_spec() -> bool {
        true
    }

    open spec fn from_spec(e: yaml_rust::ScanError) -> Self {
        DataHandlingError::ScanError(e)
    }
}

impl From<ParsingError> for DataHandlingError {
    fn from(e: ParsingError) -> (r: Self) {
        DataHandlingError::ParsingError(e)
    }
}

impl vstd::std_specs::convert::FromSpecImpl<ParsingError> for DataHandlingError {
    open spec fn obeys_from_spec() -> bool {
        true
    }

    open spec fn from_spec(e: ParsingError) -> Self {
        DataHandlingError::ParsingError(e)
    }
}

} // verus!
