use vstd::prelude::*;
use vstd::string::StringExecFns;

verus! {

/// `std::io::Error` travels inside [`Error::Io`]; nothing in the library looks into it.
#[verifier::external_type_specification]
#[verifier::external_body]
pub struct ExIoError(std::io::Error);

/// Everything that can go wrong while processing assembly or an object file.
#[derive(Debug)]
pub enum Error {
    Io(std::io::Error),
    AssemblyProcessing(String),
    ElfProcessing(String),
    InvalidInput(String),
    EncodingError(String),
    InvalidSection(String),
    SymbolNotFound(String),
    InvalidSymbol(String),
    InvalidRelocation(String),
    InvalidFormat(String),
}

/// The text of an error other than an I/O error: what went wrong, then the details.
pub open spec fn error_text(e: Error) -> Seq<char> {
    match e {
        Error::Io(_) => "I/O error: "@,
        Error::AssemblyProcessing(s) => "Failed to process assembly: "@ + s@,
        Error::ElfProcessing(s) => "Failed to process ELF file: "@ + s@,
        Error::InvalidInput(s) => "Invalid input: "@ + s@,
        Error::EncodingError(s) => "Encoding error: "@ + s@,
        Error::InvalidSection(s) => "Invalid section: "@ + s@,
        Error::SymbolNotFound(s) => "Symbol not found: "@ + s@,
        Error::InvalidSymbol(s) => "Invalid symbol: "@ + s@,
        Error::InvalidRelocation(s) => "Invalid relocation: "@ + s@,
        Error::InvalidFormat(s) => "Invalid format: "@ + s@,
    }
}

/// Calls `ToString::to_string` on an I/O error. Trusted: what the operating system says of
/// the error is not known here, so nothing is claimed of the text.
#[verifier::external_body]
fn io_error_text(e: &std::io::Error) -> String {
    e.to_string()
}

/// The string `prefix` followed by `detail`.
fn joined(prefix: &str, detail: &str) -> (s: String)
    ensures
        s@ == prefix@ + detail@,
{
    let mut s = prefix.to_owned();
    s.append(detail);
    s
}

impl Error {
    /// The text of the error: what went wrong, then the details. For an I/O error the
    /// details are what the operating system reports.
    pub fn to_string(&self) -> (s: String)
        ensures
            !(*self is Io) ==> s@ == error_text(*self),
            *self is Io ==> s@.len() >= error_text(*self).len() && s@.take(
                error_text(*self).len() as int,
            ) == error_text(*self),
    {
        match self {
            Error::Io(e) => {
                let detail = io_error_text(e);
                let s = joined("I/O error: ", detail.as_str());
                assert(s@.take(error_text(*self).len() as int) =~= error_text(*self));
                s
            },
            Error::AssemblyProcessing(d) => joined("Failed to process assembly: ", d.as_str()),
            Error::ElfProcessing(d) => joined("Failed to process ELF file: ", d.as_str()),
            Error::InvalidInput(d) => joined("Invalid input: ", d.as_str()),
            Error::EncodingError(d) => joined("Encoding error: ", d.as_str()),
            Error::InvalidSection(d) => joined("Invalid section: ", d.as_str()),
            Error::SymbolNotFound(d) => joined("Symbol not found: ", d.as_str()),
            Error::InvalidSymbol(d) => joined("Invalid symbol: ", d.as_str()),
            Error::InvalidRelocation(d) => joined("Invalid relocation: ", d.as_str()),
            Error::InvalidFormat(d) => joined("Invalid format: ", d.as_str()),
        }
    }
}

} // verus!
