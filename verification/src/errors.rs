use vstd::prelude::*;
use vstd::std_specs::convert::FromSpec;

verus! {

pub type Result<T> = std::result::Result<T, Error>;

/// What a low level read ran into.
#[derive(Debug, Clone, Copy, PartialEq, Eq, Structural)]
pub enum Fault {
    /// A string is not UTF-8.
    Utf8,
    /// A read ran past the end of its input, or a decoder refused its input.
    Io,
    /// A bit field runs past the end of its byte.
    Bits,
}

/// Everything that can be wrong with an archive, or with a request made of it.
#[derive(Debug, Clone, Copy)]
pub enum Error {
    /// A compression number that the format does not define.
    UnknownCompression(u8),
    /// A compression number that was removed from the format.
    UnsupportedCompression(u8),
    /// A cluster has a malformed blob offset table.
    InvalidBlobList,
    /// An unterminated string in a directory entry.
    UnterminatedString,
    /// A redirect chain did not terminate.
    RedirectLoop,
    /// A listing entry has a malformed length.
    InvalidListing,
    /// A directory entry names a MIME type that the archive does not list.
    UnknownMimeType,
    /// The file does not start with the ZIM magic number.
    InvalidMagicNumber,
    /// The major version is neither 5 nor 6.
    InvalidVersion(u16),
    /// The header contradicts itself or the file it heads.
    InvalidHeader(&'static str),
    /// An extended cluster in an archive whose major version is not 6.
    InvalidClusterExtension,
    /// A cluster is missing its blob list.
    MissingBlobList,
    /// The file ends before its checksum does.
    MissingChecksum,
    /// The checksum does not match the contents.
    InvalidChecksum,
    /// An index or an offset that nothing is stored at.
    OutOfBounds,
    /// A low level read failed.
    Parsing(Fault),
    /// A number does not fit the machine's word.
    TryFromIntError,
}

/// The error of `String::from_utf8`.
#[verifier::external_type_specification]
#[verifier::external_body]
pub struct ExFromUtf8Error(std::string::FromUtf8Error);

/// The error of reads and of decoders.
#[verifier::external_type_specification]
#[verifier::external_body]
pub struct ExIoError(std::io::Error);

/// The error of bit field reads.
#[verifier::external_type_specification]
#[verifier::external_body]
pub struct ExBitReaderError(bitreader::BitReaderError);

impl From<std::string::FromUtf8Error> for Error {
    fn from(err: std::string::FromUtf8Error) -> (e: Error) {
        Error::Parsing(Fault::Utf8)
    }
}

impl vstd::std_specs::convert::FromSpecImpl<std::string::FromUtf8Error> for Error {
    open spec fn obeys_from_spec() -> bool {
        true
    }

    open spec fn from_spec(err: std::string::FromUtf8Error) -> Error {
        Error::Parsing(Fault::Utf8)
    }
}

impl From<std::io::Error> for Error {
    fn from(err: std::io::Error) -> (e: Error) {
        Error::Parsing(Fault::Io)
    }
}

impl vstd::std_specs::convert::FromSpecImpl<std::io::Error> for Error {
    open spec fn obeys_from_spec() -> bool {
        true
    }

    open spec fn from_spec(err: std::io::Error) -> Error {
        Error::Parsing(Fault::Io)
    }
}

impl From<bitreader::BitReaderError> for Error {
    fn from(err: bitreader::BitReaderError) -> (e: Error) {
        Error::Parsing(Fault::Bits)
    }
}

impl vstd::std_specs::convert::FromSpecImpl<bitreader::BitReaderError> for Error {
    open spec fn obeys_from_spec() -> bool {
        true
    }

    open spec fn from_spec(err: bitreader::BitReaderError) -> Error {
        Error::Parsing(Fault::Bits)
    }
}

impl From<std::num::TryFromIntError> for Error {
    fn from(err: std::num::TryFromIntError) -> (e: Error) {
        Error::TryFromIntError
    }
}

impl vstd::std_specs::convert::FromSpecImpl<std::num::TryFromIntError> for Error {
    open spec fn obeys_from_spec() -> bool {
        true
    }

    open spec fn from_spec(err: std::num::TryFromIntError) -> Error {
        Error::TryFromIntError
    }
}

/// What a low level failure is reported as.
pub proof fn failures_keep_their_kind(
    text: std::string::FromUtf8Error,
    io: std::io::Error,
    bits: bitreader::BitReaderError,
    number: std::num::TryFromIntError,
)
    ensures
        <Error as FromSpec<std::string::FromUtf8Error>>::from_spec(text) == Error::Parsing(
            Fault::Utf8,
        ),
        <Error as FromSpec<std::io::Error>>::from_spec(io) == Error::Parsing(Fault::Io),
        <Error as FromSpec<bitreader::BitReaderError>>::from_spec(bits) == Error::Parsing(
            Fault::Bits,
        ),
        <Error as FromSpec<std::num::TryFromIntError>>::from_spec(number) == Error::TryFromIntError,
{
}

} // verus!
