//! What can go wrong while reading, writing or managing a partition table.

use vstd::prelude::*;
use vstd::string::StringExecFns;

verus! {

/// The error type of `std::io`, opaque here.
#[verifier::external_type_specification]
#[verifier::external_body]
pub struct ExIoError(std::io::Error);

/// An error that can be produced while reading, writing or managing a GPT.
#[derive(Debug)]
pub enum Error {
    /// Deserialization errors.
    Deserialize(bincode::Error),
    /// I/O errors.
    Io(std::io::Error),
    /// An error that occurs when the signature of the GPT isn't what would be expected ("EFI
    /// PART").
    InvalidSignature,
    /// An error that occurs when the revision of the GPT isn't what would be expected (00 00 01
    /// 00).
    InvalidRevision,
    /// An error that occurs when the header's size (in bytes) isn't what would be expected (92).
    InvalidHeaderSize,
    /// An error that occurs when the CRC32 checksum of the header doesn't match the expected
    /// checksum for the actual header.
    InvalidChecksum(u32, u32),
    /// An error that occurs when the CRC32 checksum of the partition entries array doesn't match
    /// the expected checksum for the actual partition entries array.
    InvalidPartitionEntryArrayChecksum(u32, u32),
    /// An error that occurs when reading a GPT from a file did not succeed.
    ///
    /// The first argument is the error that occurred when trying to read the primary header.
    /// The second argument is the error that occurred when trying to read the backup header.
    ReadError(Box<Error>, Box<Error>),
    /// An error that occurs when there is not enough space left on the table to continue.
    NoSpaceLeft,
    /// An error that occurs when there are partitions with the same GUID in the same array.
    ConflictPartitionGUID,
    /// An error that occurs when the partition has invalid boundary.
    /// The end sector must be greater or equal to the start sector of the partition.
    InvalidPartitionBoundaries,
    /// An error that occurs when the user provides an invalid partition number.
    /// The partition number must be between 1 and `number_of_partition_entries` (usually 128)
    /// included.
    InvalidPartitionNumber(u32),
}

/// Which error an [`Error`] is, without what the outside libraries have to say about it.
pub enum ErrorModel {
    Deserialize,
    Io,
    InvalidSignature,
    InvalidRevision,
    InvalidHeaderSize,
    InvalidChecksum(u32, u32),
    InvalidPartitionEntryArrayChecksum(u32, u32),
    ReadError(Box<ErrorModel>, Box<ErrorModel>),
    NoSpaceLeft,
    ConflictPartitionGUID,
    InvalidPartitionBoundaries,
    InvalidPartitionNumber(u32),
}

impl Error {
    /// Which error this is.
    pub open spec fn model(self) -> ErrorModel
        decreases self,
    {
        match self {
            Error::Deserialize(_) => ErrorModel::Deserialize,
            Error::Io(_) => ErrorModel::Io,
            Error::InvalidSignature => ErrorModel::InvalidSignature,
            Error::InvalidRevision => ErrorModel::InvalidRevision,
            Error::InvalidHeaderSize => ErrorModel::InvalidHeaderSize,
            Error::InvalidChecksum(x, y) => ErrorModel::InvalidChecksum(x, y),
            Error::InvalidPartitionEntryArrayChecksum(x, y) =>
                ErrorModel::InvalidPartitionEntryArrayChecksum(x, y),
            Error::ReadError(x, y) => ErrorModel::ReadError(
                Box::new(x.model()),
                Box::new(y.model()),
            ),
            Error::NoSpaceLeft => ErrorModel::NoSpaceLeft,
            Error::ConflictPartitionGUID => ErrorModel::ConflictPartitionGUID,
            Error::InvalidPartitionBoundaries => ErrorModel::InvalidPartitionBoundaries,
            Error::InvalidPartitionNumber(i) => ErrorModel::InvalidPartitionNumber(i),
        }
    }
}

impl View for Error {
    type V = ErrorModel;

    open spec fn view(&self) -> ErrorModel {
        self.model()
    }
}

impl From<std::io::Error> for Error {
    fn from(err: std::io::Error) -> Error {
        Error::Io(err)
    }
}

impl vstd::std_specs::convert::FromSpecImpl<std::io::Error> for Error {
    open spec fn obeys_from_spec() -> bool {
        true
    }

    open spec fn from_spec(err: std::io::Error) -> Error {
        Error::Io(err)
    }
}

impl From<bincode::Error> for Error {
    fn from(err: bincode::Error) -> Error {
        Error::Deserialize(err)
    }
}

impl vstd::std_specs::convert::FromSpecImpl<bincode::Error> for Error {
    open spec fn obeys_from_spec() -> bool {
        true
    }

    open spec fn from_spec(err: bincode::Error) -> Error {
        Error::Deserialize(err)
    }
}

/// The decimal digits of a number, without leading zeros.
pub open spec fn decimal(n: nat) -> Seq<char>
    decreases n,
{
    if n < 10 {
        seq![digit(n)]
    } else {
        decimal(n / 10).push(digit(n % 10))
    }
}

/// The character of a digit.
pub open spec fn digit(d: nat) -> char {
    ((48 + d) as u32) as char
}

/// Whether `m` is a message for an error that is told as `e`. The messages of the two errors
/// that outside libraries make are their own business: any text is one.
pub open spec fn is_message(e: ErrorModel, m: Seq<char>) -> bool
    decreases e,
{
    match e {
        ErrorModel::Deserialize => true,
        ErrorModel::Io => true,
        ErrorModel::InvalidSignature => m == "invalid signature"@,
        ErrorModel::InvalidRevision => m == "invalid revision"@,
        ErrorModel::InvalidHeaderSize => m == "invalid header size"@,
        ErrorModel::InvalidChecksum(x, y) => m == "corrupted CRC32 checksum ("@ + decimal(x as nat)
            + " != "@ + decimal(y as nat) + ")"@,
        ErrorModel::InvalidPartitionEntryArrayChecksum(x, y) => m
            == "corrupted partition entry array CRC32 checksum ("@ + decimal(x as nat) + " != "@
            + decimal(y as nat) + ")"@,
        ErrorModel::ReadError(x, y) => exists|p: Seq<char>, b: Seq<char>|
            {
                &&& is_message(*x, p)
                &&& is_message(*y, b)
                &&& m == #[trigger] read_error_message(p, b)
            },
        ErrorModel::NoSpaceLeft => m == "no space left"@,
        ErrorModel::ConflictPartitionGUID => m == "conflict of partition GUIDs"@,
        ErrorModel::InvalidPartitionBoundaries => m
            == "invalid partition boundaries: the ending must start at or after the starting"@,
        ErrorModel::InvalidPartitionNumber(i) => m == "invalid partition number: "@ + decimal(
            i as nat,
        ),
    }
}

/// What is said when neither header could be read, for the messages of the two errors.
pub open spec fn read_error_message(primary: Seq<char>, backup: Seq<char>) -> Seq<char> {
    "could not read primary header ("@ + primary + ") nor backup header ("@ + backup + ")"@
}

/// `Display` of `bincode::ErrorKind`. Nothing is promised of the text: it can quote a message of
/// the operating system.
#[verifier::external_body]
fn deserialize_error_text(err: &bincode::Error) -> (r: String) {
    err.to_string()
}

/// `Display` of `std::io::Error`. Nothing is promised of the text: it can be a message of the
/// operating system.
#[verifier::external_body]
fn io_error_text(err: &std::io::Error) -> (r: String) {
    err.to_string()
}

/// Appends the decimal digits of a number.
fn push_decimal(s: &mut String, n: u32)
    ensures
        final(s)@ == old(s)@ + decimal(n as nat),
    decreases n,
{
    if n >= 10 {
        push_decimal(s, n / 10);
    }
    let d: u32 = 48 + n % 10;
    let c = match char::from_u32(d) {
        Some(c) => c,
        None => '0',
    };
    proof {
        vstd::utf8::char_u32_cast(c, d);
    }
    s.push(c);
    assert(s@ =~= old(s)@ + decimal(n as nat));
}

/// The two numbers that should have been equal, after the text that says what they are.
fn two_numbers(before: &str, x: u32, y: u32) -> (r: String)
    ensures
        r@ == before@ + decimal(x as nat) + " != "@ + decimal(y as nat) + ")"@,
{
    let mut s = before.to_owned();
    push_decimal(&mut s, x);
    s.append(" != ");
    push_decimal(&mut s, y);
    s.append(")");
    s
}

/// What is said when neither header could be read, whatever was said of each of them.
pub fn read_error_text(primary: &str, backup: &str) -> (r: String)
    ensures
        r@ == read_error_message(primary@, backup@),
{
    let mut s = "could not read primary header (".to_owned();
    s.append(primary);
    s.append(") nor backup header (");
    s.append(backup);
    s.append(")");
    s
}

impl Error {
    /// The message that describes the error.
    pub fn to_string(&self) -> (r: String)
        ensures
            is_message(self@, r@),
        decreases self,
    {
        match self {
            Error::Deserialize(err) => deserialize_error_text(err),
            Error::Io(err) => io_error_text(err),
            Error::InvalidSignature => "invalid signature".to_owned(),
            Error::InvalidRevision => "invalid revision".to_owned(),
            Error::InvalidHeaderSize => "invalid header size".to_owned(),
            Error::InvalidChecksum(x, y) => two_numbers("corrupted CRC32 checksum (", *x, *y),
            Error::InvalidPartitionEntryArrayChecksum(x, y) => two_numbers(
                "corrupted partition entry array CRC32 checksum (",
                *x,
                *y,
            ),
            Error::ReadError(x, y) => {
                let primary = x.to_string();
                let backup = y.to_string();
                read_error_text(primary.as_str(), backup.as_str())
            },
            Error::NoSpaceLeft => "no space left".to_owned(),
            Error::ConflictPartitionGUID => "conflict of partition GUIDs".to_owned(),
            Error::InvalidPartitionBoundaries =>
                "invalid partition boundaries: the ending must start at or after the starting".to_owned(),
            Error::InvalidPartitionNumber(i) => {
                let mut s = "invalid partition number: ".to_owned();
                push_decimal(&mut s, *i);
                s
            },
        }
    }
}

} // verus!
