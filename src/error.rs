use vstd::prelude::*;
use vstd::string::*;

verus! {

/// The closed set of failures reported by every codec.
#[derive(Debug, Clone, PartialEq, Eq)]
pub enum ParseError {
    /// An I/O failure of the underlying stream, with its message.
    Io(String),
    /// A structural problem: wrong header, missing key, wrong field count.
    InvalidFormat(String),
    /// One field's value failed conversion or validation.
    InvalidField { field: String, reason: String },
    /// The input ended inside a record.
    UnexpectedEof,
    /// A binary record did not start with the magic bytes.
    InvalidMagic,
    /// A binary record is too large for its length fields.
    InvalidRecordSize,
}

/// What a contract says of an error: its variant, and for a field error the field's name.
pub ghost enum ErrorKind {
    Io,
    Format(Seq<char>),
    Field(Seq<char>),
    Eof,
    Magic,
    RecordSize,
}

impl View for ParseError {
    type V = ErrorKind;

    open spec fn view(&self) -> ErrorKind {
        match self {
            ParseError::Io(_) => ErrorKind::Io,
            ParseError::InvalidFormat(m) => ErrorKind::Format(m@),
            ParseError::InvalidField { field, .. } => ErrorKind::Field(field@),
            ParseError::UnexpectedEof => ErrorKind::Eof,
            ParseError::InvalidMagic => ErrorKind::Magic,
            ParseError::InvalidRecordSize => ErrorKind::RecordSize,
        }
    }
}

impl ParseError {
    /// Builds a field error.
    pub fn field(field: &str, reason: String) -> (r: ParseError)
        ensures
            r@ == ErrorKind::Field(field@),
            r matches ParseError::InvalidField { reason: x, .. } && x@ == reason@,
    {
        ParseError::InvalidField { field: String::from_str(field), reason }
    }

    /// Builds a format error with the given detail.
    pub fn format(detail: &str) -> (r: ParseError)
        ensures
            r@ == ErrorKind::Format(detail@),
    {
        ParseError::InvalidFormat(String::from_str(detail))
    }

    /// The text that describes the error.
    pub open spec fn message_spec(&self) -> Seq<char> {
        match self {
            ParseError::Io(m) => "IO error: "@ + m@,
            ParseError::InvalidFormat(m) => "Invalid format: "@ + m@,
            ParseError::InvalidField { field, reason } => "Invalid field '"@ + field@ + "': "@
                + reason@,
            ParseError::UnexpectedEof => "Unexpected end of file"@,
            ParseError::InvalidMagic => "Invalid magic header"@,
            ParseError::InvalidRecordSize => "Invalid record size"@,
        }
    }

    /// A human-readable description of the error.
    pub fn message(&self) -> (r: String)
        ensures
            r@ == self.message_spec(),
    {
        let mut out = String::new();
        match self {
            ParseError::Io(m) => {
                out.append("IO error: ");
                out.append(m.as_str());
            },
            ParseError::InvalidFormat(m) => {
                out.append("Invalid format: ");
                out.append(m.as_str());
            },
            ParseError::InvalidField { field, reason } => {
                out.append("Invalid field '");
                out.append(field.as_str());
                out.append("': ");
                out.append(reason.as_str());
            },
            ParseError::UnexpectedEof => {
                out.append("Unexpected end of file");
            },
            ParseError::InvalidMagic => {
                out.append("Invalid magic header");
            },
            ParseError::InvalidRecordSize => {
                out.append("Invalid record size");
            },
        }
        assert(out@ =~= self.message_spec());
        out
    }
}

} // verus!
