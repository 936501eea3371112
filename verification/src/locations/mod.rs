//! The places to go to: where they come from, and how they are kept.

use vstd::prelude::*;
use vstd::utf8::{decode_utf8, valid_utf8};
use crate::locations::json::Expect;
use crate::text::{ends_with, law_end_is_kept, lossy_text, read_lossy};

pub mod agree;
pub mod cut;
pub mod extent;
pub mod geojson;
pub mod json;
pub mod load;
pub mod place;
pub mod refused;
pub mod source;
pub mod spelling;
pub mod value;
pub mod written;

verus! {

/// What the storage card reports of a file that could not be used.
#[derive(Debug, PartialEq, Eq)]
pub enum IoError {
    /// There is no such file.
    NotFound,
    /// The file has no more data.
    EndOfFile,
    /// Anything else, as the card's driver puts it.
    Other(String),
}

/// What is wrong with JSON text.
#[derive(Debug, PartialEq, Eq)]
pub enum JsonError {
    /// Something else was expected.
    Token(Expect),
    /// A string is none, as the lexer puts it.
    Str(String),
    /// A number is none: a digit lacks.
    Num,
}

/// What can go wrong while the places are loaded or kept.
#[derive(Debug, PartialEq, Eq)]
pub enum LocParseError {
    /// The storage card failed.
    IoError(IoError),
    /// The stored tree could not be read or written, as the format's implementation puts it.
    PostcardError(String),
    /// The list of places is not valid JSON text.
    JsonError(JsonError),
    /// A place has a name, but no point.
    MissingProperty,
    /// The coordinates of a place are not valid.
    InvalidCoords,
    /// A name is longer than what is stored of it.
    InvalidCacheStrLen,
    /// There is no list of places.
    SourceMissing,
}

/// Where the name of a place stands in the strings file, and how many bytes it takes.
#[derive(Debug, Clone, Copy, PartialEq, Eq, Structural)]
pub struct NameData {
    pub name_offset: u32,
    pub name_len: u8,
}

/// A place to go to: its latitude and longitude in degrees as written, and where its name is.
#[derive(Debug, PartialEq, Eq)]
pub struct LocNode {
    pub lat: String,
    pub long: String,
    pub data: NameData,
}

/// The places to go to, and what the strings file holds.
#[derive(Debug, PartialEq, Eq)]
pub struct LocTree {
    pub nodes: Vec<LocNode>,
    pub strings: Vec<u8>,
}

impl LocTree {
    /// The name at `data`, where `read` is what one read of no more than its length gave. A read
    /// that gave less has come to the end of the strings file. What is no text is shown as the
    /// replacement character.
    pub fn name(data: &NameData, read: Result<Vec<u8>, IoError>) -> (r: Result<
        String,
        LocParseError,
    >)
        requires
            read matches Ok(bytes) ==> bytes@.len() <= data.name_len,
        ensures
            match read {
                Ok(bytes) => if bytes@.len() < data.name_len {
                    r == Err::<String, _>(LocParseError::InvalidCacheStrLen)
                } else {
                    &&& r matches Ok(name)
                    &&& name@ == lossy_text(bytes@)
                    &&& valid_utf8(bytes@) ==> name@ == decode_utf8(bytes@)
                },
                Err(e) => r == Err::<String, _>(LocParseError::IoError(e)),
            },
    {
        match read {
            Ok(bytes) => {
                if bytes.len() < data.name_len as usize {
                    return Err(LocParseError::InvalidCacheStrLen);
                }
                Ok(read_lossy(bytes.as_slice()))
            },
            Err(e) => Err(LocParseError::IoError(e)),
        }
    }
}

impl IoError {
    /// What the failure is reported as.
    pub open spec fn text(self) -> Seq<char> {
        match self {
            IoError::NotFound => "NotFound"@,
            IoError::EndOfFile => "EndOfFile"@,
            IoError::Other(name) => name@,
        }
    }

    /// What the failure is reported as.
    pub fn name(&self) -> (r: &str)
        ensures
            r@ == self.text(),
    {
        match self {
            IoError::NotFound => "NotFound",
            IoError::EndOfFile => "EndOfFile",
            IoError::Other(name) => name.as_str(),
        }
    }
}

impl Expect {
    /// What was expected.
    pub fn name(self) -> (r: &'static str)
        ensures
            r@ == self.text(),
    {
        match self {
            Expect::Value => "value",
            Expect::ValueOrEnd => "value or end of sequence",
            Expect::CommaOrEnd => "comma or end of sequence",
            Expect::String => "string",
            Expect::Colon => "colon",
            Expect::Eof => "end of file",
        }
    }

    /// What was expected.
    pub open spec fn text(self) -> Seq<char> {
        match self {
            Expect::Value => "value"@,
            Expect::ValueOrEnd => "value or end of sequence"@,
            Expect::CommaOrEnd => "comma or end of sequence"@,
            Expect::String => "string"@,
            Expect::Colon => "colon"@,
            Expect::Eof => "end of file"@,
        }
    }
}

impl LocParseError {
    /// What the failure is reported as.
    pub open spec fn text(self) -> Seq<char> {
        match self {
            LocParseError::IoError(e) => "I/O error while loading/saving tree: "@ + e.text(),
            LocParseError::PostcardError(e) => "Postcard error while loading/saving tree: "@ + e@,
            LocParseError::JsonError(JsonError::Token(e)) =>
                "JSON error while loading/saving tree: "@ + e.text() + " expected"@,
            LocParseError::JsonError(JsonError::Str(e)) =>
                "JSON error while loading/saving tree: "@ + e@,
            LocParseError::JsonError(JsonError::Num) =>
                "JSON error while loading/saving tree: "@ + "expected digit"@,
            LocParseError::MissingProperty => "location node is missing a property"@,
            LocParseError::InvalidCoords => "location node coordinates are not valid"@,
            LocParseError::InvalidCacheStrLen => "wrong location name length (past EOF)"@,
            LocParseError::SourceMissing => "missing locations source file"@,
        }
    }

    /// What the failure is reported as.
    pub fn message(&self) -> (r: String)
        ensures
            r@ == self.text(),
    {
        match self {
            LocParseError::IoError(e) => {
                let mut out = "I/O error while loading/saving tree: ".to_string();
                out.append(e.name());
                out
            },
            LocParseError::PostcardError(e) => {
                let mut out = "Postcard error while loading/saving tree: ".to_string();
                out.append(e.as_str());
                out
            },
            LocParseError::JsonError(e) => {
                let mut out = "JSON error while loading/saving tree: ".to_string();
                match e {
                    JsonError::Token(e) => {
                        out.append(e.name());
                        out.append(" expected");
                    },
                    JsonError::Str(e) => {
                        out.append(e.as_str());
                    },
                    JsonError::Num => {
                        out.append("expected digit");
                    },
                }
                out
            },
            LocParseError::MissingProperty => "location node is missing a property".to_string(),
            LocParseError::InvalidCoords => "location node coordinates are not valid".to_string(),
            LocParseError::InvalidCacheStrLen => "wrong location name length (past EOF)".to_string(),
            LocParseError::SourceMissing => "missing locations source file".to_string(),
        }
    }
}

impl From<IoError> for LocParseError {
    fn from(value: IoError) -> (r: LocParseError) {
        LocParseError::IoError(value)
    }
}

impl vstd::std_specs::convert::FromSpecImpl<IoError> for LocParseError {
    open spec fn obeys_from_spec() -> bool {
        true
    }

    open spec fn from_spec(value: IoError) -> LocParseError {
        LocParseError::IoError(value)
    }
}

impl From<JsonError> for LocParseError {
    fn from(value: JsonError) -> (r: LocParseError) {
        LocParseError::JsonError(value)
    }
}

impl vstd::std_specs::convert::FromSpecImpl<JsonError> for LocParseError {
    open spec fn obeys_from_spec() -> bool {
        true
    }

    open spec fn from_spec(value: JsonError) -> LocParseError {
        LocParseError::JsonError(value)
    }
}

impl From<Expect> for LocParseError {
    fn from(value: Expect) -> (r: LocParseError) {
        LocParseError::JsonError(JsonError::Token(value))
    }
}

impl vstd::std_specs::convert::FromSpecImpl<Expect> for LocParseError {
    open spec fn obeys_from_spec() -> bool {
        true
    }

    open spec fn from_spec(value: Expect) -> LocParseError {
        LocParseError::JsonError(JsonError::Token(value))
    }
}

/// What was expected is said differently for all that can be.
pub proof fn law_expectations_differ(x: Expect, y: Expect)
    requires
        x != y,
    ensures
        x.text() != y.text(),
{
    reveal_strlit("value");
    reveal_strlit("value or end of sequence");
    reveal_strlit("comma or end of sequence");
    reveal_strlit("string");
    reveal_strlit("colon");
    reveal_strlit("end of file");
    assert("value"@.len() == 5 && "colon"@.len() == 5 && "string"@.len() == 6);
    assert("end of file"@.len() == 11);
    assert("value or end of sequence"@.len() == 24 && "comma or end of sequence"@.len() == 24);
    assert("value"@[0] == 'v' && "colon"@[0] == 'c');
    assert("value or end of sequence"@[0] == 'v' && "comma or end of sequence"@[0] == 'c');
}

/// A message ends with the reason, where one is given; and the messages without a reason differ.
pub proof fn law_messages_give_the_reason(e: IoError, reason: String, x: Expect)
    ensures
        ends_with(LocParseError::IoError(e).text(), e.text()),
        ends_with(IoError::Other(reason).text(), reason@),
        ends_with(LocParseError::PostcardError(reason).text(), reason@),
        ends_with(LocParseError::JsonError(JsonError::Str(reason)).text(), reason@),
        ends_with(
            LocParseError::JsonError(JsonError::Token(x)).text(),
            x.text() + seq![' ', 'e', 'x', 'p', 'e', 'c', 't', 'e', 'd'],
        ),
        IoError::NotFound.text() != IoError::EndOfFile.text(),
        LocParseError::MissingProperty.text() != LocParseError::InvalidCoords.text(),
        LocParseError::MissingProperty.text() != LocParseError::InvalidCacheStrLen.text(),
        LocParseError::MissingProperty.text() != LocParseError::SourceMissing.text(),
        LocParseError::InvalidCoords.text() != LocParseError::InvalidCacheStrLen.text(),
        LocParseError::InvalidCoords.text() != LocParseError::SourceMissing.text(),
        LocParseError::InvalidCacheStrLen.text() != LocParseError::SourceMissing.text(),
{
    reveal_strlit(" expected");
    reveal_strlit("NotFound");
    reveal_strlit("EndOfFile");
    reveal_strlit("location node is missing a property");
    reveal_strlit("location node coordinates are not valid");
    reveal_strlit("wrong location name length (past EOF)");
    reveal_strlit("missing locations source file");
    law_end_is_kept("I/O error while loading/saving tree: "@, e.text());
    law_end_is_kept("Postcard error while loading/saving tree: "@, reason@);
    law_end_is_kept("JSON error while loading/saving tree: "@, reason@);
    law_end_is_kept("JSON error while loading/saving tree: "@, x.text() + " expected"@);
    assert(reason@.skip(0) =~= reason@);
    assert(" expected"@ =~= seq![' ', 'e', 'x', 'p', 'e', 'c', 't', 'e', 'd']);
    assert("JSON error while loading/saving tree: "@ + (x.text() + " expected"@)
        =~= LocParseError::JsonError(JsonError::Token(x)).text());
    assert("NotFound"@[0] == 'N' && "EndOfFile"@[0] == 'E');
    assert("location node is missing a property"@.len() == 35);
    assert("location node coordinates are not valid"@.len() == 39);
    assert("location node is missing a property"@[0] == 'l');
    assert("wrong location name length (past EOF)"@[0] == 'w');
    assert("missing locations source file"@[0] == 'm');
    assert("location node coordinates are not valid"@[0] == 'l');
}

} // verus!
