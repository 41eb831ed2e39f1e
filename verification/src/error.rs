use vstd::prelude::*;
use vstd::string::*;
use crate::text;

verus! {

/// What can be wrong with bytes or values offered to the format layer.
#[allow(inconsistent_fields)]
#[derive(Debug, Clone, PartialEq, Eq)]
pub enum FormatError {
    BadMagic { expected: u64, found: u64 },
    BadVersion { expected: u16, found: u16 },
    UnknownDataType(u8),
    UnknownTimeType(u8),
    UnknownEncoding(u8),
    UnknownCompression(u8),
    SizeMismatch { expected: usize, found: usize },
    Alignment { required: usize, found: usize },
    InvalidLayout(String),
}

impl FormatError {
    /// The error in words.
    pub open spec fn words(self) -> Seq<char> {
        match self {
            FormatError::BadMagic { expected, found } => "bad magic: expected 0x"@ + text::in_base(
                expected as nat,
                16,
            ) + ", found 0x"@ + text::in_base(found as nat, 16),
            FormatError::BadVersion { expected, found } => "bad version: expected "@ + text::dec(
                expected as nat,
            ) + ", found "@ + text::dec(found as nat),
            FormatError::UnknownDataType(id) => "unknown data type id "@ + text::dec(id as nat),
            FormatError::UnknownTimeType(id) => "unknown time type id "@ + text::dec(id as nat),
            FormatError::UnknownEncoding(id) => "unknown encoding id "@ + text::dec(id as nat),
            FormatError::UnknownCompression(id) => "unknown compression id "@ + text::dec(id as nat),
            FormatError::SizeMismatch { expected, found } => "size mismatch: expected "@ + text::dec(
                expected as nat,
            ) + ", found "@ + text::dec(found as nat),
            FormatError::Alignment { required, found } => "misaligned: required "@ + text::dec(
                required as nat,
            ) + "-byte alignment, found "@ + text::dec(found as nat),
            FormatError::InvalidLayout(message) => "invalid layout: "@ + message@,
        }
    }

    pub fn to_text(&self) -> (text: String)
        ensures
            text@ == self.words(),
    {
        let mut text = String::new();
        match self {
            FormatError::BadMagic { expected, found } => {
                text.append("bad magic: expected 0x");
                text::push_hex(&mut text, *expected);
                text.append(", found 0x");
                text::push_hex(&mut text, *found);
            },
            FormatError::BadVersion { expected, found } => {
                text.append("bad version: expected ");
                text::push_dec(&mut text, *expected as u64);
                text.append(", found ");
                text::push_dec(&mut text, *found as u64);
            },
            FormatError::UnknownDataType(id) => {
                text.append("unknown data type id ");
                text::push_dec(&mut text, *id as u64);
            },
            FormatError::UnknownTimeType(id) => {
                text.append("unknown time type id ");
                text::push_dec(&mut text, *id as u64);
            },
            FormatError::UnknownEncoding(id) => {
                text.append("unknown encoding id ");
                text::push_dec(&mut text, *id as u64);
            },
            FormatError::UnknownCompression(id) => {
                text.append("unknown compression id ");
                text::push_dec(&mut text, *id as u64);
            },
            FormatError::SizeMismatch { expected, found } => {
                text.append("size mismatch: expected ");
                text::push_dec(&mut text, *expected as u64);
                text.append(", found ");
                text::push_dec(&mut text, *found as u64);
            },
            FormatError::Alignment { required, found } => {
                text.append("misaligned: required ");
                text::push_dec(&mut text, *required as u64);
                text.append("-byte alignment, found ");
                text::push_dec(&mut text, *found as u64);
            },
            FormatError::InvalidLayout(message) => {
                text.append("invalid layout: ");
                text.append(message.as_str());
            },
        }
        text
    }
}

/// What is said of an error ends with what was found, a name of the format in base 16 and
/// every other number in base 10; the words before do not depend on it.
pub proof fn law_words_end_with_found(a: FormatError, b: FormatError)
    ensures
        a matches FormatError::BadMagic { expected, found } ==> (b matches FormatError::BadMagic {
            expected: e,
            found: f,
        } ==> (expected == e ==> exists|head: Seq<char>|
            a.words() == #[trigger] (head + text::in_base(found as nat, 16)) && b.words() == head
                + text::in_base(f as nat, 16))),
        a matches FormatError::BadVersion { expected, found } ==> (b
            matches FormatError::BadVersion { expected: e, found: f } ==> (expected == e
            ==> exists|head: Seq<char>|
            a.words() == #[trigger] (head + text::dec(found as nat)) && b.words() == head
                + text::dec(f as nat))),
        a matches FormatError::SizeMismatch { expected, found } ==> (b
            matches FormatError::SizeMismatch { expected: e, found: f } ==> (expected == e
            ==> exists|head: Seq<char>|
            a.words() == #[trigger] (head + text::dec(found as nat)) && b.words() == head
                + text::dec(f as nat))),
        a matches FormatError::Alignment { required, found } ==> (b
            matches FormatError::Alignment { required: e, found: f } ==> (required == e
            ==> exists|head: Seq<char>|
            a.words() == #[trigger] (head + text::dec(found as nat)) && b.words() == head
                + text::dec(f as nat))),
        a matches FormatError::UnknownDataType(id) ==> exists|head: Seq<char>|
            a.words() == #[trigger] (head + text::dec(id as nat)),
        a matches FormatError::UnknownTimeType(id) ==> exists|head: Seq<char>|
            a.words() == #[trigger] (head + text::dec(id as nat)),
        a matches FormatError::UnknownEncoding(id) ==> exists|head: Seq<char>|
            a.words() == #[trigger] (head + text::dec(id as nat)),
        a matches FormatError::UnknownCompression(id) ==> exists|head: Seq<char>|
            a.words() == #[trigger] (head + text::dec(id as nat)),
        a matches FormatError::InvalidLayout(m) ==> exists|head: Seq<char>|
            a.words() == #[trigger] (head + m@),
{
    match a {
        FormatError::BadMagic { expected, found } => {
            let head = "bad magic: expected 0x"@ + text::in_base(expected as nat, 16)
                + ", found 0x"@;
            assert(a.words() == head + text::in_base(found as nat, 16));
        },
        FormatError::BadVersion { expected, found } => {
            let head = "bad version: expected "@ + text::dec(expected as nat) + ", found "@;
            assert(a.words() == head + text::dec(found as nat));
        },
        FormatError::SizeMismatch { expected, found } => {
            let head = "size mismatch: expected "@ + text::dec(expected as nat) + ", found "@;
            assert(a.words() == head + text::dec(found as nat));
        },
        FormatError::Alignment { required, found } => {
            let head = "misaligned: required "@ + text::dec(required as nat)
                + "-byte alignment, found "@;
            assert(a.words() == head + text::dec(found as nat));
        },
        _ => {},
    }
}

} // verus!
