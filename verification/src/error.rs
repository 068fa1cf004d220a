//! [`PathError`], what a malformed encoding or a reference the witness cannot supply becomes.

use vstd::prelude::*;
use vstd::string::StringExecFns;

verus! {

/// What ends a walk or an update short of an answer.
#[derive(Debug, Clone, Copy)]
pub enum PathError {
    /// The witness holds no node for a hash a walk had to follow.
    NodeNotResolved([u8; 32]),
    /// Errors related to RLP encoding and decoding.
    Rlp(alloy_rlp::Error),
    /// The value slot a branch holds beside its sixteen children was filled or needed. It answers a
    /// key that stops where others carry on, which 32-byte hashes never do.
    ValueInBranch,
    /// A hex-prefix path was longer than a key, or an extension held none at all.
    MalformedPath,
    /// A node referenced a child through more bytes than a Keccak digest takes, which the canonical
    /// trie has no node for and which re-encoding the parent is sized against.
    OversizedItem,
    /// A leaf carried more than an account's worth of value, which neither trie the guest walks
    /// holds and which re-encoding the leaf is sized against.
    OversizedValue,
    /// A node came out longer than the widest the canonical trie holds, which the scratch a frame
    /// keeps one in is sized against.
    OversizedNode,
}

/// A byte as two hexadecimal digits.
pub open spec fn hex_text(byte: u8) -> Seq<char> {
    seq!["0123456789abcdef"@[byte as int / 16], "0123456789abcdef"@[byte as int % 16]]
}

/// A digest cut short in the middle: its first two bytes and its last two.
pub open spec fn digest_text(digest: [u8; 32]) -> Seq<char> {
    "0x"@ + hex_text(digest@[0]) + hex_text(digest@[1]) + seq!['\u{2026}'] + hex_text(digest@[30])
        + hex_text(digest@[31])
}

/// A number as decimal digits.
pub open spec fn decimal_text(number: nat) -> Seq<char>
    decreases number,
{
    if number < 10 {
        seq!["0123456789"@[number as int]]
    } else {
        decimal_text(number / 10).push("0123456789"@[number as int % 10])
    }
}

/// What an RLP error says.
pub open spec fn rlp_error_text(error: alloy_rlp::Error) -> Seq<char> {
    match error {
        alloy_rlp::Error::Overflow => "overflow"@,
        alloy_rlp::Error::LeadingZero => "leading zero"@,
        alloy_rlp::Error::InputTooShort => "input too short"@,
        alloy_rlp::Error::NonCanonicalSingleByte => "non-canonical single byte"@,
        alloy_rlp::Error::NonCanonicalSize => "non-canonical size"@,
        alloy_rlp::Error::UnexpectedLength => "unexpected length"@,
        alloy_rlp::Error::UnexpectedString => "unexpected string"@,
        alloy_rlp::Error::UnexpectedList => "unexpected list"@,
        alloy_rlp::Error::ListLengthMismatch { expected, got } => "unexpected list length (got "@
            + decimal_text(got as nat) + ", expected "@ + decimal_text(expected as nat) + ")"@,
        alloy_rlp::Error::Custom(text) => text@,
    }
}

/// The alternate `Display` of `alloy_primitives::B256`, which writes the first and the last two bytes
/// of the digest in hexadecimal.
#[verifier::external_body]
fn display_digest(digest: &[u8; 32]) -> (text: String)
    ensures
        text@ == digest_text(*digest),
{
    format!("{:#}", alloy_primitives::B256::from(*digest))
}

/// The `Display` of `alloy_rlp::Error`, which writes a fixed text for each error, the two lengths of
/// a mismatch in decimal.
#[verifier::external_body]
fn display_rlp_error(error: &alloy_rlp::Error) -> (text: String)
    ensures
        text@ == rlp_error_text(*error),
{
    format!("{}", error)
}

impl PathError {
    /// What the error says.
    pub open spec fn text(&self) -> Seq<char> {
        match *self {
            PathError::NodeNotResolved(digest) => "reached an unresolved node: "@ + digest_text(
                digest,
            ),
            PathError::Rlp(error) => "rlp decode error: "@ + rlp_error_text(error),
            PathError::ValueInBranch => "branch node with value"@,
            PathError::MalformedPath => "malformed hex-prefix path"@,
            PathError::OversizedItem => "node reference longer than a digest"@,
            PathError::OversizedValue => "leaf value longer than an account"@,
            PathError::OversizedNode => "node longer than a branch"@,
        }
    }

    /// What the error says.
    pub fn message(&self) -> (text: String)
        ensures
            text@ == self.text(),
    {
        match self {
            PathError::NodeNotResolved(digest) => {
                let mut text = "reached an unresolved node: ".to_owned();
                text.append(display_digest(digest).as_str());
                text
            },
            PathError::Rlp(error) => {
                let mut text = "rlp decode error: ".to_owned();
                text.append(display_rlp_error(error).as_str());
                text
            },
            PathError::ValueInBranch => "branch node with value".to_owned(),
            PathError::MalformedPath => "malformed hex-prefix path".to_owned(),
            PathError::OversizedItem => "node reference longer than a digest".to_owned(),
            PathError::OversizedValue => "leaf value longer than an account".to_owned(),
            PathError::OversizedNode => "node longer than a branch".to_owned(),
        }
    }

    /// The error a read of the witness database reports, which keeps an RLP error as it is and says
    /// every other in words.
    pub fn into_witness_error(self) -> (error: WitnessDbError)
        ensures
            match self {
                PathError::Rlp(rlp_error) => error == WitnessDbError::Rlp(rlp_error),
                _ => error matches WitnessDbError::TrieWitness(text) && text@ == self.text(),
            },
    {
        match self {
            PathError::Rlp(error) => WitnessDbError::Rlp(error),
            _ => WitnessDbError::TrieWitness(self.message()),
        }
    }
}

/// What each error says: a text of its own, with the first and the last two bytes of the hash that was
/// not found in hexadecimal, and with what an RLP error says.
pub proof fn law_error_texts(digest: [u8; 32], error: alloy_rlp::Error)
    ensures
        PathError::NodeNotResolved(digest).text() == "reached an unresolved node: 0x"@ + seq![
            "0123456789abcdef"@[digest@[0] as int / 16],
            "0123456789abcdef"@[digest@[0] as int % 16],
            "0123456789abcdef"@[digest@[1] as int / 16],
            "0123456789abcdef"@[digest@[1] as int % 16],
            '\u{2026}',
            "0123456789abcdef"@[digest@[30] as int / 16],
            "0123456789abcdef"@[digest@[30] as int % 16],
            "0123456789abcdef"@[digest@[31] as int / 16],
            "0123456789abcdef"@[digest@[31] as int % 16],
        ],
        PathError::Rlp(error).text() == "rlp decode error: "@ + rlp_error_text(error),
        PathError::ValueInBranch.text() == "branch node with value"@,
        PathError::MalformedPath.text() == "malformed hex-prefix path"@,
        PathError::OversizedItem.text() == "node reference longer than a digest"@,
        PathError::OversizedValue.text() == "leaf value longer than an account"@,
        PathError::OversizedNode.text() == "node longer than a branch"@,
{
    reveal_strlit("reached an unresolved node: 0x");
    reveal_strlit("reached an unresolved node: ");
    reveal_strlit("0x");
    let text = PathError::NodeNotResolved(digest).text();
    let expected = "reached an unresolved node: 0x"@ + seq![
        "0123456789abcdef"@[digest@[0] as int / 16],
        "0123456789abcdef"@[digest@[0] as int % 16],
        "0123456789abcdef"@[digest@[1] as int / 16],
        "0123456789abcdef"@[digest@[1] as int % 16],
        '\u{2026}',
        "0123456789abcdef"@[digest@[30] as int / 16],
        "0123456789abcdef"@[digest@[30] as int % 16],
        "0123456789abcdef"@[digest@[31] as int / 16],
        "0123456789abcdef"@[digest@[31] as int % 16],
    ];
    assert(text =~= expected);
}

/// What a read of the witness database ends short of an answer with.
#[derive(Debug)]
pub enum WitnessDbError {
    /// An encoding in the witness was malformed.
    Rlp(alloy_rlp::Error),
    /// The trie the witness holds could not be walked.
    TrieWitness(String),
}

/// What a state root that cannot be recomputed becomes, whichever of the tries it failed in.
#[derive(Debug, Clone, Copy)]
pub enum StateRootError {
    /// A trie the state root commits to could not be updated.
    CalculationFailed,
}

} // verus!
