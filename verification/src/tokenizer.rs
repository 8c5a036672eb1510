//! Byte tokenization: the boundary between text and model input.
//!
//! Every byte of the UTF-8 encoding of a text is one token, so the
//! vocabulary is exactly the 256 byte values and needs no training.

use vstd::prelude::*;
use vstd::utf8::*;

use crate::describe::{decimal, push_decimal};

verus! {

/// A single token identifier, as consumed by the model.
///
/// Byte tokens occupy `0..=255`; the wider type keeps a token ID (a position
/// in a vocabulary) apart from a raw byte of storage.
pub type TokenId = u32;

/// The token IDs of a byte sequence: each byte, widened, in order.
pub open spec fn byte_ids(bytes: Seq<u8>) -> Seq<TokenId> {
    bytes.map_values(|b: u8| b as TokenId)
}

/// The token IDs that encode a text: its UTF-8 bytes, one ID per byte.
pub open spec fn encode_spec(text: Seq<char>) -> Seq<TokenId> {
    byte_ids(encode_utf8(text))
}

/// True when a token ID names a byte, i.e. lies in `0..=255`.
pub open spec fn is_byte_id(id: TokenId) -> bool {
    id <= 255
}

/// True when every ID of the sequence names a byte.
pub open spec fn all_byte_ids(ids: Seq<TokenId>) -> bool {
    forall|i: int| 0 <= i < ids.len() ==> is_byte_id(#[trigger] ids[i])
}

/// The bytes named by a sequence of byte IDs.
pub open spec fn ids_to_bytes(ids: Seq<TokenId>) -> Seq<u8> {
    ids.map_values(|id: TokenId| id as u8)
}

/// The length of the longest prefix of `bytes` that is valid UTF-8.
pub open spec fn longest_valid_prefix(bytes: Seq<u8>) -> nat
    decreases bytes.len(),
{
    if valid_utf8(bytes) {
        bytes.len()
    } else {
        longest_valid_prefix(bytes.drop_last())
    }
}

/// True when appending some bytes to `bytes` would make the whole valid
/// UTF-8: the input is valid, or it ends in a character cut short.
pub open spec fn completable_utf8(bytes: Seq<u8>) -> bool {
    exists|rest: Seq<u8>| valid_utf8(#[trigger] (bytes + rest))
}

/// The length of the longest prefix of `bytes` that more bytes could still
/// complete to valid UTF-8: the valid prefix plus the start of a character
/// that has not gone wrong yet.
pub open spec fn longest_completable_prefix(bytes: Seq<u8>) -> nat
    decreases bytes.len(),
{
    if bytes.len() == 0 || completable_utf8(bytes) {
        bytes.len()
    } else {
        longest_completable_prefix(bytes.drop_last())
    }
}

/// Why a byte sequence is not valid UTF-8.
///
/// `valid_up_to` is the length of the longest valid prefix. `error_len` is
/// `None` when the input ended in the middle of a character, and `Some(n)`
/// when an invalid sequence of `n` bytes starts at `valid_up_to`.
#[derive(Debug, Clone, Copy, PartialEq, Eq)]
pub struct Utf8Error {
    valid_up_to: usize,
    error_len: Option<usize>,
}

impl Utf8Error {
    /// The index up to which the input was valid UTF-8.
    pub closed spec fn spec_valid_up_to(&self) -> usize {
        self.valid_up_to
    }

    /// The length of the invalid sequence, or `None` for a truncated input.
    pub closed spec fn spec_error_len(&self) -> Option<usize> {
        self.error_len
    }

    /// True when this error is a correct report on the invalid input `bytes`:
    /// its position is the end of the longest valid prefix; the length is
    /// `None` exactly when the input ends in a character cut short (more
    /// bytes could still complete it), which leaves one to three bytes after
    /// that position; otherwise it is the length of the invalid sequence that
    /// starts there: the bytes of the character that went wrong, up to but
    /// not including the byte that broke it, or that one byte when no
    /// character can start with it.
    pub open spec fn reports_on(&self, bytes: Seq<u8>) -> bool {
        &&& self.spec_valid_up_to() == longest_valid_prefix(bytes)
        &&& (self.spec_error_len() is None <==> completable_utf8(bytes))
        &&& match self.spec_error_len() {
            None => 1 <= bytes.len() - self.spec_valid_up_to() <= 3,
            Some(n) => {
                &&& n == if longest_completable_prefix(bytes) > self.spec_valid_up_to() {
                    longest_completable_prefix(bytes) - self.spec_valid_up_to()
                } else {
                    1
                }
                &&& 1 <= n
                &&& self.spec_valid_up_to() + n <= bytes.len()
            },
        }
    }

    /// The index up to which the input was valid UTF-8: the largest `i` such
    /// that the first `i` bytes decode.
    #[verifier::when_used_as_spec(spec_valid_up_to)]
    pub fn valid_up_to(&self) -> (index: usize)
        ensures
            index == self.spec_valid_up_to(),
    {
        self.valid_up_to
    }

    /// `None` if the input ended in the middle of a character, otherwise the
    /// length of the invalid byte sequence that starts at `valid_up_to`.
    #[verifier::when_used_as_spec(spec_error_len)]
    pub fn error_len(&self) -> (len: Option<usize>)
        ensures
            len == self.spec_error_len(),
    {
        self.error_len
    }

    /// The description of this error that [`Self::message`] returns.
    pub open spec fn message_spec(&self) -> Seq<char> {
        match self.spec_error_len() {
            Some(n) => "invalid utf-8 sequence of "@ + decimal(n as nat) + " bytes from index "@
                + decimal(self.spec_valid_up_to() as nat),
            None => "incomplete utf-8 byte sequence from index "@ + decimal(
                self.spec_valid_up_to() as nat,
            ),
        }
    }

    /// Describes the error in words, with its length and position.
    pub fn message(&self) -> (message: String)
        ensures
            message@ == self.message_spec(),
    {
        let mut message = String::new();
        match self.error_len {
            Some(n) => {
                message.append("invalid utf-8 sequence of ");
                push_decimal(&mut message, n);
                message.append(" bytes from index ");
            },
            None => {
                message.append("incomplete utf-8 byte sequence from index ");
            },
        }
        push_decimal(&mut message, self.valid_up_to);
        message
    }
}

/// Something that went wrong while turning token IDs back into text.
#[derive(Debug, Clone, PartialEq, Eq)]
pub enum DecodeError {
    /// A token ID greater than 255, which names no byte, at index `position`
    /// of the decoded slice.
    OutOfVocabulary { position: usize, id: TokenId },
    /// Every ID named a byte, but the bytes are not valid UTF-8.
    InvalidUtf8(Utf8Error),
}

impl DecodeError {
    /// Describes the error in words: the offending ID and its position, or
    /// why the bytes are not UTF-8.
    pub fn message(&self) -> (message: String)
        ensures
            message@ == match *self {
                DecodeError::OutOfVocabulary { position, id } => "token id "@ + decimal(id as nat)
                    + " at position "@ + decimal(position as nat)
                    + " is outside the byte vocabulary (valid ids are 0..="@ + decimal(255) + ")"@,
                DecodeError::InvalidUtf8(source) => "decoded bytes are not valid UTF-8: "@
                    + source.message_spec(),
            },
    {
        match self {
            DecodeError::OutOfVocabulary { position, id } => {
                let mut message = String::new();
                message.append("token id ");
                push_decimal(&mut message, *id as usize);
                message.append(" at position ");
                push_decimal(&mut message, *position);
                message.append(" is outside the byte vocabulary (valid ids are 0..=");
                push_decimal(&mut message, ByteTokenizer::VOCAB_SIZE - 1);
                message.append(")");
                message
            },
            DecodeError::InvalidUtf8(source) => {
                let mut message = String::new();
                message.append("decoded bytes are not valid UTF-8: ");
                let detail = source.message();
                message.append(detail.as_str());
                message
            },
        }
    }

    /// The underlying UTF-8 error, if there is one: `None` for an ID outside
    /// the vocabulary, which has no deeper cause.
    pub fn source(&self) -> (source: Option<&Utf8Error>)
        ensures
            match *self {
                DecodeError::OutOfVocabulary { .. } => source is None,
                DecodeError::InvalidUtf8(error) => source == Some(&error),
            },
    {
        match self {
            DecodeError::OutOfVocabulary { .. } => None,
            DecodeError::InvalidUtf8(error) => Some(error),
        }
    }
}

/// Decodes `bytes` as UTF-8 into a `String` by calling `String::from_utf8`.
///
/// Trusted: the call succeeds exactly on valid UTF-8 and then holds the
/// decoded characters; on failure, `Utf8Error::valid_up_to` is the length of
/// the longest valid prefix, and `Utf8Error::error_len` is `None` exactly when
/// the end of the input was reached in the middle of a character (one to
/// three bytes left after that index), otherwise `Some(n)` where `n` is the
/// length of the invalid byte sequence that starts at that index (the
/// maximal start of a character there that is not yet wrong, or the one
/// byte that can start none), as the standard library documents.
#[verifier::external_body]
fn string_from_utf8(bytes: Vec<u8>) -> (res: Result<String, Utf8Error>)
    ensures
        match res {
            Ok(text) => valid_utf8(bytes@) && text@ == decode_utf8(bytes@),
            Err(error) => !valid_utf8(bytes@) && error.reports_on(bytes@),
        },
{
    match String::from_utf8(bytes) {
        Ok(text) => Ok(text),
        Err(error) => {
            let detail = error.utf8_error();
            Err(Utf8Error { valid_up_to: detail.valid_up_to(), error_len: detail.error_len() })
        },
    }
}

/// An ID names a byte exactly when it is below 256, the vocabulary size.
pub proof fn lemma_byte_ids_are_those_below_256(ids: Seq<TokenId>)
    ensures
        forall|id: TokenId| is_byte_id(id) <==> id < 256,
        all_byte_ids(ids) <==> forall|i: int| 0 <= i < ids.len() ==> ids[i] < 256,
{
}

/// Widening bytes to token IDs keeps each byte's value and position.
pub proof fn lemma_byte_ids_widen_each_byte(bytes: Seq<u8>)
    ensures
        byte_ids(bytes).len() == bytes.len(),
        forall|i: int| 0 <= i < bytes.len() ==> #[trigger] byte_ids(bytes)[i] == bytes[i] as u32,
        forall|i: int| 0 <= i < bytes.len() ==> byte_ids(bytes)[i] < 256,
{
}

/// Narrowing byte IDs to bytes keeps each ID's value and position.
pub proof fn lemma_ids_to_bytes_narrow_each_id(ids: Seq<TokenId>)
    ensures
        ids_to_bytes(ids).len() == ids.len(),
        forall|i: int| 0 <= i < ids.len() && ids[i] < 256 ==> #[trigger] ids_to_bytes(ids)[i] as u32 == ids[i],
{
}

/// `longest_valid_prefix` is the length of a prefix that is valid UTF-8,
/// and no longer prefix is.
pub proof fn lemma_longest_valid_prefix_is_longest(bytes: Seq<u8>)
    ensures
        longest_valid_prefix(bytes) <= bytes.len(),
        valid_utf8(bytes.take(longest_valid_prefix(bytes) as int)),
        forall|q: int| longest_valid_prefix(bytes) < q <= bytes.len() ==> !valid_utf8(#[trigger] bytes.take(q)),
    decreases bytes.len(),
{
    if valid_utf8(bytes) {
        assert(bytes.take(bytes.len() as int) =~= bytes);
    } else {
        let shorter = bytes.drop_last();
        lemma_longest_valid_prefix_is_longest(shorter);
        let p = longest_valid_prefix(shorter);
        assert(shorter.take(p as int) =~= bytes.take(p as int));
        assert forall|q: int| p < q <= bytes.len() implies !valid_utf8(#[trigger] bytes.take(q)) by {
            if q == bytes.len() {
                assert(bytes.take(q) =~= bytes);
            } else {
                assert(shorter.take(q) =~= bytes.take(q));
            }
        }
    }
}

/// `longest_completable_prefix` is the length of a prefix that more bytes
/// could complete to valid UTF-8, and no longer prefix is.
pub proof fn lemma_longest_completable_prefix_is_longest(bytes: Seq<u8>)
    ensures
        longest_completable_prefix(bytes) <= bytes.len(),
        completable_utf8(bytes.take(longest_completable_prefix(bytes) as int)),
        forall|q: int| longest_completable_prefix(bytes) < q <= bytes.len() ==> !completable_utf8(
            #[trigger] bytes.take(q),
        ),
    decreases bytes.len(),
{
    if bytes.len() == 0 {
        assert(bytes + Seq::<u8>::empty() =~= Seq::<u8>::empty());
        assert(valid_utf8(Seq::<u8>::empty()));
        assert(valid_utf8(bytes + Seq::<u8>::empty()));
        assert(completable_utf8(bytes));
        assert(bytes.take(bytes.len() as int) =~= bytes);
    } else if completable_utf8(bytes) {
        assert(bytes.take(bytes.len() as int) =~= bytes);
    } else {
        let shorter = bytes.drop_last();
        lemma_longest_completable_prefix_is_longest(shorter);
        let p = longest_completable_prefix(shorter);
        assert(shorter.take(p as int) =~= bytes.take(p as int));
        assert forall|q: int| p < q <= bytes.len() implies !completable_utf8(#[trigger] bytes.take(q)) by {
            if q == bytes.len() {
                assert(bytes.take(q) =~= bytes);
            } else {
                assert(shorter.take(q) =~= bytes.take(q));
            }
        }
    }
}

/// A prefix of a completable input is completable: the same bytes that
/// complete the whole input complete it once the cut-off part is put back.
proof fn lemma_completable_prefix(bytes: Seq<u8>, short: int, long: int)
    requires
        0 <= short <= long <= bytes.len(),
        completable_utf8(bytes.take(long)),
    ensures
        completable_utf8(bytes.take(short)),
{
    let rest = choose|rest: Seq<u8>| valid_utf8(#[trigger] (bytes.take(long) + rest));
    let more = bytes.subrange(short, long) + rest;
    assert(bytes.take(short) + more =~= bytes.take(long) + rest);
    assert(valid_utf8(bytes.take(short) + more));
}

/// What a UTF-8 error's length measures, in terms of the input alone. With
/// `v = valid_up_to`: `None` means more bytes could still complete the
/// input. `Some(n)` means they cannot, and then either no character can
/// start with the byte at `v` and `n == 1`, or the `n` bytes from `v` are the
/// start of a character that is not yet wrong, the input continues after
/// them, and the next byte makes it wrong.
pub proof fn lemma_error_len_measures_the_invalid_sequence(error: Utf8Error, bytes: Seq<u8>)
    requires
        !valid_utf8(bytes),
        error.reports_on(bytes),
    ensures
        error.spec_valid_up_to() < bytes.len(),
        valid_utf8(bytes.take(error.spec_valid_up_to() as int)),
        match error.spec_error_len() {
            None => completable_utf8(bytes),
            Some(n) => {
                let v = error.spec_valid_up_to() as int;
                &&& !completable_utf8(bytes)
                &&& !completable_utf8(bytes.take(v + 1)) ==> n == 1
                &&& completable_utf8(bytes.take(v + 1)) ==> {
                    &&& completable_utf8(bytes.take(v + n))
                    &&& v + n < bytes.len()
                    &&& !completable_utf8(bytes.take(v + n + 1))
                }
            },
        },
{
    lemma_longest_valid_prefix_is_longest(bytes);
    lemma_longest_completable_prefix_is_longest(bytes);
    let v = error.spec_valid_up_to() as int;
    let c = longest_completable_prefix(bytes) as int;
    assert(bytes.take(bytes.len() as int) =~= bytes);
    assert(v < bytes.len());
    // The valid prefix is completable by nothing at all.
    assert(bytes.take(v) + Seq::<u8>::empty() =~= bytes.take(v));
    assert(completable_utf8(bytes.take(v)));
    assert(v <= c);
    if error.spec_error_len() is Some {
        assert(!completable_utf8(bytes));
        assert(c < bytes.len());
        if completable_utf8(bytes.take(v + 1)) {
            assert(v + 1 <= c);
        } else {
            if v < c {
                lemma_completable_prefix(bytes, v + 1, c);
            }
            assert(c == v);
        }
    }
}

/// Every ID that encoding produces names a byte, and decoding those IDs
/// gives back the encoded text exactly: `decode(encode(text)) == Ok(text)`.
pub proof fn lemma_decode_inverts_encode(text: Seq<char>)
    ensures
        all_byte_ids(encode_spec(text)),
        ids_to_bytes(encode_spec(text)) == encode_utf8(text),
        valid_utf8(ids_to_bytes(encode_spec(text))),
        decode_utf8(ids_to_bytes(encode_spec(text))) == text,
{
    broadcast use group_utf8_lib;

    let bytes = encode_utf8(text);
    assert(ids_to_bytes(byte_ids(bytes)) =~= bytes);
}

/// Whenever decoding succeeds, encoding the decoded text gives back the
/// very same IDs: `decode(ids) == Ok(text)` implies `encode(text) == ids`.
pub proof fn lemma_encode_inverts_decode(ids: Seq<TokenId>)
    requires
        all_byte_ids(ids),
        valid_utf8(ids_to_bytes(ids)),
    ensures
        encode_spec(decode_utf8(ids_to_bytes(ids))) == ids,
{
    broadcast use group_utf8_lib;

    let bytes = ids_to_bytes(ids);
    assert(encode_utf8(decode_utf8(bytes)) == bytes);
    assert forall|i: int| 0 <= i < ids.len() implies #[trigger] byte_ids(bytes)[i] == ids[i] by {
        assert(is_byte_id(ids[i]));
    }
    assert(byte_ids(bytes) =~= ids);
}

/// A tokenizer whose vocabulary is the 256 possible byte values.
#[derive(Debug, Clone, Copy, Default, PartialEq, Eq)]
pub struct ByteTokenizer;

impl ByteTokenizer {
    /// The number of distinct token IDs this tokenizer can ever produce.
    pub const VOCAB_SIZE: usize = 256;

    /// Creates a tokenizer; there is no state to initialize.
    pub fn new() -> (tokenizer: Self)
        ensures
            tokenizer == ByteTokenizer,
    {
        ByteTokenizer
    }

    /// Returns [`Self::VOCAB_SIZE`].
    pub fn vocab_size(&self) -> (size: usize)
        ensures
            size == 256,
    {
        Self::VOCAB_SIZE
    }

    /// Encodes text as the sequence of its UTF-8 byte values, in order.
    pub fn encode(&self, text: &str) -> (ids: Vec<TokenId>)
        ensures
            ids@ == encode_spec(text@),
            ids@.len() == encode_utf8(text@).len(),
            forall|i: int| 0 <= i < ids@.len() ==> ids@[i] == encode_utf8(text@)[i] as u32,
            forall|i: int| 0 <= i < ids@.len() ==> ids@[i] < 256,
    {
        let bytes = text.as_bytes();
        let mut ids: Vec<TokenId> = Vec::with_capacity(bytes.len());
        let mut i: usize = 0;
        while i < bytes.len()
            invariant
                i <= bytes@.len(),
                bytes@ == encode_utf8(text@),
                ids@ == byte_ids(bytes@.take(i as int)),
            decreases bytes@.len() - i,
        {
            ids.push(TokenId::from(bytes[i]));
            proof {
                assert(bytes@.take(i + 1) == bytes@.take(i as int).push(bytes@[i as int]));
            }
            i = i + 1;
        }
        proof {
            assert(bytes@.take(i as int) == bytes@);
        }
        ids
    }

    /// Decodes token IDs back into text, or explains why they are not text.
    ///
    /// IDs are checked first: the first one above 255 is reported with its
    /// position. Only when every ID is a byte are the bytes checked, as a
    /// whole, for UTF-8 validity.
    pub fn decode(&self, ids: &[TokenId]) -> (res: Result<String, DecodeError>)
        ensures
            match res {
                Ok(text) => {
                    &&& all_byte_ids(ids@)
                    &&& valid_utf8(ids_to_bytes(ids@))
                    &&& text@ == decode_utf8(ids_to_bytes(ids@))
                },
                Err(DecodeError::OutOfVocabulary { position, id }) => {
                    &&& position < ids@.len()
                    &&& id == ids@[position as int]
                    &&& !is_byte_id(id)
                    &&& all_byte_ids(ids@.take(position as int))
                },
                Err(DecodeError::InvalidUtf8(error)) => {
                    &&& all_byte_ids(ids@)
                    &&& !valid_utf8(ids_to_bytes(ids@))
                    &&& error.reports_on(ids_to_bytes(ids@))
                },
            },
            match res {
                Ok(text) => {
                    &&& forall|i: int| 0 <= i < ids@.len() ==> ids@[i] < 256
                    &&& encode_utf8(text@).len() == ids@.len()
                    &&& forall|i: int| 0 <= i < ids@.len() ==> #[trigger] encode_utf8(text@)[i] as u32 == ids@[i]
                },
                Err(DecodeError::OutOfVocabulary { position, id }) => {
                    &&& 255 < id
                    &&& forall|j: int| 0 <= j < position ==> ids@[j] < 256
                },
                Err(DecodeError::InvalidUtf8(error)) => {
                    &&& forall|i: int| 0 <= i < ids@.len() ==> ids@[i] < 256
                    &&& forall|text: Seq<char>| #[trigger] encode_utf8(text).len() != ids@.len() || exists|i: int|
                        0 <= i < ids@.len() && #[trigger] encode_utf8(text)[i] as u32 != ids@[i]
                    &&& error.valid_up_to() <= ids@.len()
                    &&& valid_utf8(ids_to_bytes(ids@).take(error.valid_up_to() as int))
                    &&& forall|q: int| error.valid_up_to() < q <= ids@.len() ==> !valid_utf8(
                        #[trigger] ids_to_bytes(ids@).take(q),
                    )
                },
            },
    {
        let mut bytes: Vec<u8> = Vec::with_capacity(ids.len());
        let mut position: usize = 0;
        while position < ids.len()
            invariant
                position <= ids@.len(),
                all_byte_ids(ids@.take(position as int)),
                bytes@ == ids_to_bytes(ids@.take(position as int)),
            decreases ids@.len() - position,
        {
            let id = ids[position];
            if id > 255 {
                proof {
                    assert forall|j: int| 0 <= j < position implies ids@[j] < 256 by {
                        assert(ids@.take(position as int)[j] == ids@[j]);
                    }
                }
                return Err(DecodeError::OutOfVocabulary { position, id });
            }
            bytes.push(id as u8);
            proof {
                assert(ids@.take(position + 1) == ids@.take(position as int).push(id));
            }
            position = position + 1;
        }
        proof {
            assert(ids@.take(position as int) == ids@);
        }
        let ghost byte_seq = ids_to_bytes(ids@);
        proof {
            lemma_ids_to_bytes_narrow_each_id(ids@);
        }
        match string_from_utf8(bytes) {
            Ok(text) => {
                proof {
                    broadcast use group_utf8_lib;

                    assert(encode_utf8(decode_utf8(byte_seq)) == byte_seq);
                    assert forall|i: int| 0 <= i < ids@.len() implies #[trigger] encode_utf8(text@)[i] as u32
                        == ids@[i] by {
                        assert(is_byte_id(ids@[i]));
                    }
                }
                Ok(text)
            },
            Err(error) => {
                proof {
                    broadcast use group_utf8_lib;

                    lemma_longest_valid_prefix_is_longest(byte_seq);
                    assert forall|text: Seq<char>| #[trigger] encode_utf8(text).len() != ids@.len() || exists|i: int|
                        0 <= i < ids@.len() && #[trigger] encode_utf8(text)[i] as u32 != ids@[i] by {
                        if encode_utf8(text).len() == ids@.len() && forall|i: int|
                            0 <= i < ids@.len() ==> #[trigger] encode_utf8(text)[i] as u32 == ids@[i] {
                            assert forall|i: int| 0 <= i < ids@.len() implies #[trigger] encode_utf8(text)[i]
                                == byte_seq[i] by {
                                assert(encode_utf8(text)[i] as u32 == ids@[i]);
                                assert(is_byte_id(ids@[i]));
                            }
                            assert(encode_utf8(text) =~= byte_seq);
                            assert(valid_utf8(encode_utf8(text)));
                        }
                    }
                }
                Err(DecodeError::InvalidUtf8(error))
            },
        }
    }
}

} // verus!
