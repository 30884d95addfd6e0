//! The codec: a reversible transform between a record and one line of text.
//!
//! A record's identifier and value are joined with the reserved `:`
//! separator and the joined bytes are carried through a text-safe base64
//! transform. Decoding inverts the transform and splits the text at the
//! first separator. The transform only obscures raw bytes from a naive
//! file viewer; it provides no confidentiality.

use vstd::prelude::*;
use vstd::string::StrSliceExecFns;
use vstd::utf8::{valid_utf8, decode_utf8, encode_utf8, encode_scalar, has_width_1_encoding};
use crate::b64::{b64_of, b64_decoded, b64_encode, b64_decode};

verus! {

/// Why a stored line could not be decoded back into a record.
#[derive(Clone, Copy, Debug, PartialEq, Eq, Structural)]
pub enum DecodeError {
    /// The line is not valid input for the text-safe transform.
    InvalidBase64,
    /// The decoded bytes are not valid text.
    InvalidText,
    /// The decoded text holds no separator.
    MissingSeparator,
}

/// One stored record: an identifier/value pair.
#[derive(Clone, Debug)]
pub struct Record {
    pub identifier: String,
    pub value: String,
}

impl View for Record {
    type V = (Seq<char>, Seq<char>);

    open spec fn view(&self) -> Self::V {
        (self.identifier@, self.value@)
    }
}

/// The byte sequence a record serializes to before the text-safe transform:
/// the identifier's bytes, one separator byte, the value's bytes.
pub open spec fn joined_bytes(id: Seq<char>, value: Seq<char>) -> Seq<u8> {
    encode_utf8(id) + seq![58u8] + encode_utf8(value)
}

/// The encoded line that `encode` produces for a record.
pub open spec fn line_of(id: Seq<char>, value: Seq<char>) -> Seq<char> {
    b64_of(joined_bytes(id, value))
}

/// What decoding yields on a given line: the transform is inverted, the
/// recovered bytes must be valid text, and the text is split at the first
/// separator into the identifier and the value.
pub open spec fn decode_spec(line: Seq<char>) -> Result<(Seq<char>, Seq<char>), DecodeError> {
    match b64_decoded(line) {
        None => Err(DecodeError::InvalidBase64),
        Some(bytes) => if !valid_utf8(bytes) {
            Err(DecodeError::InvalidText)
        } else {
            let text = decode_utf8(bytes);
            match text.index_of_first(':') {
                None => Err(DecodeError::MissingSeparator),
                Some(i) => Ok((text.take(i), text.skip(i + 1))),
            }
        },
    }
}

/// Relies on `String::from_utf8`: it succeeds exactly on valid UTF-8 input,
/// yielding the string whose byte encoding is that input.
#[verifier::external_body]
fn bytes_to_string(bytes: Vec<u8>) -> (r: Result<String, ()>)
    ensures
        match r {
            Ok(s) => valid_utf8(bytes@) && encode_utf8(s@) == bytes@,
            Err(_) => !valid_utf8(bytes@),
        },
{
    match String::from_utf8(bytes) {
        Ok(s) => Ok(s),
        Err(_) => Err(()),
    }
}

/// Encoding distributes over concatenation of character sequences.
proof fn lemma_encode_utf8_concat(a: Seq<char>, b: Seq<char>)
    ensures
        encode_utf8(a + b) == encode_utf8(a) + encode_utf8(b),
    decreases a.len(),
{
    if a.len() == 0 {
        assert(a + b =~= b);
        assert(encode_utf8(a) + encode_utf8(b) =~= encode_utf8(b));
    } else {
        assert((a + b)[0] == a[0]);
        assert((a + b).drop_first() =~= a.drop_first() + b);
        lemma_encode_utf8_concat(a.drop_first(), b);
        assert(encode_utf8(a + b) =~= encode_utf8(a) + encode_utf8(b));
    }
}

/// The separator character encodes to the single separator byte.
proof fn lemma_encode_utf8_colon()
    ensures
        encode_utf8(seq![':']) == seq![58u8],
{
    let s = seq![':'];
    assert(s.len() == 1);
    assert(s[0] == ':');
    assert(':' as u32 == 58);
    assert(has_width_1_encoding(58));
    assert(58u32 & 0x7F == 58) by (bit_vector);
    assert(encode_scalar(58) =~= seq![58u8]);
    assert(s.drop_first() =~= Seq::<char>::empty());
    assert(encode_utf8(s.drop_first()) =~= Seq::<u8>::empty());
    assert(encode_utf8(s) == encode_scalar(s[0] as u32) + encode_utf8(s.drop_first()));
    assert(encode_utf8(s) =~= seq![58u8]);
}

/// Returns the position of the first occurrence of `c` in `s`, if any.
fn find_char(s: &str, c: char) -> (r: Option<usize>)
    ensures
        match r {
            Some(i) => s@.index_of_first(c) == Some(i as int),
            None => s@.index_of_first(c) is None,
        },
{
    let n = s.unicode_len();
    let mut i: usize = 0;
    while i < n
        invariant
            n == s@.len(),
            i <= n,
            forall|j: int| 0 <= j < i ==> s@[j] != c,
        decreases n - i,
    {
        if s.get_char(i) == c {
            proof {
                s@.index_of_first_ensures(c);
                assert(s@.contains(c)) by {
                    assert(s@[i as int] == c);
                }
            }
            return Some(i);
        }
        i += 1;
    }
    proof {
        s@.index_of_first_ensures(c);
    }
    None
}

/// Serializes a record into one encoded line.
///
/// The line never holds a newline and is never empty. Whenever the
/// identifier holds no separator, decoding the line recovers the pair
/// exactly: the round-trip law.
pub fn encode(identifier: &str, value: &str) -> (line: String)
    ensures
        line@ == line_of(identifier@, value@),
        line@.len() > 0,
        forall|i: int| 0 <= i < line@.len() ==> line@[i] != '\n',
        !identifier@.contains(':') ==> decode_spec(line@) == Ok::<(Seq<char>, Seq<char>),
            DecodeError>((identifier@, value@)),
{
    let mut joined: Vec<u8> = identifier.as_bytes_vec();
    joined.push(58u8);
    let mut tail: Vec<u8> = value.as_bytes_vec();
    joined.append(&mut tail);
    proof {
        assert(joined@ =~= joined_bytes(identifier@, value@));
    }
    let line = b64_encode(joined.as_slice());
    proof {
        if !identifier@.contains(':') {
            lemma_round_trip_of_joined(identifier@, value@, line@);
        }
    }
    line
}

/// Once the transform is known to invert on a line built from a separator-free
/// identifier, the decoded text splits back into the original pair.
proof fn lemma_round_trip_of_joined(id: Seq<char>, value: Seq<char>, line: Seq<char>)
    requires
        !id.contains(':'),
        b64_decoded(line) == Some(joined_bytes(id, value)),
    ensures
        decode_spec(line) == Ok::<(Seq<char>, Seq<char>), DecodeError>((id, value)),
{
    let text = id + seq![':'] + value;
    lemma_encode_utf8_concat(id + seq![':'], value);
    lemma_encode_utf8_concat(id, seq![':']);
    lemma_encode_utf8_colon();
    assert(encode_utf8(text) =~= joined_bytes(id, value));
    vstd::utf8::encode_utf8_valid_utf8(text);
    vstd::utf8::encode_utf8_decode_utf8(text);
    assert(decode_utf8(joined_bytes(id, value)) == text);
    text.index_of_first_ensures(':');
    assert(text[id.len() as int] == ':');
    assert(text.contains(':')) by {
        assert(text[id.len() as int] == ':');
    }
    assert(forall|j: int| 0 <= j < id.len() ==> text[j] != ':');
    let found = text.index_of_first(':').unwrap();
    assert(found == id.len()) by {
        if found < id.len() {
            assert(text[found] == ':');
        }
        if found > id.len() {
            assert(text[id.len() as int] == ':');
        }
    }
    assert(text.take(id.len() as int) =~= id);
    assert(text.skip(id.len() as int + 1) =~= value);
}

/// Parses one encoded line back into a record: inverts the text-safe
/// transform, checks the bytes are valid text, and splits at the first
/// separator. Fails exactly as `decode_spec` says.
pub fn decode(line: &str) -> (r: Result<Record, DecodeError>)
    ensures
        match r {
            Ok(rec) => decode_spec(line@) == Ok::<(Seq<char>, Seq<char>), DecodeError>(rec@),
            Err(e) => decode_spec(line@) == Err::<(Seq<char>, Seq<char>), DecodeError>(e),
        },
{
    let bytes = match b64_decode(line) {
        Ok(b) => b,
        Err(_) => {
            return Err(DecodeError::InvalidBase64);
        },
    };
    let text = match bytes_to_string(bytes) {
        Ok(s) => s,
        Err(_) => {
            return Err(DecodeError::InvalidText);
        },
    };
    proof {
        vstd::utf8::encode_utf8_decode_utf8(text@);
    }
    let sep = find_char(text.as_str(), ':');
    match sep {
        None => Err(DecodeError::MissingSeparator),
        Some(i) => {
            proof {
                text@.index_of_first_ensures(':');
            }
            let n = text.as_str().unicode_len();
            let id_part = text.as_str().substring_char(0, i);
            let val_part = text.as_str().substring_char(i + 1, n);
            let rec = Record { identifier: id_part.to_owned(), value: val_part.to_owned() };
            proof {
                assert(text@.take(i as int) =~= text@.subrange(0, i as int));
                assert(text@.skip(i + 1) =~= text@.subrange(i + 1, text@.len() as int));
            }
            Ok(rec)
        },
    }
}

} // verus!
