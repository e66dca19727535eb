//! The binary record of a series, encoded with bincode.
//!
//! A record is the bincode encoding of the pair (directory, episodes), each
//! episode a pair (name, watched): the same bytes as those of a struct with
//! these fields in this order.

use vstd::prelude::*;

verus! {

#[verifier::external_type_specification]
#[verifier::external_body]
pub struct ExBincodeErrorKind(bincode::ErrorKind);

/// A record's directory and (name, watched) pairs, as values.
pub type RecordParts = (String, Vec<(String, bool)>);

/// What a record holds: the directory and the (name, watched) pairs.
pub type RecordContents = (Seq<char>, Seq<(Seq<char>, bool)>);

/// What a list of (name, watched) pairs holds.
pub open spec fn pairs_view(v: Seq<(String, bool)>) -> Seq<(Seq<char>, bool)> {
    v.map_values(|p: (String, bool)| (p.0@, p.1))
}

/// `p` is a prefix of `s`.
pub open spec fn is_prefix(p: Seq<u8>, s: Seq<u8>) -> bool {
    p.len() <= s.len() && s.subrange(0, p.len() as int) == p
}

/// The bytes bincode writes for a record with these contents.
pub uninterp spec fn record_bytes(dir: Seq<char>, episodes: Seq<(Seq<char>, bool)>) -> Seq<u8>;

/// What `bincode::deserialize` reads from `bytes` as a record, if it succeeds.
pub uninterp spec fn decoded(bytes: Seq<u8>) -> Option<RecordContents>;

/// Relies on `bincode::serialize` (default options: fixed-width integers, no
/// size limit, output into a `Vec`): it succeeds on strings, bools and
/// sequences of known length, the bytes depend on the value alone, and
/// `bincode::deserialize` reads the value back from them.
#[verifier::external_body]
pub(crate) fn encode_record(record: &RecordParts) -> (r: Result<Vec<u8>, Box<bincode::ErrorKind>>)
    ensures
        r is Ok,
        r matches Ok(b) ==> b@ == record_bytes(record.0@, pairs_view(record.1@)),
        r matches Ok(b) ==> decoded(b@) == Some((record.0@, pairs_view(record.1@))),
{
    bincode::serialize(record)
}

/// Relies on `bincode::deserialize` (same options as `bincode::serialize`):
/// its outcome depends on the bytes alone; bytes that are the encoding of
/// some record decode, and to that record; a record needs at least the two
/// 8-byte lengths; and what it reads re-encodes to the bytes it consumed, a
/// prefix of the input (trailing bytes are allowed).
#[verifier::external_body]
pub(crate) fn decode_record(bytes: &[u8]) -> (r: Result<RecordParts, Box<bincode::ErrorKind>>)
    ensures
        match r {
            Ok(v) => decoded(bytes@) == Some((v.0@, pairs_view(v.1@))),
            Err(_) => decoded(bytes@) is None,
        },
        bytes@.len() < 16 ==> r is Err,
        r matches Ok(v) ==> is_prefix(record_bytes(v.0@, pairs_view(v.1@)), bytes@),
        r is Ok || forall|m: RecordContents| #[trigger] record_bytes(m.0, m.1) != bytes@,
        r matches Ok(v) ==> forall|m: RecordContents|
            #[trigger] record_bytes(m.0, m.1) == bytes@ ==> v.0@ == m.0 && pairs_view(v.1@) == m.1,
{
    bincode::deserialize(bytes)
}

} // verus!
