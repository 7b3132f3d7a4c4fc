//! Compact identifiers, modelled by the numeric value that the
//! outside `ron-uuid` crate parses out of a token.

use vstd::prelude::*;

verus! {

/// What the outside identifier parser returns for a token, reduced to
/// plain values: a scheme number (0 name, 1 number, 2 event, 3
/// derived) and the two 60-bit halves; `None` when the token does not
/// denote an identifier.
pub uninterp spec fn uuid_of(token: Seq<u8>) -> Option<(u8, u64, u64)>;

/// A compact identifier: the scheme and the two halves of its value,
/// as parsed by the outside identifier crate. Two identifiers are the
/// same exactly when all three fields agree.
#[derive(Clone, Copy, Debug, PartialEq, Eq, Structural)]
pub struct Id {
    pub kind: u8,
    pub hi: u64,
    pub lo: u64,
}

/// All bytes of `s` are ASCII.
pub open spec fn ascii_bytes(s: Seq<u8>) -> bool {
    forall|i: int| 0 <= i < s.len() ==> s[i] < 128
}

/// The identifier a token denotes, or `None` when it has none.
pub open spec fn id_of(token: Seq<u8>) -> Option<Id> {
    match uuid_of(token) {
        Some(t) => Some(Id { kind: t.0, hi: t.1, lo: t.2 }),
        None => None,
    }
}

/// Relies on ron-uuid's `UUID::from_str`, which parses a token without
/// any context, so the result is a function of the token's bytes
/// alone; each variant of the returned enum is mapped to its scheme
/// number and its two `u64` fields. The token must be ASCII: on other
/// input the outside parser indexes into the middle of a multi-byte
/// character and panics.
#[verifier::external_body]
pub(crate) fn parse_uuid_token(token: &[u8]) -> (r: Option<(u8, u64, u64)>)
    requires
        ascii_bytes(token@),
    ensures
        r == uuid_of(token@),
{
    match core::str::from_utf8(token).ok().and_then(|s| s.parse::<ron_uuid::UUID>().ok()) {
        Some(ron_uuid::UUID::Name { name, scope }) => Some((0, name, scope)),
        Some(ron_uuid::UUID::Number { value1, value2 }) => Some((1, value1, value2)),
        Some(ron_uuid::UUID::Event { timestamp, origin }) => Some((2, timestamp, origin)),
        Some(ron_uuid::UUID::Derived { timestamp, origin }) => Some((3, timestamp, origin)),
        None => None,
    }
}

impl Id {
    /// Parse a compact (ASCII) token into an identifier.
    pub fn from_token(token: &[u8]) -> (r: Option<Id>)
        requires
            ascii_bytes(token@),
        ensures
            r == id_of(token@),
    {
        match parse_uuid_token(token) {
            Some((kind, hi, lo)) => Some(Id { kind, hi, lo }),
            None => None,
        }
    }
}

} // verus!
