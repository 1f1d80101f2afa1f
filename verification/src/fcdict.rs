//! Trusted boundary to the fcsd crate: a front-coded dictionary of sorted
//! byte strings, addressed by rank and serialized as one immutable byte
//! artifact. What a dictionary holds and what an artifact encodes are
//! named, uninterpreted values; each wrapper states what the crate's
//! source shows of them.

use vstd::prelude::*;
use vstd::arithmetic::power2::pow2;
use crate::bytes::lex_lt;
use crate::lines::views;

verus! {

#[verifier::external_type_specification]
#[verifier::external_body]
pub struct ExFcsdSet(fcsd::Set);

/// The strings a dictionary holds, by rank.
pub uninterp spec fn fcsd_strings(s: fcsd::Set) -> Seq<Seq<u8>>;

/// Whether a dictionary is internally coherent. Dictionaries built here
/// are; decoding from an incoherent one can read out of bounds and
/// panic, so only dictionaries known coherent are decoded.
pub uninterp spec fn fcsd_set_wf(s: fcsd::Set) -> bool;

/// The strings a serialized dictionary artifact encodes, or nothing when
/// the bytes are not a valid artifact.
pub uninterp spec fn fcsd_bytes_strings(bytes: Seq<u8>) -> Option<Seq<Seq<u8>>>;

/// Whether `b` is a power of two, the shape of an accepted bucket size.
pub open spec fn is_pow2(b: usize) -> bool {
    exists|k: nat| k < 64 && b == pow2(k)
}

/// What the dictionary builder accepts: each key strictly greater than
/// the one before — so nonempty, since the comparison starts from the
/// empty string — and free of the zero byte the encoding terminates
/// keys with.
pub open spec fn fcsd_accepts(keys: Seq<Seq<u8>>) -> bool {
    &&& forall|i: int| 0 <= i < keys.len() - 1 ==> lex_lt(#[trigger] keys[i], keys[i + 1])
    &&& forall|i: int| 0 <= i < keys.len() ==> (#[trigger] keys[i]).len() > 0
    &&& forall|i: int, j: int|
        0 <= i < keys.len() && 0 <= j < keys[i].len() ==> #[trigger] keys[i][j] != 0
}

/// Relies on fcsd::Set::with_bucket_size: a power-of-two bucket size and
/// keys that are strictly increasing, nonempty and free of the zero byte
/// are accepted, and nothing else; the dictionary then holds exactly
/// those keys in order. At least one key must be given: finishing an
/// empty dictionary takes the maximum of an empty pointer table and
/// panics.
#[verifier::external_body]
pub(crate) fn fcsd_build(keys: &Vec<Vec<u8>>, bucket_size: usize) -> (r: Option<fcsd::Set>)
    requires
        keys@.len() > 0,
    ensures
        (r is Some) == (is_pow2(bucket_size) && fcsd_accepts(views(keys@))),
        r matches Some(s) ==> fcsd_set_wf(s) && fcsd_strings(s) == views(keys@),
{
    fcsd::Set::with_bucket_size(keys, bucket_size).ok()
}

/// Relies on fcsd::Set::len: how many strings the dictionary holds.
#[verifier::external_body]
pub(crate) fn fcsd_len(s: &fcsd::Set) -> (r: usize)
    ensures
        r == fcsd_strings(*s).len(),
{
    s.len()
}

/// Relies on fcsd::Set::decoder and fcsd::Decoder::run: the stored string
/// at the given rank. A rank past the end panics, and decoding from an
/// incoherent dictionary can; both are excluded.
#[verifier::external_body]
pub(crate) fn fcsd_get(s: &fcsd::Set, id: usize) -> (r: Vec<u8>)
    requires
        fcsd_set_wf(*s),
        id < fcsd_strings(*s).len(),
    ensures
        r@ == fcsd_strings(*s)[id as int],
{
    s.decoder().run(id)
}

/// Relies on fcsd::Set::deserialize_from: a valid artifact reloads, and
/// the reloaded dictionary coherently holds exactly the strings the
/// artifact encodes. Other bytes are excluded: the reader sizes its
/// buffers from length fields read out of the input, and a crafted field
/// makes that allocation fail or overflow.
#[verifier::external_body]
pub(crate) fn fcsd_deserialize(bytes: &[u8]) -> (r: Option<fcsd::Set>)
    requires
        fcsd_bytes_strings(bytes@) is Some,
    ensures
        r is Some,
        r matches Some(s) ==> fcsd_set_wf(s) && Some(fcsd_strings(s)) == fcsd_bytes_strings(
            bytes@,
        ),
{
    fcsd::Set::deserialize_from(bytes).ok()
}

/// Relies on fcsd::Set::serialize_into to a vector, whose writes cannot
/// fail: the artifact encodes exactly the dictionary's strings.
#[verifier::external_body]
pub(crate) fn fcsd_serialize(s: &fcsd::Set) -> (r: Option<Vec<u8>>)
    ensures
        r is Some,
        r matches Some(bytes) ==> fcsd_bytes_strings(bytes@) == Some(fcsd_strings(*s)),
{
    let mut out: Vec<u8> = Vec::new();
    match s.serialize_into(&mut out) {
        Ok(()) => Some(out),
        Err(_) => None,
    }
}

} // verus!
