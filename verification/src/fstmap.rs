//! Trusted boundary to the fst crate: an ordered map from byte-string
//! keys to integers, built once in sorted order and encoded as one
//! immutable byte artifact. What a builder has been fed, what an artifact
//! encodes, and what a loaded index holds are named, uninterpreted
//! values; each wrapper states what the crate's source shows of them.

use vstd::prelude::*;
use crate::bytes::lex_lt;

verus! {

#[verifier::external_type_specification]
#[verifier::external_body]
#[verifier::reject_recursive_types(D)]
pub struct ExFstMap<D>(fst::Map<D>);

#[verifier::external_type_specification]
#[verifier::external_body]
#[verifier::reject_recursive_types(W)]
pub struct ExFstMapBuilder<W>(fst::MapBuilder<W>);

/// The key-value pairs fed to a builder so far, in insertion order.
pub uninterp spec fn fst_builder_pairs(b: fst::MapBuilder<Vec<u8>>) -> Seq<(Seq<u8>, u64)>;

/// The pairs a finished index artifact encodes, or nothing when the bytes
/// are not a valid index.
pub uninterp spec fn fst_bytes_pairs(bytes: Seq<u8>) -> Option<Map<Seq<u8>, u64>>;

/// The pairs a loaded index holds.
pub uninterp spec fn fst_map_pairs(m: fst::Map<Vec<u8>>) -> Map<Seq<u8>, u64>;

/// Whether a loaded index is internally coherent. Loading validates only
/// lightly; querying an incoherent index can read out of bounds and
/// panic, so only indexes known coherent are queried.
pub uninterp spec fn fst_map_valid(m: fst::Map<Vec<u8>>) -> bool;

/// The map a pair list denotes, later occurrences overriding earlier.
pub open spec fn pairs_as_map(ps: Seq<(Seq<u8>, u64)>) -> Map<Seq<u8>, u64>
    decreases ps.len(),
{
    if ps.len() == 0 {
        Map::empty()
    } else {
        pairs_as_map(ps.drop_last()).insert(ps.last().0, ps.last().1)
    }
}

/// Relies on fst::MapBuilder::memory: a fresh in-memory builder holding
/// nothing.
#[verifier::external_body]
pub(crate) fn fst_builder_new() -> (r: fst::MapBuilder<Vec<u8>>)
    ensures
        fst_builder_pairs(r) == Seq::<(Seq<u8>, u64)>::empty(),
{
    fst::MapBuilder::memory()
}

/// Relies on fst::MapBuilder::insert: a key is accepted exactly when it
/// is strictly greater than the last accepted key, or is the first; a
/// rejected key changes nothing. The writer is a vector, whose writes
/// cannot fail.
#[verifier::external_body]
pub(crate) fn fst_builder_insert(b: &mut fst::MapBuilder<Vec<u8>>, key: &[u8], val: u64) -> (r: bool)
    ensures
        r == (fst_builder_pairs(*old(b)).len() == 0 || lex_lt(
            fst_builder_pairs(*old(b)).last().0,
            key@,
        )),
        r ==> fst_builder_pairs(*final(b)) == fst_builder_pairs(*old(b)).push((key@, val)),
        !r ==> fst_builder_pairs(*final(b)) == fst_builder_pairs(*old(b)),
{
    b.insert(key, val).is_ok()
}

/// Relies on fst::MapBuilder::into_inner: the finished artifact encodes
/// exactly the accepted pairs. The writer is a vector, whose writes
/// cannot fail, so finishing always succeeds.
#[verifier::external_body]
pub(crate) fn fst_builder_finish(b: fst::MapBuilder<Vec<u8>>) -> (r: Option<Vec<u8>>)
    ensures
        r is Some,
        r matches Some(bytes) ==> fst_bytes_pairs(bytes@) == Some(
            pairs_as_map(fst_builder_pairs(b)),
        ),
{
    b.into_inner().ok()
}

/// Relies on fst::Map::new: a valid artifact is accepted, and the loaded
/// index holds exactly the encoded pairs. Bytes that are no valid
/// artifact may be rejected or load as an incoherent index.
#[verifier::external_body]
pub(crate) fn fst_map_new(bytes: Vec<u8>) -> (r: Option<fst::Map<Vec<u8>>>)
    ensures
        r is None ==> fst_bytes_pairs(bytes@) is None,
        r matches Some(m) ==> (fst_bytes_pairs(bytes@) matches Some(ps) ==> fst_map_valid(m)
            && fst_map_pairs(m) == ps),
{
    fst::Map::new(bytes).ok()
}

/// Relies on fst::Map::get: the value stored under the key, if any. Only
/// a coherent index may be queried; on corrupt data the read can panic.
#[verifier::external_body]
pub(crate) fn fst_map_get(m: &fst::Map<Vec<u8>>, key: &[u8]) -> (r: Option<u64>)
    requires
        fst_map_valid(*m),
    ensures
        r == (if fst_map_pairs(*m).contains_key(key@) {
            Some(fst_map_pairs(*m)[key@])
        } else {
            None::<u64>
        }),
{
    m.get(key)
}

} // verus!
