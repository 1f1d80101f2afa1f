//! The redirect lookup server: both artifacts and the default status code
//! are fixed at initialization, and every request is answered from them
//! alone — a hit redirects to the stored target with its status, a miss
//! is a plain not-found answer.

use vstd::prelude::*;
use vstd::string::StringSliceAdditionalSpecFns;
use vstd::string::StringExecFns;
use crate::bytes::{copy_bytes, has_ws, is_ws};
use crate::encode::{artifacts_encode, composite};
use crate::fcdict::{fcsd_get, fcsd_len, fcsd_set_wf, fcsd_strings};
use crate::fstmap::{fst_bytes_pairs, fst_map_get, fst_map_new, fst_map_pairs, fst_map_valid};
use crate::lines::copy_range;
use crate::num::{dec_digits, is_digit, lemma_dec_digits_three, lemma_dec_digits_val};
use crate::rules::{m_wf, EntryV};

verus! {

/// Splits a decoded dictionary composite: bytes ending in a space
/// followed by exactly three digits carry an explicit status code, and
/// anything else is a bare target.
pub open spec fn split_composite(b: Seq<u8>) -> (Seq<u8>, Option<u16>) {
    if b.len() > 4 && b[b.len() - 4] == 32 && is_digit(b[b.len() - 3]) && is_digit(
        b[b.len() - 2],
    ) && is_digit(b[b.len() - 1]) {
        (
            b.take(b.len() - 4),
            Some(
                (((b[b.len() - 3] - 48) * 100 + (b[b.len() - 2] - 48) * 10 + (b[b.len() - 1]
                    - 48)) as u16),
            ),
        )
    } else {
        (b, None)
    }
}

/// What one request is answered with: a miss is a not-found status with
/// no target; a hit decodes the stored composite and redirects.
pub open spec fn lookup_spec(
    f: Map<Seq<u8>, u64>,
    d: Seq<Seq<u8>>,
    default: u16,
    path: Seq<u8>,
) -> (u16, Option<Seq<u8>>) {
    if !f.contains_key(path) {
        (404, None::<Seq<u8>>)
    } else {
        let sp = split_composite(d[f[path] as int]);
        match sp.1 {
            Some(c) => (c, Some(sp.0)),
            None => (default, Some(d[f[path] as int])),
        }
    }
}

/// Splits a decoded composite, as `split_composite` describes.
pub fn split_status_suffix(b: &[u8]) -> (r: (Vec<u8>, Option<u16>))
    ensures
        r.0@ == split_composite(b@).0,
        r.1 == split_composite(b@).1,
{
    let n: usize = b.len();
    if n > 4 && b[n - 4] == 32 && b[n - 3] >= 48 && b[n - 3] <= 57 && b[n - 2] >= 48 && b[n - 2]
        <= 57 && b[n - 1] >= 48 && b[n - 1] <= 57 {
        let code: u16 = ((b[n - 3] - 48) as u16) * 100 + ((b[n - 2] - 48) as u16) * 10 + ((b[n
            - 1] - 48) as u16);
        let target = copy_range(b, 0, n - 4);
        proof {
            assert(target@ =~= split_composite(b@).0);
        }
        (target, Some(code))
    } else {
        (copy_bytes(b), None)
    }
}

/// The answer to one request.
pub struct LookupResponse {
    pub status_code: u16,
    pub location: Option<Vec<u8>>,
}

/// Why the server refused to start.
#[derive(Debug)]
pub enum InitError {
    /// The default status code is not a redirect code.
    InvalidStatusCode,
    /// The index artifact was rejected.
    InvalidIndex,
}

/// The immutable lookup state: the loaded source index, the loaded target
/// dictionary, and the default status code, all fixed before the first
/// request.
pub struct RedirectServer {
    pub sources: fst::Map<Vec<u8>>,
    pub targets: fcsd::Set,
    pub default_status_code: u16,
}

impl RedirectServer {
    /// The index this server answers from.
    pub open spec fn f(self) -> Map<Seq<u8>, u64> {
        fst_map_pairs(self.sources)
    }

    /// The dictionary this server answers from.
    pub open spec fn d(self) -> Seq<Seq<u8>> {
        fcsd_strings(self.targets)
    }

    /// The configured default status code.
    pub open spec fn default_status(self) -> u16 {
        self.default_status_code
    }

    /// A coherent server: both artifacts are sound, every stored rank
    /// points into the dictionary, and the default is a redirect code.
    pub open spec fn wf(self) -> bool {
        &&& fst_map_valid(self.sources)
        &&& fcsd_set_wf(self.targets)
        &&& forall|k: Seq<u8>| #[trigger] self.f().contains_key(k) ==> self.f()[k] < self.d().len()
        &&& 301 <= self.default_status_code <= 399
    }

    /// Loads the index artifact and takes the target dictionary, refusing
    /// a default status code outside the redirect range and index bytes
    /// that fail validation.
    pub fn new(sources_bytes: Vec<u8>, targets: fcsd::Set, default_status_code: u16) -> (r:
        Result<RedirectServer, InitError>)
        ensures
            !(301 <= default_status_code <= 399) ==> r matches Err(
                InitError::InvalidStatusCode,
            ),
            (301 <= default_status_code <= 399 && fst_bytes_pairs(sources_bytes@) is Some)
                ==> (r matches Ok(s) && fst_map_valid(s.sources) && s.f() == fst_bytes_pairs(
                sources_bytes@,
            ).unwrap()),
            r matches Ok(s) ==> s.targets == targets && s.default_status_code
                == default_status_code && 301 <= default_status_code <= 399,
    {
        if default_status_code < 301 || default_status_code > 399 {
            return Err(InitError::InvalidStatusCode);
        }
        match fst_map_new(sources_bytes) {
            Some(sources) => Ok(RedirectServer { sources, targets, default_status_code }),
            None => Err(InitError::InvalidIndex),
        }
    }

    /// Loads both artifacts from their bytes. The index bytes go through
    /// the fst crate's validation; the dictionary bytes must be a valid
    /// artifact — its reader sizes buffers from length fields in the
    /// input, so corrupt bytes are excluded — which `encode` guarantees
    /// of everything it produces.
    pub fn load(sources_bytes: Vec<u8>, targets_bytes: &[u8], default_status_code: u16) -> (r:
        Result<RedirectServer, InitError>)
        requires
            crate::fcdict::fcsd_bytes_strings(targets_bytes@) is Some,
        ensures
            !(301 <= default_status_code <= 399) ==> r matches Err(
                InitError::InvalidStatusCode,
            ),
            (301 <= default_status_code <= 399 && fst_bytes_pairs(sources_bytes@) is Some)
                ==> r is Ok,
            r matches Ok(s) ==> {
                &&& s.default_status_code == default_status_code
                &&& 301 <= default_status_code <= 399
                &&& fcsd_set_wf(s.targets)
                &&& Some(s.d()) == crate::fcdict::fcsd_bytes_strings(targets_bytes@)
                &&& (fst_bytes_pairs(sources_bytes@) matches Some(ps) ==> fst_map_valid(
                    s.sources,
                ) && s.f() == ps)
            },
    {
        if default_status_code < 301 || default_status_code > 399 {
            return Err(InitError::InvalidStatusCode);
        }
        let targets = match crate::fcdict::fcsd_deserialize(targets_bytes) {
            Some(t) => t,
            None => {
                proof {
                    assert(false);
                }
                return Err(InitError::InvalidIndex);
            },
        };
        match fst_map_new(sources_bytes) {
            Some(sources) => Ok(RedirectServer { sources, targets, default_status_code }),
            None => Err(InitError::InvalidIndex),
        }
    }

    /// Compiles a map into its two artifacts and serves from them in one
    /// step: what `encode` produces is exactly what `load` demands, so
    /// the round trip from rule to response closes inside the library.
    /// The returned server is coherent and answers every compiled source
    /// with its rule's target and status code.
    pub fn from_map(map: &crate::rules::RedirectsMap) -> (r: Result<
        RedirectServer,
        crate::encode::EncodeError,
    >)
        requires
            map.wf(),
        ensures
            r matches Ok(s) ==> {
                &&& s.wf()
                &&& s.default_status() == map.default_status_code
                &&& artifacts_encode(map.m(), s.f(), s.d(), map.default_status_code)
            },
            r matches Err(e) ==> match e {
                crate::encode::EncodeError::EmptyMap => map.entries@.len() == 0,
                crate::encode::EncodeError::DictionaryRejected => exists|k: Seq<u8>, j: int|
                    #![trigger composite(map.m()[k], map.default_status_code)[j]]
                    map.m().contains_key(k) && 0 <= j < composite(
                        map.m()[k],
                        map.default_status_code,
                    ).len() && composite(map.m()[k], map.default_status_code)[j] == 0,
            },
    {
        let artifacts = match map.encode() {
            Ok(a) => a,
            Err(e) => {
                return Err(e);
            },
        };
        let targets_bytes = artifacts.targets;
        match RedirectServer::load(artifacts.sources, targets_bytes.as_slice(), map.default_status_code) {
            Ok(s) => {
                proof {
                    s.lemma_encoded_server_wf(map.m());
                }
                Ok(s)
            },
            Err(_) => {
                proof {
                    assert(false);
                }
                Err(crate::encode::EncodeError::EmptyMap)
            },
        }
    }

    /// A server built from a sound dictionary and an index that encodes a
    /// map's artifacts is coherent.
    pub proof fn lemma_encoded_server_wf(self, m: Map<Seq<u8>, EntryV>)
        requires
            fst_map_valid(self.sources),
            fcsd_set_wf(self.targets),
            301 <= self.default_status_code <= 399,
            artifacts_encode(m, self.f(), self.d(), self.default_status_code),
        ensures
            self.wf(),
    {
    }

    /// Answers one request path from the two artifacts.
    pub fn handle(&self, path: &[u8]) -> (r: LookupResponse)
        requires
            self.wf(),
        ensures
            r.status_code == lookup_spec(self.f(), self.d(), self.default_status(), path@).0,
            match r.location {
                Some(v) => lookup_spec(self.f(), self.d(), self.default_status(), path@).1
                    == Some(v@),
                None => lookup_spec(self.f(), self.d(), self.default_status(), path@).1
                    is None,
            },
    {
        match fst_map_get(&self.sources, path) {
            None => LookupResponse { status_code: 404, location: None },
            Some(rank) => {
                // Reading the dictionary's length bounds the stored rank
                // below the address width, so the cast below is exact.
                let dict_len = fcsd_len(&self.targets);
                proof {
                    assert(self.f()[path@] < self.d().len());
                    assert(self.d().len() == dict_len);
                }
                let id = rank as usize;
                let bytes = fcsd_get(&self.targets, id);
                let split = split_status_suffix(bytes.as_slice());
                match split.1 {
                    Some(code) => LookupResponse { status_code: code, location: Some(split.0) },
                    None => LookupResponse {
                        status_code: self.default_status_code,
                        location: Some(bytes),
                    },
                }
            },
        }
    }
}

/// Splitting a composite recovers the target and status it was built
/// from: the explicit status when it differs from the default, and the
/// bare target otherwise.
pub proof fn lemma_split_composite(v: EntryV, default: u16)
    requires
        v.to.len() > 0,
        !has_ws(v.to),
        301 <= v.status <= 399,
    ensures
        v.status != default ==> split_composite(composite(v, default)) == (v.to, Some(v.status)),
        v.status == default ==> split_composite(composite(v, default)) == (
            v.to,
            None::<u16>,
        ),
{
    broadcast use vstd::string::is_ascii_spec_bytes;

    let b = composite(v, default);
    assert(vstd::string::is_ascii(" ")) by {
        reveal_strlit(" ");
    }
    assert((" ").spec_bytes() =~= seq![32u8]) by {
        reveal_strlit(" ");
    }
    if v.status != default {
        let dd = dec_digits(v.status as int);
        lemma_dec_digits_three(v.status as int);
        lemma_dec_digits_val(v.status as int);
        assert(b.len() == v.to.len() + 4);
        assert(b[b.len() - 4] == 32);
        assert(b[b.len() - 3] == dd[0] && b[b.len() - 2] == dd[1] && b[b.len() - 1] == dd[2]);
        assert(is_digit(dd[0]) && is_digit(dd[1]) && is_digit(dd[2]));
        assert(b.take(b.len() - 4) =~= v.to);
        // The three digit bytes denote the status.
        let t2 = dd.take(2);
        let t1 = dd.take(1);
        assert(dd.drop_last() =~= t2);
        assert(t2.drop_last() =~= t1);
        assert(t1.drop_last() =~= Seq::<u8>::empty());
        assert(crate::num::digits_val(Seq::<u8>::empty()) == 0);
        assert(crate::num::digits_val(t1) == dd[0] - 48);
        assert(crate::num::digits_val(t2) == (dd[0] - 48) * 10 + (dd[1] - 48));
        assert(crate::num::digits_val(dd) == ((dd[0] - 48) * 10 + (dd[1] - 48)) * 10 + (dd[2]
            - 48));
        assert((dd[0] - 48) * 100 + (dd[1] - 48) * 10 + (dd[2] - 48) == v.status);
    } else {
        assert(b =~= v.to);
        if b.len() > 4 && b[b.len() - 4] == 32 {
            assert(is_ws(v.to[b.len() - 4]));
            assert(has_ws(v.to));
        }
    }
}

/// Looking up any source the map holds, through artifacts that encode the
/// map, answers with exactly that rule's target and status code; any
/// other path is a miss.
pub proof fn lemma_round_trip(
    m: Map<Seq<u8>, EntryV>,
    f: Map<Seq<u8>, u64>,
    d: Seq<Seq<u8>>,
    default: u16,
    path: Seq<u8>,
)
    requires
        m_wf(m),
        artifacts_encode(m, f, d, default),
    ensures
        m.contains_key(path) ==> lookup_spec(f, d, default, path) == (
            m[path].status,
            Some(m[path].to),
        ),
        !m.contains_key(path) ==> lookup_spec(f, d, default, path) == (
            404u16,
            None::<Seq<u8>>,
        ),
{
    if m.contains_key(path) {
        assert(d[f[path] as int] == composite(m[path], default));
        lemma_split_composite(m[path], default);
    }
}

/// Forms the rooted request path for an origin: the origin label and the
/// request path joined as two segments under a leading slash.
pub fn build_request_url(origin: &str, path: &str) -> (r: String)
    ensures
        r@ == ("/")@ + origin@ + ("/")@ + path@,
{
    let mut r = String::new();
    r.append("/");
    r.append(origin);
    r.append("/");
    r.append(path);
    proof {
        assert(r@ =~= ("/")@ + origin@ + ("/")@ + path@);
    }
    r
}

} // verus!
