//! Encoding the final map into its two compiled artifacts: a sorted
//! byte-string index mapping every source path to an integer rank, and a
//! deduplicated, sorted dictionary of target composites addressed by that
//! rank. A composite is the target, with the status code appended when it
//! differs from the configured default.

use vstd::prelude::*;
use vstd::string::StringSliceAdditionalSpecFns;
use vstd::arithmetic::power2::{lemma2_to64, pow2};
use crate::bytes::{bytes_eq, copy_bytes, lemma_lex_trichotomy, lex_lt, push_all};
use crate::fcdict::{
    fcsd_accepts, fcsd_build, fcsd_bytes_strings, fcsd_serialize, is_pow2,
};
use crate::fstmap::{
    fst_builder_finish, fst_builder_insert, fst_builder_new, fst_builder_pairs, fst_bytes_pairs,
    pairs_as_map,
};
use crate::lines::views;
use crate::num::{dec_digits, dec_of};
use crate::output::{lex_le, sort_lines, sorted_lex};
use crate::rules::{ev, keys_of, lemma_l2m, lemma_wf_m, m_wf, EntryV, RedirectsMap};

verus! {

broadcast use vstd::seq_lib::group_to_multiset_ensures;

/// The dictionary composite for one entry: the target, with the status
/// appended after a space when it differs from the default.
pub open spec fn composite(v: EntryV, default: u16) -> Seq<u8> {
    v.to + (if v.status != default {
        (" ").spec_bytes() + dec_digits(v.status as int)
    } else {
        Seq::<u8>::empty()
    })
}

/// What the two artifacts must hold of the map: the index maps exactly
/// the map's sources, each to a rank inside the dictionary where that
/// source's composite is stored; and the dictionary is sorted, without
/// duplicates, holding no string but the composites in use.
pub open spec fn artifacts_encode(
    m: Map<Seq<u8>, EntryV>,
    f: Map<Seq<u8>, u64>,
    d: Seq<Seq<u8>>,
    default: u16,
) -> bool {
    &&& forall|k: Seq<u8>| #[trigger] f.contains_key(k) <==> m.contains_key(k)
    &&& forall|k: Seq<u8>| #[trigger] m.contains_key(k) ==> f[k] < d.len() && d[f[k] as int]
        == composite(m[k], default)
    &&& forall|i: int| 0 <= i < d.len() - 1 ==> lex_lt(#[trigger] d[i], d[i + 1])
    &&& forall|i: int|
        #![trigger d[i]]
        0 <= i < d.len() ==> exists|k: Seq<u8>|
            #![trigger composite(m[k], default)]
            m.contains_key(k) && d[i] == composite(m[k], default)
}

/// Why encoding failed.
#[derive(Debug)]
pub enum EncodeError {
    /// The map holds no rule, so there is no dictionary to build: the
    /// dictionary encoding cannot represent an empty collection.
    EmptyMap,
    /// The dictionary builder refused the target composites; with
    /// validated targets this cannot arise unless one holds a zero byte.
    DictionaryRejected,
}

/// The compiled artifacts: the encoded source index and the encoded
/// target dictionary, correlated only through the shared rank space.
pub struct CompiledArtifacts {
    pub sources: Vec<u8>,
    pub targets: Vec<u8>,
}

/// The composite for one entry.
fn render_composite(e: &crate::rules::MapEntry, default: u16) -> (r: Vec<u8>)
    ensures
        r@ == composite(ev(*e), default),
{
    let mut out: Vec<u8> = Vec::new();
    push_all(&mut out, e.to.as_slice());
    if e.status_code != default {
        push_all(&mut out, " ".as_bytes());
        let digits = dec_of(e.status_code as usize);
        push_all(&mut out, digits.as_slice());
    }
    proof {
        assert(out@ =~= composite(ev(*e), default));
    }
    out
}

/// The index of `x` in `dict`.
fn find_in(dict: &Vec<Vec<u8>>, x: &[u8]) -> (r: usize)
    requires
        views(dict@).contains(x@),
    ensures
        r < dict@.len(),
        views(dict@)[r as int] == x@,
{
    let n: usize = dict.len();
    let mut i: usize = 0;
    while i < n
        invariant
            0 <= i <= n == dict@.len(),
            views(dict@).contains(x@),
            forall|j: int| 0 <= j < i ==> views(dict@)[j] != x@,
        decreases n - i,
    {
        if bytes_eq(dict[i].as_slice(), x) {
            proof {
                assert(views(dict@)[i as int] == x@);
            }
            return i;
        }
        i = i + 1;
    }
    proof {
        let j = choose|j: int| 0 <= j < views(dict@).len() && views(dict@)[j] == x@;
        assert(false);
    }
    0
}

impl RedirectsMap {
    /// Encodes the map into its two artifacts. An empty map is refused,
    /// since the dictionary encoding cannot hold an empty collection;
    /// beyond that, with validated targets the dictionary builder accepts
    /// every composite unless one holds a zero byte, and nothing else can
    /// fail.
    pub fn encode(&self) -> (r: Result<CompiledArtifacts, EncodeError>)
        requires
            self.wf(),
        ensures
            match r {
                Ok(a) => fst_bytes_pairs(a.sources@) is Some && fcsd_bytes_strings(a.targets@)
                    is Some && artifacts_encode(
                    self.m(),
                    fst_bytes_pairs(a.sources@).unwrap(),
                    fcsd_bytes_strings(a.targets@).unwrap(),
                    self.default_status_code,
                ),
                Err(e) => match e {
                    EncodeError::EmptyMap => self.entries@.len() == 0,
                    EncodeError::DictionaryRejected => exists|k: Seq<u8>, j: int|
                        #![trigger composite(self.m()[k], self.default_status_code)[j]]
                        self.m().contains_key(k) && 0 <= j < composite(
                            self.m()[k],
                            self.default_status_code,
                        ).len() && composite(self.m()[k], self.default_status_code)[j] == 0,
                },
            },
    {
        let ghost m = self.m();
        let default = self.default_status_code;
        proof {
            lemma_l2m(self.entries@);
            lemma_wf_m(*self);
        }
        // Every composite in use, in entry order.
        let n: usize = self.entries.len();
        if n == 0 {
            return Err(EncodeError::EmptyMap);
        }
        let mut comps: Vec<Vec<u8>> = Vec::new();
        let mut i: usize = 0;
        while i < n
            invariant
                self.wf(),
                m == self.m(),
                default == self.default_status_code,
                n == self.entries@.len(),
                0 <= i <= n,
                views(comps@) == self.entries@.take(i as int).map_values(
                    |p: (Vec<u8>, crate::rules::MapEntry)| composite(ev(p.1), default),
                ),
            decreases n - i,
        {
            let c = render_composite(&self.entries[i].1, default);
            let ghost pre = views(comps@);
            comps.push(c);
            proof {
                assert(views(comps@) =~= pre.push(composite(ev(self.entries@[i as int].1), default)));
                assert(views(comps@) =~= self.entries@.take(i + 1).map_values(
                    |p: (Vec<u8>, crate::rules::MapEntry)| composite(ev(p.1), default),
                ));
            }
            i = i + 1;
        }
        let ghost comps_v = views(comps@);
        proof {
            assert(self.entries@.take(n as int) =~= self.entries@);
            lemma_l2m(self.entries@);
            // Each collected composite is a composite of the map, and each
            // of the map's composites is collected.
            assert forall|t: int| #![trigger comps_v[t]] 0 <= t < comps_v.len() implies exists|
                k: Seq<u8>,
            |
                #![trigger composite(m[k], default)]
                m.contains_key(k) && comps_v[t] == composite(m[k], default) by {
                let k = self.entries@[t].0@;
                assert(keys_of(self.entries@)[t] == k);
                assert(keys_of(self.entries@).contains(k));
                assert(crate::rules::list_to_map(self.entries@)[self.entries@[t].0@] == ev(
                    self.entries@[t].1,
                ));
                assert(comps_v[t] == composite(ev(self.entries@[t].1), default));
            }
        }
        let sorted_comps = sort_lines(comps);
        // Deduplicate the sorted composites into the dictionary.
        let ghost csv = views(sorted_comps@);
        let mut dict: Vec<Vec<u8>> = Vec::new();
        let cn: usize = sorted_comps.len();
        let mut t: usize = 0;
        while t < cn
            invariant
                0 <= t <= cn == sorted_comps@.len(),
                csv == views(sorted_comps@),
                sorted_lex(csv),
                forall|a: int, b: int|
                    0 <= a < b < views(dict@).len() ==> lex_lt(
                        #[trigger] views(dict@)[a],
                        #[trigger] views(dict@)[b],
                    ),
                forall|a: int| 0 <= a < views(dict@).len() ==> csv.take(t as int).contains(
                    #[trigger] views(dict@)[a],
                ),
                forall|a: int| 0 <= a < t ==> views(dict@).contains(#[trigger] csv[a]),
                t > 0 && views(dict@).len() > 0 ==> views(dict@).last() == csv[t - 1],
                t > 0 ==> views(dict@).len() > 0,
            decreases cn - t,
        {
            let keep = if dict.len() == 0 {
                true
            } else {
                !bytes_eq(dict[dict.len() - 1].as_slice(), sorted_comps[t].as_slice())
            };
            let ghost pre = views(dict@);
            if keep {
                dict.push(copy_bytes(sorted_comps[t].as_slice()));
                proof {
                    assert(views(dict@) =~= pre.push(csv[t as int]));
                    assert forall|a: int, b: int|
                        0 <= a < b < views(dict@).len() implies lex_lt(
                        #[trigger] views(dict@)[a],
                        #[trigger] views(dict@)[b],
                    ) by {
                        if b == views(dict@).len() - 1 && t > 0 && pre.len() > 0 {
                            // The new last differs from the old last and is
                            // not below it in the sorted input.
                            let prev = pre.last();
                            let cur = csv[t as int];
                            let x = choose|x: int|
                                0 <= x < csv.take(t as int).len() && csv.take(t as int)[x]
                                    == prev;
                            assert(lex_le(csv[x], csv[t as int]));
                            lemma_lex_trichotomy(prev, cur);
                            assert(lex_lt(prev, cur));
                            if a < pre.len() - 1 {
                                assert(lex_lt(pre[a], prev));
                                crate::bytes::lemma_lex_trans(pre[a], prev, cur);
                            }
                        }
                    }
                }
            } else {
                proof {
                    assert(views(dict@).last() == csv[t - 1]);
                    assert(csv[t as int] == csv[t - 1]);
                    assert(views(dict@).contains(csv[t as int]));
                }
            }
            proof {
                assert forall|a: int| 0 <= a < views(dict@).len() implies csv.take(
                    t + 1,
                ).contains(#[trigger] views(dict@)[a]) by {
                    if a < pre.len() {
                        let x = choose|x: int|
                            0 <= x < csv.take(t as int).len() && csv.take(t as int)[x]
                                == pre[a];
                        assert(csv.take(t + 1)[x] == pre[a]);
                    } else {
                        assert(csv.take(t + 1)[t as int] == views(dict@)[a]);
                    }
                }
                assert forall|a: int| 0 <= a < t + 1 implies views(dict@).contains(
                    #[trigger] csv[a],
                ) by {
                    if a < t {
                        let x = choose|x: int| 0 <= x < pre.len() && pre[x] == csv[a];
                        assert(views(dict@)[x] == csv[a]);
                    } else {
                        if keep {
                            assert(views(dict@).last() == csv[t as int]);
                        }
                    }
                }
            }
            t = t + 1;
        }
        proof {
            assert(csv.take(cn as int) =~= csv);
        }
        // The dictionary is what the fcsd builder accepts, save for zero
        // bytes, which validation cannot rule out.
        proof {
            lemma2_to64();
            assert(is_pow2(128)) by {
                assert(pow2(7) == 128);
            }
            assert forall|a: int| 0 <= a < views(dict@).len() implies (
            #[trigger] views(dict@)[a]).len() > 0 by {
                assert(csv.contains(views(dict@)[a]));
                let x = choose|x: int| 0 <= x < csv.len() && csv[x] == views(dict@)[a];
                assert(csv.to_multiset().contains(csv[x]));
                assert(comps_v.to_multiset().contains(csv[x]));
                assert(comps_v.contains(csv[x]));
                let y = choose|y: int| 0 <= y < comps_v.len() && comps_v[y] == csv[x];
                let k = self.entries@[y].0@;
                assert(keys_of(self.entries@)[y] == k);
                assert(keys_of(self.entries@).contains(k));
                assert(crate::rules::list_to_map(self.entries@)[self.entries@[y].0@] == ev(
                    self.entries@[y].1,
                ));
                assert(m[k].to.len() > 0);
            }
        }
        proof {
            // At least one composite was collected, so the dictionary kept
            // at least its first string.
            assert(csv.len() == csv.to_multiset().len());
            assert(comps_v.len() == comps_v.to_multiset().len());
            assert(csv.len() == n);
            assert(views(dict@).len() > 0);
        }
        let set = match fcsd_build(&dict, 128) {
            Some(s) => s,
            None => {
                proof {
                    // Strict order, nonemptiness and the bucket size all
                    // hold, so a zero byte is what the builder found.
                    let dvv = views(dict@);
                    assert(!fcsd_accepts(dvv));
                    let (di, dj) = choose|di: int, dj: int|
                        0 <= di < dvv.len() && 0 <= dj < dvv[di].len() && #[trigger] dvv[di][dj]
                            == 0;
                    assert(csv.contains(dvv[di]));
                    let x = choose|x: int| 0 <= x < csv.len() && csv[x] == dvv[di];
                    assert(csv.to_multiset().contains(csv[x]));
                    assert(comps_v.to_multiset().contains(csv[x]));
                    assert(comps_v.contains(csv[x]));
                    let y = choose|y: int| 0 <= y < comps_v.len() && comps_v[y] == csv[x];
                    let k = self.entries@[y].0@;
                    assert(keys_of(self.entries@)[y] == k);
                    assert(keys_of(self.entries@).contains(k));
                    assert(crate::rules::list_to_map(self.entries@)[self.entries@[y].0@] == ev(
                        self.entries@[y].1,
                    ));
                    assert(comps_v[y] == composite(m[k], default));
                    assert(composite(m[k], default)[dj] == 0);
                    assert(m.contains_key(k));
                }
                return Err(EncodeError::DictionaryRejected);
            },
        };
        let targets_bytes = match fcsd_serialize(&set) {
            Some(b) => b,
            None => {
                proof {
                    assert(false);
                }
                return Err(EncodeError::DictionaryRejected);
            },
        };
        // Rank every source's composite and feed the index in key order.
        let mut key_list: Vec<Vec<u8>> = Vec::new();
        let mut q: usize = 0;
        while q < n
            invariant
                self.wf(),
                n == self.entries@.len(),
                0 <= q <= n,
                views(key_list@) == keys_of(self.entries@).take(q as int),
            decreases n - q,
        {
            let ghost pre = views(key_list@);
            key_list.push(copy_bytes(self.entries[q].0.as_slice()));
            proof {
                assert(views(key_list@) =~= pre.push(keys_of(self.entries@)[q as int]));
                assert(views(key_list@) =~= keys_of(self.entries@).take(q + 1));
            }
            q = q + 1;
        }
        proof {
            assert(keys_of(self.entries@).take(n as int) =~= keys_of(self.entries@));
        }
        let sorted_keys = sort_lines(key_list);
        let ghost sk = views(sorted_keys@);
        proof {
            let ks = keys_of(self.entries@);
            // Sorted keys hold exactly the map's keys, each once, in
            // strictly increasing order.
            assert(ks.no_duplicates());
            ks.lemma_multiset_has_no_duplicates();
            assert forall|x: Seq<u8>| sk.contains(x) == ks.contains(x) by {
                assert(sk.to_multiset().contains(x) == ks.to_multiset().contains(x));
            }
            assert forall|x: int, y: int| 0 <= x < y < sk.len() implies sk[x] != sk[y] by {
                if sk[x] == sk[y] {
                    assert(sk.remove(x).to_multiset() =~= sk.to_multiset().remove(sk[x]));
                    assert(sk.remove(x)[y - 1] == sk[y]);
                    assert(sk.remove(x).contains(sk[y]));
                    assert(sk.remove(x).to_multiset().contains(sk[y]));
                    assert(sk.to_multiset().count(sk[x]) >= 2);
                    assert(ks.to_multiset().contains(sk[x]));
                    assert(ks.contains(sk[x]));
                    assert(ks.to_multiset().count(sk[x]) == 1);
                }
            }
            lemma_l2m(self.entries@);
        }
        let ghost dv = views(dict@);
        proof {
            assert forall|x: Seq<u8>| #[trigger] m.contains_key(x) implies dv.contains(
                composite(m[x], default),
            ) by {
                assert(keys_of(self.entries@).contains(x));
                let y = choose|y: int|
                    0 <= y < keys_of(self.entries@).len() && keys_of(self.entries@)[y] == x;
                assert(crate::rules::list_to_map(self.entries@)[self.entries@[y].0@] == ev(
                    self.entries@[y].1,
                ));
                assert(comps_v[y] == composite(m[x], default));
                assert(comps_v.contains(composite(m[x], default)));
                assert(comps_v.to_multiset().contains(composite(m[x], default)));
                assert(csv.to_multiset().contains(composite(m[x], default)));
                assert(csv.contains(composite(m[x], default)));
                let z = choose|z: int|
                    0 <= z < csv.len() && csv[z] == composite(m[x], default);
                assert(views(dict@).contains(csv[z]));
            }
        }
        let kn: usize = sorted_keys.len();
        let mut b = fst_builder_new();
        let mut t2: usize = 0;
        while t2 < kn
            invariant
                self.wf(),
                m == self.m(),
                m_wf(m),
                default == self.default_status_code,
                kn == sk.len(),
                sk == views(sorted_keys@),
                dv == views(dict@),
                0 <= t2 <= kn,
                forall|x: int, y: int| 0 <= x < y < sk.len() ==> lex_le(
                    #[trigger] sk[x],
                    #[trigger] sk[y],
                ),
                forall|x: int, y: int| 0 <= x < y < sk.len() ==> sk[x] != sk[y],
                forall|x: Seq<u8>| #[trigger] sk.contains(x) == m.contains_key(x),
                forall|x: Seq<u8>| #[trigger] m.contains_key(x) ==> dv.contains(
                    composite(m[x], default),
                ),
                fst_builder_pairs(b).len() == t2,
                forall|x: int| 0 <= x < t2 ==> (#[trigger] fst_builder_pairs(b)[x]).0 == sk[x],
                forall|x: int|
                    0 <= x < t2 ==> (#[trigger] fst_builder_pairs(b)[x]).1 < dv.len() && dv[fst_builder_pairs(
                        b,
                    )[x].1 as int] == composite(m[sk[x]], default),
            decreases kn - t2,
        {
            let key = &sorted_keys[t2];
            proof {
                assert(sk[t2 as int] == key@);
                assert(sk.contains(key@));
            }
            let entry = match self.get(key.as_slice()) {
                Some(e) => e,
                None => {
                    proof {
                        assert(false);
                    }
                    return Err(EncodeError::DictionaryRejected);
                },
            };
            let c = render_composite(entry, default);
            proof {
                assert(c@ == composite(m[key@], default));
                assert(dv.contains(c@));
            }
            let rank = find_in(&dict, c.as_slice());
            let ghost pre_pairs = fst_builder_pairs(b);
            let ok = fst_builder_insert(&mut b, key.as_slice(), rank as u64);
            proof {
                if t2 > 0 {
                    assert(pre_pairs.last().0 == sk[t2 - 1]);
                    assert(lex_le(sk[t2 - 1], sk[t2 as int]));
                    assert(sk[t2 - 1] != sk[t2 as int]);
                    lemma_lex_trichotomy(sk[t2 - 1], sk[t2 as int]);
                    assert(lex_lt(sk[t2 - 1], sk[t2 as int]));
                }
                assert(ok);
                assert(fst_builder_pairs(b) =~= pre_pairs.push((key@, rank as u64)));
            }
            if !ok {
                return Err(EncodeError::DictionaryRejected);
            }
            t2 = t2 + 1;
        }
        let ghost final_pairs = fst_builder_pairs(b);
        let sources_bytes = match fst_builder_finish(b) {
            Some(v) => v,
            None => {
                proof {
                    assert(false);
                }
                return Err(EncodeError::DictionaryRejected);
            },
        };
        proof {
            let f = pairs_as_map(final_pairs);
            lemma_pam(final_pairs);
            assert forall|k: Seq<u8>| #[trigger] f.contains_key(k) == m.contains_key(k) by {
                if f.contains_key(k) {
                    let x = choose|x: int|
                        0 <= x < final_pairs.len() && #[trigger] final_pairs[x].0 == k;
                    assert(sk.contains(sk[x]));
                } else {
                    if m.contains_key(k) {
                        let x = choose|x: int| 0 <= x < sk.len() && sk[x] == k;
                        assert(final_pairs[x].0 == k);
                        assert(false);
                    }
                }
            }
            assert forall|k: Seq<u8>| #[trigger] m.contains_key(k) implies f[k] < dv.len()
                && dv[f[k] as int] == composite(m[k], default) by {
                let x = choose|x: int| 0 <= x < sk.len() && sk[x] == k;
                assert(final_pairs[x].0 == k);
                assert(f[k] == final_pairs[x].1);
            }
            assert forall|a: int| 0 <= a < dv.len() - 1 implies lex_lt(
                #[trigger] dv[a],
                dv[a + 1],
            ) by {}
            assert forall|a: int| #![trigger dv[a]] 0 <= a < dv.len() implies exists|
                k: Seq<u8>,
            |
                #![trigger composite(m[k], default)]
                m.contains_key(k) && dv[a] == composite(m[k], default) by {
                assert(csv.contains(dv[a]));
                let x = choose|x: int| 0 <= x < csv.len() && csv[x] == dv[a];
                assert(csv.to_multiset().contains(csv[x]));
                assert(comps_v.to_multiset().contains(csv[x]));
                assert(comps_v.contains(csv[x]));
                let y = choose|y: int| 0 <= y < comps_v.len() && comps_v[y] == csv[x];
                let k = self.entries@[y].0@;
                assert(keys_of(self.entries@)[y] == k);
                assert(keys_of(self.entries@).contains(k));
                assert(crate::rules::list_to_map(self.entries@)[self.entries@[y].0@] == ev(
                    self.entries@[y].1,
                ));
                assert(comps_v[y] == composite(ev(self.entries@[y].1), default));
            }
            assert(artifacts_encode(m, f, dv, default));
        }
        Ok(CompiledArtifacts { sources: sources_bytes, targets: targets_bytes })
    }
}

/// With distinct keys, a pair list's map holds exactly the listed pairs.
proof fn lemma_pam(ps: Seq<(Seq<u8>, u64)>)
    requires
        forall|x: int, y: int| 0 <= x < y < ps.len() ==> (#[trigger] ps[x]).0 != (
        #[trigger] ps[y]).0,
    ensures
        forall|k: Seq<u8>| #[trigger] pairs_as_map(ps).contains_key(k) ==> exists|x: int|
            0 <= x < ps.len() && (#[trigger] ps[x]).0 == k,
        forall|x: int|
            0 <= x < ps.len() ==> pairs_as_map(ps).contains_key((#[trigger] ps[x]).0)
                && pairs_as_map(ps)[ps[x].0] == ps[x].1,
    decreases ps.len(),
{
    if ps.len() > 0 {
        let d = ps.drop_last();
        lemma_pam(d);
        assert(forall|x: int| 0 <= x < d.len() ==> #[trigger] d[x] == ps[x]);
        assert forall|k: Seq<u8>| #[trigger] pairs_as_map(ps).contains_key(k) implies exists|
            x: int,
        |
            0 <= x < ps.len() && (#[trigger] ps[x]).0 == k by {
            if k == ps.last().0 {
                assert(ps[ps.len() - 1].0 == k);
            } else {
                assert(pairs_as_map(d).contains_key(k));
                let x = choose|x: int| 0 <= x < d.len() && (#[trigger] d[x]).0 == k;
                assert(ps[x].0 == k);
            }
        }
        assert forall|x: int|
            0 <= x < ps.len() implies pairs_as_map(ps).contains_key((#[trigger] ps[x]).0)
            && pairs_as_map(ps)[ps[x].0] == ps[x].1 by {
            if x < ps.len() - 1 {
                assert(pairs_as_map(d).contains_key(d[x].0));
                assert(ps[x].0 != ps[ps.len() - 1].0);
            }
        }
    }
}

} // verus!
