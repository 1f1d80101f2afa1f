//! Chain shortening: once the graph is known to be free of cycles, every
//! source is rewritten to point directly at the destination its chain
//! reaches, following edges only while the status code stays the same and
//! stopping at a terminal target or a status boundary.

use vstd::prelude::*;
use crate::bytes::copy_bytes;
use crate::loops::{has_cycle, is_cycle, lemma_distinct_le_card};
use crate::rules::{
    ev, keys_of, lemma_l2m, lemma_l2m_len, lemma_wf_m, m_wf, wf_pair, EntryV, MapEntry,
    RedirectsMap,
};

verus! {

/// Whether the chain may move on from `k`: its target is itself a source,
/// with the same status code.
pub open spec fn can_step(m: Map<Seq<u8>, EntryV>, k: Seq<u8>) -> bool {
    m.contains_key(m[k].to) && m[m[k].to].status == m[k].status
}

/// The entry the chain from `k` ends at, within `fuel` steps.
pub open spec fn chase(m: Map<Seq<u8>, EntryV>, k: Seq<u8>, fuel: nat) -> EntryV
    decreases fuel,
{
    if fuel > 0 && can_step(m, k) {
        chase(m, m[k].to, (fuel - 1) as nat)
    } else {
        m[k]
    }
}

/// How many steps that chain takes, within `fuel`.
pub open spec fn chase_len(m: Map<Seq<u8>, EntryV>, k: Seq<u8>, fuel: nat) -> nat
    decreases fuel,
{
    if fuel > 0 && can_step(m, k) {
        1 + chase_len(m, m[k].to, (fuel - 1) as nat)
    } else {
        0
    }
}

/// The destination entry of the chain from `k`: the whole domain is fuel
/// enough, since an acyclic chain never revisits a node.
pub open spec fn dest(m: Map<Seq<u8>, EntryV>, k: Seq<u8>) -> EntryV {
    chase(m, k, m.dom().len())
}

/// Whether every chain already stops after its first edge: each target is
/// terminal or changes status. Such a map is what shortening produces,
/// and shortening leaves it unchanged.
pub open spec fn shortened(m: Map<Seq<u8>, EntryV>) -> bool {
    forall|k: Seq<u8>| #[trigger] m.contains_key(k) ==> !can_step(m, k)
}

/// In a map whose chains all stop at once, every destination is the entry
/// itself: shortening a second time changes nothing.
pub proof fn lemma_shorten_idempotent(m: Map<Seq<u8>, EntryV>, k: Seq<u8>)
    requires
        shortened(m),
        m.contains_key(k),
    ensures
        dest(m, k) == m[k],
        chase_len(m, k, m.dom().len()) == 0,
{
}

/// Maps that agree on their sources and on every rule's target and status
/// agree on having cycles and on being shortened: both notions read
/// nothing else. Reparsing written output reproduces exactly those
/// fields, so the reproduced map behaves the same under both passes.
pub proof fn lemma_same_rules_same_graph(m1: Map<Seq<u8>, EntryV>, m2: Map<Seq<u8>, EntryV>)
    requires
        forall|k: Seq<u8>| #[trigger] m1.contains_key(k) == m2.contains_key(k),
        forall|k: Seq<u8>| #[trigger] m1.contains_key(k) ==> m1[k].to == m2[k].to && m1[k].status
            == m2[k].status,
    ensures
        has_cycle(m1) == has_cycle(m2),
        shortened(m1) == shortened(m2),
{
    if has_cycle(m1) {
        let s = choose|s: Seq<Seq<u8>>| is_cycle(m1, s);
        assert forall|i: int| 0 <= i < s.len() implies m2.contains_key(#[trigger] s[i])
            && m2[s[i]].to == (if i + 1 < s.len() {
            s[i + 1]
        } else {
            s[0]
        }) by {
            assert(m1.contains_key(s[i]));
        }
        assert(is_cycle(m2, s));
    }
    if has_cycle(m2) {
        let s = choose|s: Seq<Seq<u8>>| is_cycle(m2, s);
        assert forall|i: int| 0 <= i < s.len() implies m1.contains_key(#[trigger] s[i])
            && m1[s[i]].to == (if i + 1 < s.len() {
            s[i + 1]
        } else {
            s[0]
        }) by {
            assert(m2.contains_key(s[i]));
            assert(m1.contains_key(s[i]));
        }
        assert(is_cycle(m1, s));
    }
    assert forall|k: Seq<u8>| #[trigger] m1.contains_key(k) implies can_step(m1, k) == can_step(
        m2,
        k,
    ) by {
        let t = m1[k].to;
        assert(m2[k].to == t);
        if m1.contains_key(t) {
            assert(m1[t].status == m2[t].status);
        }
    }
    if shortened(m1) && !shortened(m2) {
        let k = choose|k: Seq<u8>| #[trigger] m2.contains_key(k) && can_step(m2, k);
        assert(m1.contains_key(k));
        assert(can_step(m1, k));
    }
    if shortened(m2) && !shortened(m1) {
        let k = choose|k: Seq<u8>| #[trigger] m1.contains_key(k) && can_step(m1, k);
        assert(m1.contains_key(k));
        assert(can_step(m2, k));
        assert(m2.contains_key(k));
    }
}

/// A chase keeps the status code of its starting entry.
pub proof fn lemma_chase_status(m: Map<Seq<u8>, EntryV>, k: Seq<u8>, fuel: nat)
    ensures
        chase(m, k, fuel).status == m[k].status,
    decreases fuel,
{
    if fuel > 0 && can_step(m, k) {
        lemma_chase_status(m, m[k].to, (fuel - 1) as nat);
    }
}

/// A walk whose last edge returns to a visited node closes a cycle.
proof fn lemma_repeat_closes_cycle(m: Map<Seq<u8>, EntryV>, vk: Seq<Seq<u8>>, nxt: Seq<u8>)
    requires
        vk.len() > 0,
        forall|t: int| 0 <= t < vk.len() ==> m.contains_key(#[trigger] vk[t]),
        forall|t: int| 0 <= t < vk.len() - 1 ==> m[#[trigger] vk[t]].to == vk[t + 1],
        m[vk[vk.len() - 1]].to == nxt,
        vk.contains(nxt),
    ensures
        has_cycle(m),
{
    let j = choose|j: int| 0 <= j < vk.len() && vk[j] == nxt;
    let s = vk.subrange(j, vk.len() as int);
    assert forall|i: int|
        0 <= i < s.len() implies m.contains_key(#[trigger] s[i]) && m[s[i]].to == (if i + 1
        < s.len() {
        s[i + 1]
    } else {
        s[0]
    }) by {
        assert(s[i] == vk[j + i]);
        if i + 1 < s.len() {
            assert(s[i + 1] == vk[j + i + 1]);
        } else {
            assert(s[0] == vk[j]);
        }
    }
    assert(is_cycle(m, s));
}

/// Whether the chain from `v.to` cannot be followed with `v`'s status:
/// where every destination entry sits.
pub open spec fn at_boundary(m: Map<Seq<u8>, EntryV>, v: EntryV) -> bool {
    !(m.contains_key(v.to) && m[v.to].status == v.status)
}

/// Count of the listed keys whose chains take at least one step.
pub open spec fn n_shortened(m: Map<Seq<u8>, EntryV>, ks: Seq<Seq<u8>>, i: int) -> int
    decreases ks.len() - i,
{
    if i < 0 || i >= ks.len() {
        0
    } else {
        (if chase_len(m, ks[i], m.dom().len()) > 0 {
            1int
        } else {
            0int
        }) + n_shortened(m, ks, i + 1)
    }
}

/// Total node count of those chains, one more than each step count.
pub open spec fn depth_sum(m: Map<Seq<u8>, EntryV>, ks: Seq<Seq<u8>>, i: int) -> int
    decreases ks.len() - i,
{
    if i < 0 || i >= ks.len() {
        0
    } else {
        (if chase_len(m, ks[i], m.dom().len()) > 0 {
            chase_len(m, ks[i], m.dom().len()) + 1int
        } else {
            0int
        }) + depth_sum(m, ks, i + 1)
    }
}

/// Shortening statistics: how many chains were collapsed, and the total
/// node count of the collapsed chains, measured over the map as it stood
/// when the pass began.
pub struct ShortenStats {
    pub chains: usize,
    pub total_depth: u128,
}

impl RedirectsMap {
    /// Rewrites every rule to point at its chain's destination. Requires
    /// the graph free of cycles; the walk would not otherwise terminate.
    #[verifier::rlimit(60)]
    pub fn shorten_chains(&mut self) -> (r: ShortenStats)
        requires
            old(self).wf(),
            !has_cycle(old(self).m()),
        ensures
            final(self).wf(),
            final(self).default_status_code == old(self).default_status_code,
            final(self).parse_errors == old(self).parse_errors,
            keys_of(final(self).entries@) == keys_of(old(self).entries@),
            forall|k: Seq<u8>|
                final(self).m().contains_key(k) == old(self).m().contains_key(k),
            forall|k: Seq<u8>| #[trigger] old(self).m().contains_key(k) ==> final(self).m()[k]
                == dest(old(self).m(), k),
            forall|k: Seq<u8>| #[trigger] old(self).m().contains_key(k) ==> final(self).m()[k].status
                == old(self).m()[k].status,
            shortened(final(self).m()),
            forall|k: Seq<u8>| #[trigger] final(self).m().contains_key(k) ==> final(self).m()[k].to
                != k,
            r.chains == n_shortened(old(self).m(), keys_of(old(self).entries@), 0),
            r.total_depth == depth_sum(old(self).m(), keys_of(old(self).entries@), 0),
    {
        let ghost m = old(self).m();
        let ghost oks = keys_of(old(self).entries@);
        let ghost fuel = m.dom().len();
        proof {
            lemma_l2m(self.entries@);
            lemma_l2m_len(self.entries@);
            lemma_wf_m(*self);
        }
        let n: usize = self.entries.len();
        let mut new_entries: Vec<(Vec<u8>, MapEntry)> = Vec::new();
        let mut chains: usize = 0;
        let mut depth_total: u128 = 0;
        let mut idx: usize = 0;
        while idx < n
            invariant
                self == old(self),
                self.wf(),
                m == self.m(),
                m_wf(m),
                !has_cycle(m),
                m.dom().finite(),
                fuel == m.dom().len(),
                fuel == n,
                oks == keys_of(self.entries@),
                n == self.entries@.len(),
                0 <= idx <= n,
                new_entries@.len() == idx,
                forall|i: int| 0 <= i < idx ==> #[trigger] new_entries@[i].0@ == oks[i],
                forall|i: int|
                    0 <= i < idx ==> ev(#[trigger] new_entries@[i].1) == dest(m, oks[i]),
                forall|i: int| 0 <= i < idx ==> wf_pair(#[trigger] new_entries@[i]),
                forall|i: int| 0 <= i < idx ==> at_boundary(m, dest(m, #[trigger] oks[i])),
                forall|i: int| 0 <= i < idx ==> dest(m, #[trigger] oks[i]).to != oks[i],
                chains + n_shortened(m, oks, idx as int) == n_shortened(m, oks, 0),
                chains <= idx,
                depth_total + depth_sum(m, oks, idx as int) == depth_sum(m, oks, 0),
                depth_total <= (idx as u128) * ((n as u128) + 1),
            decreases n - idx,
        {
            let ghost k0 = oks[idx as int];
            proof {
                lemma_l2m(self.entries@);
                assert(m.contains_key(k0));
                assert(m[k0] == ev(self.entries@[idx as int].1));
            }
            let mut cur_to = copy_bytes(self.entries[idx].1.to.as_slice());
            let mut cur_status = self.entries[idx].1.status_code;
            let mut cur_origin = copy_bytes(self.entries[idx].1.origin.as_slice());
            let mut cur_line = self.entries[idx].1.line_no;
            let mut depth: usize = 1;
            let ghost mut vk: Seq<Seq<u8>> = seq![k0];
            let ghost mut curk = k0;
            loop
                invariant_except_break
                    self.wf(),
                    m == self.m(),
                    m_wf(m),
                    !has_cycle(m),
                    m.dom().finite(),
                    fuel == m.dom().len(),
                    fuel <= usize::MAX,
                    m.contains_key(k0),
                    m.contains_key(curk),
                    vk.len() > 0,
                    vk[0] == k0,
                    vk[vk.len() - 1] == curk,
                    forall|i: int, j: int| 0 <= i < j < vk.len() ==> vk[i] != vk[j],
                    forall|t: int| 0 <= t < vk.len() ==> m.contains_key(#[trigger] vk[t]),
                    forall|t: int| 0 <= t < vk.len() - 1 ==> m[#[trigger] vk[t]].to == vk[t + 1],
                    m[curk].status == m[k0].status,
                    depth == vk.len(),
                    depth <= fuel,
                    cur_to@ == m[curk].to,
                    cur_status == m[curk].status,
                    cur_origin@ == m[curk].origin,
                    cur_line as int == m[curk].line_no,
                    chase(m, k0, fuel) == chase(m, curk, (fuel - (depth - 1)) as nat),
                    chase_len(m, k0, fuel) == (depth - 1) + chase_len(
                        m,
                        curk,
                        (fuel - (depth - 1)) as nat,
                    ),
                ensures
                    m == self.m(),
                    m.contains_key(curk),
                    cur_to@ == m[curk].to,
                    cur_status == m[curk].status,
                    cur_origin@ == m[curk].origin,
                    cur_line as int == m[curk].line_no,
                    m[curk] == dest(m, k0),
                    !can_step(m, curk),
                    m[curk].status == m[k0].status,
                    1 <= depth <= fuel,
                    depth == 1 + chase_len(m, k0, fuel),
                decreases fuel - depth,
            {
                let next = self.get(cur_to.as_slice());
                match next {
                    None => {
                        proof {
                            assert(!can_step(m, curk));
                            assert(chase(m, curk, (fuel - (depth - 1)) as nat) == m[curk]);
                            assert(chase_len(m, curk, (fuel - (depth - 1)) as nat) == 0);
                        }
                        break ;
                    },
                    Some(e) => {
                        if e.status_code != cur_status {
                            proof {
                                assert(!can_step(m, curk));
                                assert(chase(m, curk, (fuel - (depth - 1)) as nat) == m[curk]);
                                assert(chase_len(m, curk, (fuel - (depth - 1)) as nat) == 0);
                            }
                            break ;
                        }
                        // The next node cannot be on the walk already: that
                        // would close a cycle.
                        proof {
                            if vk.contains(cur_to@) {
                                lemma_repeat_closes_cycle(m, vk, cur_to@);
                            }
                            assert(!vk.contains(cur_to@));
                            assert(vk.len() < fuel) by {
                                assert forall|i: int, j: int|
                                    0 <= i < j < vk.push(cur_to@).len() implies vk.push(cur_to@)[i]
                                    != vk.push(cur_to@)[j] by {
                                    if j < vk.len() {
                                        assert(vk.push(cur_to@)[i] == vk[i]);
                                        assert(vk.push(cur_to@)[j] == vk[j]);
                                    } else {
                                        assert(vk.push(cur_to@)[j] == cur_to@);
                                        assert(vk.push(cur_to@)[i] == vk[i]);
                                        assert(vk.contains(vk[i]));
                                    }
                                }
                                lemma_distinct_le_card(vk.push(cur_to@), m.dom());
                            }
                            assert(can_step(m, curk));
                            assert(chase(m, curk, (fuel - (depth - 1)) as nat) == chase(
                                m,
                                m[curk].to,
                                (fuel - depth) as nat,
                            ));
                            assert(chase_len(m, curk, (fuel - (depth - 1)) as nat) == 1
                                + chase_len(m, m[curk].to, (fuel - depth) as nat));
                        }
                        proof {
                            curk = cur_to@;
                            vk = vk.push(curk);
                        }
                        let stepped_to = copy_bytes(e.to.as_slice());
                        let stepped_origin = copy_bytes(e.origin.as_slice());
                        let stepped_line = e.line_no;
                        let stepped_status = e.status_code;
                        cur_to = stepped_to;
                        cur_status = stepped_status;
                        cur_origin = stepped_origin;
                        cur_line = stepped_line;
                        depth = depth + 1;
                    },
                }
            }
            let key_copy = copy_bytes(self.entries[idx].0.as_slice());
            let entry = MapEntry {
                to: cur_to,
                status_code: cur_status,
                origin: cur_origin,
                line_no: cur_line,
            };
            proof {
                assert(ev(entry) == m[curk]);
                assert(ev(entry) == dest(m, k0));
                assert(at_boundary(m, dest(m, k0)));
                assert(wf_pair((key_copy, entry))) by {
                    assert(wf_pair(self.entries@[idx as int]));
                }
                // The destination cannot point back at the source: the
                // walk would then have another same-status step to take.
                assert(dest(m, k0).to != k0) by {
                    if dest(m, k0).to == k0 {
                        assert(m.contains_key(m[curk].to));
                        assert(m[m[curk].to].status == m[curk].status);
                        assert(can_step(m, curk));
                    }
                }
            }
            new_entries.push((key_copy, entry));
            proof {
                let ni = n as u128;
                let ii = idx as u128;
                assert(ii * (ni + 1) + (ni + 1) == (ii + 1) * (ni + 1)) by (nonlinear_arith);
                assert((ii + 1) * (ni + 1) <= ni * (ni + 1)) by (nonlinear_arith)
                    requires
                        ii + 1 <= ni,
                ;
                assert(ni * (ni + 1) < u128::MAX) by (nonlinear_arith)
                    requires
                        ni <= 0xFFFF_FFFF_FFFF_FFFFu128,
                ;
            }
            if depth > 1 {
                chains = chains + 1;
                proof {
                    assert(chase_len(m, oks[idx as int], fuel) == depth - 1);
                }
                depth_total = depth_total + (depth as u128);
            } else {
                proof {
                    assert(chase_len(m, oks[idx as int], fuel) == 0);
                }
            }
            idx = idx + 1;
        }
        self.entries = new_entries;
        let stats = ShortenStats { chains, total_depth: depth_total };
        proof {
            assert(keys_of(self.entries@) =~= oks);
            assert forall|a: int, b: int|
                0 <= a < b < self.entries@.len() implies keys_of(self.entries@)[a] != keys_of(
                self.entries@,
            )[b] by {
                assert(keys_of(self.entries@)[a] == oks[a]);
                assert(keys_of(self.entries@)[b] == oks[b]);
                assert(keys_of(old(self).entries@)[a] != keys_of(old(self).entries@)[b]);
            }
            lemma_l2m(self.entries@);
            lemma_l2m(old(self).entries@);
            assert forall|k: Seq<u8>|
                self.m().contains_key(k) == old(self).m().contains_key(k) by {
                assert(self.m().contains_key(k) == keys_of(self.entries@).contains(k));
                assert(old(self).m().contains_key(k) == keys_of(old(self).entries@).contains(k));
            }
            assert forall|k: Seq<u8>| #[trigger] old(self).m().contains_key(k) implies self.m()[k]
                == dest(m, k) && self.m()[k].status == m[k].status && self.m()[k].to != k by {
                assert(keys_of(old(self).entries@).contains(k));
                let i = choose|i: int| 0 <= i < oks.len() && oks[i] == k;
                assert(self.m()[self.entries@[i].0@] == ev(self.entries@[i].1));
                assert(self.entries@[i].0@ == oks[i]);
                assert(dest(m, oks[i]).to != oks[i]);
                lemma_chase_status(m, k, fuel);
            }
            assert forall|k: Seq<u8>| #[trigger] self.m().contains_key(k) implies !can_step(
                self.m(),
                k,
            ) by {
                assert(old(self).m().contains_key(k));
                assert(self.m()[k] == dest(m, k));
                if can_step(self.m(), k) {
                    let t = self.m()[k].to;
                    assert(t == dest(m, k).to);
                    assert(old(self).m().contains_key(t));
                    assert(self.m()[t] == dest(m, t));
                    lemma_chase_status(m, t, fuel);
                    assert(self.m()[t].status == m[t].status);
                    let i = choose|i: int| 0 <= i < oks.len() && oks[i] == k;
                    assert(at_boundary(m, dest(m, oks[i])));
                }
            }
        }
        stats
    }
}

} // verus!
