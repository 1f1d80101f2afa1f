//! Cycle detection over the redirect graph: every rule is one outgoing
//! edge, and a build must prove the graph free of cycles before chains are
//! shortened. The walk from every source either reaches a terminal target
//! or revisits a node; the result decides exactly whether a cycle exists.

use vstd::prelude::*;
use vstd::string::StringSliceAdditionalSpecFns;
use crate::bytes::{bytes_eq, copy_bytes, push_all};
use crate::num::{dec_digits, dec_of};
use crate::rules::{keys_of, lemma_l2m, lemma_l2m_len, EntryV, RedirectsMap};

verus! {

/// One step of a walk kept for diagnostics: the source looked up, the
/// target it pointed at, and where that rule was stated.
#[derive(Debug)]
pub struct LoopCheckEntry {
    pub from: Vec<u8>,
    pub to: Vec<u8>,
    pub origin: Vec<u8>,
    pub line_no: usize,
}

impl LoopCheckEntry {
    /// Records one step of a walk.
    pub fn new(from: Vec<u8>, to: Vec<u8>, origin: Vec<u8>, line_no: usize) -> (r: Self)
        ensures
            r.from == from,
            r.to == to,
            r.origin == origin,
            r.line_no == line_no,
    {
        LoopCheckEntry { from, to, origin, line_no }
    }
}

/// Whether `s` lists the nodes of a cycle: nonempty, each node an edge
/// source, each edge leading to the next node, the last back to the first.
pub open spec fn is_cycle(m: Map<Seq<u8>, EntryV>, s: Seq<Seq<u8>>) -> bool {
    &&& s.len() > 0
    &&& forall|i: int|
        0 <= i < s.len() ==> m.contains_key(#[trigger] s[i]) && m[s[i]].to == (if i + 1 < s.len() {
            s[i + 1]
        } else {
            s[0]
        })
}

/// Whether the graph holds any cycle.
pub open spec fn has_cycle(m: Map<Seq<u8>, EntryV>) -> bool {
    exists|s: Seq<Seq<u8>>| is_cycle(m, s)
}

/// Whether some cycle starts at `k`.
pub open spec fn cycle_at(m: Map<Seq<u8>, EntryV>, k: Seq<u8>) -> bool {
    exists|s: Seq<Seq<u8>>| is_cycle(m, s) && s[0] == k
}

/// A node of a cycle has an edge, and that edge stays on the cycle.
proof fn lemma_cycle_step(m: Map<Seq<u8>, EntryV>, s: Seq<Seq<u8>>, k: Seq<u8>)
    requires
        is_cycle(m, s),
        s.contains(k),
    ensures
        m.contains_key(k),
        s.contains(m[k].to),
{
    let t = choose|t: int| 0 <= t < s.len() && s[t] == k;
    if t + 1 < s.len() {
        assert(s[t + 1] == m[k].to);
    } else {
        assert(s[0] == m[k].to);
    }
}

/// A pairwise-distinct sequence drawn from a finite set is no longer than
/// the set.
pub proof fn lemma_distinct_le_card<A>(vk: Seq<A>, d: Set<A>)
    requires
        forall|i: int, j: int| 0 <= i < j < vk.len() ==> vk[i] != vk[j],
        forall|t: int| 0 <= t < vk.len() ==> d.contains(#[trigger] vk[t]),
        d.finite(),
    ensures
        vk.len() <= d.len(),
    decreases vk.len(),
{
    if vk.len() > 0 {
        let last = vk.last();
        let rest = vk.drop_last();
        let smaller = d.remove(last);
        assert(forall|t: int| 0 <= t < rest.len() ==> rest[t] == #[trigger] vk[t]);
        assert forall|t: int| 0 <= t < rest.len() implies smaller.contains(#[trigger] rest[t]) by {
            assert(vk[t] != vk[vk.len() - 1]);
        }
        lemma_distinct_le_card(rest, smaller);
        assert(smaller.len() == d.len() - 1);
    }
}

/// The keys the recorded steps came from, in order.
pub open spec fn lce_froms(l: Seq<LoopCheckEntry>) -> Seq<Seq<u8>> {
    l.map_values(|e: LoopCheckEntry| e.from@)
}

/// Whether one of the recorded steps came from `k`.
fn contains_from(visited: &Vec<LoopCheckEntry>, k: &[u8]) -> (r: bool)
    ensures
        r == lce_froms(visited@).contains(k@),
{
    let n: usize = visited.len();
    let mut i: usize = 0;
    while i < n
        invariant
            0 <= i <= n == visited@.len(),
            forall|j: int| 0 <= j < i ==> lce_froms(visited@)[j] != k@,
        decreases n - i,
    {
        if bytes_eq(visited[i].from.as_slice(), k) {
            proof {
                assert(lce_froms(visited@)[i as int] == k@);
            }
            return true;
        }
        i = i + 1;
    }
    proof {
        if lce_froms(visited@).contains(k@) {
            let j = choose|j: int|
                0 <= j < lce_froms(visited@).len() && lce_froms(visited@)[j] == k@;
            assert(false);
        }
    }
    false
}

/// The diagnostic text for one recorded step: where the rule was stated,
/// and the edge it contributes.
pub open spec fn lce_text(e: LoopCheckEntry) -> Seq<u8> {
    e.origin@ + ("#").spec_bytes() + dec_digits(e.line_no as int) + (": ").spec_bytes() + e.from@
        + (" -> ").spec_bytes() + e.to@
}

/// The steps of one reported walk, joined by arrows, from index `i` on.
pub open spec fn walk_text(l: Seq<LoopCheckEntry>, i: int) -> Seq<u8>
    decreases l.len() - i,
{
    if i < 0 || i >= l.len() {
        Seq::empty()
    } else if i == l.len() - 1 {
        lce_text(l[i])
    } else {
        lce_text(l[i]) + ("\n-> ").spec_bytes() + walk_text(l, i + 1)
    }
}

/// The reported walks, one headed block each, from index `i` on.
pub open spec fn loops_text(ls: Seq<Vec<LoopCheckEntry>>, i: int) -> Seq<u8>
    decreases ls.len() - i,
{
    if i < 0 || i >= ls.len() {
        Seq::empty()
    } else if i == ls.len() - 1 {
        ("Loop:\n   ").spec_bytes() + walk_text(ls[i]@, 0)
    } else {
        ("Loop:\n   ").spec_bytes() + walk_text(ls[i]@, 0) + ("\n").spec_bytes() + loops_text(
            ls,
            i + 1,
        )
    }
}

/// The whole cycle diagnostic.
pub open spec fn loops_message_text(ls: Seq<Vec<LoopCheckEntry>>) -> Seq<u8> {
    ("Loops detected:\n").spec_bytes() + loops_text(ls, 0)
}

/// Renders one recorded step into `out`.
fn push_lce_text(out: &mut Vec<u8>, e: &LoopCheckEntry)
    ensures
        final(out)@ == old(out)@ + lce_text(*e),
{
    push_all(out, e.origin.as_slice());
    push_all(out, "#".as_bytes());
    let digits = dec_of(e.line_no);
    push_all(out, digits.as_slice());
    push_all(out, ": ".as_bytes());
    push_all(out, e.from.as_slice());
    push_all(out, " -> ".as_bytes());
    push_all(out, e.to.as_slice());
    proof {
        assert(final(out)@ =~= old(out)@ + lce_text(*e));
    }
}

/// Renders one walk's steps, joined by arrows, from index `i` on.
fn render_walk(l: &Vec<LoopCheckEntry>, i: usize) -> (r: Vec<u8>)
    ensures
        r@ == walk_text(l@, i as int),
    decreases l@.len() - i,
{
    let mut out: Vec<u8> = Vec::new();
    if i >= l.len() {
        return out;
    }
    push_lce_text(&mut out, &l[i]);
    if i + 1 < l.len() {
        push_all(&mut out, "\n-> ".as_bytes());
        let rest = render_walk(l, i + 1);
        push_all(&mut out, rest.as_slice());
    }
    proof {
        assert(out@ =~= walk_text(l@, i as int));
    }
    out
}

/// Renders the reported walks, one headed block each, from index `i` on.
fn render_loops(ls: &Vec<Vec<LoopCheckEntry>>, i: usize) -> (r: Vec<u8>)
    ensures
        r@ == loops_text(ls@, i as int),
    decreases ls@.len() - i,
{
    let mut out: Vec<u8> = Vec::new();
    if i >= ls.len() {
        return out;
    }
    push_all(&mut out, "Loop:\n   ".as_bytes());
    let walk = render_walk(&ls[i], 0);
    push_all(&mut out, walk.as_slice());
    if i + 1 < ls.len() {
        push_all(&mut out, "\n".as_bytes());
        let rest = render_loops(ls, i + 1);
        push_all(&mut out, rest.as_slice());
    }
    proof {
        assert(out@ =~= loops_text(ls@, i as int));
    }
    out
}

/// The diagnostic text for a set of reported walks: one headed block per
/// walk, each step of a walk on its own arrowed line.
pub fn loops_message(ls: &Vec<Vec<LoopCheckEntry>>) -> (r: Vec<u8>)
    ensures
        r@ == loops_message_text(ls@),
{
    let mut out: Vec<u8> = Vec::new();
    push_all(&mut out, "Loops detected:\n".as_bytes());
    let body = render_loops(ls, 0);
    push_all(&mut out, body.as_slice());
    proof {
        assert(out@ =~= loops_message_text(ls@));
    }
    out
}

/// Whether a recorded step reports a rule the map holds: the step's
/// source is a key, and its target, origin and line number are exactly
/// that rule's.
pub open spec fn entry_matches(m: Map<Seq<u8>, EntryV>, e: LoopCheckEntry) -> bool {
    &&& m.contains_key(e.from@)
    &&& m[e.from@].to == e.to@
    &&& m[e.from@].origin == e.origin@
    &&& m[e.from@].line_no == e.line_no as int
}

/// Whether a reported walk is a faithful diagnostic of the map: nonempty,
/// each step one of the map's rules, consecutive steps chained by their
/// targets, and the last step's target returning to an earlier step's
/// source — every step from that one on lies on a genuine cycle.
pub open spec fn walk_reports(m: Map<Seq<u8>, EntryV>, w: Seq<LoopCheckEntry>) -> bool {
    &&& w.len() > 0
    &&& forall|t: int| 0 <= t < w.len() ==> entry_matches(m, #[trigger] w[t])
    &&& forall|t: int| 0 <= t < w.len() - 1 ==> (#[trigger] w[t]).to@ == w[t + 1].from@
    &&& exists|j: int| 0 <= j < w.len() && (#[trigger] w[j]).from@ == w[w.len() - 1].to@
}

impl RedirectsMap {
    /// Walks the target chain from every source and reports every walk
    /// that revisits a node. The result is `Ok` exactly when the graph has
    /// no cycle; each reported walk lists rules of the map, chained, and
    /// ends where it first came back on itself.
    pub fn check_for_loops(&self) -> (r: Result<(), Vec<Vec<LoopCheckEntry>>>)
        requires
            self.wf(),
        ensures
            (r is Ok) <==> !has_cycle(self.m()),
            match r {
                Ok(_) => true,
                Err(ls) => ls@.len() > 0 && forall|i: int|
                    0 <= i < ls@.len() ==> walk_reports(self.m(), (#[trigger] ls@[i])@),
            },
    {
        let ghost m = self.m();
        proof {
            lemma_l2m(self.entries@);
            lemma_l2m_len(self.entries@);
        }
        let mut loops: Vec<Vec<LoopCheckEntry>> = Vec::new();
        let n: usize = self.entries.len();
        let mut idx: usize = 0;
        while idx < n
            invariant
                self.wf(),
                m == self.m(),
                n == self.entries@.len(),
                0 <= idx <= n,
                loops@.len() > 0 ==> has_cycle(m),
                forall|i: int| 0 <= i < loops@.len() ==> walk_reports(m, (#[trigger] loops@[i])@),
                loops@.len() == 0 ==> forall|j: int|
                    0 <= j < idx ==> !cycle_at(m, keys_of(self.entries@)[j]),
            decreases n - idx,
        {
            let ghost start_key = self.entries@[idx as int].0@;
            proof {
                lemma_l2m(self.entries@);
                lemma_l2m_len(self.entries@);
                assert(keys_of(self.entries@)[idx as int] == start_key);
                assert(keys_of(self.entries@).contains(start_key));
                assert(m.contains_key(start_key));
                assert(m[start_key] == crate::rules::ev(self.entries@[idx as int].1));
            }
            let first = LoopCheckEntry::new(
                copy_bytes(self.entries[idx].0.as_slice()),
                copy_bytes(self.entries[idx].1.to.as_slice()),
                copy_bytes(self.entries[idx].1.origin.as_slice()),
                self.entries[idx].1.line_no,
            );
            let mut cur = copy_bytes(self.entries[idx].1.to.as_slice());
            let mut visited: Vec<LoopCheckEntry> = Vec::new();
            visited.push(first);
            proof {
                assert(lce_froms(visited@) =~= seq![start_key]);
                assert(entry_matches(m, visited@[0]));
                assert forall|s: Seq<Seq<u8>>|
                    is_cycle(m, s) && s[0] == start_key implies s.contains(cur@) by {
                    assert(s.contains(start_key));
                    lemma_cycle_step(m, s, start_key);
                }
            }
            loop
                invariant_except_break
                    self.wf(),
                    m == self.m(),
                    m.dom().finite(),
                    ({
                        let vk = lce_froms(visited@);
                        &&& vk.len() > 0
                        &&& vk[0] == start_key
                        &&& forall|i: int, j: int| 0 <= i < j < vk.len() ==> vk[i] != vk[j]
                        &&& forall|t: int| 0 <= t < vk.len() ==> m.contains_key(#[trigger] vk[t])
                        &&& forall|t: int|
                            0 <= t < vk.len() - 1 ==> m[#[trigger] vk[t]].to == vk[t + 1]
                        &&& m[vk[vk.len() - 1]].to == cur@
                    }),
                    forall|t: int| 0 <= t < visited@.len() ==> entry_matches(
                        m,
                        #[trigger] visited@[t],
                    ),
                    forall|s: Seq<Seq<u8>>|
                        is_cycle(m, s) && s[0] == start_key ==> s.contains(cur@),
                    loops@.len() > 0 ==> has_cycle(m),
                    forall|i: int|
                        0 <= i < loops@.len() ==> walk_reports(m, (#[trigger] loops@[i])@),
                    loops@.len() == 0 ==> forall|j: int|
                        0 <= j < idx ==> !cycle_at(m, keys_of(self.entries@)[j]),
                ensures
                    m == self.m(),
                    loops@.len() > 0 ==> has_cycle(m),
                    forall|i: int|
                        0 <= i < loops@.len() ==> walk_reports(m, (#[trigger] loops@[i])@),
                    loops@.len() == 0 ==> !cycle_at(m, start_key) && (forall|j: int|
                        0 <= j < idx ==> !cycle_at(m, keys_of(self.entries@)[j])),
                decreases m.dom().len() + 1 - lce_froms(visited@).len(),
            {
                proof {
                    lemma_distinct_le_card(lce_froms(visited@), m.dom());
                }
                let next = self.get(cur.as_slice());
                match next {
                    None => {
                        proof {
                            assert(!cycle_at(m, start_key)) by {
                                if cycle_at(m, start_key) {
                                    let s = choose|s: Seq<Seq<u8>>|
                                        is_cycle(m, s) && s[0] == start_key;
                                    assert(s.contains(cur@));
                                    lemma_cycle_step(m, s, cur@);
                                }
                            }
                        }
                        break ;
                    },
                    Some(e) => {
                        if contains_from(&visited, cur.as_slice()) {
                            proof {
                                let vk = lce_froms(visited@);
                                let j = choose|j: int| 0 <= j < vk.len() && vk[j] == cur@;
                                let s = vk.subrange(j, vk.len() as int);
                                assert forall|i: int|
                                    0 <= i < s.len() implies m.contains_key(#[trigger] s[i])
                                    && m[s[i]].to == (if i + 1 < s.len() {
                                    s[i + 1]
                                } else {
                                    s[0]
                                }) by {
                                    assert(s[i] == vk[j + i]);
                                    if i + 1 < s.len() {
                                        assert(s[i + 1] == vk[j + i + 1]);
                                    } else {
                                        assert(s[0] == vk[j]);
                                        assert(m[vk[vk.len() - 1]].to == cur@);
                                    }
                                }
                                assert(is_cycle(m, s));
                                // The recorded walk is a faithful
                                // diagnostic: its steps are rules of the
                                // map, chained, and the last step's
                                // target returns to the repeated source.
                                assert forall|t: int|
                                    0 <= t < visited@.len() - 1 implies (
                                #[trigger] visited@[t]).to@ == visited@[t + 1].from@ by {
                                    assert(entry_matches(m, visited@[t]));
                                    assert(vk[t] == visited@[t].from@);
                                    assert(vk[t + 1] == visited@[t + 1].from@);
                                    assert(m[vk[t]].to == vk[t + 1]);
                                }
                                assert(visited@[j].from@ == vk[j]);
                                assert(entry_matches(m, visited@[visited@.len() - 1]));
                                assert(visited@[visited@.len() - 1].to@ == m[vk[vk.len()
                                    - 1]].to);
                                assert(visited@[visited@.len() - 1].to@ == visited@[j].from@);
                                assert(walk_reports(m, visited@));
                            }
                            let ghost wv = visited@;
                            let ghost pre_loops = loops@;
                            loops.push(visited);
                            proof {
                                assert forall|i: int|
                                    0 <= i < loops@.len() implies walk_reports(
                                    m,
                                    (#[trigger] loops@[i])@,
                                ) by {
                                    if i < pre_loops.len() {
                                        assert(loops@[i] == pre_loops[i]);
                                    } else {
                                        assert(loops@[i]@ == wv);
                                    }
                                }
                            }
                            break ;
                        }
                        let entry = LoopCheckEntry::new(
                            copy_bytes(cur.as_slice()),
                            copy_bytes(e.to.as_slice()),
                            copy_bytes(e.origin.as_slice()),
                            e.line_no,
                        );
                        let next_to = copy_bytes(e.to.as_slice());
                        let ghost prev_cur = cur@;
                        let ghost old_vk = lce_froms(visited@);
                        visited.push(entry);
                        cur = next_to;
                        proof {
                            let vk = lce_froms(visited@);
                            assert(vk =~= old_vk.push(prev_cur));
                            assert(m[prev_cur].to == cur@);
                            assert forall|s: Seq<Seq<u8>>|
                                is_cycle(m, s) && s[0] == start_key implies s.contains(
                                cur@,
                            ) by {
                                assert(s.contains(prev_cur));
                                lemma_cycle_step(m, s, prev_cur);
                            }
                        }
                    },
                }
            }
            proof {
                if loops@.len() == 0 {
                    assert(!cycle_at(m, start_key));
                    assert(forall|j: int|
                        0 <= j < idx ==> !cycle_at(m, keys_of(self.entries@)[j]));
                    assert(keys_of(self.entries@)[idx as int] == start_key);
                }
            }
            idx = idx + 1;
        }
        if loops.len() == 0 {
            proof {
                if has_cycle(m) {
                    let s = choose|s: Seq<Seq<u8>>| is_cycle(m, s);
                    assert(m.contains_key(s[0]));
                    lemma_l2m(self.entries@);
                    assert(keys_of(self.entries@).contains(s[0]));
                    let j = choose|j: int|
                        0 <= j < keys_of(self.entries@).len() && keys_of(self.entries@)[j]
                            == s[0];
                    assert(cycle_at(m, s[0]));
                    assert(false);
                }
            }
            Ok(())
        } else {
            Err(loops)
        }
    }
}

} // verus!
