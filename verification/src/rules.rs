//! The redirect map: validated rules keyed uniquely by their source path,
//! populated line by line from rule-file text, with every rejected line
//! recorded.

use vstd::prelude::*;
use vstd::string::StringSliceAdditionalSpecFns;
use crate::bytes::{bytes_eq, copy_bytes, has_ws, push_all};
use crate::lines::{
    line_has_token, split_into_lines, split_lines, strip_comment, strip_comment_of, tokenize,
    tokenize_line, views,
};
use crate::lines::lemma_tokens_wf;
use crate::num::{dec_digits, dec_of, parse_u16, parse_u16_spec};
use crate::validate::{
    is_valid_redirect_source, is_valid_redirect_target, valid_source, valid_target,
    ValidationBehavior, ValidationBehaviors, ValidationError,
};

verus! {

/// One identified, immutable block of rule text: an origin label and the
/// raw contents read from it.
#[derive(Debug)]
pub struct RedirectsSource {
    pub origin: Vec<u8>,
    pub contents: Vec<u8>,
}

/// The validated right-hand side of one rule: target, status code, and the
/// place the rule came from.
#[derive(Debug)]
pub struct MapEntry {
    pub to: Vec<u8>,
    pub status_code: u16,
    pub origin: Vec<u8>,
    pub line_no: usize,
}

/// The mathematical value of one entry.
pub ghost struct EntryV {
    pub to: Seq<u8>,
    pub status: u16,
    pub origin: Seq<u8>,
    pub line_no: int,
}

/// The mathematical value of one recorded failure.
pub ghost struct ErrV {
    pub origin: Seq<u8>,
    pub line_no: int,
    pub line: Seq<u8>,
    pub message: Seq<u8>,
    pub severity: ValidationBehavior,
}

/// The value of a `MapEntry`.
pub open spec fn ev(e: MapEntry) -> EntryV {
    EntryV { to: e.to@, status: e.status_code, origin: e.origin@, line_no: e.line_no as int }
}

/// The value of a `ValidationError`.
pub open spec fn errv(e: ValidationError) -> ErrV {
    ErrV {
        origin: e.origin@,
        line_no: e.line_no as int,
        line: e.line@,
        message: e.message@,
        severity: e.severity,
    }
}

/// The keys of an entry list, in order.
pub open spec fn keys_of(l: Seq<(Vec<u8>, MapEntry)>) -> Seq<Seq<u8>> {
    l.map_values(|p: (Vec<u8>, MapEntry)| p.0@)
}

/// Whether the keys are pairwise distinct.
pub open spec fn keys_distinct(l: Seq<(Vec<u8>, MapEntry)>) -> bool {
    forall|i: int, j: int| 0 <= i < j < l.len() ==> keys_of(l)[i] != keys_of(l)[j]
}

/// Distinctness of keys survives dropping the last pair.
pub proof fn lemma_distinct_drop_last(l: Seq<(Vec<u8>, MapEntry)>)
    requires
        keys_distinct(l),
        l.len() > 0,
    ensures
        keys_distinct(l.drop_last()),
{
    let d = l.drop_last();
    assert forall|i: int, j: int| 0 <= i < j < d.len() implies keys_of(d)[i] != keys_of(d)[j] by {
        assert(keys_of(d)[i] == l[i].0@);
        assert(keys_of(d)[j] == l[j].0@);
        assert(keys_of(l)[i] == l[i].0@);
        assert(keys_of(l)[j] == l[j].0@);
    }
}

/// The map an entry list denotes, later occurrences overriding earlier
/// ones.
pub open spec fn list_to_map(l: Seq<(Vec<u8>, MapEntry)>) -> Map<Seq<u8>, EntryV>
    decreases l.len(),
{
    if l.len() == 0 {
        Map::empty()
    } else {
        list_to_map(l.drop_last()).insert(l.last().0@, ev(l.last().1))
    }
}

/// The denoted map's domain is the key set, and with distinct keys each
/// listed pair is in the map.
pub proof fn lemma_l2m(l: Seq<(Vec<u8>, MapEntry)>)
    ensures
        forall|k: Seq<u8>| #[trigger] list_to_map(l).contains_key(k) <==> keys_of(l).contains(k),
        keys_distinct(l) ==> forall|i: int|
            0 <= i < l.len() ==> #[trigger] list_to_map(l)[l[i].0@] == ev(l[i].1),
    decreases l.len(),
{
    if l.len() > 0 {
        let d = l.drop_last();
        lemma_l2m(d);
        assert(keys_of(d) =~= keys_of(l).drop_last());
        assert forall|k: Seq<u8>| #[trigger] list_to_map(l).contains_key(k) implies keys_of(
            l,
        ).contains(k) by {
            if k == l.last().0@ {
                assert(keys_of(l)[l.len() - 1] == k);
            } else {
                assert(list_to_map(d).contains_key(k));
                assert(keys_of(d).contains(k));
                let i = choose|i: int| 0 <= i < keys_of(d).len() && keys_of(d)[i] == k;
                assert(keys_of(l)[i] == keys_of(d)[i]);
            }
        }
        assert forall|k: Seq<u8>| keys_of(l).contains(k) implies list_to_map(l).contains_key(
            k,
        ) by {
            let i = choose|i: int| 0 <= i < keys_of(l).len() && keys_of(l)[i] == k;
            if i < l.len() - 1 {
                assert(keys_of(d)[i] == k);
                assert(keys_of(d).contains(k));
                assert(list_to_map(d).contains_key(k));
            } else {
                assert(k == l.last().0@);
            }
        }
        if keys_distinct(l) {
            lemma_distinct_drop_last(l);
            assert forall|i: int| 0 <= i < l.len() implies #[trigger] list_to_map(l)[l[i].0@]
                == ev(l[i].1) by {
                if i < l.len() - 1 {
                    assert(list_to_map(d)[d[i].0@] == ev(d[i].1));
                    assert(keys_of(l)[i] != keys_of(l)[l.len() - 1]);
                    assert(l[i].0@ != l.last().0@);
                }
            }
        }
    }
}

/// Appending a pair inserts its key.
pub proof fn lemma_l2m_push(l: Seq<(Vec<u8>, MapEntry)>, p: (Vec<u8>, MapEntry))
    ensures
        list_to_map(l.push(p)) == list_to_map(l).insert(p.0@, ev(p.1)),
{
    assert(l.push(p).drop_last() =~= l);
    assert(l.push(p).last() == p);
}

/// Replacing the entry at a key's index, with distinct keys, inserts the
/// new value at that key.
pub proof fn lemma_l2m_update(l: Seq<(Vec<u8>, MapEntry)>, i: int, e: MapEntry)
    requires
        keys_distinct(l),
        0 <= i < l.len(),
    ensures
        list_to_map(l.update(i, (l[i].0, e))) == list_to_map(l).insert(l[i].0@, ev(e)),
    decreases l.len(),
{
    let u = l.update(i, (l[i].0, e));
    if i == l.len() - 1 {
        assert(u.drop_last() =~= l.drop_last());
        assert(u.last() == (l[i].0, e));
        assert(list_to_map(u) =~= list_to_map(l).insert(l[i].0@, ev(e)));
    } else {
        let d = l.drop_last();
        lemma_distinct_drop_last(l);
        assert(d[i].0 == l[i].0);
        lemma_l2m_update(d, i, e);
        assert(u.drop_last() =~= d.update(i, (l[i].0, e)));
        assert(u.last() == l.last());
        assert(keys_of(l)[i] != keys_of(l)[l.len() - 1]);
        assert(l[i].0@ != l.last().0@);
        assert(list_to_map(u) == list_to_map(d).insert(l[i].0@, ev(e)).insert(
            l.last().0@,
            ev(l.last().1),
        ));
        assert(list_to_map(d).insert(l[i].0@, ev(e)).insert(l.last().0@, ev(l.last().1))
            =~= list_to_map(d).insert(l.last().0@, ev(l.last().1)).insert(l[i].0@, ev(e)));
    }
}

/// With distinct keys, the denoted map has one entry per pair.
pub proof fn lemma_l2m_len(l: Seq<(Vec<u8>, MapEntry)>)
    requires
        keys_distinct(l),
    ensures
        list_to_map(l).dom().finite(),
        list_to_map(l).dom().len() == l.len(),
    decreases l.len(),
{
    if l.len() > 0 {
        let d = l.drop_last();
        lemma_distinct_drop_last(l);
        lemma_l2m_len(d);
        lemma_l2m(d);
        assert(!keys_of(d).contains(l.last().0@)) by {
            if keys_of(d).contains(l.last().0@) {
                let i = choose|i: int|
                    0 <= i < d.len() && keys_of(d)[i] == l.last().0@;
                assert(keys_of(l)[i] == keys_of(l)[l.len() - 1]);
            }
        }
        assert(!list_to_map(d).contains_key(l.last().0@));
    }
}

/// The redirect map under construction: validated entries keyed uniquely
/// by source path, the configured default status code, and every failure
/// recorded so far.
#[derive(Debug)]
pub struct RedirectsMap {
    pub entries: Vec<(Vec<u8>, MapEntry)>,
    pub default_status_code: u16,
    pub parse_errors: Vec<ValidationError>,
}

impl RedirectsMap {
    /// The map this collection denotes.
    pub open spec fn m(self) -> Map<Seq<u8>, EntryV> {
        list_to_map(self.entries@)
    }

    /// The recorded failures, as values.
    pub open spec fn errs(self) -> Seq<ErrV> {
        self.parse_errors@.map_values(|e: ValidationError| errv(e))
    }

    /// Internal invariant: keys are distinct; the default status code is a
    /// redirect code; and every entry holds a validated, whitespace-free
    /// source and target with a redirect status code.
    pub open spec fn wf(self) -> bool {
        &&& keys_distinct(self.entries@)
        &&& 301 <= self.default_status_code <= 399
        &&& forall|i: int|
            0 <= i < self.entries@.len() ==> wf_pair(#[trigger] self.entries@[i])
    }

    /// An empty map with the given default status code.
    pub fn new(default_status_code: u16) -> (r: RedirectsMap)
        requires
            301 <= default_status_code <= 399,
        ensures
            r.wf(),
            r.m() == Map::<Seq<u8>, EntryV>::empty(),
            r.errs() == Seq::<ErrV>::empty(),
            r.default_status_code == default_status_code,
    {
        let r = RedirectsMap {
            entries: Vec::new(),
            default_status_code,
            parse_errors: Vec::new(),
        };
        proof {
            assert(r.errs() =~= Seq::<ErrV>::empty());
        }
        r
    }

    /// How many rules the map holds.
    pub fn len(&self) -> (r: usize)
        requires
            self.wf(),
        ensures
            r == self.m().dom().len(),
            r == self.entries@.len(),
    {
        proof {
            lemma_l2m_len(self.entries@);
        }
        self.entries.len()
    }

    /// Whether the map holds no rule.
    pub fn is_empty(&self) -> (r: bool)
        requires
            self.wf(),
        ensures
            r == (self.m().dom() == Set::<Seq<u8>>::empty()),
    {
        proof {
            lemma_l2m_len(self.entries@);
            if self.entries@.len() == 0 {
                assert(self.m().dom() =~= Set::<Seq<u8>>::empty());
            } else {
                assert(self.m().dom().len() != 0);
                assert(self.m().dom() != Set::<Seq<u8>>::empty()) by {
                    if self.m().dom() == Set::<Seq<u8>>::empty() {
                        assert(self.m().dom().len() == 0);
                    }
                }
            }
        }
        self.entries.len() == 0
    }

    /// The entry keyed by `from`, if one is held.
    pub fn get(&self, from: &[u8]) -> (r: Option<&MapEntry>)
        requires
            self.wf(),
        ensures
            match r {
                Some(e) => self.m().contains_key(from@) && ev(*e) == self.m()[from@],
                None => !self.m().contains_key(from@),
            },
    {
        proof {
            lemma_l2m(self.entries@);
        }
        let n: usize = self.entries.len();
        let mut i: usize = 0;
        while i < n
            invariant
                self.wf(),
                n == self.entries@.len(),
                0 <= i <= n,
                forall|j: int| 0 <= j < i ==> keys_of(self.entries@)[j] != from@,
            decreases n - i,
        {
            if bytes_eq(self.entries[i].0.as_slice(), from) {
                proof {
                    lemma_l2m(self.entries@);
                    assert(keys_of(self.entries@)[i as int] == from@);
                }
                return Some(&self.entries[i].1);
            }
            i = i + 1;
        }
        proof {
            lemma_l2m(self.entries@);
            if self.m().contains_key(from@) {
                let j = choose|j: int|
                    0 <= j < keys_of(self.entries@).len() && keys_of(self.entries@)[j] == from@;
                assert(false);
            }
        }
        None
    }

    /// Whether the map holds a rule keyed by `from`.
    pub fn contains_key(&self, from: &[u8]) -> (r: bool)
        requires
            self.wf(),
        ensures
            r == self.m().contains_key(from@),
    {
        match self.get(from) {
            Some(_) => true,
            None => false,
        }
    }
}

/// The status code the tokens select: the default with two tokens; with
/// three, the third token read as an integer in the redirect range.
pub open spec fn line_status(toks: Seq<Seq<u8>>, default: u16) -> Option<u16> {
    if toks.len() == 2 {
        Some(default)
    } else {
        match parse_u16_spec(toks[2]) {
            Some(c) => if 301 <= c <= 399 {
                Some(c)
            } else {
                None
            },
            None => None,
        }
    }
}

/// Whether the tokens form an accepted rule: two or three tokens, each
/// field valid, an acceptable status code, and source and target
/// distinct — unless the self-loop policy ignores the finding, in which
/// case the rule is kept as written.
pub open spec fn line_ok(toks: Seq<Seq<u8>>, default: u16, checks: ValidationBehaviors) -> bool {
    &&& (toks.len() == 2 || toks.len() == 3)
    &&& (toks[0] != toks[1] || checks.self_loops == ValidationBehavior::Ignore)
    &&& valid_source(toks[0])
    &&& valid_target(toks[1])
    &&& line_status(toks, default) is Some
}

/// The diagnostic message a rejected line carries.
pub open spec fn line_msg(toks: Seq<Seq<u8>>, default: u16, checks: ValidationBehaviors) -> Seq<u8> {
    if toks.len() == 0 {
        ("Empty line").spec_bytes()
    } else if toks.len() == 1 {
        ("Missing target for redirect").spec_bytes()
    } else if toks.len() > 3 {
        ("Line must contain 2 or 3 whitespace-separated parts, but found ").spec_bytes()
            + dec_digits(toks.len() as int)
    } else if toks[0] == toks[1] && checks.self_loops != ValidationBehavior::Ignore {
        ("Source and target cannot be the same").spec_bytes()
    } else if !valid_source(toks[0]) && !valid_target(toks[1]) {
        ("Invalid format for source and target: '").spec_bytes() + toks[0] + ("' -> '").spec_bytes()
            + toks[1] + ("'").spec_bytes()
    } else if !valid_source(toks[0]) {
        ("Invalid format for source: '").spec_bytes() + toks[0] + ("'").spec_bytes()
    } else if !valid_target(toks[1]) {
        ("Invalid format for target: '").spec_bytes() + toks[1] + ("'").spec_bytes()
    } else {
        ("Invalid status code: '").spec_bytes() + toks[2] + ("'").spec_bytes()
    }
}

/// The severity a rejected line carries: the self-loop policy where source
/// and target coincide and that policy does not ignore the finding, else
/// the invalid-line policy.
pub open spec fn line_sev(toks: Seq<Seq<u8>>, checks: ValidationBehaviors) -> ValidationBehavior {
    if (toks.len() == 2 || toks.len() == 3) && toks[0] == toks[1] && checks.self_loops
        != ValidationBehavior::Ignore {
        checks.self_loops
    } else {
        checks.invalid_lines
    }
}

/// The map and failure state a build passes through.
pub ghost struct RmV {
    pub m: Map<Seq<u8>, EntryV>,
    pub errs: Seq<ErrV>,
}

/// The state a `RedirectsMap` denotes.
pub open spec fn rmv(r: RedirectsMap) -> RmV {
    RmV { m: r.m(), errs: r.errs() }
}

/// One line's effect on the state: a line with no tokens is skipped; an
/// accepted rule replaces any entry with the same source; a rejected line
/// is recorded with its message and severity.
pub open spec fn absorb_line(
    v: RmV,
    origin: Seq<u8>,
    line: Seq<u8>,
    line_no: int,
    default: u16,
    checks: ValidationBehaviors,
) -> RmV {
    let toks = tokenize(strip_comment(line));
    if toks.len() == 0 {
        v
    } else if line_ok(toks, default, checks) {
        RmV {
            m: v.m.insert(
                toks[0],
                EntryV {
                    to: toks[1],
                    status: line_status(toks, default).unwrap(),
                    origin: origin,
                    line_no: line_no,
                },
            ),
            errs: v.errs,
        }
    } else {
        RmV {
            m: v.m,
            errs: v.errs.push(
                ErrV {
                    origin: origin,
                    line_no: line_no,
                    line: line,
                    message: line_msg(toks, default, checks),
                    severity: line_sev(toks, checks),
                },
            ),
        }
    }
}

/// The effect of the lines from index `i` on, each at its line number.
pub open spec fn absorb_lines(
    v: RmV,
    origin: Seq<u8>,
    ls: Seq<Seq<u8>>,
    i: int,
    default: u16,
    checks: ValidationBehaviors,
) -> RmV
    decreases ls.len() - i,
{
    if i < 0 || i >= ls.len() {
        v
    } else {
        absorb_lines(
            absorb_line(v, origin, ls[i], i, default, checks),
            origin,
            ls,
            i + 1,
            default,
            checks,
        )
    }
}

impl RedirectsMap {
    /// Records one rejected line.
    fn push_error(
        &mut self,
        source: &RedirectsSource,
        line_no: usize,
        original_line: &[u8],
        message: Vec<u8>,
        severity: ValidationBehavior,
    )
        ensures
            final(self).entries == old(self).entries,
            final(self).default_status_code == old(self).default_status_code,
            final(self).errs() == old(self).errs().push(
                ErrV {
                    origin: source.origin@,
                    line_no: line_no as int,
                    line: original_line@,
                    message: message@,
                    severity: severity,
                },
            ),
    {
        let origin = copy_bytes(source.origin.as_slice());
        let line = copy_bytes(original_line);
        let e = ValidationError::new(origin, line_no, line, message, severity);
        self.parse_errors.push(e);
        proof {
            assert(final(self).errs() =~= old(self).errs().push(
                ErrV {
                    origin: source.origin@,
                    line_no: line_no as int,
                    line: original_line@,
                    message: message@,
                    severity: severity,
                },
            ));
        }
    }

    /// Inserts a validated rule, replacing any entry with the same source.
    fn upsert(&mut self, from: Vec<u8>, e: MapEntry)
        requires
            old(self).wf(),
            wf_pair((from, e)),
        ensures
            final(self).wf(),
            final(self).default_status_code == old(self).default_status_code,
            final(self).parse_errors == old(self).parse_errors,
            final(self).m() == old(self).m().insert(from@, ev(e)),
    {
        let n: usize = self.entries.len();
        let mut i: usize = 0;
        while i < n
            invariant
                old(self) == self,
                old(self).wf(),
                wf_pair((from, e)),
                n == self.entries@.len(),
                0 <= i <= n,
                forall|j: int| 0 <= j < i ==> keys_of(self.entries@)[j] != from@,
            decreases n - i,
        {
            if bytes_eq(self.entries[i].0.as_slice(), from.as_slice()) {
                proof {
                    assert(keys_of(self.entries@)[i as int] == from@);
                }
                let pair = self.entries.remove(i);
                self.entries.insert(i, (pair.0, e));
                proof {
                    let l = old(self).entries@;
                    assert(self.entries@ =~= l.update(i as int, (l[i as int].0, e)));
                    lemma_l2m_update(l, i as int, e);
                    assert(l[i as int].0@ == from@);
                    assert forall|t: int|
                        0 <= t < self.entries@.len() implies wf_pair(
                        #[trigger] self.entries@[t],
                    ) by {
                        if t != i {
                            assert(self.entries@[t] == l[t]);
                            assert(wf_pair(l[t]));
                        } else {
                            assert(wf_pair((from, e)));
                            assert(self.entries@[t].0@ == from@);
                        }
                    }
                    assert forall|a: int, b: int|
                        0 <= a < b < self.entries@.len() implies keys_of(self.entries@)[a]
                        != keys_of(self.entries@)[b] by {
                        assert(keys_of(self.entries@)[a] == keys_of(l)[a]);
                        assert(keys_of(self.entries@)[b] == keys_of(l)[b]);
                    }
                }
                return ;
            }
            i = i + 1;
        }
        proof {
            lemma_l2m_push(self.entries@, (from, e));
        }
        let ghost l = self.entries@;
        self.entries.push((from, e));
        proof {
            assert forall|a: int, b: int|
                0 <= a < b < self.entries@.len() implies keys_of(self.entries@)[a] != keys_of(
                self.entries@,
            )[b] by {
                if b < l.len() {
                    assert(keys_of(self.entries@)[a] == keys_of(l)[a]);
                    assert(keys_of(self.entries@)[b] == keys_of(l)[b]);
                } else {
                    assert(keys_of(self.entries@)[b] == self.entries@[b].0@);
                    if a < l.len() {
                        assert(keys_of(self.entries@)[a] == keys_of(l)[a]);
                    }
                }
            }
            assert(forall|t: int|
                0 <= t < l.len() ==> #[trigger] self.entries@[t] == l[t]);
        }
    }
}

/// What one parsed line does to the map: an accepted rule replaces any
/// entry with the same source; a rejected one is recorded with its message
/// and severity.
pub open spec fn parse_line_post(
    o: RedirectsMap,
    f: RedirectsMap,
    rule_part: Seq<u8>,
    line: Seq<u8>,
    checks: ValidationBehaviors,
    origin: Seq<u8>,
    line_no: int,
) -> bool {
    let toks = tokenize(rule_part);
    let default = o.default_status_code;
    if line_ok(toks, default, checks) {
        f.errs() == o.errs() && f.m() == o.m().insert(
            toks[0],
            EntryV {
                to: toks[1],
                status: line_status(toks, default).unwrap(),
                origin: origin,
                line_no: line_no,
            },
        )
    } else {
        f.m() == o.m() && f.errs() == o.errs().push(
            ErrV {
                origin: origin,
                line_no: line_no,
                line: line,
                message: line_msg(toks, default, checks),
                severity: line_sev(toks, checks),
            },
        )
    }
}

impl RedirectsMap {
    /// Parses one rule line, already truncated at its comment marker, and
    /// absorbs the outcome: the accepted rule, or the recorded failure.
    pub fn parse_line(
        &mut self,
        rule_part: &[u8],
        original_line: &[u8],
        checks: &ValidationBehaviors,
        source: &RedirectsSource,
        line_no: usize,
    )
        requires
            old(self).wf(),
        ensures
            final(self).wf(),
            final(self).default_status_code == old(self).default_status_code,
            parse_line_post(
                *old(self),
                *final(self),
                rule_part@,
                original_line@,
                *checks,
                source.origin@,
                line_no as int,
            ),
    {
        let ghost tv = tokenize(rule_part@);
        let ghost default_g = old(self).default_status_code;
        let toks = tokenize_line(rule_part);
        proof {
            lemma_tokens_wf(rule_part@);
        }
        let n: usize = toks.len();
        if n == 2 || n == 3 {
            let status_opt: Option<u16> = if n == 3 {
                match parse_u16(toks[2].as_slice()) {
                    Some(c) => if 301 <= c && c <= 399 {
                        Some(c)
                    } else {
                        None
                    },
                    None => None,
                }
            } else {
                Some(self.default_status_code)
            };
            proof {
                if n == 3 {
                    assert(tv[2] == toks@[2]@);
                }
                assert(status_opt == line_status(tv, default_g));
            }
            let same = bytes_eq(toks[0].as_slice(), toks[1].as_slice());
            if same && !matches!(checks.self_loops, ValidationBehavior::Ignore) {
                let mut msg: Vec<u8> = Vec::new();
                push_all(&mut msg, "Source and target cannot be the same".as_bytes());
                proof {
                    assert(msg@ =~= line_msg(tv, default_g, *checks));
                }
                let sev = checks.self_loops;
                self.push_error(source, line_no, original_line, msg, sev);
            } else {
                proof {
                    assert(!has_ws(tv[1])) by {
                        if has_ws(tv[1]) {
                            let j = choose|j: int| 0 <= j < tv[1].len() && crate::bytes::is_ws(
                                tv[1][j],
                            );
                        }
                    }
                }
                let src_ok = is_valid_redirect_source(toks[0].as_slice());
                let tgt_ok = is_valid_redirect_target(toks[1].as_slice());
                if !src_ok && !tgt_ok {
                    let mut msg: Vec<u8> = Vec::new();
                    push_all(&mut msg, "Invalid format for source and target: '".as_bytes());
                    push_all(&mut msg, toks[0].as_slice());
                    push_all(&mut msg, "' -> '".as_bytes());
                    push_all(&mut msg, toks[1].as_slice());
                    push_all(&mut msg, "'".as_bytes());
                    proof {
                        assert(msg@ =~= line_msg(tv, default_g, *checks));
                    }
                    let sev = checks.invalid_lines;
                    self.push_error(source, line_no, original_line, msg, sev);
                } else if !src_ok {
                    let mut msg: Vec<u8> = Vec::new();
                    push_all(&mut msg, "Invalid format for source: '".as_bytes());
                    push_all(&mut msg, toks[0].as_slice());
                    push_all(&mut msg, "'".as_bytes());
                    proof {
                        assert(msg@ =~= line_msg(tv, default_g, *checks));
                    }
                    let sev = checks.invalid_lines;
                    self.push_error(source, line_no, original_line, msg, sev);
                } else if !tgt_ok {
                    let mut msg: Vec<u8> = Vec::new();
                    push_all(&mut msg, "Invalid format for target: '".as_bytes());
                    push_all(&mut msg, toks[1].as_slice());
                    push_all(&mut msg, "'".as_bytes());
                    proof {
                        assert(msg@ =~= line_msg(tv, default_g, *checks));
                    }
                    let sev = checks.invalid_lines;
                    self.push_error(source, line_no, original_line, msg, sev);
                } else {
                    match status_opt {
                        Some(st) => {
                            let from = copy_bytes(toks[0].as_slice());
                            let to = copy_bytes(toks[1].as_slice());
                            let origin = copy_bytes(source.origin.as_slice());
                            let entry = MapEntry { to, status_code: st, origin, line_no };
                            proof {
                                assert(line_ok(tv, default_g, *checks));
                                assert(wf_pair((from, entry)));
                            }
                            self.upsert(from, entry);
                        },
                        None => {
                            let mut msg: Vec<u8> = Vec::new();
                            push_all(&mut msg, "Invalid status code: '".as_bytes());
                            push_all(&mut msg, toks[2].as_slice());
                            push_all(&mut msg, "'".as_bytes());
                            proof {
                                assert(msg@ =~= line_msg(tv, default_g, *checks));
                            }
                            let sev = checks.invalid_lines;
                            self.push_error(source, line_no, original_line, msg, sev);
                        },
                    }
                }
            }
        } else if n == 0 {
            let mut msg: Vec<u8> = Vec::new();
            push_all(&mut msg, "Empty line".as_bytes());
            proof {
                assert(msg@ =~= line_msg(tv, default_g, *checks));
            }
            let sev = checks.invalid_lines;
            self.push_error(source, line_no, original_line, msg, sev);
        } else if n == 1 {
            let mut msg: Vec<u8> = Vec::new();
            push_all(&mut msg, "Missing target for redirect".as_bytes());
            proof {
                assert(msg@ =~= line_msg(tv, default_g, *checks));
            }
            let sev = checks.invalid_lines;
            self.push_error(source, line_no, original_line, msg, sev);
        } else {
            let mut msg: Vec<u8> = Vec::new();
            push_all(
                &mut msg,
                "Line must contain 2 or 3 whitespace-separated parts, but found ".as_bytes(),
            );
            let digits = dec_of(n);
            push_all(&mut msg, digits.as_slice());
            proof {
                assert(msg@ =~= line_msg(tv, default_g, *checks));
            }
            let sev = checks.invalid_lines;
            self.push_error(source, line_no, original_line, msg, sev);
        }
    }
}

impl RedirectsMap {
    /// Absorbs every line of `source` in order: comments are stripped,
    /// lines left without tokens are skipped, and the rest are parsed.
    pub fn add_rules(&mut self, source: &RedirectsSource, checks: &ValidationBehaviors)
        requires
            old(self).wf(),
        ensures
            final(self).wf(),
            final(self).default_status_code == old(self).default_status_code,
            rmv(*final(self)) == absorb_lines(
                rmv(*old(self)),
                source.origin@,
                split_lines(source.contents@),
                0,
                old(self).default_status_code,
                *checks,
            ),
    {
        let ghost lsv = split_lines(source.contents@);
        let ghost default_g = old(self).default_status_code;
        let ls = split_into_lines(source.contents.as_slice());
        let n: usize = ls.len();
        let mut i: usize = 0;
        while i < n
            invariant
                self.wf(),
                self.default_status_code == default_g,
                n == ls@.len(),
                views(ls@) == lsv,
                0 <= i <= n,
                absorb_lines(rmv(*self), source.origin@, lsv, i as int, default_g, *checks)
                    == absorb_lines(
                    rmv(*old(self)),
                    source.origin@,
                    lsv,
                    0,
                    default_g,
                    *checks,
                ),
            decreases n - i,
        {
            let rule_part = strip_comment_of(ls[i].as_slice());
            let ghost pre = rmv(*self);
            proof {
                assert(lsv[i as int] == ls@[i as int]@);
                assert(rule_part@ == strip_comment(lsv[i as int]));
            }
            if line_has_token(rule_part.as_slice()) {
                self.parse_line(rule_part.as_slice(), ls[i].as_slice(), checks, source, i);
                proof {
                    assert(rmv(*self) == absorb_line(
                        pre,
                        source.origin@,
                        lsv[i as int],
                        i as int,
                        default_g,
                        *checks,
                    ));
                }
            } else {
                proof {
                    assert(rmv(*self) == absorb_line(
                        pre,
                        source.origin@,
                        lsv[i as int],
                        i as int,
                        default_g,
                        *checks,
                    ));
                }
            }
            proof {
                assert(absorb_lines(pre, source.origin@, lsv, i as int, default_g, *checks)
                    == absorb_lines(
                    rmv(*self),
                    source.origin@,
                    lsv,
                    i + 1,
                    default_g,
                    *checks,
                ));
            }
            i = i + 1;
        }
    }
}

/// The map-level form of the invariant: every key is a validated source,
/// and every value a validated target with a redirect status.
pub open spec fn m_wf(m: Map<Seq<u8>, EntryV>) -> bool {
    forall|k: Seq<u8>| #[trigger] m.contains_key(k) ==> {
        &&& k.len() > 0
        &&& !has_ws(k)
        &&& valid_source(k)
        &&& m[k].to.len() > 0
        &&& !has_ws(m[k].to)
        &&& valid_target(m[k].to)
        &&& 301 <= m[k].status <= 399
    }
}

/// A well-formed collection denotes a well-formed map.
pub proof fn lemma_wf_m(r: RedirectsMap)
    requires
        r.wf(),
    ensures
        m_wf(r.m()),
{
    lemma_l2m(r.entries@);
    assert forall|k: Seq<u8>| #[trigger] r.m().contains_key(k) implies {
        &&& k.len() > 0
        &&& !has_ws(k)
        &&& valid_source(k)
        &&& r.m()[k].to.len() > 0
        &&& !has_ws(r.m()[k].to)
        &&& valid_target(r.m()[k].to)
        &&& 301 <= r.m()[k].status <= 399
    } by {
        assert(keys_of(r.entries@).contains(k));
        let i = choose|i: int|
            0 <= i < keys_of(r.entries@).len() && keys_of(r.entries@)[i] == k;
        assert(wf_pair(r.entries@[i]));
        assert(r.entries@[i].0@ == k);
        assert(r.m()[k] == ev(r.entries@[i].1));
    }
}

/// Unless the self-loop policy ignores the finding, absorbing lines
/// never inserts a rule that redirects a source to itself: such a line
/// is recorded as a failure and the rule discarded. Under the Ignore
/// policy the rule is kept as written, as the data model allows.
pub proof fn lemma_no_self_loops(
    v: RmV,
    origin: Seq<u8>,
    ls: Seq<Seq<u8>>,
    i: int,
    default: u16,
    checks: ValidationBehaviors,
)
    requires
        checks.self_loops != ValidationBehavior::Ignore,
        forall|k: Seq<u8>| #[trigger] v.m.contains_key(k) ==> v.m[k].to != k,
    ensures
        forall|k: Seq<u8>|
            #[trigger] absorb_lines(v, origin, ls, i, default, checks).m.contains_key(k)
                ==> absorb_lines(v, origin, ls, i, default, checks).m[k].to != k,
    decreases ls.len() - i,
{
    if 0 <= i < ls.len() {
        let v2 = absorb_line(v, origin, ls[i], i, default, checks);
        assert forall|k: Seq<u8>| #[trigger] v2.m.contains_key(k) implies v2.m[k].to != k by {
            let toks = tokenize(strip_comment(ls[i]));
            if toks.len() != 0 && line_ok(toks, default, checks) && k == toks[0] {
                assert(toks[0] != toks[1]);
            }
        }
        lemma_no_self_loops(v2, origin, ls, i + 1, default, checks);
        assert(absorb_lines(v, origin, ls, i, default, checks) == absorb_lines(
            v2,
            origin,
            ls,
            i + 1,
            default,
            checks,
        ));
        assert forall|k: Seq<u8>|
            #[trigger] absorb_lines(v, origin, ls, i, default, checks).m.contains_key(k) implies
            absorb_lines(v, origin, ls, i, default, checks).m[k].to != k by {
            assert(absorb_lines(v2, origin, ls, i + 1, default, checks).m.contains_key(k));
        }
    }
}

/// The printed report of the recorded failures of one severity, from
/// index `i` on: a header line naming each failure's origin when it
/// differs from `current`, the origin last named, then one indented line
/// per failure with its line number, message and source text.
pub open spec fn report_text(
    errs: Seq<ErrV>,
    sev: ValidationBehavior,
    header: Seq<u8>,
    i: int,
    current: Seq<u8>,
) -> Seq<u8>
    decreases errs.len() - i,
{
    if i < 0 || i >= errs.len() {
        Seq::empty()
    } else if errs[i].severity != sev {
        report_text(errs, sev, header, i + 1, current)
    } else {
        let line = ("  Line ").spec_bytes() + dec_digits(errs[i].line_no) + (": ").spec_bytes()
            + errs[i].message + (" (Line source: \"").spec_bytes() + errs[i].line + (
        "\")\n").spec_bytes();
        if errs[i].origin == current {
            line + report_text(errs, sev, header, i + 1, current)
        } else {
            header + errs[i].origin + ("\n").spec_bytes() + line + report_text(
                errs,
                sev,
                header,
                i + 1,
                errs[i].origin,
            )
        }
    }
}

/// Renders the report from index `i` on, as `report_text` describes it.
fn report_from(
    errors: &Vec<ValidationError>,
    severity: ValidationBehavior,
    header: &[u8],
    i: usize,
    current: &[u8],
) -> (r: Vec<u8>)
    ensures
        r@ == report_text(
            errors@.map_values(|e: ValidationError| errv(e)),
            severity,
            header@,
            i as int,
            current@,
        ),
    decreases errors@.len() - i,
{
    let ghost evs = errors@.map_values(|e: ValidationError| errv(e));
    let mut out: Vec<u8> = Vec::new();
    if i >= errors.len() {
        return out;
    }
    proof {
        assert(evs[i as int] == errv(errors@[i as int]));
    }
    if !(errors[i].severity == severity) {
        return report_from(errors, severity, header, i + 1, current);
    }
    let same_origin = bytes_eq(errors[i].origin.as_slice(), current);
    if !same_origin {
        push_all(&mut out, header);
        push_all(&mut out, errors[i].origin.as_slice());
        push_all(&mut out, "\n".as_bytes());
    }
    push_all(&mut out, "  Line ".as_bytes());
    let digits = dec_of(errors[i].line_no);
    push_all(&mut out, digits.as_slice());
    push_all(&mut out, ": ".as_bytes());
    push_all(&mut out, errors[i].message.as_slice());
    push_all(&mut out, " (Line source: \"".as_bytes());
    push_all(&mut out, errors[i].line.as_slice());
    push_all(&mut out, "\")\n".as_bytes());
    let rest = if same_origin {
        report_from(errors, severity, header, i + 1, current)
    } else {
        report_from(errors, severity, header, i + 1, errors[i].origin.as_slice())
    };
    push_all(&mut out, rest.as_slice());
    proof {
        assert(out@ =~= report_text(evs, severity, header@, i as int, current@));
    }
    out
}

/// Whether any recorded failure carries the given severity.
fn has_severity(errors: &Vec<ValidationError>, severity: ValidationBehavior) -> (r: bool)
    ensures
        r == (exists|i: int|
            0 <= i < errors@.len() && (#[trigger] errors@[i]).severity == severity),
{
    let n: usize = errors.len();
    let mut i: usize = 0;
    while i < n
        invariant
            0 <= i <= n == errors@.len(),
            forall|j: int| 0 <= j < i ==> (#[trigger] errors@[j]).severity != severity,
        decreases n - i,
    {
        if errors[i].severity == severity {
            return true;
        }
        i = i + 1;
    }
    proof {
        if exists|j: int| 0 <= j < errors@.len() && (#[trigger] errors@[j]).severity == severity {
            let j = choose|j: int|
                0 <= j < errors@.len() && (#[trigger] errors@[j]).severity == severity;
            assert(false);
        }
    }
    false
}

/// The grouped diagnostic report for the failures of one severity, and
/// whether any such failure was recorded: the given header names each
/// origin as it changes, and every failure of that severity prints its
/// line number, message and source text in order.
pub fn failure_report(
    errors: &Vec<ValidationError>,
    severity: ValidationBehavior,
    header: &[u8],
) -> (r: (Vec<u8>, bool))
    ensures
        r.1 == (exists|i: int|
            0 <= i < errors@.len() && (#[trigger] errors@[i]).severity == severity),
        r.0@ == report_text(
            errors@.map_values(|e: ValidationError| errv(e)),
            severity,
            header@,
            0,
            Seq::<u8>::empty(),
        ),
{
    let empty: Vec<u8> = Vec::new();
    let text = report_from(errors, severity, header, 0, empty.as_slice());
    let found = has_severity(errors, severity);
    (text, found)
}

/// The per-entry part of the map invariant.
pub open spec fn wf_pair(p: (Vec<u8>, MapEntry)) -> bool {
    &&& p.0@.len() > 0
    &&& !has_ws(p.0@)
    &&& valid_source(p.0@)
    &&& p.1.to@.len() > 0
    &&& !has_ws(p.1.to@)
    &&& valid_target(p.1.to@)
    &&& 301 <= p.1.status_code <= 399
}

} // verus!
