//! The whole offline compilation pass over rule sources: trusted baseline
//! sources first, each behind its sentinel header and free of parse
//! failures; then the new sources; then cycle detection, chain
//! shortening, and the batch verdict on fatal failures.

use vstd::prelude::*;
use vstd::string::StringSliceAdditionalSpecFns;
use crate::bytes::bytes_eq;
use crate::bytes::copy_bytes;
use crate::bytes::push_all;
use crate::lines::{split_into_lines, split_lines};
use crate::loops::{has_cycle, loops_message, loops_message_text, LoopCheckEntry};
use crate::rules::{absorb_lines, rmv, ErrV, RedirectsMap, RedirectsSource, RmV};
use crate::shorten::{dest, shortened};
use crate::validate::{ValidationBehavior, ValidationBehaviors, ValidationError};

verus! {

/// The sentinel that every baseline rule file must open with.
pub open spec fn header_bytes() -> Seq<u8> {
    ("# Validated redirects, DO NOT EDIT. EDITING WILL CAUSE INCORRECT REDIRECTS!").spec_bytes()
}

/// The sentinel header line, for writing out compiled rule files.
pub fn generated_file_header() -> (r: Vec<u8>)
    ensures
        r@ == header_bytes(),
{
    let mut out: Vec<u8> = Vec::new();
    push_all(
        &mut out,
        "# Validated redirects, DO NOT EDIT. EDITING WILL CAUSE INCORRECT REDIRECTS!".as_bytes(),
    );
    proof {
        assert(out@ =~= header_bytes());
    }
    out
}

/// Whether a baseline source opens with the sentinel header line.
pub open spec fn header_ok(src: RedirectsSource) -> bool {
    let ls = split_lines(src.contents@);
    ls.len() > 0 && ls[0] == header_bytes()
}

/// Index of the first baseline whose header is missing, or the count.
pub open spec fn first_bad_header(srcs: Seq<RedirectsSource>, i: int) -> int
    decreases srcs.len() - i,
{
    if i < 0 || i >= srcs.len() {
        srcs.len() as int
    } else if !header_ok(srcs[i]) {
        i
    } else {
        first_bad_header(srcs, i + 1)
    }
}

/// A prefix of good headers, then a bad one, places `first_bad_header`.
proof fn lemma_first_bad_header(srcs: Seq<RedirectsSource>, i: int)
    requires
        0 <= i <= srcs.len(),
        forall|j: int| 0 <= j < i ==> header_ok(srcs[j]),
        i < srcs.len() ==> !header_ok(srcs[i]),
    ensures
        first_bad_header(srcs, 0) == i,
{
    lemma_first_bad_header_from(srcs, 0, i);
}

proof fn lemma_first_bad_header_from(srcs: Seq<RedirectsSource>, at: int, i: int)
    requires
        0 <= at <= i <= srcs.len(),
        forall|j: int| at <= j < i ==> header_ok(srcs[j]),
        i < srcs.len() ==> !header_ok(srcs[i]),
    ensures
        first_bad_header(srcs, at) == i,
    decreases i - at,
{
    if at < i {
        lemma_first_bad_header_from(srcs, at + 1, i);
    }
}

/// The state after absorbing the sources from index `i` on.
pub open spec fn absorb_sources(
    v: RmV,
    srcs: Seq<RedirectsSource>,
    i: int,
    default: u16,
    checks: ValidationBehaviors,
) -> RmV
    decreases srcs.len() - i,
{
    if i < 0 || i >= srcs.len() {
        v
    } else {
        absorb_sources(
            absorb_lines(v, srcs[i].origin@, split_lines(srcs[i].contents@), 0, default, checks),
            srcs,
            i + 1,
            default,
            checks,
        )
    }
}

/// The empty starting state.
pub open spec fn empty_state() -> RmV {
    RmV { m: Map::empty(), errs: Seq::empty() }
}

/// Whether any recorded failure is of fatal severity.
pub open spec fn any_error(errs: Seq<ErrV>) -> bool {
    exists|i: int| 0 <= i < errs.len() && (#[trigger] errs[i]).severity == ValidationBehavior::Error
}

/// Why a build failed.
#[derive(Debug)]
pub enum BuildError {
    /// A baseline source does not open with the sentinel header.
    BaselineHeader { origin: Vec<u8> },
    /// A baseline source has parse failures, though baselines are prior
    /// output and must parse cleanly.
    BaselineParse,
    /// Cycles were found and the loop policy makes them fatal.
    Loops { loops: Vec<Vec<LoopCheckEntry>> },
    /// Failures of fatal severity were recorded; they are carried here for
    /// reporting.
    RuleErrors { errors: Vec<ValidationError> },
}

impl BuildError {
    /// The diagnostic text for this failure.
    pub fn message(&self) -> (r: Vec<u8>)
        ensures
            r@ == match *self {
                BuildError::BaselineHeader { .. } => (
                "Existing redirects file must be generated by this tool").spec_bytes(),
                BuildError::BaselineParse => (
                "No parse errors expected in existing redirects").spec_bytes(),
                BuildError::Loops { loops } => loops_message_text(loops@),
                BuildError::RuleErrors { .. } => (
                "Errors found in redirect rules, aborting").spec_bytes(),
            },
    {
        match self {
            BuildError::BaselineHeader { .. } => {
                let mut out: Vec<u8> = Vec::new();
                push_all(&mut out, "Existing redirects file must be generated by this tool".as_bytes());
                proof {
                    assert(out@ =~= ("Existing redirects file must be generated by this tool").spec_bytes());
                }
                out
            },
            BuildError::BaselineParse => {
                let mut out: Vec<u8> = Vec::new();
                push_all(&mut out, "No parse errors expected in existing redirects".as_bytes());
                proof {
                    assert(out@ =~= ("No parse errors expected in existing redirects").spec_bytes());
                }
                out
            },
            BuildError::Loops { loops } => loops_message(loops),
            BuildError::RuleErrors { .. } => {
                let mut out: Vec<u8> = Vec::new();
                push_all(&mut out, "Errors found in redirect rules, aborting".as_bytes());
                proof {
                    assert(out@ =~= ("Errors found in redirect rules, aborting").spec_bytes());
                }
                out
            },
        }
    }
}

/// A line holding exactly the sentinel header is skipped whole: its first
/// byte is the comment marker, so nothing of it survives stripping.
pub proof fn lemma_header_line_skipped(
    v: RmV,
    origin: Seq<u8>,
    line_no: int,
    default: u16,
    checks: ValidationBehaviors,
)
    ensures
        crate::rules::absorb_line(v, origin, header_bytes(), line_no, default, checks) == v,
{
    broadcast use vstd::string::is_ascii_spec_bytes;

    let h = header_bytes();
    assert(vstd::string::is_ascii(
        "# Validated redirects, DO NOT EDIT. EDITING WILL CAUSE INCORRECT REDIRECTS!",
    )) by {
        reveal_strlit("# Validated redirects, DO NOT EDIT. EDITING WILL CAUSE INCORRECT REDIRECTS!");
    }
    assert(h.len() > 0 && h[0] == 35) by {
        reveal_strlit("# Validated redirects, DO NOT EDIT. EDITING WILL CAUSE INCORRECT REDIRECTS!");
    }
    crate::lines::lemma_find_byte_is(h, 35, 0);
    assert(crate::lines::strip_comment(h) =~= Seq::<u8>::empty());
    assert(crate::lines::tokenize(Seq::<u8>::empty()) =~= Seq::<Seq<u8>>::empty());
}

/// The header holds no line feed and does not end in a carriage return.
pub proof fn lemma_header_is_one_line()
    ensures
        !header_bytes().contains(10),
        header_bytes().len() > 0,
        header_bytes().last() != 13,
{
    broadcast use vstd::string::is_ascii_spec_bytes;

    assert(vstd::string::is_ascii(
        "# Validated redirects, DO NOT EDIT. EDITING WILL CAUSE INCORRECT REDIRECTS!",
    )) by {
        reveal_strlit("# Validated redirects, DO NOT EDIT. EDITING WILL CAUSE INCORRECT REDIRECTS!");
    }
    assert({
        &&& !header_bytes().contains(10)
        &&& header_bytes().len() > 0
        &&& header_bytes().last() != 13
    }) by {
        reveal_strlit("# Validated redirects, DO NOT EDIT. EDITING WILL CAUSE INCORRECT REDIRECTS!");
    }
}

/// The map after re-inserting the listed rules from index `i` on, each
/// with the new origin and its own line number.
pub open spec fn reinserted(
    mm: Map<Seq<u8>, crate::rules::EntryV>,
    ks: Seq<Seq<u8>>,
    es: Seq<crate::rules::EntryV>,
    origin: Seq<u8>,
    line0: int,
    i: int,
) -> Map<Seq<u8>, crate::rules::EntryV>
    decreases ks.len() - i,
{
    if i < 0 || i >= ks.len() {
        mm
    } else {
        reinserted(
            mm.insert(
                ks[i],
                crate::rules::EntryV {
                    to: es[i].to,
                    status: es[i].status,
                    origin: origin,
                    line_no: line0 + i,
                },
            ),
            ks,
            es,
            origin,
            line0,
            i + 1,
        )
    }
}

/// The side conditions under which a rule line reparses: a validated,
/// whitespace-free source and target, distinct from one another, a
/// redirect status, and no comment marker in either field.
pub open spec fn reparsable(k: Seq<u8>, e: crate::rules::EntryV) -> bool {
    &&& k.len() > 0
    &&& !crate::bytes::has_ws(k)
    &&& crate::validate::valid_source(k)
    &&& e.to.len() > 0
    &&& !crate::bytes::has_ws(e.to)
    &&& crate::validate::valid_target(e.to)
    &&& 301 <= e.status <= 399
    &&& e.to != k
    &&& !k.contains(35)
    &&& !e.to.contains(35)
}

/// Absorbing rendered rule lines from render index `j` on re-inserts
/// exactly the rendered rules and records nothing. The line list opens
/// with one extra line — the header — so render `j` stands at line
/// `j + 1`.
pub proof fn lemma_absorb_renders(
    v: RmV,
    origin: Seq<u8>,
    ls: Seq<Seq<u8>>,
    ks: Seq<Seq<u8>>,
    es: Seq<crate::rules::EntryV>,
    j: int,
    default: u16,
    checks: ValidationBehaviors,
)
    requires
        ls.len() == ks.len() + 1,
        ks.len() == es.len(),
        0 <= j <= ks.len(),
        forall|t: int|
            0 <= t < ks.len() ==> ls[t + 1] == crate::output::render_line(
                #[trigger] ks[t],
                es[t],
                default,
            ),
        forall|t: int| 0 <= t < ks.len() ==> reparsable(#[trigger] ks[t], es[t]),
    ensures
        absorb_lines(v, origin, ls, j + 1, default, checks) == (RmV {
            m: reinserted(v.m, ks, es, origin, 1, j),
            errs: v.errs,
        }),
    decreases ks.len() - j,
{
    if j >= ks.len() {
        assert(absorb_lines(v, origin, ls, j + 1, default, checks) == v);
        assert(v == (RmV { m: v.m, errs: v.errs }));
    } else {
        assert(ls[j + 1] == crate::output::render_line(ks[j], es[j], default));
        crate::output::lemma_reparse_absorb(v, origin, ks[j], es[j], j + 1, default, checks);
        let v2 = crate::rules::absorb_line(v, origin, ls[j + 1], j + 1, default, checks);
        lemma_absorb_renders(v2, origin, ls, ks, es, j + 1, default, checks);
    }
}

/// What the re-inserted map holds: every listed rule under its source,
/// with its target and status, and nothing else beyond what was there.
pub proof fn lemma_reinserted_at(
    mm: Map<Seq<u8>, crate::rules::EntryV>,
    ks: Seq<Seq<u8>>,
    es: Seq<crate::rules::EntryV>,
    origin: Seq<u8>,
    line0: int,
    i: int,
)
    requires
        ks.len() == es.len(),
        0 <= i <= ks.len(),
        forall|a: int, b: int| 0 <= a < b < ks.len() ==> ks[a] != ks[b],
    ensures
        forall|t: int|
            i <= t < ks.len() ==> {
                let r = reinserted(mm, ks, es, origin, line0, i);
                &&& r.contains_key(#[trigger] ks[t])
                &&& r[ks[t]].to == es[t].to
                &&& r[ks[t]].status == es[t].status
            },
        forall|k: Seq<u8>|
            #[trigger] reinserted(mm, ks, es, origin, line0, i).contains_key(k)
                ==> mm.contains_key(k) || ks.contains(k),
    decreases ks.len() - i,
{
    if i < ks.len() {
        let mm2 = mm.insert(
            ks[i],
            crate::rules::EntryV {
                to: es[i].to,
                status: es[i].status,
                origin: origin,
                line_no: line0 + i,
            },
        );
        lemma_reinserted_at(mm2, ks, es, origin, line0, i + 1);
        let r = reinserted(mm, ks, es, origin, line0, i);
        assert(r == reinserted(mm2, ks, es, origin, line0, i + 1));
        assert forall|t: int| i <= t < ks.len() implies {
            &&& r.contains_key(#[trigger] ks[t])
            &&& r[ks[t]].to == es[t].to
            &&& r[ks[t]].status == es[t].status
        } by {
            if t == i {
                // Later insertions are under different keys, so the
                // entry inserted now survives.
                assert(forall|x: int| i + 1 <= x < ks.len() ==> #[trigger] ks[x] != ks[i]);
                lemma_reinserted_untouched(mm2, ks, es, origin, line0, i + 1, ks[i]);
                assert(mm2.contains_key(ks[i]));
            }
        }
        assert forall|k: Seq<u8>| #[trigger] r.contains_key(k) implies mm.contains_key(k)
            || ks.contains(k) by {
            if mm2.contains_key(k) && !mm.contains_key(k) {
                assert(k == ks[i]);
                assert(ks.contains(ks[i]));
            }
        }
    }
}

/// Re-insertion from index `i` leaves a key outside the remaining list
/// untouched.
proof fn lemma_reinserted_untouched(
    mm: Map<Seq<u8>, crate::rules::EntryV>,
    ks: Seq<Seq<u8>>,
    es: Seq<crate::rules::EntryV>,
    origin: Seq<u8>,
    line0: int,
    i: int,
    k: Seq<u8>,
)
    requires
        ks.len() == es.len(),
        0 <= i <= ks.len(),
        forall|t: int| i <= t < ks.len() ==> #[trigger] ks[t] != k,
    ensures
        reinserted(mm, ks, es, origin, line0, i).contains_key(k) == mm.contains_key(k),
        mm.contains_key(k) ==> reinserted(mm, ks, es, origin, line0, i)[k] == mm[k],
    decreases ks.len() - i,
{
    if i < ks.len() {
        let mm2 = mm.insert(
            ks[i],
            crate::rules::EntryV {
                to: es[i].to,
                status: es[i].status,
                origin: origin,
                line_no: line0 + i,
            },
        );
        lemma_reinserted_untouched(mm2, ks, es, origin, line0, i + 1, k);
    }
}

/// Recompiling written output reproduces its rules: absorbing the header
/// and the rendered lines of rules whose fields reparse — any rule a
/// file can produce, since a comment marker in a field would have
/// truncated its line — yields a map holding exactly those rules, with
/// their targets and statuses, and records no failure.
pub proof fn lemma_recompile_reproduces_rules(
    origin: Seq<u8>,
    ks: Seq<Seq<u8>>,
    es: Seq<crate::rules::EntryV>,
    default: u16,
    checks: ValidationBehaviors,
)
    requires
        ks.len() == es.len(),
        forall|t: int| 0 <= t < ks.len() ==> reparsable(#[trigger] ks[t], es[t]),
        forall|a: int, b: int| 0 <= a < b < ks.len() ==> ks[a] != ks[b],
    ensures
        ({
            let renders = Seq::new(
                ks.len(),
                |t: int| crate::output::render_line(ks[t], es[t], default),
            );
            let contents = crate::lines::join_lines(seq![header_bytes()] + renders, 0);
            let st = absorb_lines(
                empty_state(),
                origin,
                crate::lines::split_lines(contents),
                0,
                default,
                checks,
            );
            &&& st.errs == Seq::<crate::rules::ErrV>::empty()
            &&& forall|t: int|
                0 <= t < ks.len() ==> st.m.contains_key(#[trigger] ks[t]) && st.m[ks[t]].to
                    == es[t].to && st.m[ks[t]].status == es[t].status
            &&& forall|k: Seq<u8>| #[trigger] st.m.contains_key(k) ==> ks.contains(k)
        }),
{
    let renders = Seq::new(ks.len(), |t: int| crate::output::render_line(ks[t], es[t], default));
    let ls = seq![header_bytes()] + renders;
    // Each joined line is free of line feeds and does not end in a
    // carriage return, so splitting the joined text recovers the lines.
    lemma_header_is_one_line();
    assert forall|t: int| 0 <= t < ls.len() implies !(#[trigger] ls[t]).contains(10) && (
    ls[t].len() > 0 ==> ls[t].last() != 13) by {
        if t > 0 {
            let line = ls[t];
            assert(line == crate::output::render_line(ks[t - 1], es[t - 1], default));
            crate::output::lemma_render_line_bytes(ks[t - 1], es[t - 1], default);
        }
    }
    crate::lines::lemma_split_join(ls, 0);
    assert(ls.skip(0) =~= ls);
    let contents = crate::lines::join_lines(ls, 0);
    let split = crate::lines::split_lines(contents);
    assert(split == ls);
    // The header opens the file and is skipped; the rendered lines then
    // re-insert their rules.
    let v0 = empty_state();
    assert(split[0] == header_bytes());
    lemma_header_line_skipped(v0, origin, 0, default, checks);
    assert(absorb_lines(v0, origin, split, 0, default, checks) == absorb_lines(
        crate::rules::absorb_line(v0, origin, split[0], 0, default, checks),
        origin,
        split,
        1,
        default,
        checks,
    ));
    assert(forall|t: int|
        0 <= t < ks.len() ==> ls[t + 1] == crate::output::render_line(
            #[trigger] ks[t],
            es[t],
            default,
        ));
    lemma_absorb_renders(v0, origin, ls, ks, es, 0, default, checks);
    lemma_reinserted_at(v0.m, ks, es, origin, 1, 0);
    assert forall|k: Seq<u8>|
        #[trigger] reinserted(v0.m, ks, es, origin, 1, 0).contains_key(k) implies ks.contains(
        k,
    ) by {
        assert(!v0.m.contains_key(k));
    }
}

/// Unless the self-loop policy ignores the finding, absorbing whole
/// sources never inserts a rule that redirects a source to itself.
pub proof fn lemma_no_self_loops_sources(
    v: RmV,
    srcs: Seq<RedirectsSource>,
    i: int,
    default: u16,
    checks: ValidationBehaviors,
)
    requires
        checks.self_loops != ValidationBehavior::Ignore,
        forall|k: Seq<u8>| #[trigger] v.m.contains_key(k) ==> v.m[k].to != k,
    ensures
        forall|k: Seq<u8>|
            #[trigger] absorb_sources(v, srcs, i, default, checks).m.contains_key(k)
                ==> absorb_sources(v, srcs, i, default, checks).m[k].to != k,
    decreases srcs.len() - i,
{
    if 0 <= i < srcs.len() {
        let v2 = absorb_lines(
            v,
            srcs[i].origin@,
            split_lines(srcs[i].contents@),
            0,
            default,
            checks,
        );
        crate::rules::lemma_no_self_loops(
            v,
            srcs[i].origin@,
            split_lines(srcs[i].contents@),
            0,
            default,
            checks,
        );
        lemma_no_self_loops_sources(v2, srcs, i + 1, default, checks);
        assert(absorb_sources(v, srcs, i, default, checks) == absorb_sources(
            v2,
            srcs,
            i + 1,
            default,
            checks,
        ));
        assert forall|k: Seq<u8>|
            #[trigger] absorb_sources(v, srcs, i, default, checks).m.contains_key(k) implies
            absorb_sources(v, srcs, i, default, checks).m[k].to != k by {
            assert(absorb_sources(v2, srcs, i + 1, default, checks).m.contains_key(k));
        }
    }
}

/// The rendered lines of the listed rules, in order.
pub open spec fn renders_seq(
    ks: Seq<Seq<u8>>,
    es: Seq<crate::rules::EntryV>,
    default: u16,
) -> Seq<Seq<u8>> {
    Seq::new(ks.len(), |t: int| crate::output::render_line(ks[t], es[t], default))
}

/// Recompiling already-shortened output as a new baseline with no new
/// rules yields no further changes: a baseline file holding the header
/// and the rendered rules of a shortened, cycle-free map absorbs with its
/// header accepted and no failure, reproduces exactly the map's rules,
/// and leaves nothing for loop detection to report or for shortening to
/// rewrite.
pub proof fn lemma_recompiled_baseline_stable(
    src: RedirectsSource,
    ks: Seq<Seq<u8>>,
    es: Seq<crate::rules::EntryV>,
    default: u16,
    checks: ValidationBehaviors,
    m: Map<Seq<u8>, crate::rules::EntryV>,
)
    requires
        ks.len() == es.len(),
        forall|t: int| 0 <= t < ks.len() ==> reparsable(#[trigger] ks[t], es[t]),
        forall|a: int, b: int| 0 <= a < b < ks.len() ==> ks[a] != ks[b],
        src.contents@ == crate::lines::join_lines(
            seq![header_bytes()] + renders_seq(ks, es, default),
            0,
        ),
        forall|t: int|
            0 <= t < ks.len() ==> m.contains_key(#[trigger] ks[t]) && m[ks[t]].to == es[t].to
                && m[ks[t]].status == es[t].status,
        forall|k: Seq<u8>| #[trigger] m.contains_key(k) ==> ks.contains(k),
        !has_cycle(m),
        shortened(m),
    ensures
        header_ok(src),
        ({
            let st = absorb_sources(empty_state(), seq![src], 0, default, checks);
            &&& st.errs == Seq::<ErrV>::empty()
            &&& forall|t: int|
                0 <= t < ks.len() ==> st.m.contains_key(#[trigger] ks[t]) && st.m[ks[t]].to
                    == es[t].to && st.m[ks[t]].status == es[t].status
            &&& forall|k: Seq<u8>| #[trigger] st.m.contains_key(k) == m.contains_key(k)
            &&& !has_cycle(st.m)
            &&& shortened(st.m)
            &&& forall|k: Seq<u8>| #[trigger] st.m.contains_key(k) ==> dest(st.m, k) == st.m[k]
        }),
{
    let renders = renders_seq(ks, es, default);
    let ls = seq![header_bytes()] + renders;
    lemma_recompile_reproduces_rules(src.origin@, ks, es, default, checks);
    assert(renders =~= Seq::new(
        ks.len(),
        |t: int| crate::output::render_line(ks[t], es[t], default),
    ));
    let st = absorb_lines(
        empty_state(),
        src.origin@,
        crate::lines::split_lines(src.contents@),
        0,
        default,
        checks,
    );
    // One baseline source absorbs as its split lines.
    let srcs = seq![src];
    assert(absorb_sources(empty_state(), srcs, 0, default, checks) == absorb_sources(
        st,
        srcs,
        1,
        default,
        checks,
    ));
    assert(absorb_sources(st, srcs, 1, default, checks) == st);
    // The split opens with the header, so the header check passes.
    lemma_header_is_one_line();
    assert forall|t: int| 0 <= t < ls.len() implies !(#[trigger] ls[t]).contains(10) && (
    ls[t].len() > 0 ==> ls[t].last() != 13) by {
        if t > 0 {
            crate::output::lemma_render_line_bytes(ks[t - 1], es[t - 1], default);
        }
    }
    crate::lines::lemma_split_join(ls, 0);
    assert(ls.skip(0) =~= ls);
    assert(crate::lines::split_lines(src.contents@)[0] == header_bytes());
    // The reproduced map holds the same rules, so the graph passes both
    // later passes unchanged.
    assert forall|k: Seq<u8>| #[trigger] st.m.contains_key(k) == m.contains_key(k) by {
        if st.m.contains_key(k) {
            assert(ks.contains(k));
            let t = choose|t: int| 0 <= t < ks.len() && ks[t] == k;
            assert(m.contains_key(ks[t]));
        }
        if m.contains_key(k) {
            assert(ks.contains(k));
            let t = choose|t: int| 0 <= t < ks.len() && ks[t] == k;
            assert(st.m.contains_key(ks[t]));
        }
    }
    assert forall|k: Seq<u8>| #[trigger] m.contains_key(k) implies m[k].to == st.m[k].to
        && m[k].status == st.m[k].status by {
        assert(ks.contains(k));
        let t = choose|t: int| 0 <= t < ks.len() && ks[t] == k;
    }
    crate::shorten::lemma_same_rules_same_graph(m, st.m);
    assert forall|k: Seq<u8>| #[trigger] st.m.contains_key(k) implies dest(st.m, k) == st.m[k] by {
        crate::shorten::lemma_shorten_idempotent(st.m, k);
    }
}

/// Whether any recorded failure is of fatal severity.
fn has_fatal(errors: &Vec<ValidationError>) -> (r: bool)
    ensures
        r == any_error(errors@.map_values(|e: ValidationError| crate::rules::errv(e))),
{
    let ghost evs = errors@.map_values(|e: ValidationError| crate::rules::errv(e));
    let n: usize = errors.len();
    let mut i: usize = 0;
    while i < n
        invariant
            0 <= i <= n == errors@.len(),
            evs == errors@.map_values(|e: ValidationError| crate::rules::errv(e)),
            forall|j: int| 0 <= j < i ==> (#[trigger] evs[j]).severity != ValidationBehavior::Error,
        decreases n - i,
    {
        if matches!(errors[i].severity, ValidationBehavior::Error) {
            proof {
                assert(evs[i as int].severity == ValidationBehavior::Error);
            }
            return true;
        }
        i = i + 1;
    }
    proof {
        if any_error(evs) {
            let j = choose|j: int|
                0 <= j < evs.len() && (#[trigger] evs[j]).severity == ValidationBehavior::Error;
            assert(false);
        }
    }
    false
}

impl RedirectsMap {
    /// Compiles baseline and new rule sources into one redirect map:
    /// baselines must open with the sentinel header and parse without
    /// failures; after all sources are absorbed, a cycle fails the build
    /// unless the loop policy ignores it, recorded fatal failures fail it
    /// afterwards, and on success the chains have been shortened — left
    /// untouched only when cycles were found and ignored, since
    /// shortening a cyclic graph would not terminate.
    pub fn build(
        existing_redirects: &Vec<RedirectsSource>,
        new_redirects: &Vec<RedirectsSource>,
        default_status_code: u16,
        checks: &ValidationBehaviors,
    ) -> (r: Result<RedirectsMap, BuildError>)
        requires
            301 <= default_status_code <= 399,
        ensures
            ({
                let base = absorb_sources(
                    empty_state(),
                    existing_redirects@,
                    0,
                    default_status_code,
                    *checks,
                );
                let full = absorb_sources(
                    base,
                    new_redirects@,
                    0,
                    default_status_code,
                    *checks,
                );
                let hdr = first_bad_header(existing_redirects@, 0);
                if hdr < existing_redirects@.len() {
                    r matches Err(BuildError::BaselineHeader { origin }) && origin@
                        == existing_redirects@[hdr].origin@
                } else if base.errs.len() > 0 {
                    r matches Err(BuildError::BaselineParse)
                } else if has_cycle(full.m) && checks.loops != ValidationBehavior::Ignore {
                    r matches Err(BuildError::Loops { loops }) && loops@.len() > 0 && forall|
                        i: int,
                    |
                        0 <= i < loops@.len() ==> crate::loops::walk_reports(
                            full.m,
                            (#[trigger] loops@[i])@,
                        )
                } else if any_error(full.errs) {
                    r matches Err(BuildError::RuleErrors { errors }) && errors@.map_values(
                        |e: ValidationError| crate::rules::errv(e),
                    ) == full.errs
                } else {
                    r matches Ok(map) && map.wf() && map.default_status_code
                        == default_status_code && map.errs() == full.errs && (if has_cycle(
                        full.m,
                    ) {
                        map.m() == full.m
                    } else {
                        (forall|k: Seq<u8>|
                            map.m().contains_key(k) == full.m.contains_key(k)) && (forall|
                            k: Seq<u8>,
                        |
                            #[trigger] full.m.contains_key(k) ==> map.m()[k] == dest(full.m, k))
                            && shortened(map.m())
                    })
                }
            }),
    {
        let ghost base_v = absorb_sources(
            empty_state(),
            existing_redirects@,
            0,
            default_status_code,
            *checks,
        );
        let mut map = RedirectsMap::new(default_status_code);
        let header = generated_file_header();
        let n_existing: usize = existing_redirects.len();
        let mut i: usize = 0;
        proof {
            assert(rmv(map) =~= empty_state());
        }
        while i < n_existing
            invariant
                map.wf(),
                map.default_status_code == default_status_code,
                header@ == header_bytes(),
                n_existing == existing_redirects@.len(),
                0 <= i <= n_existing,
                forall|j: int| 0 <= j < i ==> header_ok(existing_redirects@[j]),
                absorb_sources(
                    rmv(map),
                    existing_redirects@,
                    i as int,
                    default_status_code,
                    *checks,
                ) == absorb_sources(
                    empty_state(),
                    existing_redirects@,
                    0,
                    default_status_code,
                    *checks,
                ),
            decreases n_existing - i,
        {
            let src = &existing_redirects[i];
            let ls = split_into_lines(src.contents.as_slice());
            let bad = if ls.len() == 0 {
                true
            } else {
                !bytes_eq(ls[0].as_slice(), header.as_slice())
            };
            if bad {
                proof {
                    assert(crate::lines::views(ls@) == split_lines(src.contents@));
                    if ls@.len() > 0 {
                        assert(split_lines(src.contents@)[0] == ls@[0]@);
                    }
                    assert(!header_ok(existing_redirects@[i as int]));
                    lemma_first_bad_header(existing_redirects@, i as int);
                }
                return Err(
                    BuildError::BaselineHeader { origin: copy_bytes(src.origin.as_slice()) },
                );
            }
            proof {
                assert(crate::lines::views(ls@) == split_lines(src.contents@));
                assert(split_lines(src.contents@)[0] == ls@[0]@);
                assert(header_ok(existing_redirects@[i as int]));
            }
            let ghost pre = rmv(map);
            map.add_rules(src, checks);
            proof {
                assert(absorb_sources(
                    pre,
                    existing_redirects@,
                    i as int,
                    default_status_code,
                    *checks,
                ) == absorb_sources(
                    rmv(map),
                    existing_redirects@,
                    i + 1,
                    default_status_code,
                    *checks,
                ));
            }
            i = i + 1;
        }
        proof {
            lemma_first_bad_header(existing_redirects@, n_existing as int);
            assert(rmv(map) == base_v);
        }
        if map.parse_errors.len() > 0 {
            proof {
                assert(map.errs().len() == map.parse_errors@.len());
                assert(base_v.errs.len() > 0);
            }
            return Err(BuildError::BaselineParse);
        }
        proof {
            assert(base_v.errs.len() == 0);
        }
        let ghost full_v = absorb_sources(base_v, new_redirects@, 0, default_status_code, *checks);
        let n_new: usize = new_redirects.len();
        let mut j: usize = 0;
        while j < n_new
            invariant
                map.wf(),
                map.default_status_code == default_status_code,
                n_new == new_redirects@.len(),
                0 <= j <= n_new,
                full_v == absorb_sources(
                    base_v,
                    new_redirects@,
                    0,
                    default_status_code,
                    *checks,
                ),
                absorb_sources(rmv(map), new_redirects@, j as int, default_status_code, *checks)
                    == full_v,
            decreases n_new - j,
        {
            let ghost pre = rmv(map);
            map.add_rules(&new_redirects[j], checks);
            proof {
                assert(absorb_sources(pre, new_redirects@, j as int, default_status_code, *checks)
                    == absorb_sources(
                    rmv(map),
                    new_redirects@,
                    j + 1,
                    default_status_code,
                    *checks,
                ));
            }
            j = j + 1;
        }
        proof {
            assert(rmv(map) == full_v);
        }
        let errors_found = has_fatal(&map.parse_errors);
        match map.check_for_loops() {
            Err(found_loops) => {
                if !matches!(checks.loops, ValidationBehavior::Ignore) {
                    return Err(BuildError::Loops { loops: found_loops });
                }
                // Cycles are ignored by policy; the map is returned as it
                // stands, since shortening a cyclic graph would not
                // terminate.
                if errors_found {
                    return Err(BuildError::RuleErrors { errors: map.parse_errors });
                }
                Ok(map)
            },
            Ok(()) => {
                let _stats = map.shorten_chains();
                if errors_found {
                    return Err(BuildError::RuleErrors { errors: map.parse_errors });
                }
                Ok(map)
            },
        }
    }
}

} // verus!
