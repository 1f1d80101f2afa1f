//! Rendering the final map back into rule-file lines: one line per rule,
//! the status written only when it differs from the configured default,
//! sorted, with lines already present in excluded baseline sources left
//! out.

use vstd::prelude::*;
use vstd::multiset::Multiset;
use vstd::string::StringSliceAdditionalSpecFns;
use crate::bytes::{bytes_eq, bytes_lt, copy_bytes, lex_lt, lemma_lex_trans, push_all};
use crate::compile::{header_bytes, header_ok};
use crate::lines::{split_into_lines, split_lines, views};
use crate::num::{dec_digits, dec_of};
use crate::rules::{ev, EntryV, MapEntry, RedirectsMap, RedirectsSource};

verus! {

broadcast use vstd::seq_lib::group_to_multiset_ensures;

/// Not after: equal or lexicographically before.
pub open spec fn lex_le(a: Seq<u8>, b: Seq<u8>) -> bool {
    !lex_lt(b, a)
}

/// Whether the lines are in lexicographic order.
pub open spec fn sorted_lex(s: Seq<Seq<u8>>) -> bool {
    forall|i: int, j: int| 0 <= i < j < s.len() ==> lex_le(#[trigger] s[i], #[trigger] s[j])
}

/// The output line for one rule.
pub open spec fn render_line(k: Seq<u8>, v: EntryV, default: u16) -> Seq<u8> {
    k + (" ").spec_bytes() + v.to + (if v.status != default {
        (" ").spec_bytes() + dec_digits(v.status as int)
    } else {
        Seq::<u8>::empty()
    })
}

/// The output lines of an entry list, in list order.
pub open spec fn renders_of(l: Seq<(Vec<u8>, MapEntry)>, default: u16) -> Seq<Seq<u8>> {
    l.map_values(|p: (Vec<u8>, MapEntry)| render_line(p.0@, ev(p.1), default))
}

/// Every line that stands after the header of one of the given sources.
pub open spec fn excl_set(srcs: Seq<RedirectsSource>) -> Set<Seq<u8>> {
    Set::new(
        |l: Seq<u8>|
            exists|i: int|
                0 <= i < srcs.len() && split_lines(
                    (#[trigger] srcs[i]).contents@,
                ).skip(1).contains(l),
    )
}

/// Why no output could be rendered.
#[derive(Debug)]
pub enum WriteError {
    /// An excluded source does not open with the sentinel header.
    MissingHeader,
    /// Nothing remains to write once excluded lines are dropped.
    NoNewRules,
}

impl WriteError {
    /// The diagnostic text for this failure.
    pub fn message(&self) -> (r: Vec<u8>)
        ensures
            r@ == match *self {
                WriteError::MissingHeader => (
                "Existing redirects file must be generated by this tool").spec_bytes(),
                WriteError::NoNewRules => ("No new rules found").spec_bytes(),
            },
    {
        let mut out: Vec<u8> = Vec::new();
        match self {
            WriteError::MissingHeader => {
                push_all(
                    &mut out,
                    "Existing redirects file must be generated by this tool".as_bytes(),
                );
            },
            WriteError::NoNewRules => {
                push_all(&mut out, "No new rules found".as_bytes());
            },
        }
        proof {
            assert(Seq::<u8>::empty() + ("Existing redirects file must be generated by this tool").spec_bytes()
                =~= ("Existing redirects file must be generated by this tool").spec_bytes());
            assert(Seq::<u8>::empty() + ("No new rules found").spec_bytes() =~= (
            "No new rules found").spec_bytes());
        }
        out
    }
}

/// The output line for one rule.
fn render_entry(k: &[u8], e: &MapEntry, default: u16) -> (r: Vec<u8>)
    ensures
        r@ == render_line(k@, ev(*e), default),
{
    let mut out: Vec<u8> = Vec::new();
    push_all(&mut out, k);
    push_all(&mut out, " ".as_bytes());
    push_all(&mut out, e.to.as_slice());
    if e.status_code != default {
        push_all(&mut out, " ".as_bytes());
        let digits = dec_of(e.status_code as usize);
        push_all(&mut out, digits.as_slice());
    }
    proof {
        assert(out@ =~= render_line(k@, ev(*e), default));
    }
    out
}

/// Whether one of the held lines is `x`.
fn contains_line(v: &Vec<Vec<u8>>, x: &[u8]) -> (r: bool)
    ensures
        r == views(v@).contains(x@),
{
    let n: usize = v.len();
    let mut i: usize = 0;
    while i < n
        invariant
            0 <= i <= n == v@.len(),
            forall|j: int| 0 <= j < i ==> views(v@)[j] != x@,
        decreases n - i,
    {
        if bytes_eq(v[i].as_slice(), x) {
            proof {
                assert(views(v@)[i as int] == x@);
            }
            return true;
        }
        i = i + 1;
    }
    proof {
        if views(v@).contains(x@) {
            let j = choose|j: int| 0 <= j < views(v@).len() && views(v@)[j] == x@;
            assert(false);
        }
    }
    false
}

/// Sorts lines into lexicographic order, keeping exactly the same lines.
pub fn sort_lines(lines: Vec<Vec<u8>>) -> (r: Vec<Vec<u8>>)
    ensures
        sorted_lex(views(r@)),
        views(r@).to_multiset() == views(lines@).to_multiset(),
{
    let mut rest = lines;
    let mut out: Vec<Vec<u8>> = Vec::new();
    proof {
        assert(views(out@) =~= Seq::<Seq<u8>>::empty());
    }
    while rest.len() > 0
        invariant
            views(out@).to_multiset().add(views(rest@).to_multiset()) == views(
                lines@,
            ).to_multiset(),
            sorted_lex(views(out@)),
        decreases rest@.len(),
    {
        let ghost pre_rest = views(rest@);
        let item = rest.pop().unwrap();
        proof {
            assert(views(rest@) =~= pre_rest.drop_last());
            assert(pre_rest.drop_last() =~= pre_rest.remove(pre_rest.len() - 1));
            assert(views(rest@).to_multiset() =~= pre_rest.to_multiset().remove(item@));
        }
        // Find where the item belongs in the sorted output.
        let n: usize = out.len();
        let mut p: usize = 0;
        while p < n && !bytes_lt(item.as_slice(), out[p].as_slice())
            invariant
                0 <= p <= n == out@.len(),
                forall|j: int| 0 <= j < p ==> !lex_lt(item@, #[trigger] views(out@)[j]),
            decreases n - p,
        {
            p = p + 1;
        }
        let ghost pre_out = views(out@);
        out.insert(p, item);
        proof {
            assert(views(out@) =~= pre_out.insert(p as int, item@));
            assert(views(out@).to_multiset() =~= pre_out.to_multiset().insert(item@));
            assert forall|i: int, j: int|
                0 <= i < j < views(out@).len() implies lex_le(
                #[trigger] views(out@)[i],
                #[trigger] views(out@)[j],
            ) by {
                let s = views(out@);
                if j < p {
                    assert(s[i] == pre_out[i] && s[j] == pre_out[j]);
                } else if i > p {
                    assert(s[i] == pre_out[i - 1] && s[j] == pre_out[j - 1]);
                } else if i < p && j == p {
                    assert(s[i] == pre_out[i] && s[j] == item@);
                    assert(!lex_lt(item@, pre_out[i]));
                } else if i == p && j > p {
                    assert(s[i] == item@ && s[j] == pre_out[j - 1]);
                    assert(p < pre_out.len());
                    assert(lex_lt(item@, pre_out[p as int]));
                    if lex_lt(pre_out[j - 1], item@) {
                        if j - 1 > p {
                            assert(lex_le(pre_out[p as int], pre_out[j - 1]));
                            lemma_lex_trans(pre_out[j - 1], item@, pre_out[p as int]);
                        } else {
                            lemma_lex_trans(pre_out[p as int], item@, pre_out[p as int]);
                            crate::bytes::lemma_lex_irrefl(pre_out[p as int]);
                        }
                    }
                } else if i < p && j > p {
                    assert(s[i] == pre_out[i] && s[j] == pre_out[j - 1]);
                }
            }
        }
    }
    proof {
        assert(views(rest@).to_multiset() =~= Multiset::<Seq<u8>>::empty());
        assert(views(out@).to_multiset() =~= views(lines@).to_multiset());
    }
    out
}

/// Collects every line after the header of each excluded source, refusing
/// a source that does not open with the sentinel header.
fn collect_excluded(srcs: &Vec<RedirectsSource>, header: &Vec<u8>) -> (r: Result<
    Vec<Vec<u8>>,
    WriteError,
>)
    requires
        header@ == header_bytes(),
    ensures
        match r {
            Ok(ex) => (forall|i: int| 0 <= i < srcs@.len() ==> header_ok(#[trigger] srcs@[i]))
                && (forall|l: Seq<u8>| views(ex@).contains(l) <==> excl_set(srcs@).contains(l)),
            Err(e) => e matches WriteError::MissingHeader && exists|i: int|
                0 <= i < srcs@.len() && !header_ok(#[trigger] srcs@[i]),
        },
{
    let mut out: Vec<Vec<u8>> = Vec::new();
    let n: usize = srcs.len();
    let mut i: usize = 0;
    while i < n
        invariant
            header@ == header_bytes(),
            0 <= i <= n == srcs@.len(),
            forall|j: int| 0 <= j < i ==> header_ok(#[trigger] srcs@[j]),
            forall|l: Seq<u8>|
                views(out@).contains(l) <==> exists|j: int|
                    0 <= j < i && split_lines((#[trigger] srcs@[j]).contents@).skip(
                        1,
                    ).contains(l),
        decreases n - i,
    {
        let src = &srcs[i];
        let ls = split_into_lines(src.contents.as_slice());
        proof {
            assert(views(ls@) == split_lines(src.contents@));
        }
        if ls.len() == 0 {
            return Err(WriteError::MissingHeader);
        }
        if !bytes_eq(ls[0].as_slice(), header.as_slice()) {
            proof {
                assert(views(ls@)[0] == ls@[0]@);
            }
            return Err(WriteError::MissingHeader);
        }
        proof {
            assert(views(ls@)[0] == ls@[0]@);
            assert(header_ok(srcs@[i as int]));
        }
        let m: usize = ls.len();
        let mut t: usize = 1;
        while t < m
            invariant
                0 <= i < n == srcs@.len(),
                1 <= t <= m == ls@.len(),
                views(ls@) == split_lines(srcs@[i as int].contents@),
                forall|j: int| 0 <= j < i ==> header_ok(#[trigger] srcs@[j]),
                forall|l: Seq<u8>|
                    views(out@).contains(l) <==> (exists|j: int|
                        0 <= j < i && split_lines((#[trigger] srcs@[j]).contents@).skip(
                            1,
                        ).contains(l)) || views(ls@).skip(1).take(t - 1).contains(l),
            decreases m - t,
        {
            let ghost pre = views(out@);
            out.push(copy_bytes(ls[t].as_slice()));
            proof {
                assert(views(out@) =~= pre.push(ls@[t as int]@));
                assert(views(ls@).skip(1)[t - 1] == views(ls@)[t as int]);
                assert forall|l: Seq<u8>| views(out@).contains(l) implies ((exists|j: int|
                    0 <= j < i && split_lines((#[trigger] srcs@[j]).contents@).skip(
                        1,
                    ).contains(l)) || views(ls@).skip(1).take(t as int).contains(l)) by {
                    let x = choose|x: int| 0 <= x < views(out@).len() && views(out@)[x] == l;
                    if x < pre.len() {
                        assert(pre.contains(l));
                        if views(ls@).skip(1).take(t - 1).contains(l) {
                            let tk = views(ls@).skip(1).take(t - 1);
                            let y = choose|y: int| 0 <= y < tk.len() && tk[y] == l;
                            assert(views(ls@).skip(1).take(t as int)[y] == l);
                        }
                    } else {
                        assert(views(ls@).skip(1).take(t as int)[t - 1] == l);
                    }
                }
                assert forall|l: Seq<u8>| ((exists|j: int|
                    0 <= j < i && split_lines((#[trigger] srcs@[j]).contents@).skip(
                        1,
                    ).contains(l)) || views(ls@).skip(1).take(t as int).contains(l)) implies views(
                    out@,
                ).contains(l) by {
                    if views(ls@).skip(1).take(t as int).contains(l) {
                        let tk = views(ls@).skip(1).take(t as int);
                        let y = choose|y: int| 0 <= y < tk.len() && tk[y] == l;
                        if y < t - 1 {
                            assert(views(ls@).skip(1).take(t - 1)[y] == l);
                            assert(pre.contains(l));
                            let x = choose|x: int| 0 <= x < pre.len() && pre[x] == l;
                            assert(views(out@)[x] == l);
                        } else {
                            assert(views(out@)[views(out@).len() - 1] == l);
                        }
                    } else {
                        assert(pre.contains(l));
                        let x = choose|x: int| 0 <= x < pre.len() && pre[x] == l;
                        assert(views(out@)[x] == l);
                    }
                }
            }
            t = t + 1;
        }
        proof {
            let lsv = views(ls@);
            assert(lsv.skip(1).take(m - 1) =~= lsv.skip(1));
            assert forall|l: Seq<u8>| views(out@).contains(l) implies (exists|j: int|
                0 <= j < i + 1 && split_lines((#[trigger] srcs@[j]).contents@).skip(
                    1,
                ).contains(l)) by {
                if lsv.skip(1).contains(l) {
                    assert(split_lines(srcs@[i as int].contents@).skip(1).contains(l));
                }
            }
            assert forall|l: Seq<u8>| (exists|j: int|
                0 <= j < i + 1 && split_lines((#[trigger] srcs@[j]).contents@).skip(
                    1,
                ).contains(l)) implies views(out@).contains(l) by {
                let j = choose|j: int|
                    0 <= j < i + 1 && split_lines((#[trigger] srcs@[j]).contents@).skip(
                        1,
                    ).contains(l);
                if j == i {
                    assert(lsv.skip(1).contains(l));
                }
            }
        }
        i = i + 1;
    }
    proof {
        assert forall|l: Seq<u8>| views(out@).contains(l) <==> excl_set(srcs@).contains(l) by {}
    }
    Ok(out)
}

/// Reading a rendered rule line back yields the rule it renders: the line
/// parses, its source and target are the entry's, and the selected status
/// code is the entry's, whether written out or left to the default. With
/// this, recompiling already-written output reproduces each rule; a rule
/// whose source or target holds a number sign is the one exception, since
/// the marker would truncate the line as a comment.
pub proof fn lemma_reparse_line(
    k: Seq<u8>,
    v: EntryV,
    default: u16,
    checks: crate::validate::ValidationBehaviors,
)
    requires
        k.len() > 0,
        !crate::bytes::has_ws(k),
        crate::validate::valid_source(k),
        v.to.len() > 0,
        !crate::bytes::has_ws(v.to),
        crate::validate::valid_target(v.to),
        301 <= v.status <= 399,
        v.to != k,
        !k.contains(35),
        !v.to.contains(35),
    ensures
        ({
            let toks = crate::lines::tokenize(
                crate::lines::strip_comment(render_line(k, v, default)),
            );
            &&& crate::rules::line_ok(toks, default, checks)
            &&& toks[0] == k
            &&& toks[1] == v.to
            &&& crate::rules::line_status(toks, default) == Some(v.status)
        }),
{
    let line = render_line(k, v, default);
    crate::lines::lemma_space_byte();
    let sp = (" ").spec_bytes();
    if v.status == default {
        assert(line =~= k + sp + v.to);
    }
    // No byte of the line is the comment marker, so nothing is stripped.
    assert forall|j: int| 0 <= j < line.len() implies line[j] != 35 by {
        if j < k.len() {
            assert(line[j] == k[j]);
            assert(!k.contains(k[j]) ==> true);
            if k[j] == 35 {
                assert(k.contains(k[j]));
            }
        } else if j == k.len() {
            assert(line[j] == 32);
        } else if j < k.len() + 1 + v.to.len() {
            assert(line[j] == v.to[j - k.len() - 1]);
            if v.to[j - k.len() - 1] == 35 {
                assert(v.to.contains(v.to[j - k.len() - 1]));
            }
        } else {
            let suffix = sp + crate::num::dec_digits(v.status as int);
            assert(v.status != default);
            assert(line[j] == suffix[j - k.len() - 1 - v.to.len()]);
            crate::num::lemma_dec_digits_val(v.status as int);
            if j == k.len() + 1 + v.to.len() {
                assert(line[j] == 32);
            } else {
                assert(crate::num::is_digit(line[j]));
            }
        }
    }
    crate::lines::lemma_find_byte_is(line, 35, line.len() as int);
    assert(crate::lines::strip_comment(line) =~= line);
    if v.status == default {
        crate::lines::lemma_tokenize_two(k, v.to);
        assert(crate::lines::tokenize(line) == seq![k, v.to]);
    } else {
        let dd = crate::num::dec_digits(v.status as int);
        crate::num::lemma_dec_digits_val(v.status as int);
        crate::num::lemma_dec_digits_three(v.status as int);
        assert(!crate::bytes::has_ws(dd)) by {
            if crate::bytes::has_ws(dd) {
                let j = choose|j: int| 0 <= j < dd.len() && crate::bytes::is_ws(dd[j]);
                assert(crate::num::is_digit(dd[j]));
            }
        }
        crate::lines::lemma_tokenize_three(k, v.to, dd);
        assert(line =~= k + sp + v.to + sp + dd);
        assert(crate::lines::tokenize(line) == seq![k, v.to, dd]);
        assert(crate::num::parse_u16_spec(dd) == Some(v.status)) by {
            assert(dd.len() > 0 && dd[0] != 43) by {
                assert(crate::num::is_digit(dd[0]));
            }
            assert(crate::num::digits_val(dd) == v.status);
        }
    }
}

/// A rendered rule line is nonempty, holds no line feed, and does not end
/// in a carriage return: joined with line feeds, such lines split back
/// apart cleanly.
pub proof fn lemma_render_line_bytes(k: Seq<u8>, v: EntryV, default: u16)
    requires
        k.len() > 0,
        !crate::bytes::has_ws(k),
        v.to.len() > 0,
        !crate::bytes::has_ws(v.to),
        301 <= v.status <= 399,
    ensures
        !render_line(k, v, default).contains(10),
        render_line(k, v, default).len() > 0,
        render_line(k, v, default).last() != 13,
{
    let line = render_line(k, v, default);
    crate::lines::lemma_space_byte();
    let sp = (" ").spec_bytes();
    if v.status != default {
        crate::num::lemma_dec_digits_val(v.status as int);
    }
    assert forall|j: int| 0 <= j < line.len() implies line[j] != 10 && !(j == line.len() - 1
        && line[j] == 13) by {
        if j < k.len() {
            assert(line[j] == k[j]);
            if crate::bytes::is_ws(k[j]) {
                assert(crate::bytes::has_ws(k));
            }
        } else if j == k.len() {
            assert(line[j] == 32);
        } else if j < k.len() + 1 + v.to.len() {
            assert(line[j] == v.to[j - k.len() - 1]);
            if crate::bytes::is_ws(v.to[j - k.len() - 1]) {
                assert(crate::bytes::has_ws(v.to));
            }
        } else {
            let suffix = sp + crate::num::dec_digits(v.status as int);
            assert(v.status != default);
            assert(line[j] == suffix[j - k.len() - 1 - v.to.len()]);
            if j == k.len() + 1 + v.to.len() {
                assert(line[j] == 32);
            } else {
                assert(crate::num::is_digit(line[j]));
            }
        }
    }
    if line.contains(10) {
        let j = choose|j: int| 0 <= j < line.len() && line[j] == 10;
        assert(false);
    }
}

/// Absorbing a rendered rule line re-inserts exactly the rendered rule,
/// with the new origin and line number, and records no failure.
pub proof fn lemma_reparse_absorb(
    v: crate::rules::RmV,
    origin: Seq<u8>,
    k: Seq<u8>,
    e: EntryV,
    line_no: int,
    default: u16,
    checks: crate::validate::ValidationBehaviors,
)
    requires
        k.len() > 0,
        !crate::bytes::has_ws(k),
        crate::validate::valid_source(k),
        e.to.len() > 0,
        !crate::bytes::has_ws(e.to),
        crate::validate::valid_target(e.to),
        301 <= e.status <= 399,
        e.to != k,
        !k.contains(35),
        !e.to.contains(35),
    ensures
        crate::rules::absorb_line(v, origin, render_line(k, e, default), line_no, default, checks)
            == (crate::rules::RmV {
            m: v.m.insert(
                k,
                EntryV { to: e.to, status: e.status, origin: origin, line_no: line_no },
            ),
            errs: v.errs,
        }),
{
    lemma_reparse_line(k, e, default, checks);
}

impl RedirectsMap {
    /// The lines of the compiled rule file: one line per rule, sorted,
    /// with lines already present in the excluded sources dropped. The
    /// sentinel header is not included; writing it is the caller's part.
    pub fn write_to_file(&self, excluded_rules: Option<&Vec<RedirectsSource>>) -> (r: Result<
        Vec<Vec<u8>>,
        WriteError,
    >)
        requires
            self.wf(),
        ensures
            ({
                let ex = match excluded_rules {
                    Some(srcs) => excl_set(srcs@),
                    None => Set::<Seq<u8>>::empty(),
                };
                let kept = renders_of(self.entries@, self.default_status_code).filter(
                    |l: Seq<u8>| !ex.contains(l),
                );
                match r {
                    Ok(lines) => kept.len() > 0 && sorted_lex(views(lines@)) && views(
                        lines@,
                    ).to_multiset() == kept.to_multiset(),
                    Err(e) => match e {
                        WriteError::MissingHeader => excluded_rules matches Some(srcs)
                            && exists|i: int|
                            0 <= i < srcs@.len() && !header_ok(#[trigger] srcs@[i]),
                        WriteError::NoNewRules => kept.len() == 0 && (excluded_rules matches Some(
                            srcs,
                        ) ==> forall|i: int|
                            0 <= i < srcs@.len() ==> header_ok(#[trigger] srcs@[i])),
                    },
                }
            }),
    {
        broadcast use vstd::seq_lib::group_seq_lib_default;

        let header = crate::compile::generated_file_header();
        let mut ex_lines: Vec<Vec<u8>> = Vec::new();
        let mut have_ex: bool = false;
        match excluded_rules {
            Some(srcs) => {
                match collect_excluded(srcs, &header) {
                    Ok(v) => {
                        ex_lines = v;
                        have_ex = true;
                    },
                    Err(e) => {
                        return Err(e);
                    },
                }
            },
            None => {},
        }
        let ghost ex = match excluded_rules {
            Some(srcs) => excl_set(srcs@),
            None => Set::<Seq<u8>>::empty(),
        };
        proof {
            assert forall|l: Seq<u8>| views(ex_lines@).contains(l) <==> ex.contains(l) by {
                if !have_ex {
                    assert(views(ex_lines@) =~= Seq::<Seq<u8>>::empty());
                }
            }
        }
        let ghost pred = |l: Seq<u8>| !ex.contains(l);
        let n: usize = self.entries.len();
        let mut kept_lines: Vec<Vec<u8>> = Vec::new();
        let mut i: usize = 0;
        proof {
            assert(renders_of(self.entries@, self.default_status_code).take(0).filter(pred)
                =~= Seq::<Seq<u8>>::empty());
            assert(views(kept_lines@) =~= Seq::<Seq<u8>>::empty());
        }
        while i < n
            invariant
                self.wf(),
                n == self.entries@.len(),
                0 <= i <= n,
                forall|l: Seq<u8>| views(ex_lines@).contains(l) <==> ex.contains(l),
                pred == (|l: Seq<u8>| !ex.contains(l)),
                views(kept_lines@) == renders_of(self.entries@, self.default_status_code).take(
                    i as int,
                ).filter(pred),
            decreases n - i,
        {
            let ghost rs = renders_of(self.entries@, self.default_status_code);
            let line = render_entry(
                self.entries[i].0.as_slice(),
                &self.entries[i].1,
                self.default_status_code,
            );
            proof {
                assert(rs[i as int] == line@);
                assert(rs.take(i + 1) =~= rs.take(i as int).push(rs[i as int]));
                rs.take(i as int).lemma_filter_push(rs[i as int], pred);
            }
            if !contains_line(&ex_lines, line.as_slice()) {
                let ghost pre = views(kept_lines@);
                kept_lines.push(line);
                proof {
                    assert(views(kept_lines@) =~= pre.push(rs[i as int]));
                    assert(views(kept_lines@) =~= rs.take(i + 1).filter(pred));
                }
            } else {
                proof {
                    assert(views(kept_lines@) =~= rs.take(i + 1).filter(pred));
                }
            }
            i = i + 1;
        }
        proof {
            let rs = renders_of(self.entries@, self.default_status_code);
            assert(rs.take(n as int) =~= rs);
        }
        if kept_lines.len() == 0 {
            return Err(WriteError::NoNewRules);
        }
        let sorted = sort_lines(kept_lines);
        Ok(sorted)
    }
}

} // verus!
