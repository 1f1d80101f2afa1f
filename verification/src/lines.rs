//! Line and token structure of rule-file text: splitting contents into
//! lines, truncating a line at its comment marker, and splitting the rest
//! into whitespace-separated tokens. The byte-level model fixes the token
//! separators as the ASCII whitespace bytes; multi-byte spacing
//! characters pass through as ordinary token bytes.

use vstd::prelude::*;
use vstd::string::StringSliceAdditionalSpecFns;
use crate::bytes::{byte_is_ws, is_ws};

verus! {

/// The views of a sequence of byte vectors.
pub open spec fn views(vs: Seq<Vec<u8>>) -> Seq<Seq<u8>> {
    vs.map_values(|v: Vec<u8>| v@)
}

/// Index of the first occurrence of `b` in `s`, or `s.len()` if absent.
pub open spec fn find_byte(s: Seq<u8>, b: u8) -> int
    decreases s.len(),
{
    if s.len() == 0 {
        0
    } else if s[0] == b {
        0
    } else {
        1 + find_byte(s.drop_first(), b)
    }
}

/// What `find_byte` returns: the first position holding `b`, if any.
pub proof fn lemma_find_byte(s: Seq<u8>, b: u8)
    ensures
        0 <= find_byte(s, b) <= s.len(),
        find_byte(s, b) < s.len() ==> s[find_byte(s, b)] == b,
        forall|j: int| 0 <= j < find_byte(s, b) ==> s[j] != b,
    decreases s.len(),
{
    if s.len() > 0 && s[0] != b {
        lemma_find_byte(s.drop_first(), b);
        assert forall|j: int| 0 <= j < find_byte(s, b) implies s[j] != b by {
            if j > 0 {
                assert(s.drop_first()[j - 1] != b);
                assert(s[j] == s.drop_first()[j - 1]);
            }
        }
    }
}

/// A position before which `b` is absent, and which holds `b` or ends `s`,
/// is where `find_byte` points.
pub proof fn lemma_find_byte_is(s: Seq<u8>, b: u8, k: int)
    requires
        0 <= k <= s.len(),
        forall|j: int| 0 <= j < k ==> s[j] != b,
        k < s.len() ==> s[k] == b,
    ensures
        find_byte(s, b) == k,
    decreases s.len(),
{
    if s.len() > 0 && s[0] != b {
        assert(forall|j: int| 0 <= j < k - 1 ==> #[trigger] s.drop_first()[j] == s[j + 1]);
        lemma_find_byte_is(s.drop_first(), b, k - 1);
    }
}

/// A line with its terminator's optional carriage return removed.
pub open spec fn chop_cr(l: Seq<u8>) -> Seq<u8> {
    if l.len() > 0 && l[l.len() - 1] == 13 {
        l.drop_last()
    } else {
        l
    }
}

/// The lines of `s`: segments split at line feeds, each split-off segment
/// with an optional carriage return before the line feed removed; a final
/// segment without a terminator is kept whole, and a trailing terminator
/// opens no further line.
pub open spec fn split_lines(s: Seq<u8>) -> Seq<Seq<u8>>
    decreases s.len(),
{
    if s.len() == 0 {
        Seq::empty()
    } else {
        let i = find_byte(s, 10);
        if 0 <= i < s.len() {
            seq![chop_cr(s.take(i))] + split_lines(s.skip(i + 1))
        } else {
            seq![s]
        }
    }
}

/// `l` truncated at its first comment marker, a number sign.
pub open spec fn strip_comment(l: Seq<u8>) -> Seq<u8> {
    l.take(find_byte(l, 35))
}

/// Length of the whitespace run at the start of `s`.
pub open spec fn ws_run(s: Seq<u8>) -> int
    decreases s.len(),
{
    if s.len() == 0 {
        0
    } else if is_ws(s[0]) {
        1 + ws_run(s.drop_first())
    } else {
        0
    }
}

/// Length of the token (non-whitespace run) at the start of `s`.
pub open spec fn token_run(s: Seq<u8>) -> int
    decreases s.len(),
{
    if s.len() == 0 {
        0
    } else if !is_ws(s[0]) {
        1 + token_run(s.drop_first())
    } else {
        0
    }
}

/// What `ws_run` and `token_run` return: maximal runs from the start.
pub proof fn lemma_runs(s: Seq<u8>)
    ensures
        0 <= ws_run(s) <= s.len(),
        forall|j: int| 0 <= j < ws_run(s) ==> is_ws(s[j]),
        ws_run(s) < s.len() ==> !is_ws(s[ws_run(s)]),
        0 <= token_run(s) <= s.len(),
        forall|j: int| 0 <= j < token_run(s) ==> !is_ws(s[j]),
        token_run(s) < s.len() ==> is_ws(s[token_run(s)]),
        s.len() > 0 && is_ws(s[0]) ==> ws_run(s) >= 1,
        s.len() > 0 && !is_ws(s[0]) ==> token_run(s) >= 1,
    decreases s.len(),
{
    if s.len() > 0 {
        let d = s.drop_first();
        lemma_runs(d);
        assert(forall|j: int| 0 <= j < s.len() - 1 ==> #[trigger] d[j] == s[j + 1]);
        assert forall|j: int| 0 <= j < ws_run(s) implies is_ws(s[j]) by {
            if j > 0 {
                assert(is_ws(d[j - 1]));
            }
        }
        assert forall|j: int| 0 <= j < token_run(s) implies !is_ws(s[j]) by {
            if j > 0 {
                assert(!is_ws(d[j - 1]));
            }
        }
        if is_ws(s[0]) && ws_run(s) < s.len() {
            assert(s[ws_run(s)] == d[ws_run(d)]);
        }
        if !is_ws(s[0]) && token_run(s) < s.len() {
            assert(s[token_run(s)] == d[token_run(d)]);
        }
    }
}

/// A position bounding a maximal run from the start is the run's length.
pub proof fn lemma_runs_are(s: Seq<u8>, k: int, ws: bool)
    requires
        0 <= k <= s.len(),
        forall|j: int| 0 <= j < k ==> is_ws(s[j]) == ws,
        k < s.len() ==> is_ws(s[k]) != ws,
    ensures
        ws ==> ws_run(s) == k,
        !ws ==> token_run(s) == k,
    decreases s.len(),
{
    if s.len() > 0 && k > 0 {
        assert(forall|j: int| 0 <= j < k - 1 ==> #[trigger] s.drop_first()[j] == s[j + 1]);
        lemma_runs_are(s.drop_first(), k - 1, ws);
    }
}

/// The whitespace-separated tokens of `s`, in order.
pub open spec fn tokenize(s: Seq<u8>) -> Seq<Seq<u8>>
    decreases s.len(),
{
    if s.len() == 0 {
        Seq::empty()
    } else if is_ws(s[0]) {
        let i = ws_run(s);
        if 0 < i <= s.len() {
            tokenize(s.skip(i))
        } else {
            Seq::empty()
        }
    } else {
        let n = token_run(s);
        if 0 < n <= s.len() {
            seq![s.take(n)] + tokenize(s.skip(n))
        } else {
            Seq::empty()
        }
    }
}

/// Every token is nonempty and holds no whitespace.
pub proof fn lemma_tokens_wf(s: Seq<u8>)
    ensures
        forall|t: int| 0 <= t < tokenize(s).len() ==> (#[trigger] tokenize(s)[t]).len() > 0,
        forall|t: int, j: int|
            0 <= t < tokenize(s).len() && 0 <= j < tokenize(s)[t].len() ==> !is_ws(
                #[trigger] tokenize(s)[t][j],
            ),
    decreases s.len(),
{
    lemma_runs(s);
    if s.len() > 0 {
        if is_ws(s[0]) {
            lemma_tokens_wf(s.skip(ws_run(s)));
            assert(tokenize(s) == tokenize(s.skip(ws_run(s))));
        } else {
            let n = token_run(s);
            lemma_tokens_wf(s.skip(n));
            let ts = tokenize(s);
            assert(ts == seq![s.take(n)] + tokenize(s.skip(n)));
            assert forall|t: int| 0 <= t < ts.len() implies (#[trigger] ts[t]).len() > 0 by {
                if t > 0 {
                    assert(ts[t] == tokenize(s.skip(n))[t - 1]);
                }
            }
            assert forall|t: int, j: int|
                0 <= t < ts.len() && 0 <= j < ts[t].len() implies !is_ws(
                #[trigger] ts[t][j],
            ) by {
                if t == 0 {
                    assert(ts[0] == s.take(n));
                    assert(ts[0][j] == s[j]);
                } else {
                    assert(ts[t] == tokenize(s.skip(n))[t - 1]);
                }
            }
        }
    }
}

/// `s` has no tokens exactly when it is all whitespace.
pub proof fn lemma_tokenize_empty(s: Seq<u8>)
    ensures
        tokenize(s).len() == 0 <==> (forall|i: int| 0 <= i < s.len() ==> is_ws(s[i])),
    decreases s.len(),
{
    lemma_runs(s);
    if s.len() > 0 {
        if is_ws(s[0]) {
            lemma_tokenize_empty(s.skip(ws_run(s)));
            assert(forall|j: int| 0 <= j < s.len() - ws_run(s) ==> #[trigger] s.skip(ws_run(s))[j]
                == s[j + ws_run(s)]);
        }
    }
}

/// Copy of `s[a..b]`.
pub fn copy_range(s: &[u8], a: usize, b: usize) -> (r: Vec<u8>)
    requires
        a <= b <= s@.len(),
    ensures
        r@ == s@.subrange(a as int, b as int),
{
    let mut r: Vec<u8> = Vec::new();
    let mut i: usize = a;
    while i < b
        invariant
            a <= i <= b <= s@.len(),
            r@ == s@.subrange(a as int, i as int),
        decreases b - i,
    {
        r.push(s[i]);
        proof {
            assert(s@.subrange(a as int, i as int).push(s@[i as int]) =~= s@.subrange(
                a as int,
                i + 1,
            ));
        }
        i = i + 1;
    }
    r
}

/// Index of the first line feed at or after `from`, or the length of `s`.
fn find_nl_from(s: &[u8], from: usize) -> (r: usize)
    requires
        from <= s@.len(),
    ensures
        from <= r <= s@.len(),
        r - from == find_byte(s@.skip(from as int), 10),
{
    let n: usize = s.len();
    let mut j: usize = from;
    while j < n
        invariant
            from <= j <= n == s@.len(),
            forall|t: int| from <= t < j ==> s@[t] != 10,
        decreases n - j,
    {
        if s[j] == 10 {
            proof {
                assert(forall|t: int| 0 <= t < j - from ==> #[trigger] s@.skip(from as int)[t]
                    == s@[t + from]);
                lemma_find_byte_is(s@.skip(from as int), 10, j - from);
            }
            return j;
        }
        j = j + 1;
    }
    proof {
        assert(forall|t: int| 0 <= t < n - from ==> #[trigger] s@.skip(from as int)[t] == s@[t
            + from]);
        lemma_find_byte_is(s@.skip(from as int), 10, n - from);
    }
    n
}

/// The lines of `s`, as `split_lines` describes them.
pub fn split_into_lines(s: &[u8]) -> (r: Vec<Vec<u8>>)
    ensures
        views(r@) == split_lines(s@),
{
    let n: usize = s.len();
    let mut r: Vec<Vec<u8>> = Vec::new();
    let mut p: usize = 0;
    proof {
        assert(s@.skip(0) =~= s@);
        assert(views(r@) + split_lines(s@) =~= split_lines(s@));
    }
    while p < n
        invariant
            0 <= p <= n == s@.len(),
            views(r@) + split_lines(s@.skip(p as int)) =~= split_lines(s@),
        decreases n - p,
    {
        let ghost rest = s@.skip(p as int);
        let j = find_nl_from(s, p);
        proof {
            lemma_find_byte(rest, 10);
        }
        let line: Vec<u8> = if j < n {
            // The segment ends at a line feed: drop an optional carriage return.
            if j > p && s[j - 1] == 13 {
                copy_range(s, p, j - 1)
            } else {
                copy_range(s, p, j)
            }
        } else {
            copy_range(s, p, n)
        };
        proof {
            let i = find_byte(rest, 10);
            assert(rest.take(i) =~= s@.subrange(p as int, j as int));
            if j < n {
                assert(rest.skip(i + 1) =~= s@.skip(j + 1));
                if j > p && s@[j - 1] == 13 {
                    assert(rest.take(i).drop_last() =~= s@.subrange(p as int, j - 1));
                    assert(line@ == chop_cr(rest.take(i)));
                } else {
                    assert(line@ == chop_cr(rest.take(i)));
                }
                assert(split_lines(rest) == seq![chop_cr(rest.take(i))] + split_lines(
                    s@.skip(j + 1),
                ));
            } else {
                assert(line@ =~= rest);
                assert(split_lines(rest) == seq![rest]);
                assert(s@.skip(n as int) =~= Seq::<u8>::empty());
            }
        }
        let ghost prev = r@;
        r.push(line);
        p = if j < n {
            j + 1
        } else {
            n
        };
        proof {
            assert(views(r@) =~= views(prev).push(line@));
            assert(split_lines(rest) =~= seq![line@] + split_lines(s@.skip(p as int)));
            assert(views(prev).push(line@) + split_lines(s@.skip(p as int)) =~= views(prev)
                + split_lines(rest));
        }
    }
    proof {
        assert(s@.skip(n as int) =~= Seq::<u8>::empty());
    }
    r
}

/// Skipping one leading whitespace byte leaves the tokens unchanged.
proof fn lemma_tokenize_ws_step(s: Seq<u8>)
    requires
        s.len() > 0,
        is_ws(s[0]),
    ensures
        tokenize(s) == tokenize(s.drop_first()),
{
    lemma_runs(s);
    let d = s.drop_first();
    lemma_runs(d);
    assert(ws_run(s) == 1 + ws_run(d));
    if d.len() > 0 && is_ws(d[0]) {
        assert(d.skip(ws_run(d)) =~= s.skip(ws_run(s)));
    } else {
        assert(s.skip(ws_run(s)) =~= d);
    }
}

/// The given lines joined back into file text, each line closed by a line
/// feed, from index `i` on.
pub open spec fn join_lines(ls: Seq<Seq<u8>>, i: int) -> Seq<u8>
    decreases ls.len() - i,
{
    if i < 0 || i >= ls.len() {
        Seq::empty()
    } else {
        ls[i] + seq![10u8] + join_lines(ls, i + 1)
    }
}

/// Splitting joined lines recovers them, for lines free of line feeds and
/// not ending in a carriage return.
pub proof fn lemma_split_join(ls: Seq<Seq<u8>>, i: int)
    requires
        0 <= i <= ls.len(),
        forall|t: int| 0 <= t < ls.len() ==> !(#[trigger] ls[t]).contains(10),
        forall|t: int|
            0 <= t < ls.len() && (#[trigger] ls[t]).len() > 0 ==> ls[t].last() != 13,
    ensures
        split_lines(join_lines(ls, i)) == ls.skip(i),
    decreases ls.len() - i,
{
    if i >= ls.len() {
        assert(ls.skip(i) =~= Seq::<Seq<u8>>::empty());
    } else {
        lemma_split_join(ls, i + 1);
        let s = join_lines(ls, i);
        let head = ls[i];
        let rest = join_lines(ls, i + 1);
        assert(s =~= head + seq![10u8] + rest);
        assert forall|j: int| 0 <= j < head.len() implies s[j] != 10 by {
            assert(s[j] == head[j]);
            if head[j] == 10 {
                assert(head.contains(head[j]));
            }
        }
        assert(s[head.len() as int] == 10);
        lemma_find_byte_is(s, 10, head.len() as int);
        assert(s.take(head.len() as int) =~= head);
        assert(chop_cr(head) == head);
        assert(s.skip(head.len() + 1int) =~= rest);
        assert(seq![head] + ls.skip(i + 1) =~= ls.skip(i));
    }
}

/// A nonempty whitespace-free byte string is one whole token.
pub proof fn lemma_tokenize_single(t: Seq<u8>)
    requires
        t.len() > 0,
        !crate::bytes::has_ws(t),
    ensures
        tokenize(t) == seq![t],
{
    assert(forall|j: int| 0 <= j < t.len() ==> !is_ws(t[j]));
    lemma_runs_are(t, t.len() as int, false);
    assert(t.take(t.len() as int) =~= t);
    assert(t.skip(t.len() as int) =~= Seq::<u8>::empty());
    assert(tokenize(Seq::<u8>::empty()) =~= Seq::<Seq<u8>>::empty());
    assert(tokenize(t) =~= seq![t]);
}

/// A whitespace-free token followed by text that opens with whitespace
/// contributes itself, then the rest's tokens.
pub proof fn lemma_tokenize_lead(t: Seq<u8>, rest: Seq<u8>)
    requires
        t.len() > 0,
        !crate::bytes::has_ws(t),
        rest.len() > 0,
        is_ws(rest[0]),
    ensures
        tokenize(t + rest) == seq![t] + tokenize(rest),
{
    let s = t + rest;
    assert(forall|j: int| 0 <= j < t.len() ==> s[j] == t[j]);
    assert(forall|j: int| 0 <= j < t.len() ==> !is_ws(s[j]));
    assert(s[t.len() as int] == rest[0]);
    lemma_runs_are(s, t.len() as int, false);
    assert(s.take(t.len() as int) =~= t);
    assert(s.skip(t.len() as int) =~= rest);
    assert(tokenize(s) == seq![t] + tokenize(rest));
}

/// The single space byte, as that string literal's bytes.
pub proof fn lemma_space_byte()
    ensures
        (" ").spec_bytes() =~= seq![32u8],
{
    broadcast use vstd::string::is_ascii_spec_bytes;

    assert(vstd::string::is_ascii(" ")) by {
        reveal_strlit(" ");
    }
    assert((" ").spec_bytes() =~= seq![32u8]) by {
        reveal_strlit(" ");
    }
}

/// Two whitespace-free tokens joined by a space tokenize to themselves.
pub proof fn lemma_tokenize_two(a: Seq<u8>, b: Seq<u8>)
    requires
        a.len() > 0,
        !crate::bytes::has_ws(a),
        b.len() > 0,
        !crate::bytes::has_ws(b),
    ensures
        tokenize(a + (" ").spec_bytes() + b) == seq![a, b],
{
    lemma_space_byte();
    let sp = (" ").spec_bytes();
    let rest = sp + b;
    assert(a + sp + b =~= a + rest);
    assert(rest[0] == 32 && is_ws(rest[0]));
    lemma_tokenize_lead(a, rest);
    lemma_tokenize_ws_step(rest);
    assert(rest.drop_first() =~= b);
    lemma_tokenize_single(b);
    assert(seq![a] + seq![b] =~= seq![a, b]);
}

/// Three whitespace-free tokens joined by spaces tokenize to themselves.
pub proof fn lemma_tokenize_three(a: Seq<u8>, b: Seq<u8>, c: Seq<u8>)
    requires
        a.len() > 0,
        !crate::bytes::has_ws(a),
        b.len() > 0,
        !crate::bytes::has_ws(b),
        c.len() > 0,
        !crate::bytes::has_ws(c),
    ensures
        tokenize(a + (" ").spec_bytes() + b + (" ").spec_bytes() + c) == seq![a, b, c],
{
    lemma_space_byte();
    let sp = (" ").spec_bytes();
    let tail = sp + b + sp + c;
    assert(a + sp + b + sp + c =~= a + tail);
    assert(tail[0] == 32 && is_ws(tail[0]));
    lemma_tokenize_lead(a, tail);
    lemma_tokenize_ws_step(tail);
    let tail2 = b + sp + c;
    assert(tail.drop_first() =~= tail2);
    let rest = sp + c;
    assert(tail2 =~= b + rest);
    assert(rest[0] == 32 && is_ws(rest[0]));
    lemma_tokenize_lead(b, rest);
    lemma_tokenize_ws_step(rest);
    assert(rest.drop_first() =~= c);
    lemma_tokenize_single(c);
    assert(seq![a] + (seq![b] + seq![c]) =~= seq![a, b, c]);
}

/// `l` truncated at its first comment marker.
pub fn strip_comment_of(l: &[u8]) -> (r: Vec<u8>)
    ensures
        r@ == strip_comment(l@),
{
    let n: usize = l.len();
    let mut j: usize = 0;
    while j < n
        invariant
            0 <= j <= n == l@.len(),
            forall|t: int| 0 <= t < j ==> l@[t] != 35,
        decreases n - j,
    {
        if l[j] == 35 {
            proof {
                lemma_find_byte_is(l@, 35, j as int);
            }
            return copy_range(l, 0, j);
        }
        j = j + 1;
    }
    proof {
        lemma_find_byte_is(l@, 35, n as int);
        assert(l@.subrange(0, n as int) =~= l@.take(n as int));
    }
    copy_range(l, 0, n)
}

/// Whether `l` holds any token, that is any byte that is not whitespace.
pub fn line_has_token(l: &[u8]) -> (r: bool)
    ensures
        r == (tokenize(l@).len() != 0),
{
    let n: usize = l.len();
    let mut j: usize = 0;
    while j < n
        invariant
            0 <= j <= n == l@.len(),
            forall|t: int| 0 <= t < j ==> is_ws(l@[t]),
        decreases n - j,
    {
        if !byte_is_ws(l[j]) {
            proof {
                lemma_tokenize_empty(l@);
            }
            return true;
        }
        j = j + 1;
    }
    proof {
        lemma_tokenize_empty(l@);
    }
    false
}

/// The whitespace-separated tokens of `l`, as `tokenize` describes them.
pub fn tokenize_line(l: &[u8]) -> (r: Vec<Vec<u8>>)
    ensures
        views(r@) == tokenize(l@),
{
    let n: usize = l.len();
    let mut r: Vec<Vec<u8>> = Vec::new();
    let mut p: usize = 0;
    proof {
        assert(l@.skip(0) =~= l@);
        assert(views(r@) + tokenize(l@) =~= tokenize(l@));
    }
    while p < n
        invariant
            0 <= p <= n == l@.len(),
            views(r@) + tokenize(l@.skip(p as int)) =~= tokenize(l@),
        decreases n - p,
    {
        let ghost rest = l@.skip(p as int);
        if byte_is_ws(l[p]) {
            proof {
                lemma_tokenize_ws_step(rest);
                assert(rest.drop_first() =~= l@.skip(p + 1));
            }
            p = p + 1;
        } else {
            let mut j: usize = p + 1;
            while j < n && !byte_is_ws(l[j])
                invariant
                    p < j <= n == l@.len(),
                    forall|t: int| p <= t < j ==> !is_ws(l@[t]),
                decreases n - j,
            {
                j = j + 1;
            }
            let tok = copy_range(l, p, j);
            proof {
                let k = j - p;
                assert(forall|t: int| 0 <= t < k ==> #[trigger] rest[t] == l@[t + p]);
                lemma_runs_are(rest, k as int, false);
                assert(tokenize(rest) == seq![rest.take(k as int)] + tokenize(rest.skip(k as int)));
                assert(tok@ =~= rest.take(k as int));
                assert(rest.skip(k as int) =~= l@.skip(j as int));
            }
            let ghost prev = r@;
            r.push(tok);
            proof {
                assert(views(r@) =~= views(prev).push(tok@));
                assert(views(prev).push(tok@) + tokenize(l@.skip(j as int)) =~= views(prev)
                    + tokenize(rest));
            }
            p = j;
        }
    }
    proof {
        assert(l@.skip(n as int) =~= Seq::<u8>::empty());
    }
    r
}

} // verus!
