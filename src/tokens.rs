//! Whitespace tokenization and decimal number parsing over bytes.
use vstd::prelude::*;

verus! {

/// The bytes that `u8::is_ascii_whitespace` accepts.
pub open spec fn is_space(b: u8) -> bool {
    b == 0x20 || b == 0x09 || b == 0x0a || b == 0x0c || b == 0x0d
}

/// The `(start, end)` byte ranges of the maximal runs of non-whitespace bytes, in order.
pub open spec fn spans(b: Seq<u8>) -> Seq<(int, int)>
    decreases b.len(),
{
    if b.len() == 0 {
        seq![]
    } else {
        let n = b.len() as int;
        let prev = spans(b.take(n - 1));
        if is_space(b[n - 1]) {
            prev
        } else if n >= 2 && !is_space(b[n - 2]) && prev.len() > 0 {
            prev.update(prev.len() - 1, (prev.last().0, n))
        } else {
            prev.push((n - 1, n))
        }
    }
}

/// The tokens of `b`: its maximal runs of non-whitespace bytes.
pub open spec fn tokens(b: Seq<u8>) -> Seq<Seq<u8>> {
    spans(b).map_values(|sp: (int, int)| b.subrange(sp.0, sp.1))
}

/// Byte ranges as integers.
pub open spec fn span_ints(v: Seq<(usize, usize)>) -> Seq<(int, int)> {
    v.map_values(|p: (usize, usize)| (p.0 as int, p.1 as int))
}

/// Token ranges lie within the text, and a text that ends in a non-whitespace
/// byte ends with a token.
pub proof fn lemma_spans_wf(b: Seq<u8>)
    ensures
        forall|k: int|
            0 <= k < spans(b).len() ==> 0 <= #[trigger] spans(b)[k].0 < spans(b)[k].1 <= b.len(),
        b.len() > 0 && !is_space(b[b.len() - 1]) ==> spans(b).len() > 0 && spans(b).last().1
            == b.len(),
    decreases b.len(),
{
    if b.len() > 0 {
        let n = b.len() as int;
        let prev = spans(b.take(n - 1));
        lemma_spans_wf(b.take(n - 1));
        assert forall|k: int| 0 <= k < spans(b).len() implies 0 <= #[trigger] spans(b)[k].0
            < spans(b)[k].1 <= b.len() by {
            if k < prev.len() {
                assert(0 <= prev[k].0 < prev[k].1 <= n - 1);
            }
        }
    }
}

/// Byte ranges moved on by `d`.
pub open spec fn shift_spans(sp: Seq<(int, int)>, d: int) -> Seq<(int, int)> {
    sp.map_values(|p: (int, int)| (p.0 + d, p.1 + d))
}

proof fn lemma_spans_concat(a: Seq<u8>, c: Seq<u8>)
    requires
        a.len() > 0,
        is_space(a.last()),
    ensures
        spans(a + c) == spans(a) + shift_spans(spans(c), a.len() as int),
    decreases c.len(),
{
    if c.len() == 0 {
        assert(a + c =~= a);
        assert(shift_spans(spans(c), a.len() as int) =~= Seq::<(int, int)>::empty());
        assert(spans(a) + shift_spans(spans(c), a.len() as int) =~= spans(a));
    } else {
        let ac = a + c;
        let n = ac.len() as int;
        let cp = c.take(c.len() - 1);
        assert(ac.take(n - 1) =~= a + cp);
        lemma_spans_concat(a, cp);
        lemma_spans_wf(cp);
        let pa = spans(a);
        let pc = spans(cp);
        let prev = spans(a + cp);
        assert(ac[n - 1] == c[c.len() - 1]);
        if c.len() >= 2 {
            assert(ac[n - 2] == c[c.len() - 2]);
            assert(cp[cp.len() - 1] == c[c.len() - 2]);
        } else {
            assert(ac[n - 2] == a.last());
        }
        if is_space(c[c.len() - 1]) {
        } else if c.len() >= 2 && !is_space(c[c.len() - 2]) {
            assert(pc.len() > 0);
            assert(spans(a + c) =~= spans(a) + shift_spans(spans(c), a.len() as int));
        } else {
            assert(spans(a + c) =~= spans(a) + shift_spans(spans(c), a.len() as int));
        }
    }
}

/// Tokens of two texts joined after a whitespace byte are the tokens of each, in order.
pub proof fn lemma_tokens_concat(a: Seq<u8>, c: Seq<u8>)
    requires
        a.len() > 0,
        is_space(a.last()),
    ensures
        tokens(a + c) == tokens(a) + tokens(c),
{
    lemma_spans_concat(a, c);
    lemma_spans_wf(a);
    lemma_spans_wf(c);
    let sa = spans(a);
    let sc = spans(c);
    assert forall|k: int| 0 <= k < tokens(a + c).len() implies tokens(a + c)[k] == (tokens(a)
        + tokens(c))[k] by {
        if k < sa.len() {
            assert((a + c).subrange(sa[k].0, sa[k].1) =~= a.subrange(sa[k].0, sa[k].1));
        } else {
            let j = k - sa.len();
            assert(0 <= sc[j].0 < sc[j].1 <= c.len());
            assert((a + c).subrange(sc[j].0 + a.len(), sc[j].1 + a.len()) =~= c.subrange(
                sc[j].0,
                sc[j].1,
            ));
        }
    }
    assert(tokens(a + c) =~= tokens(a) + tokens(c));
}

/// A run of non-whitespace bytes followed by one whitespace byte is one token.
pub proof fn lemma_single_token(w: Seq<u8>, sp: u8)
    requires
        w.len() > 0,
        forall|i: int| 0 <= i < w.len() ==> !is_space(#[trigger] w[i]),
        is_space(sp),
    ensures
        tokens(w.push(sp)) == seq![w],
{
    lemma_spans_run(w);
    let b = w.push(sp);
    assert(b.take(b.len() - 1) =~= w);
    assert(spans(b) == spans(w));
    assert(b.subrange(0, w.len() as int) =~= w);
    assert(tokens(b) =~= seq![w]);
}

proof fn lemma_spans_run(w: Seq<u8>)
    requires
        forall|i: int| 0 <= i < w.len() ==> !is_space(#[trigger] w[i]),
    ensures
        w.len() > 0 ==> spans(w) == seq![(0int, w.len() as int)],
    decreases w.len(),
{
    if w.len() > 0 {
        let p = w.take(w.len() - 1);
        lemma_spans_run(p);
        if w.len() >= 2 {
            assert(w[w.len() - 2] == p[p.len() - 1]);
            assert(spans(w) =~= seq![(0int, w.len() as int)]);
        } else {
            assert(spans(p) =~= Seq::<(int, int)>::empty());
            assert(spans(w) =~= seq![(0int, w.len() as int)]);
        }
    }
}

/// A text that starts with a non-whitespace byte has at least one token.
pub proof fn lemma_has_token(b: Seq<u8>)
    requires
        b.len() > 0,
        !is_space(b[0]),
    ensures
        tokens(b).len() >= 1,
    decreases b.len(),
{
    if b.len() >= 2 {
        let p = b.take(b.len() - 1);
        assert(p[0] == b[0]);
        lemma_has_token(p);
        lemma_spans_wf(p);
    }
}

/// The byte ranges of the whitespace-separated tokens of `b`.
pub fn token_spans(b: &[u8]) -> (r: Vec<(usize, usize)>)
    ensures
        span_ints(r@) == spans(b@),
{
    let mut r: Vec<(usize, usize)> = Vec::new();
    let n = b.len();
    let mut i: usize = 0;
    while i < n
        invariant
            n == b@.len(),
            i <= n,
            span_ints(r@) == spans(b@.take(i as int)),
        decreases n - i,
    {
        proof {
            lemma_spans_wf(b@.take(i as int));
            assert(b@.take(i + 1).take(i as int) =~= b@.take(i as int));
        }
        let c = b[i];
        if is_space_byte(c) {
        } else if i >= 1 && !is_space_byte(b[i - 1]) && r.len() > 0 {
            let last = r.len() - 1;
            let start = r[last].0;
            r.set(last, (start, i + 1));
        } else {
            r.push((i, i + 1));
        }
        i = i + 1;
        proof {
            assert(span_ints(r@) =~= spans(b@.take(i as int)));
        }
    }
    assert(b@.take(n as int) =~= b@);
    r
}

fn is_space_byte(c: u8) -> (r: bool)
    ensures
        r == is_space(c),
{
    c == 0x20 || c == 0x09 || c == 0x0a || c == 0x0c || c == 0x0d
}

/// The value of a run of decimal digits (most significant first).
pub open spec fn digits_value(s: Seq<u8>) -> nat
    decreases s.len(),
{
    if s.len() == 0 {
        0
    } else {
        digits_value(s.drop_last()) * 10 + (s.last() - 48) as nat
    }
}

/// `s` is a non-empty run of ASCII digits.
pub open spec fn all_digits(s: Seq<u8>) -> bool {
    s.len() > 0 && forall|i: int| 0 <= i < s.len() ==> 48 <= #[trigger] s[i] <= 57
}

/// `t` without one leading `+` sign.
pub open spec fn unsigned_part(t: Seq<u8>) -> Seq<u8> {
    if t.len() > 0 && t[0] == 43 {
        t.drop_first()
    } else {
        t
    }
}

/// The value of a token as `usize::from_str` reads it: an optional `+`, then digits.
pub open spec fn usize_of(t: Seq<u8>) -> Option<usize> {
    let d = unsigned_part(t);
    if all_digits(d) && digits_value(d) <= usize::MAX {
        Some(digits_value(d) as usize)
    } else {
        None
    }
}

/// The value of a token as `isize::from_str` reads it: an optional sign, then digits.
pub open spec fn isize_of(t: Seq<u8>) -> Option<isize> {
    if t.len() > 0 && t[0] == 45 {
        let d = t.drop_first();
        if all_digits(d) && -digits_value(d) >= isize::MIN {
            Some((-digits_value(d)) as isize)
        } else {
            None
        }
    } else {
        let d = unsigned_part(t);
        if all_digits(d) && digits_value(d) <= isize::MAX {
            Some(digits_value(d) as isize)
        } else {
            None
        }
    }
}

proof fn lemma_digits_value_grows(s: Seq<u8>, i: int)
    requires
        0 <= i <= s.len(),
    ensures
        digits_value(s.take(i)) <= digits_value(s),
    decreases s.len() - i,
{
    if i < s.len() {
        lemma_digits_value_grows(s, i + 1);
        assert(s.take(i + 1).drop_last() =~= s.take(i));
    } else {
        assert(s.take(i) =~= s);
    }
}

/// The value of the digits `b[start..end]`, or `None` where that range is empty,
/// holds another byte, or exceeds `usize::MAX`.
fn digits_in(b: &[u8], start: usize, end: usize) -> (r: Option<usize>)
    requires
        start <= end <= b@.len(),
    ensures
        ({
            let d = b@.subrange(start as int, end as int);
            r == if all_digits(d) && digits_value(d) <= usize::MAX {
                Some(digits_value(d) as usize)
            } else {
                None::<usize>
            }
        }),
{
    let ghost d = b@.subrange(start as int, end as int);
    if start == end {
        return None;
    }
    let mut v: usize = 0;
    let mut i: usize = start;
    while i < end
        invariant
            start <= i <= end <= b@.len(),
            d == b@.subrange(start as int, end as int),
            forall|j: int| 0 <= j < i - start ==> 48 <= #[trigger] d[j] <= 57,
            v as nat == digits_value(d.take(i - start)),
        decreases end - i,
    {
        let c = b[i];
        if c < 48 || c > 57 {
            assert(d[i - start] == c);
            assert(!all_digits(d));
            return None;
        }
        let ghost k = (i - start) as int;
        assert(d.take(k + 1).drop_last() =~= d.take(k));
        let dv = (c - 48) as usize;
        if v > (usize::MAX - dv) / 10 {
            proof {
                lemma_digits_value_grows(d, k + 1);
                assert(v * 10 + dv > usize::MAX) by (nonlinear_arith)
                    requires
                        v > (usize::MAX - dv) / 10,
                        dv <= 9,
                ;
            }
            return None;
        }
        assert(v * 10 + dv <= usize::MAX) by (nonlinear_arith)
            requires
                v <= (usize::MAX - dv) / 10,
                dv <= 9,
        ;
        v = v * 10 + dv;
        i = i + 1;
    }
    assert(d.take(d.len() as int) =~= d);
    Some(v)
}

/// Reads `b[start..end]` as `usize::from_str` would.
pub fn parse_usize(b: &[u8], start: usize, end: usize) -> (r: Option<usize>)
    requires
        start <= end <= b@.len(),
    ensures
        r == usize_of(b@.subrange(start as int, end as int)),
{
    let ghost t = b@.subrange(start as int, end as int);
    if start < end && b[start] == 43 {
        assert(unsigned_part(t) =~= b@.subrange(start + 1, end as int));
        digits_in(b, start + 1, end)
    } else {
        digits_in(b, start, end)
    }
}

/// Reads `b[start..end]` as `isize::from_str` would.
pub fn parse_isize(b: &[u8], start: usize, end: usize) -> (r: Option<isize>)
    requires
        start <= end <= b@.len(),
    ensures
        r == isize_of(b@.subrange(start as int, end as int)),
{
    let ghost t = b@.subrange(start as int, end as int);
    if start < end && b[start] == 45 {
        assert(t.drop_first() =~= b@.subrange(start + 1, end as int));
        match digits_in(b, start + 1, end) {
            Some(m) => {
                if m <= isize::MAX as usize {
                    Some(-(m as isize))
                } else if m == isize::MAX as usize + 1 {
                    Some(isize::MIN)
                } else {
                    None
                }
            },
            None => {
                None
            },
        }
    } else {
        let ghost d = unsigned_part(t);
        let m = if start < end && b[start] == 43 {
            assert(d =~= b@.subrange(start + 1, end as int));
            digits_in(b, start + 1, end)
        } else {
            digits_in(b, start, end)
        };
        match m {
            Some(m) => {
                if m <= isize::MAX as usize {
                    Some(m as isize)
                } else {
                    None
                }
            },
            None => {
                None
            },
        }
    }
}

} // verus!
