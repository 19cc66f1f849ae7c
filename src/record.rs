//! The two per-process records: the status line and the I/O counters.
use vstd::prelude::*;
use vstd::string::StringSliceAdditionalSpecFns;
use vstd::utf8::{decode_utf8, is_char_boundary, is_continuation_byte, valid_utf8};
use crate::sys::page_size;
use crate::tokens::{
    is_space, isize_of, lemma_has_token, lemma_single_token, lemma_spans_wf, lemma_tokens_concat,
    parse_isize, parse_usize, span_ints, spans, token_spans, tokens, usize_of,
};

verus! {

broadcast use vstd::utf8::group_utf8_lib;

/// The record text could not be read: a missing name delimiter, a missing
/// token, or a token that is not a number where one is expected.
#[derive(Debug, PartialEq, Eq, Clone, Copy)]
pub struct MalformedRecord;

/// A process's status line, as the kernel writes it for each process.
#[derive(Debug, PartialEq, Clone)]
pub struct Stat {
    pub pid: usize,
    pub name: String,
    pub ppid: usize,
    pub pgrp: usize,
    pub session: usize,
    pub utime: usize,
    pub stime: usize,
    pub cutime: usize,
    pub cstime: usize,
    pub priority: isize,
    pub nice: isize,
    pub num_threads: usize,
    pub itrealvalue: usize,
    pub starttime: usize,
    /// Virtual memory size.
    pub vsize: usize,
    /// Resident memory, in bytes.
    pub rss: usize,
    pub rsslim: usize,
    pub exit_code: usize,
}

/// A process's cumulative I/O counters.
#[derive(Debug, PartialEq, Clone)]
pub struct IO {
    pub rchar: usize,
    pub wchar: usize,
    pub syscr: usize,
    pub syscw: usize,
    pub read_bytes: usize,
    pub write_bytes: usize,
    pub cancelled_write_bytes: usize,
}

/// The mathematical value of a `Stat`: its name as characters.
pub struct StatView {
    pub pid: usize,
    pub name: Seq<char>,
    pub ppid: usize,
    pub pgrp: usize,
    pub session: usize,
    pub utime: usize,
    pub stime: usize,
    pub cutime: usize,
    pub cstime: usize,
    pub priority: isize,
    pub nice: isize,
    pub num_threads: usize,
    pub itrealvalue: usize,
    pub starttime: usize,
    pub vsize: usize,
    pub rss: usize,
    pub rsslim: usize,
    pub exit_code: usize,
}

impl View for Stat {
    type V = StatView;

    open spec fn view(&self) -> StatView {
        StatView {
            pid: self.pid,
            name: self.name@,
            ppid: self.ppid,
            pgrp: self.pgrp,
            session: self.session,
            utime: self.utime,
            stime: self.stime,
            cutime: self.cutime,
            cstime: self.cstime,
            priority: self.priority,
            nice: self.nice,
            num_threads: self.num_threads,
            itrealvalue: self.itrealvalue,
            starttime: self.starttime,
            vsize: self.vsize,
            rss: self.rss,
            rsslim: self.rsslim,
            exit_code: self.exit_code,
        }
    }
}

/// The number of tokens in a status line whose name is a single word.
pub const STAT_TOKENS: usize = 52;

/// The index of the first byte `c` in `b`.
pub open spec fn find_first(b: Seq<u8>, c: u8) -> Option<int>
    decreases b.len(),
{
    if b.len() == 0 {
        None
    } else {
        match find_first(b.drop_last(), c) {
            Some(i) => Some(i),
            None => if b.last() == c {
                Some(b.len() - 1)
            } else {
                None
            },
        }
    }
}

/// The index of the last byte `c` in `b`.
pub open spec fn find_last(b: Seq<u8>, c: u8) -> Option<int>
    decreases b.len(),
{
    if b.len() == 0 {
        None
    } else if b.last() == c {
        Some(b.len() - 1)
    } else {
        find_last(b.drop_last(), c)
    }
}

/// Token `i` of a status line with `t.len()` tokens, counted as if the name were one word.
pub open spec fn shifted(t: Seq<Seq<u8>>, i: int) -> Seq<u8> {
    t[i + t.len() - STAT_TOKENS]
}

/// Shifted field `i`, read as an unsigned number.
pub open spec fn uns(t: Seq<Seq<u8>>, i: int) -> usize {
    usize_of(shifted(t, i))->Some_0
}

/// Shifted field `i`, read as a signed number.
pub open spec fn sgn(t: Seq<Seq<u8>>, i: int) -> isize {
    isize_of(shifted(t, i))->Some_0
}

/// The shifted positions of the unsigned fields of a status line.
pub open spec fn unsigned_field(i: int) -> bool {
    i == 3 || i == 4 || i == 5 || (13 <= i <= 16) || (19 <= i <= 24) || i == 51
}

/// What a status line says, with a page of `page` bytes; `None` where it is malformed.
pub open spec fn stat_of(b: Seq<u8>, page: int) -> Option<StatView> {
    let t = tokens(b);
    let open = find_first(b, 40);
    let close = find_last(b, 41);
    if open is Some && close is Some && open->Some_0 < close->Some_0 && t.len() >= STAT_TOKENS
        && usize_of(t[0]) is Some && (forall|i: int|
        unsigned_field(i) ==> usize_of(#[trigger] shifted(t, i)) is Some) && isize_of(
        shifted(t, 17),
    ) is Some && isize_of(shifted(t, 18)) is Some && uns(t, 23) * page <= usize::MAX {
        Some(
            StatView {
                pid: usize_of(t[0])->Some_0,
                name: decode_utf8(b.subrange(open->Some_0 + 1, close->Some_0)),
                ppid: uns(t, 3),
                pgrp: uns(t, 4),
                session: uns(t, 5),
                utime: uns(t, 13),
                stime: uns(t, 14),
                cutime: uns(t, 15),
                cstime: uns(t, 16),
                priority: sgn(t, 17),
                nice: sgn(t, 18),
                num_threads: uns(t, 19),
                itrealvalue: uns(t, 20),
                starttime: uns(t, 21),
                vsize: uns(t, 22),
                rss: (uns(t, 23) * page) as usize,
                rsslim: uns(t, 24),
                exit_code: uns(t, 51),
            },
        )
    } else {
        None
    }
}

fn find_first_byte(b: &[u8], c: u8) -> (r: Option<usize>)
    ensures
        match r {
            Some(i) => find_first(b@, c) == Some(i as int),
            None => find_first(b@, c) is None,
        },
{
    let n = b.len();
    let mut i: usize = 0;
    while i < n
        invariant
            n == b@.len(),
            i <= n,
            find_first(b@.take(i as int), c) is None,
        decreases n - i,
    {
        assert(b@.take(i + 1).drop_last() =~= b@.take(i as int));
        if b[i] == c {
            proof {
                lemma_find_first_extends(b@, c, i as int + 1);
            }
            return Some(i);
        }
        i = i + 1;
    }
    assert(b@.take(n as int) =~= b@);
    None
}

proof fn lemma_find_first_extends(b: Seq<u8>, c: u8, k: int)
    requires
        0 <= k <= b.len(),
        find_first(b.take(k), c) is Some,
    ensures
        find_first(b, c) == find_first(b.take(k), c),
    decreases b.len() - k,
{
    if k < b.len() {
        assert(b.take(k + 1).drop_last() =~= b.take(k));
        lemma_find_first_extends(b, c, k + 1);
    } else {
        assert(b.take(k) =~= b);
    }
}

fn find_last_byte(b: &[u8], c: u8) -> (r: Option<usize>)
    ensures
        match r {
            Some(i) => find_last(b@, c) == Some(i as int),
            None => find_last(b@, c) is None,
        },
{
    let n = b.len();
    let mut found: Option<usize> = None;
    let mut i: usize = 0;
    while i < n
        invariant
            n == b@.len(),
            i <= n,
            match found {
                Some(j) => find_last(b@.take(i as int), c) == Some(j as int),
                None => find_last(b@.take(i as int), c) is None,
            },
        decreases n - i,
    {
        assert(b@.take(i + 1).drop_last() =~= b@.take(i as int));
        if b[i] == c {
            found = Some(i);
        }
        i = i + 1;
    }
    assert(b@.take(n as int) =~= b@);
    found
}

/// Field `i` of a status line, counted as if the name were one word, read as an unsigned number.
fn usize_field(b: &[u8], sp: &Vec<(usize, usize)>, i: usize) -> (r: Option<usize>)
    requires
        span_ints(sp@) == spans(b@),
        sp@.len() >= STAT_TOKENS,
        i < STAT_TOKENS,
    ensures
        r == usize_of(shifted(tokens(b@), i as int)),
{
    let n = sp.len();
    usize_token(b, sp, i + (n - STAT_TOKENS))
}

/// Field `i` of a status line, counted as if the name were one word, read as a signed number.
fn isize_field(b: &[u8], sp: &Vec<(usize, usize)>, i: usize) -> (r: Option<isize>)
    requires
        span_ints(sp@) == spans(b@),
        sp@.len() >= STAT_TOKENS,
        i < STAT_TOKENS,
    ensures
        r == isize_of(shifted(tokens(b@), i as int)),
{
    let n = sp.len();
    isize_token(b, sp, i + (n - STAT_TOKENS))
}

/// Token `k` of `b`, read as an unsigned number.
fn usize_token(b: &[u8], sp: &Vec<(usize, usize)>, k: usize) -> (r: Option<usize>)
    requires
        span_ints(sp@) == spans(b@),
        k < sp@.len(),
    ensures
        r == usize_of(tokens(b@)[k as int]),
{
    proof {
        lemma_spans_wf(b@);
        assert(spans(b@)[k as int] == span_ints(sp@)[k as int]);
    }
    parse_usize(b, sp[k].0, sp[k].1)
}

/// Token `k` of `b`, read as a signed number.
fn isize_token(b: &[u8], sp: &Vec<(usize, usize)>, k: usize) -> (r: Option<isize>)
    requires
        span_ints(sp@) == spans(b@),
        k < sp@.len(),
    ensures
        r == isize_of(tokens(b@)[k as int]),
{
    proof {
        lemma_spans_wf(b@);
        assert(spans(b@)[k as int] == span_ints(sp@)[k as int]);
    }
    parse_isize(b, sp[k].0, sp[k].1)
}

/// The characters of `s` strictly between the byte positions `open` and `close`,
/// which hold `(` and `)`.
fn name_between(s: &str, open: usize, close: usize) -> (r: String)
    requires
        open < close < s.spec_bytes().len(),
        s.spec_bytes()[open as int] == 40,
        s.spec_bytes()[close as int] == 41,
    ensures
        r@ == decode_utf8(s.spec_bytes().subrange(open + 1, close as int)),
{
    let ghost b = s.spec_bytes();
    proof {
        assert(valid_utf8(b));
        assert(!is_continuation_byte(b[close as int]));
        assert(is_char_boundary(b, close as int));
    }
    let (before, _after) = s.split_at(close);
    let ghost bb = before.spec_bytes();
    proof {
        assert(bb =~= b.subrange(0, close as int));
        assert(valid_utf8(bb));
        assert(bb[open as int] == 40);
        assert(!is_continuation_byte(bb[open as int]));
        assert(is_char_boundary(bb, open as int));
    }
    let (_head, tail) = before.split_at(open);
    let ghost tb = tail.spec_bytes();
    proof {
        assert(tb =~= b.subrange(open as int, close as int));
        assert(valid_utf8(tb));
        assert(tb[0] == 40);
        reveal_with_fuel(is_char_boundary, 2);
        assert(is_char_boundary(tb, 1));
    }
    let (_paren, name) = tail.split_at(1);
    proof {
        assert(name.spec_bytes() =~= b.subrange(open + 1, close as int));
    }
    name.to_owned()
}

/// `r` is what `stat_of` gives for the line `b` with pages of `page` bytes.
pub open spec fn parsed_as(r: Result<Stat, MalformedRecord>, b: Seq<u8>, page: int) -> bool {
    match r {
        Ok(s) => stat_of(b, page) == Some(s@),
        Err(_) => stat_of(b, page) is None,
    }
}

/// The values of an I/O counters block: the tokens at odd positions, in order.
pub open spec fn io_of(b: Seq<u8>) -> Option<IO> {
    let t = tokens(b);
    if t.len() >= 14 && (forall|k: int| 0 <= k < 7 ==> usize_of(#[trigger] t[2 * k + 1]) is Some) {
        Some(
            IO {
                rchar: usize_of(t[1])->Some_0,
                wchar: usize_of(t[3])->Some_0,
                syscr: usize_of(t[5])->Some_0,
                syscw: usize_of(t[7])->Some_0,
                read_bytes: usize_of(t[9])->Some_0,
                write_bytes: usize_of(t[11])->Some_0,
                cancelled_write_bytes: usize_of(t[13])->Some_0,
            },
        )
    } else {
        None
    }
}

impl IO {
    /// Reads an I/O counters block: seven `label: value` lines, whose values are
    /// taken by position; the labels are not compared.
    pub fn from(contents: &str) -> (r: Result<IO, MalformedRecord>)
        ensures
            match r {
                Ok(io) => io_of(contents.spec_bytes()) == Some(io),
                Err(_) => io_of(contents.spec_bytes()) is None,
            },
    {
        let b = contents.as_bytes();
        let sp = token_spans(b);
        let ghost t = tokens(b@);
        if sp.len() < 14 {
            return Err(MalformedRecord);
        }
        let mut vals: Vec<usize> = Vec::new();
        let mut k: usize = 0;
        while k < 7
            invariant
                sp@.len() >= 14,
                b@ == contents.spec_bytes(),
                span_ints(sp@) == spans(b@),
                t == tokens(b@),
                k <= 7,
                vals@.len() == k,
                forall|j: int| 0 <= j < k ==> usize_of(#[trigger] t[2 * j + 1]) == Some(vals@[j]),
            decreases 7 - k,
        {
            match usize_token(b, &sp, 2 * k + 1) {
                Some(v) => {
                    vals.push(v);
                },
                None => {
                    let ghost kk = k as int;
                    assert(usize_of(t[2 * kk + 1]) is None);
                    return Err(MalformedRecord);
                },
            }
            k = k + 1;
        }
        assert(usize_of(t[2 * 0int + 1]) == Some(vals@[0]));
        assert(usize_of(t[2 * 1int + 1]) == Some(vals@[1]));
        assert(usize_of(t[2 * 2int + 1]) == Some(vals@[2]));
        assert(usize_of(t[2 * 3int + 1]) == Some(vals@[3]));
        assert(usize_of(t[2 * 4int + 1]) == Some(vals@[4]));
        assert(usize_of(t[2 * 5int + 1]) == Some(vals@[5]));
        assert(usize_of(t[2 * 6int + 1]) == Some(vals@[6]));
        Ok(
            IO {
                rchar: vals[0],
                wchar: vals[1],
                syscr: vals[2],
                syscw: vals[3],
                read_bytes: vals[4],
                write_bytes: vals[5],
                cancelled_write_bytes: vals[6],
            },
        )
    }
}

impl Stat {
    /// Reads a status line, with this system's memory page size.
    pub fn from(contents: &str) -> (r: Result<Stat, MalformedRecord>)
        ensures
            exists|page: usize| #[trigger] parsed_as(r, contents.spec_bytes(), page as int),
    {
        let page = page_size();
        let r = Stat::parse(contents, page);
        assert(parsed_as(r, contents.spec_bytes(), page as int));
        r
    }

    /// Reads a status line, with a memory page of `page_size` bytes.
    ///
    /// The name lies between the first `(` and the last `)`; the fields that
    /// follow it are found at fixed token positions, moved on by the number of
    /// extra tokens that a name with spaces makes.
    pub fn parse(contents: &str, page_size: usize) -> (r: Result<Stat, MalformedRecord>)
        ensures
            parsed_as(r, contents.spec_bytes(), page_size as int),
    {
        let b = contents.as_bytes();
        let ghost t = tokens(b@);
        let open = match find_first_byte(b, 40) {
            Some(i) => i,
            None => {
                return Err(MalformedRecord);
            },
        };
        let close = match find_last_byte(b, 41) {
            Some(i) => i,
            None => {
                return Err(MalformedRecord);
            },
        };
        if open >= close {
            return Err(MalformedRecord);
        }
        let sp = token_spans(b);
        if sp.len() < STAT_TOKENS {
            return Err(MalformedRecord);
        }
        match Self::fields(b, &sp, page_size) {
            Some(mut st) => {
                proof {
                    lemma_find_bounds(b@, 40u8);
                    lemma_find_bounds(b@, 41u8);
                }
                st.name = name_between(contents, open, close);
                Ok(st)
            },
            None => Err(MalformedRecord),
        }
    }

    /// The numeric fields of a status line whose tokens are at `sp`; the name is left empty.
    fn fields(b: &[u8], sp: &Vec<(usize, usize)>, page_size: usize) -> (r: Option<Stat>)
        requires
            span_ints(sp@) == spans(b@),
            sp@.len() >= STAT_TOKENS,
        ensures
            ({
                let t = tokens(b@);
                match r {
                    Some(s) => usize_of(t[0]) is Some && (forall|i: int|
                        unsigned_field(i) ==> usize_of(#[trigger] shifted(t, i)) is Some)
                        && isize_of(shifted(t, 17)) is Some && isize_of(shifted(t, 18)) is Some
                        && uns(t, 23) * page_size <= usize::MAX
                        && s.pid == usize_of(t[0])->Some_0 && s.ppid == uns(t, 3)
                        && s.pgrp == uns(t, 4) && s.session == uns(t, 5) && s.utime == uns(t, 13)
                        && s.stime == uns(t, 14) && s.cutime == uns(t, 15) && s.cstime == uns(t, 16)
                        && s.priority == sgn(t, 17) && s.nice == sgn(t, 18)
                        && s.num_threads == uns(t, 19) && s.itrealvalue == uns(t, 20)
                        && s.starttime == uns(t, 21) && s.vsize == uns(t, 22)
                        && s.rss == uns(t, 23) * page_size && s.rsslim == uns(t, 24)
                        && s.exit_code == uns(t, 51),
                    None => !(usize_of(t[0]) is Some && (forall|i: int|
                        unsigned_field(i) ==> usize_of(#[trigger] shifted(t, i)) is Some)
                        && isize_of(shifted(t, 17)) is Some && isize_of(shifted(t, 18)) is Some
                        && uns(t, 23) * page_size <= usize::MAX),
                }
            }),
    {
        let ghost t = tokens(b@);
        assert(t.len() == sp@.len());
        let pid = usize_token(b, sp, 0)?;
        let ppid = usize_field(b, sp, 3)?;
        let pgrp = usize_field(b, sp, 4)?;
        let session = usize_field(b, sp, 5)?;
        let utime = usize_field(b, sp, 13)?;
        let stime = usize_field(b, sp, 14)?;
        let cutime = usize_field(b, sp, 15)?;
        let cstime = usize_field(b, sp, 16)?;
        let priority = isize_field(b, sp, 17)?;
        let nice = isize_field(b, sp, 18)?;
        let num_threads = usize_field(b, sp, 19)?;
        let itrealvalue = usize_field(b, sp, 20)?;
        let starttime = usize_field(b, sp, 21)?;
        let vsize = usize_field(b, sp, 22)?;
        let pages = usize_field(b, sp, 23)?;
        let rsslim = usize_field(b, sp, 24)?;
        let exit_code = usize_field(b, sp, 51)?;
        assert(forall|i: int| unsigned_field(i) ==> usize_of(#[trigger] shifted(t, i)) is Some);
        let rss = pages.checked_mul(page_size)?;
        Some(
            Stat {
                pid,
                name: String::new(),
                ppid,
                pgrp,
                session,
                utime,
                stime,
                cutime,
                cstime,
                priority,
                nice,
                num_threads,
                itrealvalue,
                starttime,
                vsize,
                rss,
                rsslim,
                exit_code,
            },
        )
    }
}

proof fn lemma_find_bounds(b: Seq<u8>, c: u8)
    ensures
        find_first(b, c) matches Some(i) ==> 0 <= i < b.len() && b[i] == c,
        find_last(b, c) matches Some(i) ==> 0 <= i < b.len() && b[i] == c,
    decreases b.len(),
{
    if b.len() > 0 {
        lemma_find_bounds(b.drop_last(), c);
    }
}

proof fn lemma_find_first_after(x: Seq<u8>, y: Seq<u8>, c: u8)
    requires
        forall|i: int| 0 <= i < x.len() ==> x[i] != c,
        y.len() > 0,
        y[0] == c,
    ensures
        find_first(x + y, c) == Some(x.len() as int),
    decreases x.len(),
{
    let b = x + y;
    let k = x.len() as int + 1;
    assert(find_first(b.take(x.len() as int), c) is None) by {
        lemma_find_first_absent(x, c);
        assert(b.take(x.len() as int) =~= x);
    }
    assert(b.take(k).drop_last() =~= b.take(x.len() as int));
    lemma_find_first_extends(b, c, k);
}

proof fn lemma_find_first_absent(x: Seq<u8>, c: u8)
    requires
        forall|i: int| 0 <= i < x.len() ==> x[i] != c,
    ensures
        find_first(x, c) is None,
    decreases x.len(),
{
    if x.len() > 0 {
        let p = x.drop_last();
        assert forall|i: int| 0 <= i < p.len() implies p[i] != c by {
            assert(p[i] == x[i]);
        }
        lemma_find_first_absent(p, c);
    }
}

proof fn lemma_find_last_before(x: Seq<u8>, y: Seq<u8>, c: u8)
    requires
        forall|i: int| 0 <= i < y.len() ==> y[i] != c,
        x.len() > 0,
        x.last() == c,
    ensures
        find_last(x + y, c) == Some(x.len() - 1),
    decreases y.len(),
{
    if y.len() == 0 {
        assert(x + y =~= x);
    } else {
        let p = y.drop_last();
        assert forall|i: int| 0 <= i < p.len() implies p[i] != c by {
            assert(p[i] == y[i]);
        }
        lemma_find_last_before(x, p, c);
        assert((x + y).drop_last() =~= x + p);
    }
}

/// The text of a status line written as `pid (name) rest`.
pub open spec fn stat_line(pid: Seq<u8>, name: Seq<u8>, rest: Seq<u8>) -> Seq<u8> {
    pid + seq![32u8, 40u8] + name + seq![41u8, 32u8] + rest
}

/// Field `i` of a status line, from the tokens `rest` that follow its name.
pub open spec fn rest_field(rest: Seq<u8>, i: int) -> usize {
    usize_of(tokens(rest)[i - 2])->Some_0
}

/// A status line written as `pid (name) rest`, whose pid holds no `(` and whose
/// following fields hold no `)`, reads back with exactly that name and pid and
/// each field at its place after the name, however many tokens the name makes.
pub proof fn lemma_stat_round_trip(pid: Seq<u8>, name: Seq<u8>, rest: Seq<u8>, page: int)
    requires
        pid.len() > 0,
        forall|i: int| 0 <= i < pid.len() ==> !is_space(#[trigger] pid[i]) && pid[i] != 40,
        forall|i: int| 0 <= i < rest.len() ==> #[trigger] rest[i] != 41,
        tokens(rest).len() == STAT_TOKENS - 2,
        usize_of(pid) is Some,
        forall|i: int| unsigned_field(i) ==> usize_of(#[trigger] tokens(rest)[i - 2]) is Some,
        isize_of(tokens(rest)[15]) is Some,
        isize_of(tokens(rest)[16]) is Some,
        0 <= page,
        rest_field(rest, 23) * page <= usize::MAX,
    ensures
        stat_of(stat_line(pid, name, rest), page) == Some(
            StatView {
                pid: usize_of(pid)->Some_0,
                name: decode_utf8(name),
                ppid: rest_field(rest, 3),
                pgrp: rest_field(rest, 4),
                session: rest_field(rest, 5),
                utime: rest_field(rest, 13),
                stime: rest_field(rest, 14),
                cutime: rest_field(rest, 15),
                cstime: rest_field(rest, 16),
                priority: isize_of(tokens(rest)[15])->Some_0,
                nice: isize_of(tokens(rest)[16])->Some_0,
                num_threads: rest_field(rest, 19),
                itrealvalue: rest_field(rest, 20),
                starttime: rest_field(rest, 21),
                vsize: rest_field(rest, 22),
                rss: (rest_field(rest, 23) * page) as usize,
                rsslim: rest_field(rest, 24),
                exit_code: rest_field(rest, 51),
            },
        ),
{
    let b = stat_line(pid, name, rest);
    let a1 = pid.push(32u8);
    let m = seq![40u8] + name + seq![41u8];
    let a2 = m.push(32u8);
    assert(b =~= a1 + (a2 + rest));
    lemma_single_token(pid, 32u8);
    lemma_tokens_concat(a1, a2 + rest);
    lemma_tokens_concat(a2, rest);
    assert(a2[0] == 40);
    lemma_has_token(a2);
    let t = tokens(b);
    let k = tokens(a2).len();
    assert(t =~= seq![pid] + tokens(a2) + tokens(rest));
    assert(t.len() == k + 51);
    assert forall|i: int| 2 <= i < STAT_TOKENS implies #[trigger] shifted(t, i) == tokens(rest)[i - 2] by {
        assert(t[i + k - 1] == tokens(rest)[i - 2]);
    }
    assert(t[0] == pid);
    assert forall|i: int| unsigned_field(i) implies usize_of(#[trigger] shifted(t, i)) is Some by {
        assert(shifted(t, i) == tokens(rest)[i - 2]);
    }
    assert(shifted(t, 17) == tokens(rest)[15]);
    assert(shifted(t, 18) == tokens(rest)[16]);
    assert(shifted(t, 23) == tokens(rest)[21]);
    assert(unsigned_field(23));
    // the name's delimiters
    let x = pid + seq![32u8];
    assert forall|i: int| 0 <= i < x.len() implies x[i] != 40 by {
        if i < pid.len() {
            assert(x[i] == pid[i]);
        }
    }
    assert(b =~= x + (seq![40u8] + name + seq![41u8, 32u8] + rest));
    lemma_find_first_after(x, seq![40u8] + name + seq![41u8, 32u8] + rest, 40u8);
    let p = pid + seq![32u8, 40u8] + name + seq![41u8];
    let q = seq![32u8] + rest;
    assert forall|i: int| 0 <= i < q.len() implies q[i] != 41 by {
        if i > 0 {
            assert(q[i] == rest[i - 1]);
        }
    }
    assert(b =~= p + q);
    lemma_find_last_before(p, q, 41u8);
    assert(b.subrange(pid.len() as int + 2, p.len() as int - 1) =~= name);
}

} // verus!
