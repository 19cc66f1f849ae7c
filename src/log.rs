//! The log of samples: one descriptor per process ever seen, and the
//! chronological list of snapshots.
use vstd::prelude::*;
use crate::record::{Stat, StatView, IO};
use crate::sys::{clock_ticks, elapsed, millis, now};
use crate::json::{plain_string, plain_strings, quoted, render, render_items, render_members, Json};
use crate::text::{decimal, into_string, push_decimal, push_str};
use vstd::string::StringSliceAdditionalSpecFns;
use vstd::utf8::{encode_utf8, valid_utf8};

verus! {

/// A process identifier.
pub type Pid = usize;

/// What the log keeps of one process across samples.
#[derive(Debug, PartialEq)]
pub struct ProcessDescr {
    pub pid: Pid,
    /// The name at the first observation.
    pub name: String,
    /// The largest resident size seen after the first observation.
    pub max_rss: usize,
    pub utime: usize,
    pub stime: usize,
    pub cutime: usize,
    pub cstime: usize,
    /// The CPU tick counters of the previous observation, if there was one.
    pub last_utime: Option<usize>,
    pub last_stime: Option<usize>,
    pub last_cutime: Option<usize>,
    pub last_cstime: Option<usize>,
}

/// One process's metrics at one sample.
#[derive(Debug, PartialEq, Eq, Clone, Copy)]
pub struct ProcessSnap {
    pub pid: Pid,
    /// Resident memory, in bytes.
    pub rss: usize,
    /// CPU usage over the last sampling period, in percent.
    pub cpu_usage: usize,
    pub io_read_bytes: usize,
    pub io_write_bytes: usize,
}

/// One sampling round: milliseconds since the log's start, and one entry per process sampled.
#[derive(Debug)]
pub struct Snapshot {
    pub ts: u128,
    pub processes: Vec<ProcessSnap>,
}

/// The history of all samples taken since the log was made.
#[derive(Debug)]
pub struct Log {
    start_ts: std::time::Instant,
    processes: Vec<ProcessDescr>,
    timeline: Vec<Snapshot>,
}

/// The mathematical value of a `ProcessDescr`.
pub struct DescrView {
    pub pid: Pid,
    pub name: Seq<char>,
    pub max_rss: usize,
    pub utime: usize,
    pub stime: usize,
    pub cutime: usize,
    pub cstime: usize,
    pub last_utime: Option<usize>,
    pub last_stime: Option<usize>,
    pub last_cutime: Option<usize>,
    pub last_cstime: Option<usize>,
}

impl View for ProcessDescr {
    type V = DescrView;

    open spec fn view(&self) -> DescrView {
        DescrView {
            pid: self.pid,
            name: self.name@,
            max_rss: self.max_rss,
            utime: self.utime,
            stime: self.stime,
            cutime: self.cutime,
            cstime: self.cstime,
            last_utime: self.last_utime,
            last_stime: self.last_stime,
            last_cutime: self.last_cutime,
            last_cstime: self.last_cstime,
        }
    }
}

/// The mathematical value of a `Snapshot`.
pub struct SnapshotView {
    pub ts: u128,
    pub processes: Seq<ProcessSnap>,
}

impl View for Snapshot {
    type V = SnapshotView;

    open spec fn view(&self) -> SnapshotView {
        SnapshotView { ts: self.ts, processes: self.processes@ }
    }
}

/// The mathematical value of a `Log`: its descriptors and its snapshots, oldest first.
pub struct LogView {
    pub descrs: Seq<DescrView>,
    pub timeline: Seq<SnapshotView>,
}

impl View for Log {
    type V = LogView;

    closed spec fn view(&self) -> LogView {
        LogView {
            descrs: self.processes@.map_values(|d: ProcessDescr| d@),
            timeline: self.timeline@.map_values(|s: Snapshot| s@),
        }
    }
}

/// The descriptor of a process at its first observation.
pub open spec fn fresh(s: StatView) -> DescrView {
    DescrView {
        pid: s.pid,
        name: s.name,
        max_rss: 0,
        utime: s.utime,
        stime: s.stime,
        cutime: s.cutime,
        cstime: s.cstime,
        last_utime: None,
        last_stime: None,
        last_cutime: None,
        last_cstime: None,
    }
}

/// A descriptor after one more observation `s` of its process.
pub open spec fn observed(d: DescrView, s: StatView) -> DescrView {
    DescrView {
        pid: d.pid,
        name: d.name,
        max_rss: if s.rss > d.max_rss {
            s.rss
        } else {
            d.max_rss
        },
        utime: s.utime,
        stime: s.stime,
        cutime: s.cutime,
        cstime: s.cstime,
        last_utime: Some(d.utime),
        last_stime: Some(d.stime),
        last_cutime: Some(d.cutime),
        last_cstime: Some(d.cstime),
    }
}

/// The position of the first descriptor of `pid`.
pub open spec fn index_of(ds: Seq<DescrView>, pid: Pid) -> Option<int>
    decreases ds.len(),
{
    if ds.len() == 0 {
        None
    } else {
        match index_of(ds.drop_last(), pid) {
            Some(i) => Some(i),
            None => if ds.last().pid == pid {
                Some(ds.len() - 1)
            } else {
                None
            },
        }
    }
}

/// The descriptors after one observation `s`: its process's descriptor is
/// updated, or a new one is added at the end.
pub open spec fn observe(ds: Seq<DescrView>, s: StatView) -> Seq<DescrView> {
    match index_of(ds, s.pid) {
        Some(i) => ds.update(i, observed(ds[i], s)),
        None => ds.push(fresh(s)),
    }
}

/// The descriptors after the observations `ss`, in order.
pub open spec fn observe_all(ds: Seq<DescrView>, ss: Seq<StatView>) -> Seq<DescrView>
    decreases ss.len(),
{
    if ss.len() == 0 {
        ds
    } else {
        observe(observe_all(ds, ss.drop_last()), ss.last())
    }
}

/// No two descriptors share a pid.
pub open spec fn unique_pids(ds: Seq<DescrView>) -> bool {
    forall|i: int, j: int| 0 <= i < j < ds.len() ==> ds[i].pid != ds[j].pid
}

/// The status lines of one sampling round.
pub open spec fn stats_of(ps: Seq<(Stat, IO)>) -> Seq<StatView> {
    ps.map_values(|p: (Stat, IO)| p.0@)
}

/// CPU ticks spent by a process and its waited-for children, up to its latest observation.
pub open spec fn total_ticks(d: DescrView) -> int {
    d.utime + d.stime + d.cutime + d.cstime
}

/// The same, up to the observation before; the latest where there was none.
pub open spec fn last_total_ticks(d: DescrView) -> int {
    d.last_utime.unwrap_or(d.utime) + d.last_stime.unwrap_or(d.stime) + d.last_cutime.unwrap_or(
        d.cutime,
    ) + d.last_cstime.unwrap_or(d.cstime)
}

/// CPU usage in percent over one second at `hz` ticks per second: the ticks
/// spent since the previous observation, times 100, divided by `hz`.
/// Counters that went back (a reused pid) give 0; the result saturates at `usize::MAX`.
pub open spec fn cpu_usage(d: DescrView, hz: int) -> usize {
    let spent = total_ticks(d) - last_total_ticks(d);
    if spent <= 0 {
        0
    } else if spent * 100 / hz > usize::MAX {
        usize::MAX
    } else {
        (spent * 100 / hz) as usize
    }
}

/// The metrics of a process observed as `s` and `io`, whose descriptor is now `d`.
pub open spec fn snap_of(s: StatView, io: IO, d: DescrView, hz: int) -> ProcessSnap {
    ProcessSnap {
        pid: s.pid,
        rss: s.rss,
        cpu_usage: cpu_usage(d, hz),
        io_read_bytes: io.read_bytes,
        io_write_bytes: io.write_bytes,
    }
}

/// The snapshot entries of one sampling round, each computed with its
/// process's descriptor in `ds`.
pub open spec fn snaps_of(ps: Seq<(Stat, IO)>, ds: Seq<DescrView>, hz: int) -> Seq<ProcessSnap> {
    ps.map_values(
        |p: (Stat, IO)| snap_of(p.0@, p.1, ds[index_of(ds, p.0.pid)->Some_0], hz),
    )
}

/// The log after one sampling round `ps` at `ts` milliseconds, with `hz` ticks per second.
pub open spec fn appended(l: LogView, ps: Seq<(Stat, IO)>, ts: u128, hz: int) -> LogView {
    let ds = observe_all(l.descrs, stats_of(ps));
    LogView {
        descrs: ds,
        timeline: l.timeline.push(SnapshotView { ts, processes: snaps_of(ps, ds, hz) }),
    }
}

/// `index_of` finds the first descriptor of a pid, and only misses where there is none.
pub proof fn lemma_index_of(ds: Seq<DescrView>, pid: Pid)
    ensures
        index_of(ds, pid) matches Some(i) ==> 0 <= i < ds.len() && ds[i].pid == pid && forall|
            j: int,
        | 0 <= j < i ==> ds[j].pid != pid,
        index_of(ds, pid) is None ==> forall|j: int| 0 <= j < ds.len() ==> ds[j].pid != pid,
    decreases ds.len(),
{
    if ds.len() > 0 {
        let prev = ds.drop_last();
        lemma_index_of(prev, pid);
        assert(forall|j: int| 0 <= j < prev.len() ==> prev[j] == ds[j]);
    }
}

/// Observing keeps pids unique and gives the observed pid a descriptor.
proof fn lemma_observe(ds: Seq<DescrView>, s: StatView)
    requires
        unique_pids(ds),
    ensures
        unique_pids(observe(ds, s)),
        index_of(observe(ds, s), s.pid) is Some,
        forall|p: Pid| index_of(ds, p) is Some ==> #[trigger] index_of(observe(ds, s), p) is Some,
{
    let n = observe(ds, s);
    lemma_index_of(ds, s.pid);
    lemma_index_of(n, s.pid);
    assert forall|p: Pid| index_of(ds, p) is Some implies #[trigger] index_of(n, p) is Some by {
        lemma_index_of(ds, p);
        lemma_index_of(n, p);
        let i = index_of(ds, p)->Some_0;
        assert(n[i].pid == p);
    }
    if index_of(ds, s.pid) is None {
        assert(n[ds.len() as int].pid == s.pid);
    } else {
        let i = index_of(ds, s.pid)->Some_0;
        assert(n[i].pid == s.pid);
    }
}

proof fn lemma_observe_all(ds: Seq<DescrView>, ss: Seq<StatView>)
    requires
        unique_pids(ds),
    ensures
        unique_pids(observe_all(ds, ss)),
        forall|k: int| 0 <= k < ss.len() ==> index_of(observe_all(ds, ss), #[trigger] ss[k].pid) is Some,
        forall|p: Pid| index_of(ds, p) is Some ==> #[trigger] index_of(observe_all(ds, ss), p) is Some,
    decreases ss.len(),
{
    if ss.len() > 0 {
        let prev = observe_all(ds, ss.drop_last());
        lemma_observe_all(ds, ss.drop_last());
        lemma_observe(prev, ss.last());
        assert forall|k: int| 0 <= k < ss.len() implies index_of(observe_all(ds, ss), #[trigger] ss[k].pid) is Some by {
            if k < ss.len() - 1 {
                assert(ss.drop_last()[k] == ss[k]);
            }
        }
    }
}

impl ProcessDescr {
    /// The descriptor of a process at its first observation: no peak yet and no previous ticks.
    pub fn from(stat: &Stat) -> (r: ProcessDescr)
        ensures
            r@ == fresh(stat@),
    {
        ProcessDescr {
            name: stat.name.clone(),
            pid: stat.pid,
            max_rss: 0,
            utime: stat.utime,
            stime: stat.stime,
            cutime: stat.cutime,
            cstime: stat.cstime,
            last_utime: None,
            last_stime: None,
            last_cutime: None,
            last_cstime: None,
        }
    }

    /// This descriptor after one more observation `stat` of its process.
    fn observe(&self, stat: &Stat) -> (r: ProcessDescr)
        ensures
            r@ == observed(self@, stat@),
    {
        ProcessDescr {
            name: self.name.clone(),
            pid: self.pid,
            max_rss: if stat.rss > self.max_rss {
                stat.rss
            } else {
                self.max_rss
            },
            utime: stat.utime,
            stime: stat.stime,
            cutime: stat.cutime,
            cstime: stat.cstime,
            last_utime: Some(self.utime),
            last_stime: Some(self.stime),
            last_cutime: Some(self.cutime),
            last_cstime: Some(self.cstime),
        }
    }

    /// CPU usage in percent over the last second, at `hz` ticks per second.
    pub fn cpu_usage(&self, hz: usize) -> (r: usize)
        requires
            hz > 0,
        ensures
            r == cpu_usage(self@, hz as int),
    {
        let spent = self.utime as u128 + self.stime as u128 + self.cutime as u128
            + self.cstime as u128;
        let last = self.last_utime.unwrap_or(self.utime) as u128 + self.last_stime.unwrap_or(
            self.stime,
        ) as u128 + self.last_cutime.unwrap_or(self.cutime) as u128
            + self.last_cstime.unwrap_or(self.cstime) as u128;
        if spent <= last {
            0
        } else {
            let q = (spent - last) * 100 / (hz as u128);
            if q > usize::MAX as u128 {
                usize::MAX
            } else {
                q as usize
            }
        }
    }
}

impl ProcessSnap {
    /// The metrics of a process observed as `stat` and `io`, whose descriptor is
    /// now `pdescr`, at `hz` clock ticks per second.
    pub fn at_rate(stat: &Stat, io: &IO, pdescr: &ProcessDescr, hz: usize) -> (r: ProcessSnap)
        requires
            hz > 0,
        ensures
            r == snap_of(stat@, *io, pdescr@, hz as int),
    {
        ProcessSnap {
            pid: stat.pid,
            rss: stat.rss,
            cpu_usage: pdescr.cpu_usage(hz),
            io_read_bytes: io.read_bytes,
            io_write_bytes: io.write_bytes,
        }
    }

    /// The same at this system's clock rate; `None` where the system does not report one.
    pub fn from(stat: &Stat, io: &IO, pdescr: &ProcessDescr) -> (r: Option<ProcessSnap>)
        ensures
            r matches Some(p) ==> exists|hz: int| hz > 0 && p == #[trigger] snap_of(stat@, *io, pdescr@, hz),
    {
        match clock_rate() {
            Some(hz) => Some(ProcessSnap::at_rate(stat, io, pdescr, hz)),
            None => None,
        }
    }
}

/// The clock rate that a `sysconf` answer gives: a positive answer is the
/// number of ticks per second; zero, a negative answer or an error give none.
pub fn clock_rate_of(v: Result<isize, sysconf::raw::SysconfError>) -> (r: Option<usize>)
    ensures
        r == (match v {
            Ok(x) => if x > 0 {
                Some(x as usize)
            } else {
                None::<usize>
            },
            Err(_) => None::<usize>,
        }),
{
    match v {
        Ok(x) => {
            if x > 0 {
                Some(x as usize)
            } else {
                None
            }
        },
        Err(_) => None,
    }
}

/// The number of clock ticks per second, where the system reports a positive one.
fn clock_rate() -> (r: Option<usize>)
    ensures
        r matches Some(hz) ==> hz > 0,
{
    clock_rate_of(clock_ticks())
}

/// The position of the descriptor of `pid` in `ds`.
fn find_descr(ds: &Vec<ProcessDescr>, pid: Pid) -> (r: Option<usize>)
    ensures
        match r {
            Some(i) => index_of(ds@.map_values(|d: ProcessDescr| d@), pid) == Some(i as int),
            None => index_of(ds@.map_values(|d: ProcessDescr| d@), pid) is None,
        },
{
    let ghost v = ds@.map_values(|d: ProcessDescr| d@);
    let n = ds.len();
    let mut i: usize = 0;
    while i < n
        invariant
            n == ds@.len(),
            v == ds@.map_values(|d: ProcessDescr| d@),
            i <= n,
            index_of(v.take(i as int), pid) is None,
        decreases n - i,
    {
        assert(v.take(i + 1).drop_last() =~= v.take(i as int));
        if ds[i].pid == pid {
            proof {
                lemma_index_of_extends(v, pid, i + 1);
            }
            return Some(i);
        }
        i = i + 1;
    }
    assert(v.take(n as int) =~= v);
    None
}

proof fn lemma_index_of_extends(ds: Seq<DescrView>, pid: Pid, k: int)
    requires
        0 <= k <= ds.len(),
        index_of(ds.take(k), pid) is Some,
    ensures
        index_of(ds, pid) == index_of(ds.take(k), pid),
    decreases ds.len() - k,
{
    if k < ds.len() {
        assert(ds.take(k + 1).drop_last() =~= ds.take(k));
        lemma_index_of_extends(ds, pid, k + 1);
    } else {
        assert(ds.take(k) =~= ds);
    }
}

impl Log {
    /// No two descriptors share a pid.
    pub open spec fn wf(&self) -> bool {
        unique_pids(self@.descrs)
    }

    /// An empty log, started now.
    pub fn new() -> (r: Log)
        ensures
            r.wf(),
            r@ == empty_log(),
    {
        let l = Log { start_ts: now(), processes: Vec::new(), timeline: Vec::new() };
        assert(l@.descrs =~= Seq::<DescrView>::empty());
        assert(l@.timeline =~= Seq::<SnapshotView>::empty());
        l
    }

    /// Records one sampling round `ps`, taken `ts` milliseconds after the start,
    /// at `hz` clock ticks per second. All descriptors are updated first, in the
    /// order of `ps`; the snapshot then uses the updated ones.
    pub fn append_at(&mut self, ps: Vec<(Stat, IO)>, ts: u128, hz: usize)
        requires
            old(self).wf(),
            hz > 0,
        ensures
            final(self).wf(),
            final(self)@ == appended(old(self)@, ps@, ts, hz as int),
    {
        let ghost ss = stats_of(ps@);
        let ghost d0 = self@.descrs;
        let n = ps.len();
        let mut k: usize = 0;
        while k < n
            invariant
                n == ps@.len(),
                k <= n,
                ss == stats_of(ps@),
                unique_pids(d0),
                self@.descrs == observe_all(d0, ss.take(k as int)),
                self@.timeline == old(self)@.timeline,
            decreases n - k,
        {
            proof {
                lemma_observe_all(d0, ss.take(k as int));
                assert(ss.take(k + 1).drop_last() =~= ss.take(k as int));
                assert(ss.take(k + 1).last() == ps@[k as int].0@);
            }
            let stat = &ps[k].0;
            let ghost before = self@.descrs;
            match find_descr(&self.processes, stat.pid) {
                Some(i) => {
                    proof {
                        lemma_index_of(before, stat.pid);
                    }
                    let d = self.processes[i].observe(stat);
                    self.processes.set(i, d);
                    assert(self@.descrs =~= before.update(i as int, observed(before[i as int], stat@)));
                },
                None => {
                    self.processes.push(ProcessDescr::from(stat));
                    assert(self@.descrs =~= before.push(fresh(stat@)));
                },
            }
            k = k + 1;
        }
        let ghost ds = self@.descrs;
        proof {
            assert(ss.take(n as int) =~= ss);
            lemma_observe_all(d0, ss);
        }
        let mut snaps: Vec<ProcessSnap> = Vec::new();
        let mut k: usize = 0;
        while k < n
            invariant
                n == ps@.len(),
                k <= n,
                ss == stats_of(ps@),
                ds == self@.descrs,
                ds == observe_all(d0, ss),
                unique_pids(ds),
                forall|j: int| 0 <= j < ss.len() ==> index_of(ds, #[trigger] ss[j].pid) is Some,
                snaps@ == snaps_of(ps@, ds, hz as int).take(k as int),
                self@.timeline == old(self)@.timeline,
                hz > 0,
            decreases n - k,
        {
            let stat = &ps[k].0;
            let io = &ps[k].1;
            assert(ss[k as int].pid == stat.pid);
            let i = match find_descr(&self.processes, stat.pid) {
                Some(i) => i,
                None => {
                    proof {
                        assert(false);
                    }
                    0
                },
            };
            proof {
                lemma_index_of(ds, stat.pid);
            }
            let p = ProcessSnap::at_rate(stat, io, &self.processes[i], hz);
            snaps.push(p);
            assert(snaps@ =~= snaps_of(ps@, ds, hz as int).take(k + 1));
            k = k + 1;
        }
        assert(snaps_of(ps@, ds, hz as int).take(n as int) =~= snaps_of(ps@, ds, hz as int));
        self.timeline.push(Snapshot { ts, processes: snaps });
        assert(self@.timeline =~= old(self)@.timeline.push(SnapshotView { ts, processes: snaps_of(ps@, ds, hz as int) }));
    }

    /// Records one sampling round `ps`, stamped with the milliseconds elapsed
    /// since the log was made, at this system's clock rate, and returns `true`.
    /// Where the system reports no clock rate (see `clock_rate_of`) the log is
    /// left as it was and the result is `false`.
    pub fn append(&mut self, ps: Vec<(Stat, IO)>) -> (r: bool)
        requires
            old(self).wf(),
        ensures
            final(self).wf(),
            r ==> exists|ts: u128, hz: int|
                hz > 0 && final(self)@ == #[trigger] appended(old(self)@, ps@, ts, hz),
            !r ==> final(self)@ == old(self)@,
    {
        match clock_rate() {
            Some(hz) => {
                let ts = millis(&elapsed(&self.start_ts));
                self.append_at(ps, ts, hz);
                true
            },
            None => false,
        }
    }
}

proof fn lemma_observe_other(ds: Seq<DescrView>, s: StatView, p: Pid)
    requires
        s.pid != p,
    ensures
        index_of(observe(ds, s), p) == index_of(ds, p),
        index_of(ds, p) matches Some(i) ==> observe(ds, s)[i] == ds[i],
{
    let n = observe(ds, s);
    lemma_index_of(ds, p);
    lemma_index_of(n, p);
    lemma_index_of(ds, s.pid);
    if index_of(ds, s.pid) is None {
        assert(n.drop_last() =~= ds);
    } else {
        let j = index_of(ds, s.pid)->Some_0;
        match index_of(ds, p) {
            Some(i) => {
                assert(n[i].pid == p);
                lemma_index_of(n, p);
            },
            None => {
                assert forall|q: int| 0 <= q < n.len() implies n[q].pid != p by {
                    if q != j {
                        assert(n[q] == ds[q]);
                    }
                }
                if index_of(n, p) is Some {
                    let q = index_of(n, p)->Some_0;
                    assert(n[q].pid == p);
                }
            },
        }
    }
}

proof fn lemma_observe_all_concat(ds: Seq<DescrView>, a: Seq<StatView>, b: Seq<StatView>)
    ensures
        observe_all(ds, a + b) == observe_all(observe_all(ds, a), b),
    decreases b.len(),
{
    if b.len() == 0 {
        assert(a + b =~= a);
    } else {
        lemma_observe_all_concat(ds, a, b.drop_last());
        assert((a + b).drop_last() =~= a + b.drop_last());
        assert((a + b).last() == b.last());
    }
}

proof fn lemma_observe_all_absent(ds: Seq<DescrView>, ss: Seq<StatView>, p: Pid)
    requires
        forall|j: int| 0 <= j < ss.len() ==> (#[trigger] ss[j]).pid != p,
    ensures
        index_of(observe_all(ds, ss), p) == index_of(ds, p),
        index_of(ds, p) matches Some(i) ==> observe_all(ds, ss)[i] == ds[i],
    decreases ss.len(),
{
    if ss.len() > 0 {
        let prev = ss.drop_last();
        assert forall|j: int| 0 <= j < prev.len() implies (#[trigger] prev[j]).pid != p by {
            assert(prev[j] == ss[j]);
        }
        lemma_observe_all_absent(ds, prev, p);
        assert(ss.last() == ss[ss.len() - 1]);
        lemma_observe_other(observe_all(ds, prev), ss.last(), p);
    }
}

/// The descriptor that a round which observes the process of `s` once, as `s`,
/// leaves for it, from its descriptor before the round.
pub open spec fn after_one(before: Option<DescrView>, s: StatView) -> DescrView {
    match before {
        Some(d) => observed(d, s),
        None => fresh(s),
    }
}

/// The descriptor of `p` in `ds`, if it has one.
pub open spec fn descr_of(ds: Seq<DescrView>, p: Pid) -> Option<DescrView> {
    match index_of(ds, p) {
        Some(i) => Some(ds[i]),
        None => None,
    }
}

/// A round in which a pid occurs once gives its descriptor exactly one more observation.
pub proof fn lemma_observe_all_once(ds: Seq<DescrView>, ss: Seq<StatView>, k: int)
    requires
        unique_pids(ds),
        0 <= k < ss.len(),
        forall|j: int| 0 <= j < ss.len() && j != k ==> (#[trigger] ss[j]).pid != ss[k].pid,
    ensures
        descr_of(observe_all(ds, ss), ss[k].pid) == Some(after_one(descr_of(ds, ss[k].pid), ss[k])),
{
    let p = ss[k].pid;
    let a = ss.take(k);
    let b = ss.subrange(k + 1, ss.len() as int);
    assert(ss =~= (a + seq![ss[k]]) + b);
    lemma_observe_all_concat(ds, a + seq![ss[k]], b);
    lemma_observe_all_concat(ds, a, seq![ss[k]]);
    assert forall|j: int| 0 <= j < a.len() implies (#[trigger] a[j]).pid != p by {
        assert(a[j] == ss[j]);
    }
    assert forall|j: int| 0 <= j < b.len() implies (#[trigger] b[j]).pid != p by {
        assert(b[j] == ss[k + 1 + j]);
    }
    lemma_observe_all_absent(ds, a, p);
    let da = observe_all(ds, a);
    let s1 = seq![ss[k]];
    assert(s1.drop_last() =~= Seq::<StatView>::empty());
    assert(observe_all(da, s1.drop_last()) == da);
    assert(s1.last() == ss[k]);
    assert(observe_all(da, s1) == observe(da, ss[k]));
    let dk = observe(da, ss[k]);
    lemma_index_of(da, p);
    lemma_index_of(dk, p);
    match index_of(da, p) {
        Some(i) => {
            assert(dk[i].pid == p);
            if index_of(dk, p) != Some(i) {
                let i2 = index_of(dk, p)->Some_0;
                if i2 < i {
                    assert(dk[i2] == da[i2]);
                }
            }
        },
        None => {
            assert(dk.drop_last() =~= da);
        },
    }
    lemma_observe_all_absent(dk, b, p);
}

/// Peak memory never goes down: after a round, every descriptor keeps its
/// place and pid, and its `max_rss` is at least what it was.
pub proof fn lemma_max_rss_monotone(l: LogView, ps: Seq<(Stat, IO)>, ts: u128, hz: int)
    requires
        unique_pids(l.descrs),
    ensures
        appended(l, ps, ts, hz).descrs.len() >= l.descrs.len(),
        forall|i: int|
            0 <= i < l.descrs.len() ==> (#[trigger] appended(l, ps, ts, hz).descrs[i]).pid
                == l.descrs[i].pid && appended(l, ps, ts, hz).descrs[i].max_rss
                >= l.descrs[i].max_rss,
{
    lemma_observe_all_keeps(l.descrs, stats_of(ps));
}

proof fn lemma_observe_all_keeps(ds: Seq<DescrView>, ss: Seq<StatView>)
    ensures
        observe_all(ds, ss).len() >= ds.len(),
        forall|i: int|
            0 <= i < ds.len() ==> (#[trigger] observe_all(ds, ss)[i]).pid == ds[i].pid
                && observe_all(ds, ss)[i].max_rss >= ds[i].max_rss,
    decreases ss.len(),
{
    if ss.len() > 0 {
        lemma_observe_all_keeps(ds, ss.drop_last());
        let prev = observe_all(ds, ss.drop_last());
        lemma_index_of(prev, ss.last().pid);
        assert forall|i: int| 0 <= i < ds.len() implies (#[trigger] observe_all(ds, ss)[i]).pid
            == ds[i].pid && observe_all(ds, ss)[i].max_rss >= ds[i].max_rss by {
            assert(observe_all(ds, ss)[i].max_rss >= prev[i].max_rss);
        }
    }
}

/// Peak memory of a process observed once in a round is the larger of its
/// earlier peak and the new resident size, so a smaller sample never lowers it.
pub proof fn lemma_max_rss_after_round(l: LogView, ps: Seq<(Stat, IO)>, ts: u128, hz: int, k: int)
    requires
        unique_pids(l.descrs),
        0 <= k < ps.len(),
        forall|j: int| 0 <= j < ps.len() && j != k ==> (#[trigger] ps[j]).0.pid != ps[k].0.pid,
        descr_of(l.descrs, ps[k].0.pid) is Some,
    ensures
        descr_of(appended(l, ps, ts, hz).descrs, ps[k].0.pid) matches Some(d) && d.max_rss
            >= descr_of(l.descrs, ps[k].0.pid)->Some_0.max_rss && d.max_rss >= ps[k].0.rss,
{
    let ss = stats_of(ps);
    assert forall|j: int| 0 <= j < ss.len() && j != k implies (#[trigger] ss[j]).pid != ss[k].pid by {
        assert(ps[j].0.pid != ps[k].0.pid);
    }
    lemma_observe_all_once(l.descrs, ss, k);
}

proof fn lemma_peak_kept_all(ds: Seq<DescrView>, ss: Seq<StatView>, i: int)
    requires
        unique_pids(ds),
        0 <= i < ds.len(),
        forall|k: int| 0 <= k < ss.len() && (#[trigger] ss[k]).pid == ds[i].pid ==> ss[k].rss <= ds[i].max_rss,
    ensures
        observe_all(ds, ss)[i].max_rss == ds[i].max_rss,
    decreases ss.len(),
{
    if ss.len() > 0 {
        let sp = ss.drop_last();
        assert forall|k: int| 0 <= k < sp.len() && (#[trigger] sp[k]).pid == ds[i].pid implies sp[k].rss <= ds[i].max_rss by {
            assert(sp[k] == ss[k]);
        }
        lemma_peak_kept_all(ds, sp, i);
        lemma_observe_all_keeps(ds, sp);
        lemma_observe_all(ds, sp);
        let prev = observe_all(ds, sp);
        let s = ss.last();
        assert(s == ss[ss.len() - 1]);
        lemma_index_of(prev, s.pid);
        assert(prev[i].pid == ds[i].pid);
        if index_of(prev, s.pid) == Some(i) {
            assert(s.rss <= ds[i].max_rss);
        }
    }
}

/// Samples of a process that are below its peak never lower it, however many
/// times the process occurs in the round.
pub proof fn lemma_peak_not_lowered(l: LogView, ps: Seq<(Stat, IO)>, ts: u128, hz: int, i: int)
    requires
        unique_pids(l.descrs),
        0 <= i < l.descrs.len(),
        forall|k: int|
            0 <= k < ps.len() && (#[trigger] ps[k]).0.pid == l.descrs[i].pid ==> ps[k].0.rss
                <= l.descrs[i].max_rss,
    ensures
        appended(l, ps, ts, hz).descrs[i].pid == l.descrs[i].pid,
        appended(l, ps, ts, hz).descrs[i].max_rss == l.descrs[i].max_rss,
{
    let ss = stats_of(ps);
    assert forall|k: int| 0 <= k < ss.len() && (#[trigger] ss[k]).pid == l.descrs[i].pid implies ss[k].rss <= l.descrs[i].max_rss by {
        assert(ps[k].0.pid == ss[k].pid);
    }
    lemma_peak_kept_all(l.descrs, ss, i);
    lemma_observe_all_keeps(l.descrs, ss);
}

/// A log with no descriptors and no snapshots.
pub open spec fn empty_log() -> LogView {
    LogView { descrs: seq![], timeline: seq![] }
}

/// The log after the rounds `rounds`, oldest first, each with its samples, its
/// time and its clock rate.
pub open spec fn appended_all(l: LogView, rounds: Seq<(Seq<(Stat, IO)>, u128, int)>) -> LogView
    decreases rounds.len(),
{
    if rounds.len() == 0 {
        l
    } else {
        appended(appended_all(l, rounds.drop_last()), rounds.last().0, rounds.last().1, rounds.last().2)
    }
}

/// A pid occurs in one of the rounds.
pub open spec fn seen_in(rounds: Seq<(Seq<(Stat, IO)>, u128, int)>, p: Pid) -> bool {
    exists|r: int, k: int| 0 <= r < rounds.len() && 0 <= k < rounds[r].0.len() && #[trigger] rounds[r].0[k].0.pid == p
}

/// A log made empty and then given any rounds has one descriptor for each
/// distinct pid of those rounds, none missing and none repeated, so its JSON
/// lists each such pid once.
pub proof fn lemma_descriptors_of_rounds(rounds: Seq<(Seq<(Stat, IO)>, u128, int)>)
    ensures
        unique_pids(appended_all(empty_log(), rounds).descrs),
        forall|p: Pid|
            #![trigger index_of(appended_all(empty_log(), rounds).descrs, p)]
            index_of(appended_all(empty_log(), rounds).descrs, p) is Some <==> seen_in(rounds, p),
    decreases rounds.len(),
{
    if rounds.len() == 0 {
        assert forall|p: Pid| #![trigger index_of(appended_all(empty_log(), rounds).descrs, p)]
            index_of(appended_all(empty_log(), rounds).descrs, p) is Some <==> seen_in(rounds, p) by {
            assert(index_of(empty_log().descrs, p) is None);
        }
    } else {
        let prev = rounds.drop_last();
        lemma_descriptors_of_rounds(prev);
        let l = appended_all(empty_log(), prev);
        let last = rounds.last();
        lemma_one_descriptor_per_pid(l, last.0, last.1, last.2);
        assert forall|p: Pid| #![trigger index_of(appended_all(empty_log(), rounds).descrs, p)]
            index_of(appended_all(empty_log(), rounds).descrs, p) is Some <==> seen_in(rounds, p) by {
            if seen_in(rounds, p) {
                let (r, k) = choose|r: int, k: int| 0 <= r < rounds.len() && 0 <= k < rounds[r].0.len() && #[trigger] rounds[r].0[k].0.pid == p;
                if r < prev.len() {
                    assert(prev[r] == rounds[r]);
                    assert(seen_in(prev, p));
                    assert(index_of(l.descrs, p) is Some);
                } else {
                    assert(last.0[k].0.pid == p);
                }
            }
            if index_of(appended_all(empty_log(), rounds).descrs, p) is Some {
                if index_of(l.descrs, p) is Some {
                    assert(seen_in(prev, p));
                    let (r, k) = choose|r: int, k: int| 0 <= r < prev.len() && 0 <= k < prev[r].0.len() && #[trigger] prev[r].0[k].0.pid == p;
                    assert(prev[r] == rounds[r]);
                    assert(rounds[r].0[k].0.pid == p);
                } else {
                    let k = choose|k: int| 0 <= k < last.0.len() && last.0[k].0.pid == p;
                    assert(rounds[rounds.len() - 1].0[k].0.pid == p);
                }
            }
        }
    }
}

/// The first observation of a process gives it a CPU usage of 0, whatever its tick counts.
pub proof fn lemma_first_cpu_usage_zero(l: LogView, ps: Seq<(Stat, IO)>, ts: u128, hz: int, k: int)
    requires
        unique_pids(l.descrs),
        hz > 0,
        0 <= k < ps.len(),
        forall|j: int| 0 <= j < ps.len() && j != k ==> (#[trigger] ps[j]).0.pid != ps[k].0.pid,
        descr_of(l.descrs, ps[k].0.pid) is None,
    ensures
        appended(l, ps, ts, hz).timeline.last().processes[k].cpu_usage == 0,
{
    let ss = stats_of(ps);
    assert forall|j: int| 0 <= j < ss.len() && j != k implies (#[trigger] ss[j]).pid != ss[k].pid by {
        assert(ps[j].0.pid != ps[k].0.pid);
    }
    lemma_observe_all_once(l.descrs, ss, k);
}

/// A process seen first with `t1` ticks and then, one round later, with `t2 > t1`
/// ticks, at `hz` ticks per second, gets a CPU usage of `(t2 - t1) * 100 / hz`.
pub proof fn lemma_cpu_usage_rate(
    l: LogView,
    ps1: Seq<(Stat, IO)>,
    ts1: u128,
    ps2: Seq<(Stat, IO)>,
    ts2: u128,
    hz: int,
    k1: int,
    k2: int,
)
    requires
        unique_pids(l.descrs),
        hz > 0,
        0 <= k1 < ps1.len(),
        0 <= k2 < ps2.len(),
        ps1[k1].0.pid == ps2[k2].0.pid,
        descr_of(l.descrs, ps1[k1].0.pid) is None,
        forall|j: int| 0 <= j < ps1.len() && j != k1 ==> (#[trigger] ps1[j]).0.pid != ps1[k1].0.pid,
        forall|j: int| 0 <= j < ps2.len() && j != k2 ==> (#[trigger] ps2[j]).0.pid != ps2[k2].0.pid,
        stat_ticks(ps2[k2].0@) > stat_ticks(ps1[k1].0@),
        (stat_ticks(ps2[k2].0@) - stat_ticks(ps1[k1].0@)) * 100 / hz <= usize::MAX,
    ensures
        appended(appended(l, ps1, ts1, hz), ps2, ts2, hz).timeline.last().processes[k2].cpu_usage
            == (stat_ticks(ps2[k2].0@) - stat_ticks(ps1[k1].0@)) * 100 / hz,
{
    let ss1 = stats_of(ps1);
    let ss2 = stats_of(ps2);
    assert forall|j: int| 0 <= j < ss1.len() && j != k1 implies (#[trigger] ss1[j]).pid != ss1[k1].pid by {
        assert(ps1[j].0.pid != ps1[k1].0.pid);
    }
    assert forall|j: int| 0 <= j < ss2.len() && j != k2 implies (#[trigger] ss2[j]).pid != ss2[k2].pid by {
        assert(ps2[j].0.pid != ps2[k2].0.pid);
    }
    lemma_observe_all_once(l.descrs, ss1, k1);
    lemma_observe_all(l.descrs, ss1);
    let l1 = appended(l, ps1, ts1, hz);
    lemma_observe_all_once(l1.descrs, ss2, k2);
}

/// The CPU ticks that a status line reports for a process and its waited-for children.
pub open spec fn stat_ticks(s: StatView) -> int {
    s.utime + s.stime + s.cutime + s.cstime
}

/// `[pid,"name"]`: one entry of the JSON `descriptors` list.
pub open spec fn json_descr(d: DescrView) -> Seq<u8> {
    "[".spec_bytes() + decimal(d.pid as nat) + ",".spec_bytes() + quoted(d.name)
        + "]".spec_bytes()
}

/// The JSON entries of `ds`, separated by commas.
pub open spec fn json_descrs(ds: Seq<DescrView>) -> Seq<u8>
    decreases ds.len(),
{
    if ds.len() == 0 {
        seq![]
    } else if ds.len() == 1 {
        json_descr(ds[0])
    } else {
        json_descrs(ds.drop_last()) + ",".spec_bytes() + json_descr(ds.last())
    }
}

/// `,[pid,rss]` for each entry of a snapshot.
pub open spec fn json_pairs(ps: Seq<ProcessSnap>) -> Seq<u8>
    decreases ps.len(),
{
    if ps.len() == 0 {
        seq![]
    } else {
        json_pairs(ps.drop_last()) + ",".spec_bytes() + "[".spec_bytes() + decimal(ps.last().pid as nat)
            + ",".spec_bytes() + decimal(ps.last().rss as nat) + "]".spec_bytes()
    }
}

/// `[ts,[pid,rss],...]`: one entry of the JSON `timeline` list.
pub open spec fn json_snapshot(s: SnapshotView) -> Seq<u8> {
    "[".spec_bytes() + decimal(s.ts as nat) + json_pairs(s.processes) + "]".spec_bytes()
}

/// The JSON entries of `ts`, separated by commas.
pub open spec fn json_timeline(ts: Seq<SnapshotView>) -> Seq<u8>
    decreases ts.len(),
{
    if ts.len() == 0 {
        seq![]
    } else if ts.len() == 1 {
        json_snapshot(ts[0])
    } else {
        json_timeline(ts.drop_last()) + ",".spec_bytes() + json_snapshot(ts.last())
    }
}

/// The JSON text of a log: every descriptor's pid and name, then every
/// snapshot's time and `(pid, rss)` pairs.
pub open spec fn json_text(l: LogView) -> Seq<u8> {
    "{".spec_bytes() + quoted("descriptors"@) + ":".spec_bytes() + "[".spec_bytes()
        + json_descrs(l.descrs) + "]".spec_bytes() + ",".spec_bytes() + quoted("timeline"@)
        + ":".spec_bytes() + "[".spec_bytes() + json_timeline(l.timeline) + "]".spec_bytes()
        + "}".spec_bytes()
}

/// Appends `[pid,"name"]` for `d`.
fn push_json_descr(out: &mut Vec<u8>, d: &ProcessDescr)
    ensures
        final(out)@ == old(out)@ + json_descr(d@),
        valid_utf8(old(out)@) ==> valid_utf8(final(out)@),
{
    let ghost o = out@;
    push_str(out, "[");
    push_decimal(out, d.pid as u128);
    push_str(out, ",");
    push_str(out, "\"");
    push_str(out, d.name.as_str());
    push_str(out, "\"");
    push_str(out, "]");
    assert(out@ =~= o + json_descr(d@));
}

/// Appends `[ts,[pid,rss],...]` for `s`.
fn push_json_snapshot(out: &mut Vec<u8>, s: &Snapshot)
    ensures
        final(out)@ == old(out)@ + json_snapshot(s@),
        valid_utf8(old(out)@) ==> valid_utf8(final(out)@),
{
    let ghost o = out@;
    push_str(out, "[");
    push_decimal(out, s.ts);
    let ghost base = out@;
    let ps = &s.processes;
    let n = ps.len();
    let mut k: usize = 0;
    while k < n
        invariant
            n == ps@.len(),
            k <= n,
            out@ == base + json_pairs(ps@.take(k as int)),
            valid_utf8(o) ==> valid_utf8(base),
            valid_utf8(base) ==> valid_utf8(out@),
        decreases n - k,
    {
        let ghost before = out@;
        push_str(out, ",");
        push_str(out, "[");
        push_decimal(out, ps[k].pid as u128);
        push_str(out, ",");
        push_decimal(out, ps[k].rss as u128);
        push_str(out, "]");
        assert(ps@.take(k + 1).drop_last() =~= ps@.take(k as int));
        assert(out@ =~= base + json_pairs(ps@.take(k + 1)));
        k = k + 1;
    }
    assert(ps@.take(n as int) =~= ps@);
    push_str(out, "]");
    assert(out@ =~= o + json_snapshot(s@));
}

/// Appends the JSON entries of the descriptors `ds`, separated by commas.
fn push_json_descrs(out: &mut Vec<u8>, ds: &Vec<ProcessDescr>)
    ensures
        final(out)@ == old(out)@ + json_descrs(ds@.map_values(|d: ProcessDescr| d@)),
        valid_utf8(old(out)@) ==> valid_utf8(final(out)@),
{
    let ghost base = out@;
    let ghost dv = ds@.map_values(|d: ProcessDescr| d@);
    let n = ds.len();
    let mut i: usize = 0;
    while i < n
        invariant
            n == ds@.len(),
            dv == ds@.map_values(|d: ProcessDescr| d@),
            i <= n,
            out@ == base + json_descrs(dv.take(i as int)),
            valid_utf8(base) ==> valid_utf8(out@),
            base == old(out)@,
        decreases n - i,
    {
        if i > 0 {
            push_str(out, ",");
        }
        push_json_descr(out, &ds[i]);
        assert(dv.take(i + 1).drop_last() =~= dv.take(i as int));
        assert(dv[i as int] == ds@[i as int]@);
        assert(out@ =~= base + json_descrs(dv.take(i + 1)));
        i = i + 1;
    }
    assert(dv.take(n as int) =~= dv);
}

/// Appends the JSON entries of the snapshots `tl`, separated by commas.
fn push_json_timeline(out: &mut Vec<u8>, tl: &Vec<Snapshot>)
    ensures
        final(out)@ == old(out)@ + json_timeline(tl@.map_values(|s: Snapshot| s@)),
        valid_utf8(old(out)@) ==> valid_utf8(final(out)@),
{
    let ghost base = out@;
    let ghost tv = tl@.map_values(|s: Snapshot| s@);
    let m = tl.len();
    let mut j: usize = 0;
    while j < m
        invariant
            m == tl@.len(),
            tv == tl@.map_values(|s: Snapshot| s@),
            j <= m,
            out@ == base + json_timeline(tv.take(j as int)),
            valid_utf8(base) ==> valid_utf8(out@),
            base == old(out)@,
        decreases m - j,
    {
        if j > 0 {
            push_str(out, ",");
        }
        push_json_snapshot(out, &tl[j]);
        assert(tv.take(j + 1).drop_last() =~= tv.take(j as int));
        assert(tv[j as int] == tl@[j as int]@);
        assert(out@ =~= base + json_timeline(tv.take(j + 1)));
        j = j + 1;
    }
    assert(tv.take(m as int) =~= tv);
}

impl Log {
    /// The log as JSON: `{"descriptors":[[pid,"name"],...],"timeline":[[ts,[pid,rss],...],...]}`.
    /// Descriptors come in the order in which their processes were first seen;
    /// names are not escaped.
    pub fn json(&self) -> (r: String)
        ensures
            encode_utf8(r@) == json_text(self@),
    {
        let mut out: Vec<u8> = Vec::new();
        assert(valid_utf8(out@));
        push_str(&mut out, "{");
        push_str(&mut out, "\"");
        push_str(&mut out, "descriptors");
        push_str(&mut out, "\"");
        push_str(&mut out, ":");
        push_str(&mut out, "[");
        push_json_descrs(&mut out, &self.processes);
        push_str(&mut out, "]");
        push_str(&mut out, ",");
        push_str(&mut out, "\"");
        push_str(&mut out, "timeline");
        push_str(&mut out, "\"");
        push_str(&mut out, ":");
        push_str(&mut out, "[");
        push_json_timeline(&mut out, &self.timeline);
        push_str(&mut out, "]");
        push_str(&mut out, "}");
        assert(out@ =~= json_text(self@));
        into_string(out)
    }
}

/// How many processes the table shows at most.
pub const TOP_COUNT: usize = 10;

/// Bytes in a mebibyte.
pub const MIB: usize = 1048576;

/// Descriptor `i` ranks before descriptor `j`: a larger peak memory, or the
/// same peak and an earlier first observation.
pub open spec fn ranks_before(ds: Seq<DescrView>, i: int, j: int) -> bool {
    ds[i].max_rss > ds[j].max_rss || (ds[i].max_rss == ds[j].max_rss && i < j)
}

/// `cols` holds the positions of the first `min(TOP_COUNT, ds.len())`
/// descriptors in ranking order, in that order.
pub open spec fn is_top(ds: Seq<DescrView>, cols: Seq<int>) -> bool {
    &&& cols.len() == if ds.len() < TOP_COUNT {
        ds.len() as int
    } else {
        TOP_COUNT as int
    }
    &&& forall|c: int| 0 <= c < cols.len() ==> 0 <= #[trigger] cols[c] < ds.len()
    &&& forall|a: int, b: int| 0 <= a < b < cols.len() ==> ranks_before(ds, cols[a], cols[b])
    &&& forall|j: int, c: int|
        0 <= j < ds.len() && !cols.contains(j) && 0 <= c < cols.len() ==> #[trigger] ranks_before(
            ds,
            cols[c],
            j,
        )
}

/// ` "name"` for each column.
pub open spec fn header_names(ds: Seq<DescrView>, cols: Seq<int>) -> Seq<u8>
    decreases cols.len(),
{
    if cols.len() == 0 {
        seq![]
    } else {
        header_names(ds, cols.drop_last()) + " \"".spec_bytes() + encode_utf8(ds[cols.last()].name)
            + "\"".spec_bytes()
    }
}

/// The position of the last entry of `pid` in a snapshot.
pub open spec fn last_entry(ps: Seq<ProcessSnap>, pid: Pid) -> Option<int>
    decreases ps.len(),
{
    if ps.len() == 0 {
        None
    } else if ps.last().pid == pid {
        Some(ps.len() - 1)
    } else {
        last_entry(ps.drop_last(), pid)
    }
}

/// The four fields of a process's column in one row: resident and I/O
/// megabytes and CPU percent, or four dashes where the snapshot lacks the process.
pub open spec fn cell(ps: Seq<ProcessSnap>, pid: Pid) -> Seq<u8> {
    match last_entry(ps, pid) {
        Some(k) => decimal((ps[k].rss / MIB) as nat) + " ".spec_bytes() + decimal(
            ps[k].cpu_usage as nat,
        ) + " ".spec_bytes() + decimal((ps[k].io_read_bytes / MIB) as nat) + " ".spec_bytes()
            + decimal((ps[k].io_write_bytes / MIB) as nat),
        None => "- - - -".spec_bytes(),
    }
}

/// ` cell` for each column.
pub open spec fn row_cells(ps: Seq<ProcessSnap>, ds: Seq<DescrView>, cols: Seq<int>) -> Seq<u8>
    decreases cols.len(),
{
    if cols.len() == 0 {
        seq![]
    } else {
        row_cells(ps, ds, cols.drop_last()) + " ".spec_bytes() + cell(ps, ds[cols.last()].pid)
    }
}

/// One row per snapshot: its time, then its cells.
pub open spec fn rows(tl: Seq<SnapshotView>, ds: Seq<DescrView>, cols: Seq<int>) -> Seq<u8>
    decreases tl.len(),
{
    if tl.len() == 0 {
        seq![]
    } else {
        rows(tl.drop_last(), ds, cols) + decimal(tl.last().ts as nat) + row_cells(
            tl.last().processes,
            ds,
            cols,
        ) + "\n".spec_bytes()
    }
}

/// The table of a log whose columns show the descriptors at `cols`.
pub open spec fn tabular(l: LogView, cols: Seq<int>) -> Seq<u8> {
    "\"ts\"".spec_bytes() + header_names(l.descrs, cols) + "\n".spec_bytes() + rows(
        l.timeline,
        l.descrs,
        cols,
    )
}

/// Column positions as integers.
pub open spec fn col_ints(v: Seq<usize>) -> Seq<int> {
    v.map_values(|c: usize| c as int)
}

proof fn lemma_pigeonhole(cols: Seq<int>, n: int)
    requires
        0 <= n,
        forall|j: int| 0 <= j < n ==> cols.contains(j),
    ensures
        n <= cols.len(),
{
    vstd::set_lib::lemma_int_range(0, n);
    cols.lemma_cardinality_of_set();
    assert(vstd::set_lib::set_int_range(0, n).subset_of(cols.to_set()));
    vstd::seq_lib::seq_to_set_is_finite(cols);
    vstd::set_lib::lemma_len_subset(vstd::set_lib::set_int_range(0, n), cols.to_set());
}

fn ranks_before_exec(ds: &Vec<ProcessDescr>, i: usize, j: usize) -> (r: bool)
    requires
        i < ds@.len(),
        j < ds@.len(),
    ensures
        r == ranks_before(ds@.map_values(|d: ProcessDescr| d@), i as int, j as int),
{
    ds[i].max_rss > ds[j].max_rss || (ds[i].max_rss == ds[j].max_rss && i < j)
}

/// The positions of the descriptors that the table shows, in column order.
fn select_top(ds: &Vec<ProcessDescr>) -> (r: Vec<usize>)
    ensures
        is_top(ds@.map_values(|d: ProcessDescr| d@), col_ints(r@)),
{
    let ghost dv = ds@.map_values(|d: ProcessDescr| d@);
    let n = ds.len();
    let k = if n < TOP_COUNT {
        n
    } else {
        TOP_COUNT
    };
    let mut taken: Vec<bool> = Vec::new();
    let mut i: usize = 0;
    while i < n
        invariant
            i <= n,
            taken@.len() == i,
            forall|j: int| 0 <= j < i ==> !taken@[j],
        decreases n - i,
    {
        taken.push(false);
        i = i + 1;
    }
    let mut cols: Vec<usize> = Vec::new();
    let mut c: usize = 0;
    while c < k
        invariant
            n == ds@.len(),
            dv == ds@.map_values(|d: ProcessDescr| d@),
            k == (if n < TOP_COUNT {
                n
            } else {
                TOP_COUNT
            }),
            c <= k,
            taken@.len() == n,
            cols@.len() == c,
            forall|a: int| 0 <= a < c ==> #[trigger] cols@[a] < n,
            forall|j: int| 0 <= j < n ==> (taken@[j] <==> col_ints(cols@).contains(j)),
            forall|a: int, b: int|
                0 <= a < b < c ==> ranks_before(dv, cols@[a] as int, cols@[b] as int),
            forall|j: int, a: int|
                0 <= j < n && !taken@[j] && 0 <= a < c ==> #[trigger] ranks_before(dv, cols@[a] as int, j),
        decreases k - c,
    {
        let mut best: usize = n;
        let mut j: usize = 0;
        while j < n
            invariant
                n == ds@.len(),
                dv == ds@.map_values(|d: ProcessDescr| d@),
                taken@.len() == n,
                j <= n,
                best == n || (best < j && !taken@[best as int]),
                forall|q: int|
                    0 <= q < j && !taken@[q] ==> best != n && (q == best || ranks_before(
                        dv,
                        best as int,
                        q,
                    )),
            decreases n - j,
        {
            if !taken[j] && (best == n || ranks_before_exec(ds, j, best)) {
                best = j;
            }
            j = j + 1;
        }
        if best == n {
            proof {
                assert forall|q: int| 0 <= q < n implies col_ints(cols@).contains(q) by {
                    assert(taken@[q]);
                }
                lemma_pigeonhole(col_ints(cols@), n as int);
                assert(false);
            }
        }
        let ghost old_cols = cols@;
        cols.push(best);
        taken.set(best, true);
        proof {
            assert forall|q: int| 0 <= q < n implies (taken@[q] <==> col_ints(cols@).contains(q)) by {
                if q == best {
                    assert(col_ints(cols@)[c as int] == q);
                } else if col_ints(old_cols).contains(q) {
                    let a = choose|a: int| 0 <= a < old_cols.len() && col_ints(old_cols)[a] == q;
                    assert(col_ints(cols@)[a] == q);
                } else if col_ints(cols@).contains(q) {
                    let a = choose|a: int| 0 <= a < cols@.len() && col_ints(cols@)[a] == q;
                    assert(a < c);
                    assert(col_ints(old_cols)[a] == q);
                }
            }
        }
        c = c + 1;
    }
    proof {
        let ci = col_ints(cols@);
        assert forall|j: int, a: int|
            0 <= j < dv.len() && !ci.contains(j) && 0 <= a < ci.len() implies #[trigger] ranks_before(
            dv,
            ci[a],
            j,
        ) by {
            assert(!taken@[j]);
            assert(ranks_before(dv, cols@[a] as int, j));
        }
    }
    cols
}

fn find_last_entry(ps: &Vec<ProcessSnap>, pid: Pid) -> (r: Option<usize>)
    ensures
        match r {
            Some(k) => last_entry(ps@, pid) == Some(k as int),
            None => last_entry(ps@, pid) is None,
        },
{
    let n = ps.len();
    let mut found: Option<usize> = None;
    let mut i: usize = 0;
    while i < n
        invariant
            n == ps@.len(),
            i <= n,
            match found {
                Some(k) => last_entry(ps@.take(i as int), pid) == Some(k as int),
                None => last_entry(ps@.take(i as int), pid) is None,
            },
        decreases n - i,
    {
        assert(ps@.take(i + 1).drop_last() =~= ps@.take(i as int));
        if ps[i].pid == pid {
            found = Some(i);
        }
        i = i + 1;
    }
    assert(ps@.take(n as int) =~= ps@);
    found
}

proof fn lemma_last_entry_bounds(ps: Seq<ProcessSnap>, pid: Pid)
    ensures
        last_entry(ps, pid) matches Some(k) ==> 0 <= k < ps.len() && ps[k].pid == pid,
    decreases ps.len(),
{
    if ps.len() > 0 {
        lemma_last_entry_bounds(ps.drop_last(), pid);
    }
}

/// Appends the four fields of the column of `pid` in the row of `ps`.
fn push_cell(out: &mut Vec<u8>, ps: &Vec<ProcessSnap>, pid: Pid)
    ensures
        final(out)@ == old(out)@ + cell(ps@, pid),
        valid_utf8(old(out)@) ==> valid_utf8(final(out)@),
{
    let ghost o = out@;
    proof {
        lemma_last_entry_bounds(ps@, pid);
    }
    match find_last_entry(ps, pid) {
        Some(k) => {
            let p = ps[k];
            push_decimal(out, (p.rss / MIB) as u128);
            push_str(out, " ");
            push_decimal(out, p.cpu_usage as u128);
            push_str(out, " ");
            push_decimal(out, (p.io_read_bytes / MIB) as u128);
            push_str(out, " ");
            push_decimal(out, (p.io_write_bytes / MIB) as u128);
        },
        None => {
            push_str(out, "- - - -");
        },
    }
    assert(out@ =~= o + cell(ps@, pid));
}

impl Log {
    /// The log as a table: a header of the quoted names of the processes with the
    /// largest peak memory (at most `TOP_COUNT`, ties in order of first
    /// observation), then one row per snapshot with its time and, for each of those
    /// processes, its resident megabytes, CPU percent, read and written megabytes,
    /// or four dashes where the snapshot lacks it.
    pub fn dat(&self) -> (r: String)
        ensures
            exists|cols: Seq<int>|
                is_top(self@.descrs, cols) && encode_utf8(r@) == #[trigger] tabular(self@, cols),
    {
        let cols = select_top(&self.processes);
        let ghost ci = col_ints(cols@);
        let ghost dv = self@.descrs;
        let mut out: Vec<u8> = Vec::new();
        assert(valid_utf8(out@));
        push_str(&mut out, "\"ts\"");
        let ghost base = out@;
        let nc = cols.len();
        let mut c: usize = 0;
        while c < nc
            invariant
                nc == cols@.len(),
                ci == col_ints(cols@),
                dv == self@.descrs,
                dv.len() == self.processes@.len(),
                is_top(dv, ci),
                c <= nc,
                out@ == base + header_names(dv, ci.take(c as int)),
                valid_utf8(out@),
            decreases nc - c,
        {
            assert(ci[c as int] == cols@[c as int]);
            let d = &self.processes[cols[c]];
            push_str(&mut out, " \"");
            push_str(&mut out, d.name.as_str());
            push_str(&mut out, "\"");
            assert(ci.take(c + 1).drop_last() =~= ci.take(c as int));
            assert(out@ =~= base + header_names(dv, ci.take(c + 1)));
            c = c + 1;
        }
        assert(ci.take(nc as int) =~= ci);
        push_str(&mut out, "\n");
        let ghost base2 = out@;
        let ghost tv = self@.timeline;
        let m = self.timeline.len();
        let mut t: usize = 0;
        while t < m
            invariant
                m == self.timeline@.len(),
                tv == self@.timeline,
                nc == cols@.len(),
                ci == col_ints(cols@),
                dv == self@.descrs,
                dv.len() == self.processes@.len(),
                is_top(dv, ci),
                t <= m,
                out@ == base2 + rows(tv.take(t as int), dv, ci),
                valid_utf8(out@),
            decreases m - t,
        {
            let snap = &self.timeline[t];
            assert(tv[t as int] == snap@);
            let ghost before = out@;
            push_decimal(&mut out, snap.ts);
            let ghost base3 = out@;
            let mut c: usize = 0;
            while c < nc
                invariant
                    nc == cols@.len(),
                    ci == col_ints(cols@),
                    dv == self@.descrs,
                    dv.len() == self.processes@.len(),
                    is_top(dv, ci),
                    c <= nc,
                    out@ == base3 + row_cells(snap.processes@, dv, ci.take(c as int)),
                    valid_utf8(out@),
                decreases nc - c,
            {
                assert(ci[c as int] == cols@[c as int]);
                let pid = self.processes[cols[c]].pid;
                push_str(&mut out, " ");
                push_cell(&mut out, &snap.processes, pid);
                assert(ci.take(c + 1).drop_last() =~= ci.take(c as int));
                assert(out@ =~= base3 + row_cells(snap.processes@, dv, ci.take(c + 1)));
                c = c + 1;
            }
            assert(ci.take(nc as int) =~= ci);
            push_str(&mut out, "\n");
            assert(tv.take(t + 1).drop_last() =~= tv.take(t as int));
            assert(out@ =~= base2 + rows(tv.take(t + 1), dv, ci));
            t = t + 1;
        }
        assert(tv.take(m as int) =~= tv);
        assert(out@ =~= tabular(self@, ci));
        into_string(out)
    }
}

/// One side of `lemma_top_unique`: where two column lists agree before `a`,
/// the column at `a` of the first ranks before, or is, that of the second.
proof fn lemma_top_before(ds: Seq<DescrView>, c1: Seq<int>, c2: Seq<int>, a: int)
    requires
        is_top(ds, c1),
        is_top(ds, c2),
        0 <= a < c1.len(),
        forall|b: int| 0 <= b < a ==> c1[b] == c2[b],
        c1[a] != c2[a],
    ensures
        ranks_before(ds, c1[a], c2[a]),
{
    let y = c2[a];
    assert(0 <= y < ds.len());
    if c1.contains(y) {
        let b = choose|b: int| 0 <= b < c1.len() && c1[b] == y;
        if b < a {
            assert(c2[b] == y);
            assert(ranks_before(ds, c2[b], c2[a]));
        } else {
            assert(ranks_before(ds, c1[a], c1[b]));
        }
    } else {
        assert(ranks_before(ds, c1[a], y));
    }
}

proof fn lemma_top_agree(ds: Seq<DescrView>, c1: Seq<int>, c2: Seq<int>, n: int)
    requires
        is_top(ds, c1),
        is_top(ds, c2),
        0 <= n <= c1.len(),
    ensures
        forall|b: int| 0 <= b < n ==> c1[b] == c2[b],
    decreases n,
{
    if n > 0 {
        lemma_top_agree(ds, c1, c2, n - 1);
        let a = n - 1;
        if c1[a] != c2[a] {
            lemma_top_before(ds, c1, c2, a);
            lemma_top_before(ds, c2, c1, a);
        }
    }
}

/// The descriptors decide the columns of the table: two lists that both hold
/// the first descriptors in ranking order are the same.
pub proof fn lemma_top_unique(ds: Seq<DescrView>, c1: Seq<int>, c2: Seq<int>)
    requires
        is_top(ds, c1),
        is_top(ds, c2),
    ensures
        c1 == c2,
{
    lemma_top_agree(ds, c1, c2, c1.len() as int);
    assert(c1 =~= c2);
}

/// With fewer than `TOP_COUNT` known processes the table has one column for each.
pub proof fn lemma_top_covers_all(ds: Seq<DescrView>, cols: Seq<int>)
    requires
        is_top(ds, cols),
        ds.len() < TOP_COUNT,
    ensures
        cols.len() == ds.len(),
        forall|j: int| 0 <= j < ds.len() ==> cols.contains(j),
{
    assert(cols.no_duplicates()) by {
        assert forall|a: int, b: int| 0 <= a < cols.len() && 0 <= b < cols.len() && a != b implies cols[a] != cols[b] by {
            if a < b {
                assert(ranks_before(ds, cols[a], cols[b]));
            } else {
                assert(ranks_before(ds, cols[b], cols[a]));
            }
        }
    }
    cols.unique_seq_to_set();
    assert forall|j: int| 0 <= j < ds.len() implies cols.contains(j) by {
        if !cols.contains(j) {
            let rest = vstd::set_lib::set_int_range(0, ds.len() as int).remove(j);
            vstd::set_lib::lemma_int_range(0, ds.len() as int);
            assert(cols.to_set().subset_of(rest)) by {
                assert forall|x: int| cols.to_set().contains(x) implies rest.contains(x) by {
                    let c = choose|c: int| 0 <= c < cols.len() && cols[c] == x;
                    assert(0 <= cols[c] < ds.len());
                }
            }
            vstd::set_lib::lemma_len_subset(cols.to_set(), rest);
        }
    }
}

/// No two columns of the table belong to the same process.
pub proof fn lemma_top_distinct_pids(ds: Seq<DescrView>, cols: Seq<int>)
    requires
        unique_pids(ds),
        is_top(ds, cols),
    ensures
        forall|a: int, b: int|
            0 <= a < cols.len() && 0 <= b < cols.len() && a != b ==> ds[cols[a]].pid != ds[cols[b]].pid,
{
    assert forall|a: int, b: int|
        0 <= a < cols.len() && 0 <= b < cols.len() && a != b implies ds[cols[a]].pid != ds[cols[b]].pid by {
        if a < b {
            assert(ranks_before(ds, cols[a], cols[b]));
        } else {
            assert(ranks_before(ds, cols[b], cols[a]));
        }
        assert(0 <= cols[a] < ds.len());
        assert(0 <= cols[b] < ds.len());
    }
}

proof fn lemma_last_entry_none(ps: Seq<ProcessSnap>, pid: Pid)
    requires
        forall|k: int| 0 <= k < ps.len() ==> (#[trigger] ps[k]).pid != pid,
    ensures
        last_entry(ps, pid) is None,
    decreases ps.len(),
{
    if ps.len() > 0 {
        let prev = ps.drop_last();
        assert forall|k: int| 0 <= k < prev.len() implies (#[trigger] prev[k]).pid != pid by {
            assert(prev[k] == ps[k]);
        }
        assert(ps.last() == ps[ps.len() - 1]);
        lemma_last_entry_none(prev, pid);
    }
}

/// A process missing from a snapshot shows four dashes in that row.
pub proof fn lemma_absent_cell(ps: Seq<ProcessSnap>, pid: Pid)
    requires
        forall|k: int| 0 <= k < ps.len() ==> (#[trigger] ps[k]).pid != pid,
    ensures
        cell(ps, pid) == "- - - -".spec_bytes(),
{
    lemma_last_entry_none(ps, pid);
}

/// After a round, the descriptors hold each pid at most once, and their pids are
/// those held before together with those of the round: one descriptor, and so
/// one JSON entry, for each distinct pid ever appended.
pub proof fn lemma_one_descriptor_per_pid(l: LogView, ps: Seq<(Stat, IO)>, ts: u128, hz: int)
    requires
        unique_pids(l.descrs),
    ensures
        unique_pids(appended(l, ps, ts, hz).descrs),
        forall|p: Pid|
            #![trigger index_of(appended(l, ps, ts, hz).descrs, p)]
            index_of(appended(l, ps, ts, hz).descrs, p) is Some <==> (index_of(l.descrs, p) is Some
                || exists|k: int| 0 <= k < ps.len() && ps[k].0.pid == p),
{
    let ss = stats_of(ps);
    lemma_observe_all(l.descrs, ss);
    assert forall|p: Pid| #![trigger index_of(appended(l, ps, ts, hz).descrs, p)]
        index_of(appended(l, ps, ts, hz).descrs, p) is Some <==> (index_of(l.descrs, p) is Some
            || exists|k: int| 0 <= k < ps.len() && ps[k].0.pid == p) by {
        if exists|k: int| 0 <= k < ps.len() && ps[k].0.pid == p {
            let k = choose|k: int| 0 <= k < ps.len() && ps[k].0.pid == p;
            assert(ss[k].pid == p);
        } else if index_of(l.descrs, p) is None {
            assert forall|j: int| 0 <= j < ss.len() implies (#[trigger] ss[j]).pid != p by {
                assert(ps[j].0.pid != p);
            }
            lemma_observe_all_absent(l.descrs, ss, p);
        }
    }
}

/// The JSON value of a descriptor: `[pid,"name"]`.
pub open spec fn descr_json(d: DescrView) -> Json {
    Json::Arr(seq![Json::Num(d.pid as nat), Json::Str(d.name)])
}

/// The JSON value of a snapshot entry: `[pid,rss]`.
pub open spec fn pair_json(p: ProcessSnap) -> Json {
    Json::Arr(seq![Json::Num(p.pid as nat), Json::Num(p.rss as nat)])
}

/// The JSON value of a snapshot: `[ts,[pid,rss],...]`.
pub open spec fn snapshot_json(s: SnapshotView) -> Json {
    Json::Arr(seq![Json::Num(s.ts as nat)] + s.processes.map_values(|p: ProcessSnap| pair_json(p)))
}

/// The JSON value of a log.
pub open spec fn log_json(l: LogView) -> Json {
    Json::Obj(
        seq![
            ("descriptors"@, Json::Arr(l.descrs.map_values(|d: DescrView| descr_json(d)))),
            ("timeline"@, Json::Arr(l.timeline.map_values(|s: SnapshotView| snapshot_json(s)))),
        ],
    )
}

proof fn lemma_render_two(a: Json, b: Json)
    ensures
        render(Json::Arr(seq![a, b])) == "[".spec_bytes() + render(a) + ",".spec_bytes() + render(b)
            + "]".spec_bytes(),
{
    let items = seq![a, b];
    assert(items[0] == a);
    assert(items[1] == b);
    assert(render_items(items, 1) == render(a));
    assert(render_items(items, 2) == render_items(items, 1) + ",".spec_bytes() + render(b));
    assert(render(Json::Arr(items)) == "[".spec_bytes() + render_items(items, 2) + "]".spec_bytes());
    assert(render(Json::Arr(items)) =~= "[".spec_bytes() + render(a) + ",".spec_bytes() + render(b)
        + "]".spec_bytes());
}

proof fn lemma_descrs_render(ds: Seq<DescrView>, n: nat)
    requires
        n <= ds.len(),
    ensures
        render_items(ds.map_values(|d: DescrView| descr_json(d)), n) == json_descrs(ds.take(n as int)),
    decreases n,
{
    let items = ds.map_values(|d: DescrView| descr_json(d));
    if n > 0 {
        let d = ds[n - 1];
        lemma_render_two(Json::Num(d.pid as nat), Json::Str(d.name));
        assert(render(Json::Num(d.pid as nat)) == decimal(d.pid as nat));
        assert(render(Json::Str(d.name)) == quoted(d.name));
        assert(render(descr_json(d)) =~= json_descr(d));
        assert(items[n - 1] == descr_json(d));
        if n > 1 {
            lemma_descrs_render(ds, (n - 1) as nat);
            assert(ds.take(n as int).drop_last() =~= ds.take(n - 1));
        } else {
            assert(ds.take(n as int) =~= seq![d]);
        }
    } else {
        assert(ds.take(0) =~= Seq::<DescrView>::empty());
    }
}

proof fn lemma_pair_render(p: ProcessSnap)
    ensures
        render(pair_json(p)) == "[".spec_bytes() + decimal(p.pid as nat) + ",".spec_bytes()
            + decimal(p.rss as nat) + "]".spec_bytes(),
{
    lemma_render_two(Json::Num(p.pid as nat), Json::Num(p.rss as nat));
    assert(render(Json::Num(p.pid as nat)) == decimal(p.pid as nat));
    assert(render(Json::Num(p.rss as nat)) == decimal(p.rss as nat));
}

proof fn lemma_pairs_step(x: Seq<Json>, j: nat, head: Seq<u8>, pairs: Seq<u8>, p: ProcessSnap)
    requires
        j >= 1,
        j + 1 <= x.len(),
        x[j as int] == pair_json(p),
        render_items(x, j) == head + pairs,
    ensures
        render_items(x, j + 1) == head + (pairs + ",".spec_bytes() + "[".spec_bytes() + decimal(
            p.pid as nat,
        ) + ",".spec_bytes() + decimal(p.rss as nat) + "]".spec_bytes()),
{
    lemma_pair_render(p);
    assert(render_items(x, j + 1) == render_items(x, j) + ",".spec_bytes() + render(x[j as int]));
    assert(render_items(x, j + 1) =~= head + (pairs + ",".spec_bytes() + "[".spec_bytes()
        + decimal(p.pid as nat) + ",".spec_bytes() + decimal(p.rss as nat) + "]".spec_bytes()));
}

proof fn lemma_pairs_render(s: SnapshotView, j: nat)
    requires
        j <= s.processes.len(),
    ensures
        render_items(
            seq![Json::Num(s.ts as nat)] + s.processes.map_values(|p: ProcessSnap| pair_json(p)),
            j + 1,
        ) == decimal(s.ts as nat) + json_pairs(s.processes.take(j as int)),
    decreases j,
{
    let ps = s.processes;
    let x = seq![Json::Num(s.ts as nat)] + ps.map_values(|p: ProcessSnap| pair_json(p));
    if j == 0 {
        assert(ps.take(0) =~= Seq::<ProcessSnap>::empty());
        assert(x[0] == Json::Num(s.ts as nat));
        assert(render_items(x, 1) == render(x[0]));
        assert(decimal(s.ts as nat) + json_pairs(ps.take(0)) =~= decimal(s.ts as nat));
    } else {
        lemma_pairs_render(s, (j - 1) as nat);
        let p = ps[j - 1];
        assert(x[j as int] == pair_json(p));
        lemma_pairs_step(x, j, decimal(s.ts as nat), json_pairs(ps.take(j - 1)), p);
        let pt = ps.take(j as int);
        assert(pt.drop_last() =~= ps.take(j - 1));
        assert(pt.last() == p);
        assert(json_pairs(pt) == json_pairs(ps.take(j - 1)) + ",".spec_bytes() + "[".spec_bytes()
            + decimal(p.pid as nat) + ",".spec_bytes() + decimal(p.rss as nat) + "]".spec_bytes());
    }
}

proof fn lemma_timeline_render(tl: Seq<SnapshotView>, n: nat)
    requires
        n <= tl.len(),
    ensures
        render_items(tl.map_values(|s: SnapshotView| snapshot_json(s)), n) == json_timeline(
            tl.take(n as int),
        ),
    decreases n,
{
    if n > 0 {
        let s = tl[n - 1];
        let items = tl.map_values(|t: SnapshotView| snapshot_json(t));
        let x = seq![Json::Num(s.ts as nat)] + s.processes.map_values(|p: ProcessSnap| pair_json(p));
        lemma_pairs_render(s, s.processes.len() as nat);
        assert(s.processes.take(s.processes.len() as int) =~= s.processes);
        assert(snapshot_json(s) == Json::Arr(x));
        assert(render(Json::Arr(x)) == "[".spec_bytes() + render_items(x, x.len() as nat) + "]".spec_bytes());
        assert(x.len() == s.processes.len() + 1);
        assert(render(snapshot_json(s)) =~= json_snapshot(s));
        assert(items[n - 1] == snapshot_json(s));
        if n > 1 {
            lemma_timeline_render(tl, (n - 1) as nat);
            assert(tl.take(n as int).drop_last() =~= tl.take(n - 1));
        } else {
            assert(tl.take(n as int) =~= seq![s]);
        }
    } else {
        assert(tl.take(0) =~= Seq::<SnapshotView>::empty());
    }
}

proof fn lemma_object_text(
    open: Seq<u8>,
    close: Seq<u8>,
    lb: Seq<u8>,
    rb: Seq<u8>,
    comma: Seq<u8>,
    colon: Seq<u8>,
    k1: Seq<u8>,
    v1: Seq<u8>,
    k2: Seq<u8>,
    v2: Seq<u8>,
)
    ensures
        open + ((k1 + colon + (lb + v1 + rb)) + comma + k2 + colon + (lb + v2 + rb)) + close
            == open + k1 + colon + lb + v1 + rb + comma + k2 + colon + lb + v2 + rb + close,
{
    assert(open + ((k1 + colon + (lb + v1 + rb)) + comma + k2 + colon + (lb + v2 + rb)) + close
        =~= open + k1 + colon + lb + v1 + rb + comma + k2 + colon + lb + v2 + rb + close);
}

proof fn lemma_log_render(l: LogView)
    ensures
        render(log_json(l)) == json_text(l),
{
    let ds = l.descrs;
    let tl = l.timeline;
    lemma_descrs_render(ds, ds.len() as nat);
    lemma_timeline_render(tl, tl.len() as nat);
    assert(ds.take(ds.len() as int) =~= ds);
    assert(tl.take(tl.len() as int) =~= tl);
    let v = log_json(l);
    let dj = ds.map_values(|d: DescrView| descr_json(d));
    let tj = tl.map_values(|s: SnapshotView| snapshot_json(s));
    let m = seq![("descriptors"@, Json::Arr(dj)), ("timeline"@, Json::Arr(tj))];
    assert(v == Json::Obj(m));
    assert(render(Json::Arr(dj)) == "[".spec_bytes() + json_descrs(ds) + "]".spec_bytes());
    assert(render(Json::Arr(tj)) == "[".spec_bytes() + json_timeline(tl) + "]".spec_bytes());
    assert(render_members(m, 1) == quoted(m[0].0) + ":".spec_bytes() + render(m[0].1));
    assert(render_members(m, 2) == render_members(m, 1) + ",".spec_bytes() + quoted(m[1].0)
        + ":".spec_bytes() + render(m[1].1));
    assert(render(v) == "{".spec_bytes() + render_members(m, 2) + "}".spec_bytes());
    lemma_object_text(
        "{".spec_bytes(),
        "}".spec_bytes(),
        "[".spec_bytes(),
        "]".spec_bytes(),
        ",".spec_bytes(),
        ":".spec_bytes(),
        quoted("descriptors"@),
        json_descrs(ds),
        quoted("timeline"@),
        json_timeline(tl),
    );
}

proof fn lemma_log_plain(l: LogView)
    requires
        forall|i: int| 0 <= i < l.descrs.len() ==> plain_string(#[trigger] l.descrs[i].name),
    ensures
        plain_strings(log_json(l)),
{
    let ds = l.descrs;
    let tl = l.timeline;
    let dj = ds.map_values(|d: DescrView| descr_json(d));
    let tj = tl.map_values(|s: SnapshotView| snapshot_json(s));
    assert(plain_string("descriptors"@)) by {
        reveal_strlit("descriptors");
    }
    assert(plain_string("timeline"@)) by {
        reveal_strlit("timeline");
    }
    assert forall|i: int| 0 <= i < dj.len() implies plain_strings(#[trigger] dj[i]) by {
        let items = seq![Json::Num(ds[i].pid as nat), Json::Str(ds[i].name)];
        assert(dj[i] == Json::Arr(items));
        assert(plain_strings(items[0]));
        assert(plain_strings(items[1]));
    }
    assert forall|i: int| 0 <= i < tj.len() implies plain_strings(#[trigger] tj[i]) by {
        let s = tl[i];
        let x = seq![Json::Num(s.ts as nat)] + s.processes.map_values(|p: ProcessSnap| pair_json(p));
        assert(tj[i] == Json::Arr(x));
        assert forall|k: int| 0 <= k < x.len() implies plain_strings(#[trigger] x[k]) by {
            if k > 0 {
                let p = s.processes[k - 1];
                assert(x[k] == pair_json(p));
                let pj = seq![Json::Num(p.pid as nat), Json::Num(p.rss as nat)];
                assert(plain_strings(pj[0]));
                assert(plain_strings(pj[1]));
            }
        }
    }
    assert(plain_strings(Json::Arr(dj)));
    assert(plain_strings(Json::Arr(tj)));
    let m = seq![("descriptors"@, Json::Arr(dj)), ("timeline"@, Json::Arr(tj))];
    assert(log_json(l) == Json::Obj(m));
    assert(m[0].0 == "descriptors"@);
    assert(m[1].0 == "timeline"@);
}

/// The JSON text of a log is the compact text of a JSON value whose strings
/// are all plain, so it is valid JSON, when no process name holds a quote, a
/// backslash or a control character.
pub proof fn lemma_json_valid(l: LogView)
    requires
        forall|i: int| 0 <= i < l.descrs.len() ==> plain_string(#[trigger] l.descrs[i].name),
    ensures
        plain_strings(log_json(l)),
        render(log_json(l)) == json_text(l),
{
    lemma_log_render(l);
    lemma_log_plain(l);
}

} // verus!
