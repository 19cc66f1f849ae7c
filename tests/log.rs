use agent::log::{clock_rate_of, Log, ProcessDescr, ProcessSnap};
use agent::{Stat, IO};

fn having_stat() -> Stat {
    Stat::from("1 (a b c) R 4 5 6 7 8 9 10 11 12 13 14 15 16 17 18 19 20 21 22 23 24 25 26 27 28 29 30 31 32 33 34 35 36 37 38 39 40 41 42 43 44 45 46 47 48 49 50 51 52").unwrap()
}

fn having_descr() -> ProcessDescr {
    ProcessDescr {
        pid: 0,
        name: "".to_string(),
        max_rss: 0,
        utime: 0,
        stime: 0,
        cutime: 0,
        cstime: 0,
        last_utime: None,
        last_stime: None,
        last_cutime: None,
        last_cstime: None,
    }
}

fn having_io() -> IO {
    IO {
        rchar: 1,
        wchar: 2,
        syscr: 3,
        syscw: 4,
        read_bytes: 5,
        write_bytes: 6,
        cancelled_write_bytes: 7,
    }
}

fn stat(pid: usize, name: &str, rss: usize, utime: usize) -> Stat {
    Stat {
        pid,
        name: name.to_string(),
        ppid: 0,
        pgrp: 0,
        session: 0,
        utime,
        stime: 0,
        cutime: 0,
        cstime: 0,
        priority: 0,
        nice: 0,
        num_threads: 1,
        itrealvalue: 0,
        starttime: 0,
        vsize: 0,
        rss,
        rsslim: 0,
        exit_code: 0,
    }
}

fn io(read: usize, write: usize) -> IO {
    IO {
        rchar: 0,
        wchar: 0,
        syscr: 0,
        syscw: 0,
        read_bytes: read,
        write_bytes: write,
        cancelled_write_bytes: 0,
    }
}

#[test]
fn test_process_descr_from_stat() {
    let stat = having_stat();
    let descr = ProcessDescr::from(&stat);
    assert_eq!(descr, ProcessDescr {
        name: "a b c".to_string(),
        pid: 1,
        max_rss: 0,
        utime: 14,
        stime: 15,
        cutime: 16,
        cstime: 17,
        last_utime: None,
        last_stime: None,
        last_cutime: None,
        last_cstime: None,
    })
}

#[test]
fn test_process_stat_from_stat() {
    let stat = having_stat();
    let descr = having_descr();
    let io = having_io();
    let pstat = ProcessSnap::from(&stat, &io, &descr);
    assert_eq!(pstat, Some(ProcessSnap {
        pid: 1,
        rss: 98304,
        cpu_usage: 0,
        io_read_bytes: 5,
        io_write_bytes: 6,
    }))
}

#[test]
fn cpu_usage_at_rate() {
    let mut d = ProcessDescr::from(&stat(5, "p", 0, 100));
    assert_eq!(d.cpu_usage(100), 0);
    d.last_utime = Some(100);
    d.utime = 250;
    assert_eq!(d.cpu_usage(100), 150);
    assert_eq!(d.cpu_usage(300), 50);
    d.utime = 50;
    assert_eq!(d.cpu_usage(100), 0);
}

#[test]
fn first_observation_has_zero_cpu() {
    let mut log = Log::new();
    log.append_at(vec![(stat(1, "a", 4096, 999999), io(0, 0))], 0, 100);
    assert_eq!(log.dat(), "\"ts\" \"a\"\n0 0 0 0 0\n");
}

#[test]
fn second_observation_gives_rate() {
    let mut log = Log::new();
    log.append_at(vec![(stat(1, "a", 0, 100), io(0, 0))], 0, 100);
    log.append_at(vec![(stat(1, "a", 0, 357), io(0, 0))], 1000, 100);
    assert_eq!(log.dat(), "\"ts\" \"a\"\n0 0 0 0 0\n1000 0 257 0 0\n");
    let mut log = Log::new();
    log.append_at(vec![(stat(1, "a", 0, 100), io(0, 0))], 0, 250);
    log.append_at(vec![(stat(1, "a", 0, 357), io(0, 0))], 1000, 250);
    assert_eq!(log.dat(), "\"ts\" \"a\"\n0 0 0 0 0\n1000 0 102 0 0\n");
}

#[test]
fn max_rss_never_decreases() {
    let mib = 1048576;
    let mut log = Log::new();
    log.append_at(vec![(stat(1, "a", 1 * mib, 0), io(0, 0)), (stat(2, "b", 9 * mib, 0), io(0, 0))], 0, 100);
    log.append_at(vec![(stat(1, "a", 5 * mib, 0), io(0, 0)), (stat(2, "b", 2 * mib, 0), io(0, 0))], 1, 100);
    log.append_at(vec![(stat(1, "a", 1 * mib, 0), io(0, 0)), (stat(2, "b", 3 * mib, 0), io(0, 0))], 2, 100);
    // a peaked at 5 MiB, b at 3 MiB (the first observation is not counted), so a comes first.
    let table = log.dat();
    assert!(table.starts_with("\"ts\" \"a\" \"b\"\n"));
}

#[test]
fn table_with_fewer_than_ten_processes() {
    let mib = 1048576;
    let mut log = Log::new();
    log.append_at(
        vec![(stat(1, "one", 3 * mib, 0), io(2 * mib, 3 * mib)), (stat(2, "two", mib, 0), io(0, 0))],
        0,
        100,
    );
    log.append_at(
        vec![(stat(1, "one", 3 * mib, 0), io(2 * mib, 3 * mib)), (stat(2, "two", 4 * mib, 0), io(mib, 0))],
        1000,
        100,
    );
    assert_eq!(
        log.dat(),
        "\"ts\" \"two\" \"one\"\n0 1 0 0 0 3 0 2 3\n1000 4 0 1 0 3 0 2 3\n"
    );
}

#[test]
fn table_of_empty_log() {
    let log = Log::new();
    assert_eq!(log.dat(), "\"ts\"\n");
    assert_eq!(log.json(), "{\"descriptors\":[],\"timeline\":[]}");
}

#[test]
fn absent_process_shows_dashes() {
    let mut log = Log::new();
    log.append_at(vec![(stat(1, "a", 0, 0), io(0, 0)), (stat(2, "b", 0, 0), io(0, 0))], 0, 100);
    log.append_at(vec![(stat(2, "b", 0, 0), io(0, 0))], 5, 100);
    assert_eq!(log.dat(), "\"ts\" \"a\" \"b\"\n0 0 0 0 0 0 0 0 0\n5 - - - - 0 0 0 0\n");
}

#[test]
fn table_keeps_ten_largest() {
    let mut log = Log::new();
    let mut round = Vec::new();
    for pid in 1..=12usize {
        round.push((stat(pid, &format!("proc{}", pid), 0, 0), io(0, 0)));
    }
    log.append_at(round.clone(), 0, 100);
    let mut round2 = Vec::new();
    for pid in 1..=12usize {
        round2.push((stat(pid, &format!("proc{}", pid), pid * 1048576, 0), io(0, 0)));
    }
    log.append_at(round2, 1, 100);
    let table = log.dat();
    let header = table.lines().next().unwrap();
    assert_eq!(header, "\"ts\" \"proc12\" \"proc11\" \"proc10\" \"proc9\" \"proc8\" \"proc7\" \"proc6\" \"proc5\" \"proc4\" \"proc3\"");
    let second = table.lines().nth(2).unwrap();
    assert_eq!(second, "1 12 0 0 0 11 0 0 0 10 0 0 0 9 0 0 0 8 0 0 0 7 0 0 0 6 0 0 0 5 0 0 0 4 0 0 0 3 0 0 0");
}

#[test]
fn json_lists_each_pid_once() {
    let mut log = Log::new();
    log.append_at(vec![(stat(7, "x y", 10, 0), io(0, 0))], 0, 100);
    log.append_at(vec![(stat(7, "x y", 20, 0), io(0, 0)), (stat(3, "z", 30, 0), io(0, 0))], 1000, 100);
    log.append_at(vec![], 2000, 100);
    assert_eq!(
        log.json(),
        "{\"descriptors\":[[7,\"x y\"],[3,\"z\"]],\"timeline\":[[0,[7,10]],[1000,[7,20],[3,30]],[2000]]}"
    );
}

#[test]
fn append_with_system_clock() {
    let mut log = Log::new();
    assert!(log.append(vec![(stat(1, "a", 0, 0), io(0, 0))]));
    let json = log.json();
    assert!(json.starts_with("{\"descriptors\":[[1,\"a\"]],\"timeline\":[["));
    assert!(json.ends_with(",[1,0]]]}"));
}

#[test]
fn clock_rate_from_sysconf_answer() {
    assert_eq!(clock_rate_of(Ok(100)), Some(100));
    assert_eq!(clock_rate_of(Ok(0)), None);
    assert_eq!(clock_rate_of(Ok(-1)), None);
    assert_eq!(clock_rate_of(Err(sysconf::raw::SysconfError::Unsupported)), None);
}

#[test]
fn repeated_smaller_samples_keep_the_peak() {
    let mib = 1048576;
    let mut log = Log::new();
    log.append_at(vec![(stat(1, "a", 0, 0), io(0, 0)), (stat(2, "b", 0, 0), io(0, 0))], 0, 100);
    log.append_at(vec![(stat(1, "a", 8 * mib, 0), io(0, 0)), (stat(2, "b", 6 * mib, 0), io(0, 0))], 1, 100);
    log.append_at(
        vec![(stat(1, "a", mib, 0), io(0, 0)), (stat(1, "a", 2 * mib, 0), io(0, 0)), (stat(2, "b", 7 * mib, 0), io(0, 0))],
        2,
        100,
    );
    // a keeps its peak of 8 MiB and still ranks before b at 7 MiB.
    assert!(log.dat().starts_with("\"ts\" \"a\" \"b\"\n"));
}
