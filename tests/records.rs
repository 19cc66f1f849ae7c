use agent::{MalformedRecord, Stat, IO};

const LINE: &str = "1 (a b c) R 4 5 6 7 8 9 10 11 12 13 14 15 16 17 18 19 20 21 22 23 24 25 26 27 28 29 30 31 32 33 34 35 36 37 38 39 40 41 42 43 44 45 46 47 48 49 50 51 52";

#[test]
fn test_from() {
    let pinfo = Stat {
        pid: 1,
        name: String::from("a b c"),
        ppid: 4,
        pgrp: 5,
        session: 6,
        utime: 14,
        stime: 15,
        cutime: 16,
        cstime: 17,
        priority: 18,
        nice: 19,
        num_threads: 20,
        itrealvalue: 21,
        starttime: 22,
        vsize: 23,
        rss: 98304,
        rsslim: 25,
        exit_code: 52,
    };
    assert_eq!(Stat::from(LINE), Ok(pinfo));
}

#[test]
fn test_io_from() {
    let s = "rchar: 1693633473
wchar: 929127024
syscr: 700351
syscw: 208865
read_bytes: 199962624
write_bytes: 580358144
cancelled_write_bytes: 53547008";

    let expected = IO {
        rchar: 1693633473,
        wchar: 929127024,
        syscr: 700351,
        syscw: 208865,
        read_bytes: 199962624,
        write_bytes: 580358144,
        cancelled_write_bytes: 53547008,
    };

    assert_eq!(IO::from(s), Ok(expected));
}

#[test]
fn parse_with_explicit_page_size() {
    let st = Stat::parse(LINE, 1000).unwrap();
    assert_eq!(st.rss, 24000);
    assert_eq!(st.name, "a b c");
    assert_eq!(st.exit_code, 52);
}

#[test]
fn name_with_parentheses_and_no_spaces() {
    let line = "7 (x(y)z) S 4 5 6 7 8 9 10 11 12 13 14 15 16 17 18 19 20 21 22 23 24 25 26 27 28 29 30 31 32 33 34 35 36 37 38 39 40 41 42 43 44 45 46 47 48 49 50 51 52";
    let st = Stat::parse(line, 4096).unwrap();
    assert_eq!(st.pid, 7);
    assert_eq!(st.name, "x(y)z");
    assert_eq!(st.ppid, 4);
    assert_eq!(st.utime, 14);
    assert_eq!(st.rss, 24 * 4096);
}

#[test]
fn name_with_spaces_and_parentheses() {
    let line = "9 (a (b) c d) S 4 5 6 7 8 9 10 11 12 13 14 15 16 17 -18 -19 20 21 22 23 24 25 26 27 28 29 30 31 32 33 34 35 36 37 38 39 40 41 42 43 44 45 46 47 48 49 50 51 52";
    let st = Stat::parse(line, 1).unwrap();
    assert_eq!(st.name, "a (b) c d");
    assert_eq!(st.session, 6);
    assert_eq!(st.priority, -18);
    assert_eq!(st.nice, -19);
    assert_eq!(st.vsize, 23);
    assert_eq!(st.rss, 24);
    assert_eq!(st.exit_code, 52);
}

#[test]
fn non_ascii_name() {
    let line = "3 (h\u{e9}llo w\u{f6}rld) S 4 5 6 7 8 9 10 11 12 13 14 15 16 17 18 19 20 21 22 23 24 25 26 27 28 29 30 31 32 33 34 35 36 37 38 39 40 41 42 43 44 45 46 47 48 49 50 51 52";
    let st = Stat::parse(line, 2).unwrap();
    assert_eq!(st.name, "h\u{e9}llo w\u{f6}rld");
    assert_eq!(st.rss, 48);
}

#[test]
fn missing_parentheses_is_malformed() {
    let line = LINE.replace('(', " ");
    assert_eq!(Stat::parse(&line, 4096), Err(MalformedRecord));
    let line = LINE.replace(')', " ");
    assert_eq!(Stat::parse(&line, 4096), Err(MalformedRecord));
}

#[test]
fn non_numeric_field_is_malformed() {
    let line = LINE.replace(" 14 ", " x ");
    assert_eq!(Stat::parse(&line, 4096), Err(MalformedRecord));
}

#[test]
fn too_few_tokens_is_malformed() {
    assert_eq!(Stat::parse("1 (a) R 4 5 6", 4096), Err(MalformedRecord));
}

#[test]
fn rss_overflow_is_malformed() {
    assert_eq!(Stat::parse(LINE, usize::MAX), Err(MalformedRecord));
}

#[test]
fn io_block_too_short_is_malformed() {
    assert_eq!(IO::from("rchar: 1\nwchar: 2"), Err(MalformedRecord));
}

#[test]
fn io_block_non_numeric_is_malformed() {
    let s = "rchar: 1\nwchar: 2\nsyscr: 3\nsyscw: x\nread_bytes: 5\nwrite_bytes: 6\ncancelled_write_bytes: 7";
    assert_eq!(IO::from(s), Err(MalformedRecord));
}

#[test]
fn io_labels_are_not_checked() {
    let s = "a 1 b 2 c 3 d 4 e 5 f 6 g +7";
    let io = IO::from(s).unwrap();
    assert_eq!(io.read_bytes, 5);
    assert_eq!(io.cancelled_write_bytes, 7);
}
