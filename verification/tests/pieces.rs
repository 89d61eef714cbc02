use logdeck::activity::{Activity, LevelCounts};
use logdeck::files::{
    canonical_root, cannot_read, confine, is_log_name, list_files, modified_secs, newest_log,
    resolve_named, FileMeta, Listing, Moment,
};
use logdeck::header::{Header, HeaderMatcher};
use logdeck::ids::{decode_entry_id, generation_token, stamped_break_id, stamped_entry_id};
use logdeck::model::{Level, ProjectId};
use logdeck::parser::{level_from, parse_bytes, strip_carriage_return, Accumulator};
use logdeck::text::{
    comes_before, cut_last, decimal_text, has_char, has_end, has_text, number_of, same_text,
};
use logdeck::window::{WindowWalk, WINDOW_CHUNK_BYTES};

fn header(line: &str) -> Option<Header> {
    HeaderMatcher::new().header(line)
}

fn log(name: &str, seconds: i64, nanos: u32) -> Listing {
    Listing {
        name: name.to_owned(),
        meta: Some(FileMeta {
            is_file: true,
            bytes: 7,
            modified: Some(Moment { seconds, nanos }),
        }),
    }
}

#[test]
fn a_header_is_read_back_as_it_was_written() {
    let found = header("[2026-08-14T01:28:00.5+0530] my.env.ALERT:  spaced ").expect("a header");
    assert_eq!(found.timestamp, "2026-08-14T01:28:00.5+0530");
    assert_eq!(found.env, "my.env");
    assert_eq!(found.level, "ALERT");
    assert_eq!(found.message, " spaced ");
}

#[test]
fn a_header_ends_with_its_colon_or_goes_on() {
    assert_eq!(header("[2026-08-14 01:28:00] a.INFO:").expect("a header").message, "");
    assert_eq!(header("[2026-08-14 01:28:00] a.INFO:x").expect("a header").message, "x");
    // The environment takes as much as it can.
    let greedy = header("[2026-08-14 01:28:00] a.INFO:b.ERROR:c").expect("a header");
    assert_eq!(greedy.env, "a.INFO:b");
    assert_eq!(greedy.level, "ERROR");
    assert_eq!(greedy.message, "c");
}

#[test]
fn what_is_not_a_header_is_not_read_as_one() {
    for line in [
        "",
        "#0 frame",
        "[stacktrace]",
        " [2026-08-14 01:28:00] a.INFO: indented",
        "[2026-08-14] a.INFO: no time",
        "[2026-08-14 01:28:00]a.INFO: no space",
        "[2026-08-14 01:28:00] .INFO: no environment",
        "[2026-08-14 01:28:00] a.INF: short",
        "[2026-08-14 01:28:00] a b.INFO: white",
        "[2026-08-14 01:28:00+5] a.INFO: zone",
    ] {
        assert_eq!(header(line), None, "{line}");
    }
}

#[test]
fn levels_are_read_by_their_names() {
    assert_eq!(level_from("EMERGENCY"), Level::Emergency);
    assert_eq!(level_from("TRACE"), Level::Unknown);
    assert_eq!(level_from("debug"), Level::Unknown);
}

#[test]
fn only_one_carriage_return_is_stripped() {
    assert_eq!(strip_carriage_return(b"a\r\r"), b"a\r");
    assert_eq!(strip_carriage_return(b"a"), b"a");
    assert_eq!(strip_carriage_return(b""), b"");
}

#[test]
fn a_line_that_was_read_is_pushed_with_its_header() {
    let mut acc = Accumulator::new(ProjectId::from_canonical("/p"), "f.log");
    let first = Header {
        timestamp: "t".to_owned(),
        env: "e".to_owned(),
        level: "ERROR".to_owned(),
        message: "m".to_owned(),
    };
    assert_eq!(acc.push_read(5, "one", Some(first)), None);
    assert_eq!(acc.push_read(9, "", None), None);
    assert_eq!(acc.push_read(10, "two", None), None);
    let entry = acc.flush().expect("pending");
    assert_eq!(entry.id.as_str(), "f.log:5");
    assert_eq!(entry.level, Level::Error);
    assert_eq!(entry.context, "\ntwo");
    assert_eq!(entry.raw, "one\n\ntwo");
}

#[test]
fn chunks_give_the_same_entries_as_the_whole() {
    let project = ProjectId::from_canonical("/p");
    let text = "x\n[2026-08-14 01:28:00] a.INFO: one\r\n#0\n[2026-08-14 01:28:01] a.INFO: two\n";
    let whole = parse_bytes(&project, "f.log", 3, text.as_bytes());
    for cut in 0..text.len() {
        if cut > 0 && text.as_bytes()[cut - 1] != b'\n' {
            continue;
        }
        let mut acc = Accumulator::new(project.clone(), "f.log");
        let mut entries = acc.push_str(3, &text[..cut]);
        entries.extend(acc.push_str(3 + cut as u64, &text[cut..]));
        entries.extend(acc.flush());
        assert_eq!(entries, whole, "cut at {cut}");
    }
}

#[test]
fn a_unix_log_is_held_verbatim() {
    let project = ProjectId::from_canonical("/p");
    let text = "tail\n\n[2026-08-14 01:28:00] a.INFO: é\n#0\n[2026-08-14 01:28:01] a.INFO: two\n";
    let raws: Vec<String> = parse_bytes(&project, "f.log", 0, text.as_bytes())
        .into_iter()
        .map(|entry| entry.raw)
        .collect();
    assert_eq!(raws.join("\n"), text.trim_end_matches('\n'));

    let windows = text.replace('\n', "\r\n");
    let same: Vec<String> = parse_bytes(&project, "f.log", 0, windows.as_bytes())
        .into_iter()
        .map(|entry| entry.raw)
        .collect();
    assert_eq!(same, raws);
}

#[test]
fn reading_again_from_the_last_entry_gives_it_alone() {
    let project = ProjectId::from_canonical("/p");
    let text = "[2026-08-14 01:28:00] a.INFO: one\n[2026-08-14 01:28:01] a.INFO: two\n#0\n";
    let last = parse_bytes(&project, "f.log", 0, text.as_bytes())
        .pop()
        .expect("entries");
    let again = parse_bytes(
        &project,
        "f.log",
        last.offset,
        &text.as_bytes()[last.offset as usize..],
    );
    assert_eq!(again, vec![last]);
}

#[test]
fn log_names_end_in_log_and_are_not_hidden() {
    assert!(is_log_name("laravel.log"));
    assert!(is_log_name("a b.log"));
    assert!(!is_log_name(".log"));
    assert!(!is_log_name(".hidden.log"));
    assert!(!is_log_name("laravel.log.gz"));
    assert!(!is_log_name(""));
}

#[test]
fn a_name_from_outside_stays_in_its_directory() {
    assert_eq!(
        resolve_named("/p/storage/logs", "laravel.log"),
        Ok("/p/storage/logs/laravel.log".to_owned())
    );
    // A colon is not a separator.
    assert_eq!(
        resolve_named("/p/storage/logs", "api:worker.log"),
        Ok("/p/storage/logs/api:worker.log".to_owned())
    );
    assert_eq!(resolve_named("/", "laravel.log"), Ok("/laravel.log".to_owned()));
    for name in ["a/b.log", "a\\b.log", "a\0.log", "a..log", "../a.log", "a.txt", ""] {
        assert_eq!(
            resolve_named("/p", name),
            Err(format!("`{name}` is not a log file name"))
        );
    }
}

#[test]
fn times_before_the_epoch_count_as_none() {
    let meta = |modified| FileMeta {
        is_file: true,
        bytes: 0,
        modified,
    };
    assert_eq!(modified_secs(&meta(Some(Moment { seconds: 5, nanos: 9 }))), 5);
    assert_eq!(modified_secs(&meta(Some(Moment { seconds: -1, nanos: 0 }))), 0);
    assert_eq!(modified_secs(&meta(None)), 0);
}

#[test]
fn the_newest_log_is_by_time_and_then_by_name() {
    let dir = "/p/storage/logs";
    let seen = vec![
        log("a.log", 10, 5),
        log("c.log", 10, 5),
        log("b.log", 10, 5),
        log("z.log", 10, 4),
        log("zz.txt", 99, 0),
        Listing {
            name: "unreadable.log".to_owned(),
            meta: None,
        },
        Listing {
            name: "folder.log".to_owned(),
            meta: Some(FileMeta {
                is_file: false,
                bytes: 0,
                modified: None,
            }),
        },
    ];
    let found = newest_log(dir, Ok(seen)).expect("readable").expect("a log");
    assert_eq!(found.name, "c.log");
    assert_eq!(found.path, "/p/storage/logs/c.log");
    assert_eq!(newest_log(dir, Ok(Vec::new())), Ok(None));
    assert_eq!(
        newest_log(dir, Err("denied".to_owned())),
        Err(cannot_read(dir, "denied"))
    );
}

#[test]
fn files_are_listed_newest_first_and_ties_by_later_name() {
    let seen = vec![
        log("a.log", 10, 0),
        log("d.log", 20, 0),
        log("c.log", 10, 0),
        log("b.log", 30, 0),
        log(".x.log", 90, 0),
    ];
    let files = list_files(Ok("/p".to_owned()), Ok(seen)).expect("listed");
    let names: Vec<_> = files.iter().map(|file| file.name.as_str()).collect();
    assert_eq!(names, vec!["b.log", "d.log", "c.log", "a.log"]);
    assert_eq!(
        list_files(Ok("/p".to_owned()), Err("denied".to_owned())),
        Err("cannot read /p/storage/logs: denied".to_owned())
    );
    assert_eq!(
        list_files(Err("refused".to_owned()), Ok(Vec::new())),
        Err("refused".to_owned())
    );
}

#[test]
fn a_root_is_confined_to_itself() {
    assert_eq!(
        canonical_root("/p", Ok("/p".to_owned())),
        Ok("/p".to_owned())
    );
    // A trailing or doubled separator or a single dot is the same path.
    assert_eq!(
        canonical_root("/p//q/./", Ok("/p/q".to_owned())),
        Ok("/p/q".to_owned())
    );
    assert_eq!(
        canonical_root("/p/a\\b", Ok("/p/a\\c".to_owned())),
        Err("/p/a\\b no longer resolves to itself".to_owned())
    );
    assert_eq!(
        canonical_root("/p/", Ok("/p".to_owned())),
        Ok("/p".to_owned())
    );
    assert_eq!(
        canonical_root("/p", Err("gone".to_owned())),
        Err("cannot resolve /p: gone".to_owned())
    );
    assert_eq!(
        confine("/p", "/q".to_owned(), false),
        Err("/p no longer resolves to itself".to_owned())
    );
}

#[test]
fn ids_are_salted_after_a_break() {
    assert_eq!(generation_token("a.log", 0), "a.log");
    assert_eq!(generation_token("a.log", 12), "a.log@12");
    assert_eq!(stamped_entry_id("a.log", 7, 2).as_str(), "a.log@2:7");
    assert_eq!(stamped_break_id("a.log", 7, 2).as_str(), "a.log@2:7:break");
}

#[test]
fn ids_decode_as_far_as_they_can_be_read() {
    assert_eq!(decode_entry_id("a.log:+7"), Ok(("a.log".to_owned(), 0, 7)));
    assert_eq!(decode_entry_id("@3:7"), Ok(("@3".to_owned(), 0, 7)));
    assert_eq!(decode_entry_id("a@b:7"), Ok(("a@b".to_owned(), 0, 7)));
    assert_eq!(
        decode_entry_id("a.log:18446744073709551616"),
        Err("`a.log:18446744073709551616` is not an Entry id".to_owned())
    );
    assert_eq!(
        decode_entry_id("a.log:7:break"),
        Err("`a.log:7:break` is not an Entry id".to_owned())
    );
}

#[test]
fn activity_adds_up() {
    let mut activity = Activity::new();
    assert_eq!(activity.max_level, None);
    for level in [Level::Info, Level::Error, Level::Info, Level::Unknown] {
        activity.record(level);
    }
    assert_eq!(activity.total, 4);
    assert_eq!(activity.max_level, Some(Level::Error));
    assert_eq!(activity.counts.get(&Level::Info), Some(&2));
    assert_eq!(activity.counts.get(&Level::Debug), None);
    assert_eq!(activity.counts.len(), 3);
    let payload = activity.payload(&ProjectId::from_canonical("/p"));
    assert_eq!(payload.total, 4);
    assert_eq!(payload.counts, activity.counts);
    activity.clear();
    assert_eq!(activity, Activity::default());
    assert!(LevelCounts::new().is_empty());
}

#[test]
fn a_walk_reads_backwards() {
    let walk = WindowWalk::new(100_000);
    assert_eq!(walk.range(), (100_000 - WINDOW_CHUNK_BYTES, 100_000));
    assert_eq!(WindowWalk::new(9).range(), (0, 9));
}

#[test]
fn numbers_are_written_and_read_in_decimal() {
    assert_eq!(decimal_text(0), "0");
    assert_eq!(decimal_text(u64::MAX), "18446744073709551615");
    assert_eq!(number_of("18446744073709551615"), Some(u64::MAX));
    assert_eq!(number_of("18446744073709551616"), None);
    assert_eq!(number_of("+5"), Some(5));
    assert_eq!(number_of("+"), None);
    assert_eq!(number_of("-5"), None);
    assert_eq!(number_of(""), None);
    assert_eq!(number_of("٣"), None);
}

#[test]
fn texts_are_compared_and_searched() {
    assert!(same_text("é", "é"));
    assert!(!same_text("a", "ab"));
    assert!(comes_before("a", "ab"));
    assert!(comes_before("Z", "a"));
    assert!(!comes_before("b", "a"));
    assert!(!comes_before("a", "a"));
    assert!(has_char("a:b", ':'));
    assert!(has_end("a.log", ".log"));
    assert!(!has_end("log", ".log"));
    assert!(has_text("a..b", ".."));
    assert!(!has_text("a.b", ".."));
    assert_eq!(
        cut_last("a:b:c", ':'),
        Some(("a:b".to_owned(), "c".to_owned()))
    );
    assert_eq!(cut_last("abc", ':'), None);
}
