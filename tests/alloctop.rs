use alloctop::aggregate::{aggregate_global, AllocGlobal};
use alloctop::cli::{parse_args, ArgError, Command, Options};
use alloctop::model::AllocInfo;
use alloctop::parse::{parse_allocinfo, parse_number_or_zero, parse_unsigned_chars};
use alloctop::pipeline::{filter_min_size, flat_view, sort_allocinfo, tree_view, SortBy};
use alloctop::tree::aggregate_tree;

fn rec(size: u64, calls: u64, tag: &str) -> AllocInfo {
    AllocInfo { size, calls, tag: tag.to_string() }
}

fn sizes(v: &[AllocInfo]) -> Vec<u64> {
    v.iter().map(|r| r.size).collect()
}

fn tags(v: &[AllocInfo]) -> Vec<String> {
    v.iter().map(|r| r.tag.clone()).collect()
}

fn args(a: &[&str]) -> Vec<String> {
    let mut v = vec!["alloctop".to_string()];
    for s in a {
        v.push(s.to_string());
    }
    v
}

#[test]
fn parses_data_lines_in_order() {
    let text = "100 2 mm/slab.c:10 func:kmalloc\n  7\t3   fs/inode.c:5\n";
    let r = parse_allocinfo(text);
    assert_eq!(r, vec![rec(100, 2, "mm/slab.c:10 func:kmalloc"), rec(7, 3, "fs/inode.c:5")]);
}

#[test]
fn malformed_numbers_read_as_zero() {
    let r = parse_allocinfo("abc xyz mytag\n");
    assert_eq!(r, vec![rec(0, 0, "mytag")]);
}

#[test]
fn comment_and_short_lines_are_skipped() {
    let text = "# header info\n5 6\n10 1 a/b\n\n   \n";
    let r = parse_allocinfo(text);
    assert_eq!(r, vec![rec(10, 1, "a/b")]);
    let g = aggregate_global(&r).unwrap();
    assert_eq!(g, AllocGlobal { size: 10, calls: 1 });
}

#[test]
fn hash_only_as_whole_first_field_marks_a_comment() {
    let r = parse_allocinfo("#5 6 tag\n# 1 2 tag\n");
    assert_eq!(r, vec![rec(0, 6, "tag")]);
}

#[test]
fn last_line_without_newline_and_crlf() {
    let r = parse_allocinfo("1 2 a\r\n3 4 b");
    assert_eq!(r, vec![rec(1, 2, "a"), rec(3, 4, "b")]);
}

#[test]
fn empty_report_has_zero_totals() {
    let r = parse_allocinfo("");
    assert!(r.is_empty());
    assert_eq!(aggregate_global(&r), Some(AllocGlobal { size: 0, calls: 0 }));
}

#[test]
fn number_fields_follow_unsigned_parsing() {
    let c = |s: &str| -> Vec<char> { s.chars().collect() };
    assert_eq!(parse_number_or_zero(&c("+42")), 42);
    assert_eq!(parse_number_or_zero(&c("18446744073709551615")), u64::MAX);
    assert_eq!(parse_number_or_zero(&c("18446744073709551616")), 0);
    assert_eq!(parse_number_or_zero(&c("-1")), 0);
    assert_eq!(parse_number_or_zero(&c("+")), 0);
    assert_eq!(parse_number_or_zero(&c("12a")), 0);
    assert_eq!(parse_unsigned_chars(&c("300"), 255), None);
    assert_eq!(parse_unsigned_chars(&c("255"), 255), Some(255));
}

#[test]
fn global_totals_sum_all_records() {
    let text = "10 1 a/b\n# 99 99 x\n20 2 a/c\n5 6\n30 3 d\n";
    let data = parse_allocinfo(text);
    assert_eq!(aggregate_global(&data), Some(AllocGlobal { size: 60, calls: 6 }));
}

#[test]
fn global_totals_overflow_is_reported() {
    let data = vec![rec(u64::MAX, 1, "a"), rec(1, 1, "b")];
    assert_eq!(aggregate_global(&data), None);
    let data = vec![rec(1, u64::MAX, "a"), rec(1, 1, "b")];
    assert_eq!(aggregate_global(&data), None);
}

#[test]
fn tree_sums_every_prefix() {
    let data = vec![rec(10, 1, "a/b/c"), rec(5, 2, "a/b"), rec(7, 3, "a/d"), rec(1, 1, "e")];
    let t = aggregate_tree(&data);
    assert_eq!(
        t,
        vec![
            rec(22, 6, "a"),
            rec(15, 3, "a/b"),
            rec(10, 1, "a/b/c"),
            rec(7, 3, "a/d"),
            rec(1, 1, "e"),
        ]
    );
}

#[test]
fn tree_root_key_sums_its_component() {
    let data = vec![rec(3, 1, "x/y"), rec(4, 1, "xy/z"), rec(5, 1, "x")];
    let t = aggregate_tree(&data);
    let x = t.iter().find(|e| e.tag == "x").unwrap();
    assert_eq!((x.size, x.calls), (8, 2));
    let xy = t.iter().find(|e| e.tag == "xy").unwrap();
    assert_eq!((xy.size, xy.calls), (4, 1));
}

#[test]
fn tree_keys_for_empty_components() {
    let data = vec![rec(1, 1, "a//b"), rec(2, 1, "")];
    let t = aggregate_tree(&data);
    assert_eq!(tags(&t), vec!["", "a", "a/", "a//b"]);
    assert_eq!(sizes(&t), vec![2, 1, 1, 1]);
}

#[test]
fn tree_min_filters_aggregated_totals() {
    let data = vec![rec(4, 1, "a/x"), rec(4, 1, "a/y"), rec(20, 1, "b")];
    let r = tree_view(&data, 5);
    assert_eq!(r, vec![rec(8, 2, "a"), rec(20, 1, "b")]);
}

#[test]
fn flat_filter_sort_truncate() {
    let data = vec![rec(5, 1, "a"), rec(50, 1, "b"), rec(20, 1, "c"), rec(10, 1, "d")];
    let r = flat_view(data, 10, Some(SortBy::Size), 2);
    assert_eq!(sizes(&r), vec![50, 20]);
}

#[test]
fn flat_without_sort_keeps_order() {
    let data = vec![rec(5, 1, "z"), rec(50, 1, "b"), rec(20, 1, "c")];
    let r = flat_view(data, 0, None, usize::MAX);
    assert_eq!(tags(&r), vec!["z", "b", "c"]);
    let data = vec![rec(5, 1, "z"), rec(50, 1, "b"), rec(20, 1, "c")];
    let r = flat_view(data, 0, None, 0);
    assert!(r.is_empty());
}

#[test]
fn filter_keeps_sizes_at_threshold() {
    let data = vec![rec(9, 1, "a"), rec(10, 1, "b"), rec(11, 1, "c")];
    assert_eq!(tags(&filter_min_size(data, 10)), vec!["b", "c"]);
}

#[test]
fn sort_by_tag_ascending() {
    let mut data = vec![rec(1, 1, "mm/b"), rec(2, 1, "fs"), rec(3, 1, "mm/a"), rec(4, 1, "mm")];
    sort_allocinfo(&mut data, SortBy::Tag);
    assert_eq!(tags(&data), vec!["fs", "mm", "mm/a", "mm/b"]);
}

#[test]
fn sort_by_calls_descending_and_stable() {
    let mut data = vec![rec(1, 5, "a"), rec(2, 9, "b"), rec(3, 5, "c"), rec(4, 9, "d")];
    sort_allocinfo(&mut data, SortBy::Calls);
    assert_eq!(tags(&data), vec!["b", "d", "a", "c"]);
}

#[test]
fn sort_by_size_descending_and_stable() {
    let mut data = vec![rec(1, 0, "a"), rec(3, 0, "b"), rec(1, 0, "c"), rec(2, 0, "d")];
    sort_allocinfo(&mut data, SortBy::Size);
    assert_eq!(tags(&data), vec!["b", "d", "a", "c"]);
}

#[test]
fn pipeline_twice_gives_the_same_rows() {
    let text = "5 1 a\n50 2 b/c\n20 3 b\n10 4 d\n";
    let run = || flat_view(parse_allocinfo(text), 10, Some(SortBy::Size), 2);
    assert_eq!(run(), run());
    let t1 = tree_view(&parse_allocinfo(text), 0);
    let t2 = tree_view(&parse_allocinfo(text), 0);
    assert_eq!(t1, t2);
}

#[test]
fn args_default_and_options() {
    assert_eq!(parse_args(&args(&["-o"])), Ok(Command::Show(Options {
        min_size: 0,
        max_lines: usize::MAX,
        sort_by: None,
        use_tree: false,
    })));
    assert_eq!(
        parse_args(&args(&["--min", "10", "-n", "2", "--sort", "c", "-t", "--once"])),
        Ok(Command::Show(Options { min_size: 10, max_lines: 2, sort_by: Some(SortBy::Calls), use_tree: true }))
    );
    assert_eq!(parse_args(&args(&["-s", "t", "-o"])).unwrap(), Command::Show(Options {
        min_size: 0,
        max_lines: usize::MAX,
        sort_by: Some(SortBy::Tag),
        use_tree: false,
    }));
}

#[test]
fn args_help_wins() {
    assert_eq!(parse_args(&args(&["-h"])), Ok(Command::Help));
    assert_eq!(parse_args(&args(&["--min", "3", "--help", "-x"])), Ok(Command::Help));
}

#[test]
fn args_errors() {
    assert_eq!(parse_args(&args(&[])), Err(ArgError::OnceRequired));
    assert_eq!(parse_args(&args(&["-t"])), Err(ArgError::OnceRequired));
    assert_eq!(parse_args(&args(&["-o", "-s"])), Err(ArgError::MissingSortValue));
    assert_eq!(parse_args(&args(&["-o", "-s", "x"])), Err(ArgError::InvalidSort));
    assert_eq!(parse_args(&args(&["-m"])), Err(ArgError::MissingMinValue));
    assert_eq!(parse_args(&args(&["-m", "ten"])), Err(ArgError::InvalidMin));
    assert_eq!(parse_args(&args(&["--lines"])), Err(ArgError::MissingLinesValue));
    assert_eq!(parse_args(&args(&["-n", "-1"])), Err(ArgError::InvalidLines));
    assert_eq!(parse_args(&args(&["-o", "--bogus"])), Err(ArgError::UnknownArgument(2)));
}
