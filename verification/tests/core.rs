use srcbatch::batch::{Config, Resolution, format_batch, render_entry};
use srcbatch::digits::{decimal_digits, parse_positive_int};
use srcbatch::lines::split_lines;
use srcbatch::render::{Mode, render_source};
use srcbatch::words::joined_with_spaces;

fn b(s: &str) -> Vec<u8> {
    s.as_bytes().to_vec()
}

#[test]
fn test_parse_positive_int() {
    let res = parse_positive_int("3");
    assert!(res.is_ok());
    assert_eq!(res.unwrap(), 3);

    let res = parse_positive_int("foo");
    assert!(res.is_err());
    assert_eq!(res.unwrap_err().to_string(), "foo".to_string());

    let res = parse_positive_int("0");
    assert!(res.is_err());
    assert_eq!(res.unwrap_err().to_string(), "0".to_string());
}

#[test]
fn parse_positive_int_bounds() {
    assert_eq!(parse_positive_int("18446744073709551615").unwrap(), usize::MAX);
    assert!(parse_positive_int("18446744073709551616").is_err());
    assert!(parse_positive_int("").is_err());
    assert_eq!(parse_positive_int("+3").unwrap(), 3);
    assert!(parse_positive_int("+").is_err());
    assert!(parse_positive_int("++3").is_err());
    assert!(parse_positive_int("+0").is_err());
    assert!(parse_positive_int("-3").is_err());
    assert!(parse_positive_int(" 3").is_err());
    assert_eq!(parse_positive_int("007").unwrap(), 7);
}

#[test]
fn decimal_digits_exact() {
    assert_eq!(decimal_digits(0), b("0"));
    assert_eq!(decimal_digits(7), b("7"));
    assert_eq!(decimal_digits(10), b("10"));
    assert_eq!(decimal_digits(90217), b("90217"));
}

#[test]
fn split_lines_cases() {
    assert_eq!(split_lines(&b("a\nb")), vec![b("a"), b("b")]);
    assert_eq!(split_lines(&b("a\nb\n")), vec![b("a"), b("b")]);
    assert_eq!(split_lines(&b("")), Vec::<Vec<u8>>::new());
    assert_eq!(split_lines(&b("\n")), vec![b("")]);
    assert_eq!(split_lines(&b("\n\n")), vec![b(""), b("")]);
}

#[test]
fn plain_copy_single_source() {
    let cfg = Config::new(vec![b("a.txt")], Mode::Plain).unwrap();
    let srcs = vec![Resolution::Content(b("hello\nworld\n"))];
    let r = format_batch(&cfg, &srcs);
    assert_eq!(r.out, b("hello\nworld\n"));
    assert!(r.errs.is_empty());
}

#[test]
fn plain_copy_two_sources_headers() {
    let cfg = Config::new(vec![b("a.txt"), b("b.txt")], Mode::Plain).unwrap();
    let srcs = vec![Resolution::Content(b("hi\n")), Resolution::Content(b("there\n"))];
    let r = format_batch(&cfg, &srcs);
    assert_eq!(r.out, b("==> a.txt <==\nhi\n\n==> b.txt <==\nthere\n"));
    assert!(r.errs.is_empty());
}

#[test]
fn number_nonblank_scenario() {
    let cfg = Config::new(vec![b("a.txt")], Mode::NumberNonblank).unwrap();
    let srcs = vec![Resolution::Content(b("one\n\ntwo\n"))];
    let r = format_batch(&cfg, &srcs);
    assert_eq!(r.out, b("1\tone\n\n2\ttwo\n"));
    assert!(r.errs.is_empty());
}

#[test]
fn number_all_lines_prefixes() {
    let cfg = Config::new(vec![b("a.txt")], Mode::NumberAll).unwrap();
    let srcs = vec![Resolution::Content(b("a\n\nc"))];
    let r = format_batch(&cfg, &srcs);
    assert_eq!(r.out, b("1\ta\n2\t\n3\tc\n"));
}

#[test]
fn number_all_two_digit_prefixes() {
    let content = b(&"l\n".repeat(11));
    let mut expected = String::new();
    for k in 1..=11 {
        expected.push_str(&format!("{}\tl\n", k));
    }
    let r = render_source(&Mode::NumberAll, &content);
    assert_eq!(r, b(&expected));
}

#[test]
fn numbering_resets_per_source() {
    let cfg = Config::new(vec![b("a.txt"), b("b.txt")], Mode::NumberAll).unwrap();
    let srcs = vec![Resolution::Content(b("x\ny\n")), Resolution::Content(b("z\n"))];
    let r = format_batch(&cfg, &srcs);
    assert_eq!(
        r.out,
        b("==> a.txt <==\n1\tx\n2\ty\n\n==> b.txt <==\n1\tz\n")
    );
}

#[test]
fn failure_does_not_stop_batch() {
    let cfg = Config::new(vec![b("missing.txt"), b("a.txt")], Mode::Plain).unwrap();
    let srcs = vec![
        Resolution::Failure(b("No such file or directory")),
        Resolution::Content(b("x\n")),
    ];
    let r = format_batch(&cfg, &srcs);
    assert_eq!(r.errs.len(), 1);
    assert_eq!(r.errs[0], b("missing.txt: No such file or directory"));
    assert_eq!(r.out, b("\n==> a.txt <==\nx\n"));
}

#[test]
fn first_two_lines_of_five() {
    let cfg = Config::new(vec![b("a.txt")], Mode::FirstLines(2)).unwrap();
    let srcs = vec![Resolution::Content(b("l1\nl2\nl3\nl4\nl5\n"))];
    let r = format_batch(&cfg, &srcs);
    assert_eq!(r.out, b("l1\nl2\n"));
}

#[test]
fn first_lines_exhausted_early() {
    assert_eq!(render_source(&Mode::FirstLines(10), &b("a\nb\n")), b("a\nb\n"));
    assert_eq!(render_source(&Mode::FirstLines(10), &b("a\nb")), b("a\nb"));
    assert_eq!(render_source(&Mode::FirstLines(2), &b("a\nb")), b("a\nb"));
}

#[test]
fn first_bytes_truncates() {
    assert_eq!(render_source(&Mode::FirstBytes(3), &b("hello\n")), b("hel"));
}

#[test]
fn first_bytes_short_source() {
    assert_eq!(render_source(&Mode::FirstBytes(10), &b("hi\n")), b("hi\n"));
}

#[test]
fn first_bytes_lossy_replacement() {
    let content = vec![0xff, b'a'];
    let r = render_source(&Mode::FirstBytes(4), &content);
    assert_eq!(r, "\u{fffd}a".as_bytes().to_vec());

    let two_byte = b("\u{e9}");
    let r = render_source(&Mode::FirstBytes(1), &two_byte);
    assert_eq!(r, "\u{fffd}".as_bytes().to_vec());
}

#[test]
fn empty_source_silent() {
    let cfg = Config::new(vec![b("a.txt")], Mode::Plain).unwrap();
    let srcs = vec![Resolution::Content(b(""))];
    let r = format_batch(&cfg, &srcs);
    assert!(r.out.is_empty());
    assert!(r.errs.is_empty());
}

#[test]
fn single_source_no_header() {
    let cfg = Config::new(vec![b("a.txt")], Mode::FirstLines(10)).unwrap();
    let srcs = vec![Resolution::Content(b("x\n"))];
    let r = format_batch(&cfg, &srcs);
    assert_eq!(r.out, b("x\n"));
}

#[test]
fn render_entry_failure_gives_diag() {
    let src = Resolution::Failure(b("denied"));
    let (out, diag) = render_entry(&Mode::Plain, 1, &b("f.txt"), 0, &src);
    assert!(out.is_empty());
    assert_eq!(diag.unwrap(), b("f.txt: denied"));
}

#[test]
fn render_entry_success_gives_no_diag() {
    let src = Resolution::Content(b("x\n"));
    let (out, diag) = render_entry(&Mode::Plain, 2, &b("f.txt"), 1, &src);
    assert_eq!(out, b("\n==> f.txt <==\nx\n"));
    assert!(diag.is_none());
}

#[test]
fn config_rejects_invalid() {
    assert!(Config::new(vec![b("a")], Mode::FirstLines(0)).is_none());
    assert!(Config::new(vec![b("a")], Mode::FirstBytes(0)).is_none());
    assert!(Config::new(Vec::new(), Mode::Plain).is_none());
    assert!(Config::new(vec![b("-")], Mode::Plain).is_some());
}

#[test]
fn echo_joins_words() {
    assert_eq!(
        joined_with_spaces(&vec![b("Hello"), b("world")], false),
        b("Hello world\n")
    );
    assert_eq!(
        joined_with_spaces(&vec![b("Hello"), b("world")], true),
        b("Hello world")
    );
    assert_eq!(joined_with_spaces(&vec![b("one")], false), b("one\n"));
}
