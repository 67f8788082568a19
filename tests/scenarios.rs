use seed::driver::{after_line, join_line};
use seed::editor::Signal;
use seed::pattern::Pattern;
use seed::{parse, Address, Editor, Error, Line, StringReader};

fn editor(script: &str) -> Editor {
    parse(&mut StringReader::new(script.to_string())).unwrap()
}

fn parse_error(script: &str) -> Error {
    match parse(&mut StringReader::new(script.to_string())) {
        Ok(_) => panic!("script {:?} should not parse", script),
        Err(e) => e,
    }
}

/// Which of the lines the script selects, one flag per line.
fn selected(script: &str, lines: &[&str]) -> Vec<bool> {
    let mut e = editor(script);
    lines.iter().map(|l| e.apply(l).is_some()).collect()
}

/// Runs the script over the lines under print-all, through the library's
/// driver decisions: the printed text, the lines printed, and the exit code
/// of a quit.
fn print_all(script: &str, lines: &[String]) -> (String, Vec<String>, Option<i32>) {
    let mut e = editor(script);
    let mut printed = String::new();
    let mut kept = Vec::new();
    for line in lines {
        let outcome = e.apply(line);
        if let Some(o) = &outcome {
            printed.push_str(&o.printed);
        }
        let step = after_line(line.clone(), outcome, true);
        if let Some(t) = step.emit {
            kept.push(t);
        }
        if step.quit.is_some() {
            return (printed, kept, step.quit);
        }
    }
    (printed, kept, None)
}

fn numbered(n: usize) -> Vec<String> {
    (1..=n).map(|i| i.to_string()).collect()
}

const EXAMPLE: [&str; 10] = [
    "",
    "            start",
    "            aaa",
    "            end",
    "            zzz aa bb c",
    "            start aabcd",
    "            def end",
    "",
    "            123",
    "        ",
];

#[test]
fn location_selects_only_its_line() {
    assert_eq!(
        selected("7", &EXAMPLE),
        vec![false, false, false, false, false, false, true, false, false, false]
    );
    assert_eq!(selected("89", &EXAMPLE), vec![false; 10]);
}

#[test]
fn location_zero_is_rejected() {
    match parse_error("0p") {
        Error::InvalidAddr(s) => assert_eq!(s, "0"),
        e => panic!("unexpected error {:?}", e),
    }
}

#[test]
fn range_two_to_seven() {
    assert_eq!(
        selected("2-7", &EXAMPLE),
        vec![false, true, true, true, true, true, true, false, false, false]
    );
}

#[test]
fn half_open_range() {
    assert_eq!(
        selected("6-$", &EXAMPLE),
        vec![false, false, false, false, false, true, true, true, true, true]
    );
}

#[test]
fn one_line_range() {
    assert_eq!(
        selected("1-1", &EXAMPLE),
        vec![true, false, false, false, false, false, false, false, false, false]
    );
}

#[test]
fn pattern_range_reopens() {
    assert_eq!(
        selected("/start/-/end/", &EXAMPLE),
        vec![false, true, true, true, false, true, true, false, false, false]
    );
}

#[test]
fn mixed_range() {
    assert_eq!(
        selected("5-/123/", &EXAMPLE),
        vec![false, false, false, false, true, true, true, true, true, false]
    );
}

#[test]
fn pattern_address() {
    assert_eq!(
        selected("/aa/", &EXAMPLE),
        vec![false, false, true, false, true, true, false, false, false, false]
    );
}

#[test]
fn set_of_locations() {
    assert_eq!(
        selected("2,5,9", &EXAMPLE),
        vec![false, true, false, false, true, false, false, false, true, false]
    );
}

#[test]
fn always_and_never() {
    assert_eq!(selected("*", &EXAMPLE), vec![true; 10]);
    assert_eq!(selected("*!", &EXAMPLE), vec![false; 10]);
    assert_eq!(selected("$", &EXAMPLE), vec![false; 10]);
}

#[test]
fn double_negation() {
    assert_eq!(selected("(1!)!", &EXAMPLE), selected("1", &EXAMPLE));
    assert_eq!(selected("(((42)))", &EXAMPLE), vec![false; 10]);
}

#[test]
fn set_with_always_collapses() {
    assert_eq!(selected("3,*,5", &EXAMPLE), vec![true; 10]);
}

#[test]
fn set_keeps_range_in_step() {
    // Line 5 is selected by the location; the range must still see that
    // line 5 holds "start" and open, so that lines 6 and 7 follow.
    let lines = ["a", "b", "c", "d", "start", "x", "end", "y"];
    assert_eq!(
        selected("5,/start/-/end/", &lines),
        vec![false, false, false, false, true, true, true, false]
    );
    assert_eq!(
        selected("5,(/start/-/end/)!", &lines),
        vec![true, true, true, true, true, false, false, true]
    );
}

#[test]
fn set_negates_members_one_by_one() {
    let lines = numbered(10);
    let lines: Vec<&str> = lines.iter().map(|s| s.as_str()).collect();
    assert_eq!(
        selected("5,6,10!", &lines),
        vec![true, true, true, true, true, true, true, true, true, false]
    );
    assert_eq!(
        selected("(5,6,10)!", &lines),
        vec![true, true, true, true, false, false, true, true, true, false]
    );
}

#[test]
fn delete_three_lines() {
    let (_, kept, code) = print_all("1d;3d;7d", &numbered(10));
    assert_eq!(kept, vec!["2", "4", "5", "6", "8", "9", "10"]);
    assert_eq!(code, None);
}

#[test]
fn condensed_match_and_substitute() {
    let lines = vec!["abc def".to_string(), "xyz def".to_string()];
    let mut e = editor("/abc/s/def/ghi/g");
    let first = e.apply(&lines[0]).unwrap();
    assert_eq!(first.line, "abc ghi");
    assert_eq!(first.signal, Signal::Continue);
    assert!(e.apply(&lines[1]).is_none());
    let (_, kept, _) = print_all("/abc/s/def/ghi/g", &lines);
    assert_eq!(kept, vec!["abc ghi", "xyz def"]);
}

#[test]
fn quit_with_code() {
    let (_, kept, code) = print_all("4q2", &numbered(10));
    assert_eq!(kept, vec!["1", "2", "3", "4"]);
    assert_eq!(code, Some(2));
}

#[test]
fn substitution_limits() {
    let mut all = editor("s/a/b/");
    assert_eq!(all.apply("aaaa").unwrap().line, "bbbb");
    let mut global = editor("s/a/b/g");
    assert_eq!(global.apply("aaaa").unwrap().line, "bbbb");
    let mut two = editor("s/a/b/2");
    assert_eq!(two.apply("aaaa").unwrap().line, "bbaa");
    let mut spaced = editor("s   /a/b/   1");
    assert_eq!(spaced.apply("aaaa").unwrap().line, "baaa");
}

#[test]
fn bounded_back_reference() {
    let mut e = editor("s/(b)/$1x/");
    assert_eq!(e.apply("abc").unwrap().line, "abxc");
    let mut e = editor("s/(b)(c)/$2$1/");
    assert_eq!(e.apply("abcd").unwrap().line, "acbd");
}

#[test]
fn escaped_slash_in_pattern() {
    let mut e = editor(r"/abc\/1/d");
    assert_eq!(e.apply("xabc/1").unwrap().signal, Signal::Delete);
    assert!(e.apply("abc1").is_none());
}

#[test]
fn whole_line_pattern() {
    assert_eq!(selected("^abc$", &["abc", "abcd", "xabc"]), vec![true, false, false]);
    assert_eq!(selected(r"^\$abc$", &["$abc", "abc"]), vec![true, false]);
}

#[test]
fn print_commands() {
    let mut e = editor("=np");
    let o = e.apply("hello").unwrap();
    assert_eq!(o.printed, "1\nhello\n");
    let o = e.apply("world").unwrap();
    assert_eq!(o.printed, "2\nworld\n");
    let mut e = editor("   P t 'x\\ty' \"q\"  ");
    assert_eq!(e.apply("ab").unwrap().printed, "ab\tx\tyq");
}

#[test]
fn escaped_print() {
    let mut e = editor("l");
    assert_eq!(e.apply("a\tb\"").unwrap().printed, "a\\tb\\\"\n");
}

#[test]
fn hold_get_exchange() {
    let mut e = editor("1h;2x;3g");
    assert_eq!(e.apply("one").unwrap().line, "one");
    assert_eq!(e.apply("two").unwrap().line, "one");
    assert_eq!(e.apply("three").unwrap().line, "two");
}

#[test]
fn reset_clears() {
    let mut e = editor("z");
    assert_eq!(e.apply("text").unwrap().line, "");
}

#[test]
fn keep_columns() {
    let mut e = editor("k2-3");
    assert_eq!(e.apply("abcdef").unwrap().line, "bc");
    let mut e = editor("k3");
    assert_eq!(e.apply("abcdef").unwrap().line, "c");
    let mut e = editor("k4-");
    assert_eq!(e.apply("abcdef").unwrap().line, "def");
    let mut e = editor("k-2");
    assert_eq!(e.apply("abcdef").unwrap().line, "ab");
    let mut e = editor("k5-9");
    assert_eq!(e.apply("abcdef").unwrap().line, "ef");
}

#[test]
fn keep_rejects_bad_columns() {
    match parse_error("k0") {
        Error::InvalidAddr(s) => assert_eq!(s, "0-0"),
        e => panic!("unexpected error {:?}", e),
    }
    match parse_error("k0-4") {
        Error::InvalidAddr(s) => assert_eq!(s, "0-4"),
        e => panic!("unexpected error {:?}", e),
    }
    match parse_error("k5-3") {
        Error::InvalidAddr(s) => assert_eq!(s, "5 > 3 in 5-3"),
        e => panic!("unexpected error {:?}", e),
    }
}

#[test]
fn break_stops_the_line() {
    let mut e = editor("s/a/b/.;s/b/c/");
    let o = e.apply("a").unwrap();
    assert_eq!(o.line, "b");
    assert_eq!(o.signal, Signal::Break);
    let mut e = editor("p b ; p");
    let o = e.apply("x").unwrap();
    assert_eq!(o.printed, "x\n");
    assert_eq!(o.signal, Signal::Break);
}

#[test]
fn comments_are_skipped() {
    let mut e = editor("p # print it\n;d");
    let o = e.apply("x").unwrap();
    assert_eq!(o.printed, "x\n");
    assert_eq!(o.signal, Signal::Delete);
}

#[test]
fn loop_repeats_until_stable() {
    let mut e = editor(":{/aa/s/aa/a/}");
    assert_eq!(e.apply("aaaaaaaa").unwrap().line, "a");
    let mut e = editor(":{ /x/ q3 }");
    assert_eq!(e.apply("x").unwrap().signal, Signal::Quit(3));
    let mut e = editor(":{ s/a/b/1 . }");
    let o = e.apply("aaa").unwrap();
    assert_eq!(o.line, "bbb");
    assert_eq!(o.signal, Signal::Continue);
}

#[test]
fn empty_script_selects_everything() {
    assert_eq!(selected("", &["a", "b"]), vec![true, true]);
    let mut e = editor("");
    let o = e.apply("a").unwrap();
    assert_eq!(o.line, "a");
    assert_eq!(o.printed, "");
}

#[test]
fn error_kinds() {
    match parse_error("/abc") {
        Error::Missing(c) => assert_eq!(c, '/'),
        e => panic!("unexpected error {:?}", e),
    }
    match parse_error("(1,2") {
        Error::Missing(c) => assert_eq!(c, ')'),
        e => panic!("unexpected error {:?}", e),
    }
    match parse_error("^abc") {
        Error::Missing(c) => assert_eq!(c, '$'),
        e => panic!("unexpected error {:?}", e),
    }
    match parse_error(":{p") {
        Error::Missing(c) => assert_eq!(c, '}'),
        e => panic!("unexpected error {:?}", e),
    }
    match parse_error("Z") {
        Error::Unexpected(c) => assert_eq!(c, 'Z'),
        e => panic!("unexpected error {:?}", e),
    }
    match parse_error("7-3") {
        Error::InvalidAddr(s) => assert_eq!(s, "7 > 3 in 7-3"),
        e => panic!("unexpected error {:?}", e),
    }
    match parse_error("99999999999999999999999p") {
        Error::ParseInt(s) => assert_eq!(s, "99999999999999999999999"),
        e => panic!("unexpected error {:?}", e),
    }
    match parse_error("q3000000000") {
        Error::ParseInt(s) => assert_eq!(s, "3000000000"),
        e => panic!("unexpected error {:?}", e),
    }
    match parse_error("'\\q'") {
        Error::ParsingError(s) => assert_eq!(s, "\\q"),
        e => panic!("unexpected error {:?}", e),
    }
    assert!(matches!(parse_error("/(/p"), Error::Regex(_)));
    match parse_error("b p") {
        Error::Missing(c) => assert_eq!(c, ';'),
        e => panic!("unexpected error {:?}", e),
    }
}

#[test]
fn line_counter_advances() {
    let mut e = editor("3p");
    assert!(e.apply("a").is_none());
    assert!(e.apply("b").is_none());
    assert_eq!(e.line_count(), 2);
    assert_eq!(e.apply("c").unwrap().printed, "c\n");
    assert_eq!(e.line_count(), 3);
}

#[test]
fn unescape_decodes() {
    let decoded = seed::text::unescape(&vec!['a', '\\', 'n', 'b']).unwrap();
    assert_eq!(decoded, vec!['a', '\n', 'b']);
    match seed::text::unescape(&vec!['\\', 'q']) {
        Err(Error::ParsingError(s)) => assert_eq!(s, "\\q"),
        other => panic!("unexpected result {:?}", other),
    }
}

#[test]
fn address_matches_directly() {
    let p = Pattern::new(&"abc".chars().collect()).unwrap();
    assert_eq!(p.as_str(), "abc");
    let a = Address::Regex(p);
    let mut open: Vec<bool> = Vec::new();
    assert!(a.matches(&mut open, &Line(1, "xabcx".to_string())));
    assert!(!a.matches(&mut open, &Line(2, "hello, world!".to_string())));
    let set = Address::AnyOf(vec![Address::Location(1), Address::Location(2), Address::Location(3)]);
    assert!(set.matches(&mut open, &Line(1, String::new())));
    assert!(!set.matches(&mut open, &Line(279, String::new())));
    let range = Address::Between(Box::new(Address::Location(2)), Box::new(Address::Location(3)), 0);
    let mut open = vec![false];
    let got: Vec<bool> = (1..=4).map(|n| range.matches(&mut open, &Line(n, String::new()))).collect();
    assert_eq!(got, vec![false, true, true, false]);
    assert_eq!(open, vec![false]);
    let neg = Address::Location(4).negate();
    assert!(neg.matches(&mut open, &Line(3, String::new())));
    assert!(matches!(neg.negate(), Address::Location(4)));
    assert!(matches!(Address::Always.negate(), Address::Never));
}

#[test]
fn replacer_replaces() {
    let mut e = editor("s/o/0/");
    assert_eq!(e.apply("foo boo").unwrap().line, "f00 b00");
    match seed::parser::parse_substitute(&mut StringReader::new("/x/y$1z/3".to_string())).unwrap() {
        seed::Command::Substitute(r) => {
            assert_eq!(r.template, "y${1}z");
            assert_eq!(r.limit, 3);
            assert_eq!(r.replace("xxxxx"), "yzyzyzxx");
        }
        other => panic!("unexpected command {:?}", other),
    }
}

#[test]
fn address_text_forms() {
    let p = Pattern::new(&"a/b".chars().collect()).unwrap();
    let a = Address::AnyOf(vec![
        Address::Location(5),
        Address::Negate(Box::new(Address::Between(
            Box::new(Address::Regex(p)),
            Box::new(Address::Never),
            0,
        ))),
        Address::Always,
    ]);
    assert_eq!(a.to_text(), "5, /a/b/-$!, *");
}

#[test]
fn error_messages() {
    assert_eq!(Error::Missing('/').message(), "missing '/'");
    assert_eq!(Error::Unexpected('Z').message(), "unexpected 'Z'");
    assert_eq!(Error::InvalidAddr("0".to_string()).message(), "invalid address: 0");
    assert_eq!(Error::ParseInt("99".to_string()).message(), "invalid number: 99");
    assert_eq!(Error::ParsingError("\\q".to_string()).message(), "failed to parse: \\q");
    assert!(!parse_error("/(/").message().is_empty());
}

fn address_of(script: &str) -> String {
    let mut ranges: usize = 0;
    seed::parser::parse_addrs(&mut StringReader::new(script.to_string()), &mut ranges)
        .unwrap()
        .to_text()
}

#[test]
fn parsed_address_shapes() {
    assert_eq!(address_of(""), "*");
    assert_eq!(address_of("*"), "*");
    assert_eq!(address_of("-"), "*-$");
    assert_eq!(address_of("-5"), "*-5");
    assert_eq!(address_of("3-"), "3-$");
    assert_eq!(address_of("13-72"), "13-72");
    assert_eq!(address_of("13-72!"), "13-72!");
    assert_eq!(address_of("/abc/"), "/abc/");
    assert_eq!(address_of(r"/abc\//"), "/abc//");
    assert_eq!(address_of("^abc$"), "/^abc$/");
    assert_eq!(address_of("/abc/-/def/"), "/abc/-/def/");
    assert_eq!(address_of("(1!)!"), "1");
    assert_eq!(address_of("666    ! "), "666!");
    assert_eq!(address_of("5,6,10"), "5, 6, 10");
    assert_eq!(address_of("((5),((6),10))"), "5, 6, 10");
    assert_eq!(address_of("5, 6  ,10   "), "5, 6, 10");
    assert_eq!(address_of("5,6,10!"), "5, 6, 10!");
    assert_eq!(address_of("(((42)))"), "42");
    assert_eq!(address_of("1,(2,*)"), "*");
}

#[test]
fn ranges_are_numbered() {
    let mut ranges: usize = 0;
    let a = seed::parser::parse_addrs(&mut StringReader::new("1-2,4-5".to_string()), &mut ranges).unwrap();
    assert_eq!(ranges, 2);
    match a {
        Address::AnyOf(members) => {
            assert!(matches!(members[0], Address::Between(_, _, 0)));
            assert!(matches!(members[1], Address::Between(_, _, 1)));
        }
        other => panic!("unexpected address {:?}", other),
    }
}

#[test]
fn flatten_splices_and_collapses() {
    let a = seed::parser::flatten_terms(vec![
        Address::Location(1),
        Address::AnyOf(vec![Address::Location(2), Address::Location(3)]),
    ]);
    assert_eq!(a.to_text(), "1, 2, 3");
    let b = seed::parser::flatten_terms(vec![Address::Location(1), Address::Always, Address::Location(3)]);
    assert!(matches!(b, Address::Always));
    let c = seed::parser::flatten_terms(vec![Address::Location(9)]);
    assert!(matches!(c, Address::Location(9)));
}

#[test]
fn driver_requests_are_reported() {
    let mut e = editor("j J e r3 R r");
    let o = e.apply("x").unwrap();
    assert_eq!(o.line, "x");
    assert_eq!(
        o.requests,
        vec![
            seed::Request::Joinln,
            seed::Request::Join,
            seed::Request::Eval,
            seed::Request::Readln(3),
            seed::Request::ReadReplace,
            seed::Request::Readln(1),
        ]
    );
}

#[test]
fn template_without_escapes_is_kept() {
    let mut e = editor("s/abc/def/");
    assert_eq!(e.apply("xabcx").unwrap().line, "xdefx");
}

#[test]
fn driver_steps() {
    let mut e = editor("2d;3q7;1p");
    let s1 = after_line("a".to_string(), e.apply("a"), true);
    assert!(s1.matched);
    assert_eq!(s1.emit, Some("a".to_string()));
    assert_eq!(s1.quit, None);
    let s2 = after_line("b".to_string(), e.apply("b"), true);
    assert!(s2.matched);
    assert_eq!(s2.emit, None);
    let s3 = after_line("c".to_string(), e.apply("c"), false);
    assert_eq!(s3.emit, None);
    assert_eq!(s3.quit, Some(7));
    let s4 = after_line("d".to_string(), e.apply("d"), true);
    assert!(!s4.matched);
    assert_eq!(s4.emit, Some("d".to_string()));
}

#[test]
fn joined_lines() {
    assert_eq!(join_line("ab".to_string(), "cd".to_string(), true), "ab\ncd");
    assert_eq!(join_line("ab".to_string(), "cd".to_string(), false), "abcd");
}
