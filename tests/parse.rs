use exa_options::{Arg, Args, Flag, MatchedFlags, Matches, ParseError, TakesValue};

const TEST_ARGS: &[&Arg] = &[
    &Arg { short: Some(b'l'), long: "long", takes_value: TakesValue::Forbidden },
    &Arg { short: Some(b'v'), long: "verbose", takes_value: TakesValue::Forbidden },
    &Arg { short: Some(b'c'), long: "count", takes_value: TakesValue::Necessary },
];

fn os(input: &str) -> Vec<u8> {
    input.as_bytes().to_vec()
}

fn tokens(inputs: &[&str]) -> Vec<Vec<u8>> {
    inputs.iter().map(|s| os(s)).collect()
}

fn expect_ok(inputs: &[&str], frees: &[&str], flags: Vec<(Flag, Option<&str>)>) {
    let got = Args(TEST_ARGS).parse(&tokens(inputs));
    let flags = flags.into_iter().map(|(f, v)| (f, v.map(os))).collect();
    let expected = Ok(Matches { frees: tokens(frees), flags: MatchedFlags { flags } });
    assert_eq!(got, expected);
}

fn expect_err(inputs: &[&str], error: ParseError) {
    let got = Args(TEST_ARGS).parse(&tokens(inputs));
    assert_eq!(got, Err(error));
}

#[test]
fn empty() {
    expect_ok(&[], &[], vec![]);
}

#[test]
fn one_arg() {
    expect_ok(&["exa"], &["exa"], vec![]);
}

#[test]
fn one_dash() {
    expect_ok(&["-"], &["-"], vec![]);
}

#[test]
fn two_dashes() {
    expect_ok(&["--"], &[], vec![]);
}

#[test]
fn two_file() {
    expect_ok(&["--", "file"], &["file"], vec![]);
}

#[test]
fn two_arg_l() {
    expect_ok(&["--", "--long"], &["--long"], vec![]);
}

#[test]
fn two_arg_s() {
    expect_ok(&["--", "-l"], &["-l"], vec![]);
}

#[test]
fn long() {
    expect_ok(&["--long"], &[], vec![(Flag::Long("long"), None)]);
}

#[test]
fn long_then() {
    expect_ok(&["--long", "4"], &["4"], vec![(Flag::Long("long"), None)]);
}

#[test]
fn long_two() {
    expect_ok(
        &["--long", "--verbose"],
        &[],
        vec![(Flag::Long("long"), None), (Flag::Long("verbose"), None)],
    );
}

#[test]
fn bad_equals() {
    expect_err(&["--long=equals"], ParseError::ForbiddenValue { flag: Flag::Long("long") });
}

#[test]
fn no_arg() {
    expect_err(&["--count"], ParseError::NeedsValue { flag: Flag::Long("count") });
}

#[test]
fn arg_equals() {
    expect_ok(&["--count=4"], &[], vec![(Flag::Long("count"), Some("4"))]);
}

#[test]
fn arg_then() {
    expect_ok(&["--count", "4"], &[], vec![(Flag::Long("count"), Some("4"))]);
}

#[test]
fn short() {
    expect_ok(&["-l"], &[], vec![(Flag::Short(b'l'), None)]);
}

#[test]
fn short_then() {
    expect_ok(&["-l", "4"], &["4"], vec![(Flag::Short(b'l'), None)]);
}

#[test]
fn short_two() {
    expect_ok(&["-lv"], &[], vec![(Flag::Short(b'l'), None), (Flag::Short(b'v'), None)]);
}

#[test]
fn mixed() {
    expect_ok(&["-v", "--long"], &[], vec![(Flag::Short(b'v'), None), (Flag::Long("long"), None)]);
}

#[test]
fn bad_short() {
    expect_err(&["-l=equals"], ParseError::ForbiddenValue { flag: Flag::Short(b'l') });
}

#[test]
fn short_none() {
    expect_err(&["-c"], ParseError::NeedsValue { flag: Flag::Short(b'c') });
}

#[test]
fn short_arg_eq() {
    expect_ok(&["-c=4"], &[], vec![(Flag::Short(b'c'), Some("4"))]);
}

#[test]
fn short_arg_then() {
    expect_ok(&["-c", "4"], &[], vec![(Flag::Short(b'c'), Some("4"))]);
}

#[test]
fn short_two_together() {
    expect_ok(&["-lctwo"], &[], vec![(Flag::Short(b'l'), None), (Flag::Short(b'c'), Some("two"))]);
}

#[test]
fn short_two_equals() {
    expect_ok(&["-lc=two"], &[], vec![(Flag::Short(b'l'), None), (Flag::Short(b'c'), Some("two"))]);
}

#[test]
fn short_two_next() {
    expect_ok(&["-lc", "two"], &[], vec![(Flag::Short(b'l'), None), (Flag::Short(b'c'), Some("two"))]);
}

#[test]
fn unknown_long() {
    expect_err(&["--quiet"], ParseError::UnknownArgument { attempt: os("quiet") });
}

#[test]
fn unknown_long_eq() {
    expect_err(&["--quiet=shhh"], ParseError::UnknownArgument { attempt: os("quiet") });
}

#[test]
fn unknown_short() {
    expect_err(&["-q"], ParseError::UnknownShortArgument { attempt: b'q' });
}

#[test]
fn unknown_short_2nd() {
    expect_err(&["-lq"], ParseError::UnknownShortArgument { attempt: b'q' });
}

#[test]
fn unknown_short_eq() {
    expect_err(&["-q=shhh"], ParseError::UnknownShortArgument { attempt: b'q' });
}

#[test]
fn unknown_short_2nd_eq() {
    expect_err(&["-lq=shhh"], ParseError::UnknownShortArgument { attempt: b'q' });
}

#[test]
fn needs_value_before_equals_in_cluster() {
    expect_err(&["-cl=4"], ParseError::NeedsValue { flag: Flag::Short(b'c') });
}

#[test]
fn cluster_value_is_not_parsed_as_flags() {
    expect_ok(&["-cqq", "-"], &["-"], vec![(Flag::Short(b'c'), Some("qq"))]);
}

#[test]
fn value_may_look_like_a_flag() {
    expect_ok(&["--count", "--", "x"], &["x"], vec![(Flag::Long("count"), Some("--"))]);
}

#[test]
fn frees_keep_their_order() {
    expect_ok(
        &["a", "-l", "b", "--count", "3", "c", "--", "-v", "d"],
        &["a", "b", "c", "-v", "d"],
        vec![(Flag::Short(b'l'), None), (Flag::Long("count"), Some("3"))],
    );
}

#[test]
fn sentinel_after_sentinel_is_free() {
    expect_ok(&["--", "--"], &["--"], vec![]);
}

#[test]
fn invalid_text_survives() {
    let inputs = vec![vec![0xffu8, 0xfe], vec![b'-', b'c', 0x80], vec![b'-', b'-', 0xc3]];
    let got = Args(TEST_ARGS).parse(&inputs);
    assert_eq!(got, Err(ParseError::UnknownArgument { attempt: vec![0xc3] }));
    let got = Args(TEST_ARGS).parse(&inputs[..2]);
    let expected = Matches {
        frees: vec![vec![0xff, 0xfe]],
        flags: MatchedFlags { flags: vec![(Flag::Short(b'c'), Some(vec![0x80]))] },
    };
    assert_eq!(got, Ok(expected));
}

#[test]
fn every_occurrence_follows_its_policy() {
    let got = Args(TEST_ARGS).parse(&tokens(&["-lvc5", "--count", "6", "--verbose", "-c=7"])).unwrap();
    for (flag, value) in &got.flags.flags {
        let spec = TEST_ARGS.iter().find(|a| flag.matches(a)).unwrap();
        assert_eq!(value.is_some(), spec.takes_value == TakesValue::Necessary);
    }
    assert_eq!(got.flags.flags.len(), 6);
}

#[test]
fn parsing_twice_gives_the_same() {
    let inputs = tokens(&["-lctwo", "file", "--verbose", "--", "-x"]);
    let first = Args(TEST_ARGS).parse(&inputs);
    let second = Args(TEST_ARGS).parse(&inputs);
    assert_eq!(first, second);
}

#[test]
fn queries_after_parse() {
    let got = Args(TEST_ARGS).parse(&tokens(&["-c", "1", "--count=2", "-v", "-cthree"])).unwrap();
    let count = TEST_ARGS[2];
    let verbose = TEST_ARGS[1];
    let long = TEST_ARGS[0];
    assert_eq!(got.flags.get(count), Some(&b"three"[..]));
    assert_eq!(got.flags.count(count), 3);
    assert!(!got.flags.has(count));
    assert!(got.flags.has(verbose));
    assert_eq!(got.flags.count(verbose), 1);
    assert!(!got.flags.has(long));
    assert_eq!(got.flags.count(long), 0);
    assert_eq!(got.flags.get(long), None);
}

#[test]
fn lookups() {
    let args = Args(TEST_ARGS);
    assert_eq!(args.lookup_short(b'v').unwrap().long, "verbose");
    assert_eq!(args.lookup_short(b'z'), Err(ParseError::UnknownShortArgument { attempt: b'z' }));
    assert_eq!(args.lookup_long(b"count").unwrap().short, Some(b'c'));
    assert_eq!(args.lookup_long(b"coun"), Err(ParseError::UnknownArgument { attempt: os("coun") }));
}

#[test]
fn first_registered_wins() {
    const DUPLICATES: &[&Arg] = &[
        &Arg { short: Some(b'x'), long: "first", takes_value: TakesValue::Forbidden },
        &Arg { short: Some(b'x'), long: "second", takes_value: TakesValue::Necessary },
    ];
    let args = Args(DUPLICATES);
    assert_eq!(args.lookup_short(b'x').unwrap().long, "first");
    let got = args.parse(&tokens(&["-xx"])).unwrap();
    assert_eq!(got.flags.flags, vec![(Flag::Short(b'x'), None), (Flag::Short(b'x'), None)]);
}
