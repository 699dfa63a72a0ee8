use exa_options::{Arg, Flag, MatchedFlags, TakesValue};

const VERBOSE: Arg = Arg { short: Some(b'v'), long: "verbose", takes_value: TakesValue::Forbidden };
const COUNT: Arg = Arg { short: Some(b'c'), long: "count", takes_value: TakesValue::Necessary };

fn os(input: &str) -> Vec<u8> {
    input.as_bytes().to_vec()
}

fn has_verbose(flags: Vec<(Flag, Option<Vec<u8>>)>) -> bool {
    MatchedFlags { flags }.has(&VERBOSE)
}

#[test]
fn short_never() {
    assert_eq!(has_verbose(vec![]), false);
}

#[test]
fn short_once() {
    assert_eq!(has_verbose(vec![(Flag::Short(b'v'), None)]), true);
}

#[test]
fn short_twice() {
    assert_eq!(has_verbose(vec![(Flag::Short(b'v'), None), (Flag::Short(b'v'), None)]), true);
}

#[test]
fn long_once() {
    assert_eq!(has_verbose(vec![(Flag::Long("verbose"), None)]), true);
}

#[test]
fn long_twice() {
    assert_eq!(has_verbose(vec![(Flag::Long("verbose"), None), (Flag::Long("verbose"), None)]), true);
}

#[test]
fn long_mixed() {
    assert_eq!(has_verbose(vec![(Flag::Long("verbose"), None), (Flag::Short(b'v'), None)]), true);
}

#[test]
fn only_count() {
    let everything = os("everything");
    let flags = MatchedFlags { flags: vec![(Flag::Short(b'c'), Some(everything.clone()))] };
    assert_eq!(flags.get(&COUNT), Some(&everything[..]));
}

#[test]
fn rightmost_count() {
    let everything = os("everything");
    let nothing = os("nothing");

    let flags = MatchedFlags {
        flags: vec![(Flag::Short(b'c'), Some(everything.clone())), (Flag::Short(b'c'), Some(nothing.clone()))],
    };

    assert_eq!(flags.get(&COUNT), Some(&nothing[..]));
}

#[test]
fn no_count() {
    let flags = MatchedFlags { flags: Vec::new() };

    assert!(!flags.has(&COUNT));
}

#[test]
fn has_ignores_occurrences_with_values() {
    let flags = MatchedFlags {
        flags: vec![(Flag::Short(b'c'), Some(os("1"))), (Flag::Long("count"), Some(os("2")))],
    };
    assert!(!flags.has(&COUNT));
    assert_eq!(flags.count(&COUNT), 2);
}

#[test]
fn get_skips_later_bare_occurrences() {
    let flags = MatchedFlags {
        flags: vec![
            (Flag::Long("count"), Some(os("1"))),
            (Flag::Short(b'c'), Some(os("2"))),
            (Flag::Short(b'c'), None),
            (Flag::Short(b'v'), Some(os("3"))),
        ],
    };
    assert_eq!(flags.get(&COUNT), Some(&b"2"[..]));
    assert!(flags.has(&COUNT));
}

#[test]
fn count_mixes_forms_and_values() {
    let flags = MatchedFlags {
        flags: vec![
            (Flag::Short(b'v'), None),
            (Flag::Long("verbose"), None),
            (Flag::Short(b'c'), Some(os("x"))),
            (Flag::Long("verbose"), Some(os("y"))),
            (Flag::Long("verbos"), None),
        ],
    };
    assert_eq!(flags.count(&VERBOSE), 3);
    assert_eq!(flags.count(&COUNT), 1);
}

#[test]
fn flag_matching() {
    assert!(Flag::Short(b'v').matches(&VERBOSE));
    assert!(!Flag::Short(b'V').matches(&VERBOSE));
    assert!(Flag::Long("verbose").matches(&VERBOSE));
    assert!(!Flag::Long("Verbose").matches(&VERBOSE));
    let no_short = Arg { short: None, long: "all", takes_value: TakesValue::Forbidden };
    assert!(!Flag::Short(b'a').matches(&no_short));
}

#[test]
fn render_with_and_without_short() {
    assert_eq!(VERBOSE.render(), "--verbose (-v)");
    let no_short = Arg { short: None, long: "all", takes_value: TakesValue::Forbidden };
    assert_eq!(no_short.render(), "--all");
}
