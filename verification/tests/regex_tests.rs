use totalrecall::pattern::compile_regex;
use totalrecall::regex::regex_matches;

#[test]
fn supported_patterns_compile() {
    for p in ["a", "a|b", "(ab)*c", "x{2,3}", "[a-z0-9_]+", "^start", "end$", "a.c", "\\d+", "[^x]"] {
        assert!(compile_regex(p).is_ok(), "pattern {p} should compile");
    }
}

#[test]
fn malformed_patterns_are_refused_with_a_position() {
    for p in ["(a", "a{2", "[abc", "*a", "a)"] {
        let e = compile_regex(p).err().unwrap();
        assert!(e.contains("position"), "refusal for {p} names a position: {e}");
    }
}

#[test]
fn regex_search_is_case_folded_and_unanchored() {
    let prog = compile_regex("b(c|d)+e").unwrap();
    assert_eq!(regex_matches(&prog, "xxABCDCE yy"), Ok(true));
    assert_eq!(regex_matches(&prog, "abe"), Ok(false));
    let anchored = compile_regex("^ab$").unwrap();
    assert_eq!(regex_matches(&anchored, "AB"), Ok(true));
    assert_eq!(regex_matches(&anchored, "xab"), Ok(false));
    let counted = compile_regex("a{2,3}b").unwrap();
    assert_eq!(regex_matches(&counted, "aab"), Ok(true));
    assert_eq!(regex_matches(&counted, "ab"), Ok(false));
}

#[test]
fn regex_refusals_say_exactly_what_is_wrong() {
    let cases = [
        ("(a", "regex is malformed at position 2 (unbalanced group)"),
        ("a{2", "regex is malformed at position 1 (unterminated counted repetition)"),
        ("[abc", "regex is malformed at position 0 (unterminated character class)"),
        ("*a", "regex is malformed at position 0 ('*' with nothing to repeat)"),
        ("a)", "\"a)\" is malformed at position 1 (unexpected ')')"),
        ("^*", "regex is malformed at position 1 (a quantifier cannot follow an anchor)"),
        ("[z-a]", "regex is malformed at position 0 (inverted range z..a)"),
        ("a\\q", "regex escape 'q' is not supported"),
        ("a\\", "regex ends with a dangling escape"),
        ("x{300}", "regex is malformed at position 1 (counted repetition \"{300}\" exceeds the 256-rep search cap)"),
        ("x{99999999999}", "counted repetition \"99999999999\" overflows"),
    ];
    for (p, want) in cases {
        assert_eq!(compile_regex(p).err().as_deref(), Some(want), "pattern {p}");
    }
}

#[test]
fn classes_and_escapes_compile_to_their_sets() {
    let digits = compile_regex("^\\d\\d$").unwrap();
    assert_eq!(regex_matches(&digits, "42"), Ok(true));
    assert_eq!(regex_matches(&digits, "4x"), Ok(false));
    let negated = compile_regex("^[^a-c]$").unwrap();
    assert_eq!(regex_matches(&negated, "d"), Ok(true));
    assert_eq!(regex_matches(&negated, "B"), Ok(false));
    let words = compile_regex("^\\w+\\s\\W$").unwrap();
    assert_eq!(regex_matches(&words, "Ab_9 !"), Ok(true));
}

#[test]
fn atom_patterns_always_finish_within_the_budget() {
    let prog = compile_regex("x.z").unwrap();
    let line = "ab".repeat(5_000);
    assert_eq!(regex_matches(&prog, &line), Ok(false));
    assert_eq!(regex_matches(&prog, &format!("{line}xyz")), Ok(true));
}
