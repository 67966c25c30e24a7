use py_regex::{CompileReason, PyRegex, RegexError, SyntaxReason};
use std::collections::HashMap;

#[test]
fn test_escape() -> Result<(), RegexError> {
    assert_eq!(PyRegex::escape("[]", false, false)?, "\\[\\]");
    Ok(())
}

#[test]
fn test_pyregex_match_methods() -> Result<(), RegexError> {
    let pattern = r"(?P<word>\w+)-(\d+)";
    let text = "Test-123";
    let re = PyRegex::new(pattern)?;

    if let Some(m) = re.search_match(text)? {
        assert_eq!(m.group(0)?, Some("Test-123".to_string()));
        assert_eq!(m.group(1)?, Some("Test".to_string()));
        assert_eq!(m.group(2)?, Some("123".to_string()));
        let gd: HashMap<String, Option<String>> = m.groupdict()?.into_iter().collect();
        assert_eq!(gd.get("word").cloned(), Some(Some("Test".to_string())));
        let start = m.start(0)?;
        let end = m.end(0)?;
        println!("Match span for group 0: {}..{}", start, end);
    } else {
        panic!("No match found");
    }
    Ok(())
}

#[test]
fn find_all_named_digits() {
    let re = PyRegex::new(r"(?P<id>\d+)").unwrap();
    assert_eq!(re.find_all("IDs: 101, 202, 303").unwrap(), vec!["101", "202", "303"]);
}

#[test]
fn match_span_of_word_and_number() {
    let re = PyRegex::new(r"(?P<word>\w+)-(\d+)").unwrap();
    let m = re.search_match("Test-123").unwrap().unwrap();
    assert_eq!(m.start(0).unwrap(), 0);
    assert_eq!(m.end(0).unwrap(), 8);
    assert_eq!(m.start(2).unwrap(), 5);
    assert_eq!(m.end(1).unwrap(), 4);
    assert_eq!(m.groups().unwrap(), vec![Some("Test".to_string()), Some("123".to_string())]);
}

#[test]
fn star_on_empty_text() {
    let re = PyRegex::new("a*").unwrap();
    let m = re.search_match("").unwrap().unwrap();
    assert_eq!(m.start(0).unwrap(), 0);
    assert_eq!(m.end(0).unwrap(), 0);
    assert_eq!(m.group(0).unwrap(), Some(String::new()));
    let all = re.find_iter("").unwrap();
    assert_eq!(all.len(), 1);
    assert_eq!(re.find_all("baab").unwrap(), vec!["", "aa", "", ""]);
}

#[test]
fn no_match_gives_none_and_empty() {
    let re = PyRegex::new("z").unwrap();
    assert!(re.search_match("abc").unwrap().is_none());
    assert_eq!(re.find_all("abc").unwrap(), Vec::<String>::new());
    assert!(!re.is_match("abc").unwrap());
    assert_eq!(re.find_iter("abc").unwrap().len(), 0);
}

#[test]
fn is_match_agrees_with_search() {
    for (p, t) in [("b+", "abbc"), ("^c", "abc"), ("c$", "abc"), ("x|y", "zzz")] {
        let re = PyRegex::new(p).unwrap();
        assert_eq!(re.is_match(t).unwrap(), re.search_match(t).unwrap().is_some());
    }
}

#[test]
fn group_zero_equals_slice() {
    let re = PyRegex::new(r"\d+").unwrap();
    let text = "ab 4567 cd";
    let m = re.search_match(text).unwrap().unwrap();
    let s = m.start(0).unwrap() as usize;
    let e = m.end(0).unwrap() as usize;
    assert_eq!(m.group(0).unwrap(), Some(text[s..e].to_string()));
}

#[test]
fn counts_agree_between_find_all_and_find_iter() {
    let re = PyRegex::new(r"o\w").unwrap();
    let text = "foo boo zoo oz";
    assert_eq!(re.find_all(text).unwrap().len(), 4);
    assert_eq!(re.find_iter(text).unwrap().len(), 4);
}

#[test]
fn split_then_rejoin_gives_text() {
    let re = PyRegex::new(r",\s*").unwrap();
    let text = "a, b,c,  d";
    let pieces = re.split(text).unwrap();
    assert_eq!(pieces, vec!["a", "b", "c", "d"]);
    let seps = re.find_all(text).unwrap();
    let mut joined = String::new();
    for (k, p) in pieces.iter().enumerate() {
        joined.push_str(p);
        if k < seps.len() {
            joined.push_str(&seps[k]);
        }
    }
    assert_eq!(joined, text);
}

#[test]
fn split_keeps_group_text() {
    let re = PyRegex::new(r"(-)|(\+)").unwrap();
    assert_eq!(re.split("1-2+3").unwrap(), vec!["1", "-", "", "2", "", "+", "3"]);
}

#[test]
fn escape_special_only_is_idempotent_on_plain_text() {
    let once = PyRegex::escape("plain_text42", true, false).unwrap();
    assert_eq!(once, "plain_text42");
    assert_eq!(PyRegex::escape(&once, true, false).unwrap(), once);
}

#[test]
fn escape_modes() {
    assert_eq!(PyRegex::escape("a.b c", true, false).unwrap(), "a\\.b\\ c");
    assert_eq!(PyRegex::escape("a.b c", true, true).unwrap(), "a\\.b c");
    assert_eq!(PyRegex::escape("a_b!", false, false).unwrap(), "a_b\\!");
}

#[test]
fn greedy_and_lazy_repetition() {
    let greedy = PyRegex::new("<.*>").unwrap();
    let lazy = PyRegex::new("<.*?>").unwrap();
    let text = "<a><b>";
    assert_eq!(greedy.find_all(text).unwrap(), vec!["<a><b>"]);
    assert_eq!(lazy.find_all(text).unwrap(), vec!["<a>", "<b>"]);
}

#[test]
fn alternation_prefers_left_branch() {
    let re = PyRegex::new("ab|abc").unwrap();
    assert_eq!(re.find_all("abc").unwrap(), vec!["ab"]);
}

#[test]
fn counted_repetition_and_classes() {
    let re = PyRegex::new("[a-c]{2,3}").unwrap();
    assert_eq!(re.find_all("abcdab a").unwrap(), vec!["abc", "ab"]);
    let neg = PyRegex::new("[^0-9 ]+").unwrap();
    assert_eq!(neg.find_all("ab12 c3").unwrap(), vec!["ab", "c"]);
}

#[test]
fn backreferences_by_number_and_name() {
    let re = PyRegex::new(r"(\w)\1").unwrap();
    assert_eq!(re.find_all("abccdde").unwrap(), vec!["cc", "dd"]);
    let named = PyRegex::new(r"(?P<q>['])\w+(?P=q)").unwrap();
    assert_eq!(named.find_all("x 'yes' z").unwrap(), vec!["'yes'"]);
}

#[test]
fn word_boundary_and_anchors() {
    let re = PyRegex::new(r"\bcat\b").unwrap();
    assert_eq!(re.find_all("cat concat cat").unwrap().len(), 2);
    let anchored = PyRegex::new("^a").unwrap();
    assert_eq!(anchored.find_all("aaa").unwrap(), vec!["a"]);
}

#[test]
fn unmatched_group_reports_none_and_minus_one() {
    let re = PyRegex::new("(a)|(b)").unwrap();
    let m = re.search_match("b").unwrap().unwrap();
    assert_eq!(m.group(1).unwrap(), None);
    assert_eq!(m.start(1).unwrap(), -1);
    assert_eq!(m.end(1).unwrap(), -1);
    assert_eq!(m.group(2).unwrap(), Some("b".to_string()));
}

#[test]
fn group_index_out_of_range() {
    let re = PyRegex::new("(a)").unwrap();
    let m = re.search_match("a").unwrap().unwrap();
    assert_eq!(m.group(2), Err(RegexError::GroupIndex { requested: 2, max: 1 }));
    assert_eq!(m.start(5), Err(RegexError::GroupIndex { requested: 5, max: 1 }));
}

#[test]
fn syntax_errors_carry_position() {
    assert!(matches!(PyRegex::new("(ab"), Err(RegexError::PatternSyntax { position: 0, .. })));
    assert!(matches!(PyRegex::new("ab)"), Err(RegexError::PatternSyntax { position: 2, .. })));
    assert!(matches!(PyRegex::new("*a"), Err(RegexError::PatternSyntax { position: 0, .. })));
    assert!(matches!(PyRegex::new("[a-"), Err(RegexError::PatternSyntax { .. })));
    assert!(matches!(PyRegex::new("a{3,1}"), Err(RegexError::PatternSyntax { .. })));
    assert!(matches!(PyRegex::new(r"\q"), Err(RegexError::PatternSyntax { .. })));
    assert!(matches!(PyRegex::new(r"(?P=nope)"), Err(RegexError::PatternSyntax { .. })));
}

#[test]
fn duplicate_group_name_is_compile_error() {
    assert!(matches!(PyRegex::new("(?P<x>a)(?P<x>b)"), Err(RegexError::Compile { .. })));
}

#[test]
fn groupdict_lists_unmatched_names() {
    let re = PyRegex::new("(?P<a>x)|(?P<b>y)").unwrap();
    let m = re.search_match("y").unwrap().unwrap();
    let gd: HashMap<String, Option<String>> = m.groupdict().unwrap().into_iter().collect();
    assert_eq!(gd.get("a").cloned(), Some(None));
    assert_eq!(gd.get("b").cloned(), Some(Some("y".to_string())));
}

#[test]
fn replace_with_numbered_groups() {
    let re = PyRegex::new(r"(\w+)@(\w+)").unwrap();
    assert_eq!(re.replace("a@b c@d", r"\2 at \1").unwrap(), "b at a d at c");
}

#[test]
fn replace_with_named_and_whole_match() {
    let re = PyRegex::new(r"(?P<n>\d)").unwrap();
    assert_eq!(re.replace("a1b2", r"<\g<n>>").unwrap(), "a<1>b<2>");
    let b = PyRegex::new("b").unwrap();
    assert_eq!(b.replace("abc", r"[\g<0>]").unwrap(), "a[b]c");
}

#[test]
fn replace_unmatched_group_is_empty() {
    let re = PyRegex::new("(a)|b").unwrap();
    assert_eq!(re.replace("ab", r"[\1]").unwrap(), "[a][]");
}

#[test]
fn replace_empty_matches_everywhere() {
    let re = PyRegex::new("x*").unwrap();
    assert_eq!(re.replace("ab", "-").unwrap(), "-a-b-");
}

#[test]
fn replace_template_escapes() {
    let re = PyRegex::new(",").unwrap();
    assert_eq!(re.replace("a,b", r"\n").unwrap(), "a\nb");
    assert_eq!(re.replace("a,b", r"\&").unwrap(), "a\\&b");
    assert_eq!(re.replace("a,b", r"\\").unwrap(), "a\\b");
}

#[test]
fn replace_bad_templates_are_errors() {
    let re = PyRegex::new("a").unwrap();
    assert!(matches!(re.replace("a", r"\9"), Err(RegexError::PatternSyntax { .. })));
    assert!(matches!(re.replace("a", r"\q"), Err(RegexError::PatternSyntax { .. })));
    assert!(matches!(re.replace("a", r"\g<zz>"), Err(RegexError::PatternSyntax { .. })));
    assert!(matches!(re.replace("a", "\\"), Err(RegexError::PatternSyntax { .. })));
}

#[test]
fn replace_without_match_keeps_text() {
    let re = PyRegex::new("z").unwrap();
    assert_eq!(re.replace("abc", "Q").unwrap(), "abc");
}

#[test]
fn named_group_short_syntax() {
    let re = PyRegex::new(r"(?<year>\d{4})-(?P<m>\d\d)").unwrap();
    let m = re.search_match("on 2024-05").unwrap().unwrap();
    let gd: HashMap<String, Option<String>> = m.groupdict().unwrap().into_iter().collect();
    assert_eq!(gd.get("year").cloned(), Some(Some("2024".to_string())));
    assert_eq!(gd.get("m").cloned(), Some(Some("05".to_string())));
    assert_eq!(m.start(0).unwrap(), 3);
}

#[test]
fn group_named_and_unknown_name() {
    let re = PyRegex::new(r"(?P<word>\w+)-(\d+)").unwrap();
    let m = re.search_match("Test-123").unwrap().unwrap();
    assert_eq!(m.group_named("word").unwrap(), Some("Test".to_string()));
    assert_eq!(m.group_named("nope"), Err(RegexError::GroupName { name: "nope".to_string() }));
}

#[test]
fn plain_pattern_finds_its_text() {
    let re = PyRegex::new("ab_1").unwrap();
    let m = re.search_match("xxab_1yyab_1").unwrap().unwrap();
    assert_eq!(m.start(0).unwrap(), 2);
    assert_eq!(m.end(0).unwrap(), 6);
    assert_eq!(m.groups().unwrap(), Vec::<Option<String>>::new());
    assert_eq!(re.find_all("xxab_1yyab_1").unwrap().len(), 2);
}

#[test]
fn offsets_are_bytes_in_utf8_text() {
    let re = PyRegex::new(r"\d").unwrap();
    let text = "é1";
    let m = re.search_match(text).unwrap().unwrap();
    assert_eq!(m.start(0).unwrap(), 2);
    assert_eq!(m.end(0).unwrap(), 3);
    let s = m.start(0).unwrap() as usize;
    let e = m.end(0).unwrap() as usize;
    assert_eq!(m.group(0).unwrap(), Some(text[s..e].to_string()));
}

#[test]
fn offsets_after_wide_characters() {
    let re = PyRegex::new(r"(b)(c)").unwrap();
    let text = "a€😀bc";
    let m = re.search_match(text).unwrap().unwrap();
    assert_eq!(m.start(1).unwrap(), 8);
    assert_eq!(m.end(2).unwrap(), 10);
    assert_eq!(&text[8..10], "bc");
}

#[test]
fn leftmost_alternative_wins() {
    let re = PyRegex::new("a|ab").unwrap();
    let m = re.search_match("ab").unwrap().unwrap();
    assert_eq!(m.group(0).unwrap(), Some("a".to_string()));
}

#[test]
fn greedy_plus_and_lazy_plus_spans() {
    let g = PyRegex::new("a+").unwrap().search_match("aaa").unwrap().unwrap();
    assert_eq!((g.start(0).unwrap(), g.end(0).unwrap()), (0, 3));
    let l = PyRegex::new("a+?").unwrap().search_match("aaa").unwrap().unwrap();
    assert_eq!((l.start(0).unwrap(), l.end(0).unwrap()), (0, 1));
}

#[test]
fn find_all_two_groups_gives_whole_matches() {
    let re = PyRegex::new(r"(\w+)-(\d+)").unwrap();
    assert_eq!(re.find_all("a-1 b-2").unwrap(), vec!["a-1", "b-2"]);
}

#[test]
fn replace_optional_and_named_groups() {
    let re = PyRegex::new("(a)?b").unwrap();
    assert_eq!(re.replace("b", r"[\1]").unwrap(), "[]");
    let ids = PyRegex::new(r"(?P<id>\d+)").unwrap();
    assert_eq!(ids.replace("IDs: 101, 202, 303", r"<\g<id>>").unwrap(), "IDs: <101>, <202>, <303>");
}

#[test]
fn split_with_captured_and_absent_groups() {
    let re = PyRegex::new("(-)").unwrap();
    assert_eq!(re.split("a-b-c").unwrap(), vec!["a", "-", "b", "-", "c"]);
    let opt = PyRegex::new("(x)?,").unwrap();
    let parts = opt.split("a,b").unwrap();
    assert_eq!(parts.len(), 3);
    assert_eq!(parts[0], "a");
    assert_eq!(parts[2], "b");
}

#[test]
fn nested_groups_are_numbered_outer_first() {
    let re = PyRegex::new("((a)(b))").unwrap();
    let m = re.search_match("ab").unwrap().unwrap();
    assert_eq!(
        m.groups().unwrap(),
        vec![Some("ab".to_string()), Some("a".to_string()), Some("b".to_string())]
    );
}

#[test]
fn optional_named_group_absent() {
    let re = PyRegex::new("(?P<a>x)?y").unwrap();
    let m = re.search_match("y").unwrap().unwrap();
    let gd: HashMap<String, Option<String>> = m.groupdict().unwrap().into_iter().collect();
    assert_eq!(gd.get("a").cloned(), Some(None));
    assert_eq!(m.start(1).unwrap(), -1);
}

#[test]
fn escaped_text_matches_itself() {
    let text = "a.b*(c) [d]";
    for (so, ls) in [(true, false), (false, false), (true, true), (false, true)] {
        let e = PyRegex::escape(text, so, ls).unwrap();
        let re = PyRegex::new(&e).unwrap();
        let m = re.search_match(text).unwrap().unwrap();
        assert_eq!(m.start(0).unwrap(), 0);
        assert_eq!(m.end(0).unwrap(), text.len() as isize);
    }
}

#[test]
fn unknown_name_reference_is_syntax_error() {
    assert!(matches!(PyRegex::new("(?P=missing)a"), Err(RegexError::PatternSyntax { .. })));
    assert!(matches!(PyRegex::new("(?P<n>a)(?P<n>b)"), Err(RegexError::Compile { .. })));
}

#[test]
fn parse_errors_name_their_reason() {
    assert_eq!(
        PyRegex::new("(ab").err(),
        Some(RegexError::PatternSyntax { position: 0, message: SyntaxReason::MissingClosingParenthesis })
    );
    assert_eq!(
        PyRegex::new("ab)").err(),
        Some(RegexError::PatternSyntax { position: 2, message: SyntaxReason::UnbalancedParenthesis })
    );
    assert_eq!(
        PyRegex::new("(?P<n>a)(?P<n>b)").err(),
        Some(RegexError::Compile { reason: CompileReason::DuplicateGroupName })
    );
    assert_eq!(
        PyRegex::new("(?P=missing)a").err(),
        Some(RegexError::PatternSyntax { position: 4, message: SyntaxReason::UnknownGroupName })
    );
    assert_eq!(
        PyRegex::new("a{3,1}").err(),
        Some(RegexError::PatternSyntax { position: 1, message: SyntaxReason::MinRepeatGreaterThanMax })
    );
    assert_eq!(
        PyRegex::new(r"a\q").err(),
        Some(RegexError::PatternSyntax { position: 1, message: SyntaxReason::BadEscape })
    );
    assert_eq!(
        PyRegex::new("*a").err(),
        Some(RegexError::PatternSyntax { position: 0, message: SyntaxReason::NothingToRepeat })
    );
}

#[test]
fn template_errors_name_their_reason() {
    let re = PyRegex::new("a").unwrap();
    assert_eq!(
        re.replace("a", r"x\9"),
        Err(RegexError::PatternSyntax { position: 1, message: SyntaxReason::InvalidGroupReference })
    );
    assert_eq!(
        re.replace("a", r"\g"),
        Err(RegexError::PatternSyntax { position: 0, message: SyntaxReason::MissingLessThan })
    );
    assert_eq!(
        re.replace("a", "ab\\"),
        Err(RegexError::PatternSyntax { position: 2, message: SyntaxReason::BadEscapeAtEnd })
    );
}
