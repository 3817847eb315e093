use ini::document::Document;
use ini::parser::{classify_line, parse, Line, ParseError};
use ini::text::{
    digit_char, find_first, find_last, is_space_char, push_decimal, to_chars, to_text, trim_range,
};
use std::collections::BTreeMap;

type Plain = BTreeMap<String, BTreeMap<String, Option<String>>>;

fn plain(doc: &Document) -> Plain {
    let mut out = Plain::new();
    for name in doc.section_names() {
        let mut section = BTreeMap::new();
        for key in doc.keys(&name).unwrap() {
            let value = doc.get(&name, &key).unwrap();
            section.insert(key, value);
        }
        out.insert(name, section);
    }
    out
}

fn some(text: &str) -> Option<String> {
    Some(text.to_owned())
}

#[test]
fn main() {
    let map1 = parse("[values]
	key = value

		[VALUES2]
			key2=value2

	[section]
	key = 42");
    let (map2, map3) = (
        parse("[values]\n\tkey = value\n\n\t\t[VALUES2]\n\t\t\tkey2=value2\n\n\t[section]\n\tkey = 42").unwrap(),
        parse("[values]\n\tkey = value\n\n\t\t[VALUES2]\n\t\t\tkey2=value2\n\n\t[section]\n\tkey = 42").unwrap(),
    );
    assert_eq!(plain(&map2), plain(&map3));
    assert_eq!(plain(&map3), plain(map1.as_ref().unwrap()));
    let instring = "[values]
	key = value

		[VALUES2]
			key2=value2

	[section]
	key = 42";
    let map4 = parse("[values]
	key = value

		[VALUES2]
			key2=value2

	[section]
	key = 42");
    let (map5, map6) = (parse(&instring.to_owned()).unwrap(), parse(instring).unwrap());
    assert_eq!(plain(&map5), plain(&map6));
    assert_eq!(plain(&map5), plain(map4.as_ref().unwrap()));
    assert_eq!(plain(&map2), plain(&map5));
    assert_eq!(plain(map1.as_ref().unwrap()), plain(map4.as_ref().unwrap()));
    assert!(map2.same_as(&map3) && map3.same_as(map1.as_ref().unwrap()));
    assert!(map5.same_as(&map6) && map5.same_as(map4.as_ref().unwrap()));
    assert!(map2.same_as(&map5) && map1.as_ref().unwrap().same_as(map4.as_ref().unwrap()));
    assert_eq!(map1.unwrap().get("section", "key").unwrap().unwrap(), "42");
}

#[test]
fn sample_text_has_its_three_sections() {
    let doc = parse("[values]\n\tkey = value\n\n\t\t[VALUES2]\n\t\t\tkey2=value2\n\n\t[section]\n\tkey = 42").unwrap();
    assert_eq!(doc.section_names(), vec!["default", "values", "values2", "section"]);
    assert_eq!(doc.get("values", "key"), Some(some("value")));
    assert_eq!(doc.get("values2", "key2"), Some(some("value2")));
    assert_eq!(doc.get("section", "key"), Some(some("42")));
    assert_eq!(doc.keys("default"), Some(vec![]));
}

#[test]
fn names_fold_to_lower_case_and_values_do_not() {
    let upper = parse("[Section]\nKey=Value").unwrap();
    let lower = parse("[section]\nkey=Value").unwrap();
    assert_eq!(plain(&upper), plain(&lower));
    assert!(upper.same_as(&lower));
    assert_eq!(upper.get("section", "key"), Some(some("Value")));
    assert_eq!(upper.get("Section", "Key"), None);
    assert!(!upper.has_section("Section"));
}

#[test]
fn names_beyond_ascii_fold_too() {
    let doc = parse("[ÄÖ]\nÉcole=Été").unwrap();
    assert!(doc.has_section("äö"));
    assert_eq!(doc.get("äö", "école"), Some(some("Été")));
}

#[test]
fn last_write_wins() {
    let doc = parse("[s]\na=1\na=2").unwrap();
    assert_eq!(doc.get("s", "a"), Some(some("2")));
    assert_eq!(doc.keys("s"), Some(vec!["a".to_owned()]));
}

#[test]
fn valueless_and_empty_values_differ() {
    let doc = parse("[s]\na\nb=").unwrap();
    assert_eq!(doc.get("s", "a"), Some(None));
    assert_eq!(doc.get("s", "b"), Some(some("")));
    assert_ne!(doc.get("s", "a"), doc.get("s", "b"));
    let spaced = parse("[s]\nb =   ").unwrap();
    assert_eq!(spaced.get("s", "b"), Some(some("")));
}

#[test]
fn default_section_captures_leading_keys() {
    let doc = parse("x=1\n[s]\ny=2").unwrap();
    assert_eq!(doc.get("default", "x"), Some(some("1")));
    assert_eq!(doc.get("s", "y"), Some(some("2")));
    assert_eq!(doc.get("s", "x"), None);
    assert_eq!(doc.get("default", "y"), None);
    assert_eq!(doc.section_names(), vec!["default", "s"]);
}

#[test]
fn header_ends_at_last_bracket() {
    let doc = parse("[a]b]\nk=v").unwrap();
    assert!(doc.has_section("a]b"));
    assert!(!doc.has_section("a"));
    assert_eq!(doc.get("a]b", "k"), Some(some("v")));
}

#[test]
fn unterminated_header_fails_with_line_number() {
    let result = parse("[unterminated\nk=v");
    match result {
        Err(e) => {
            assert_eq!(e, ParseError::MalformedHeader { line_number: 1 });
            assert_eq!(e.line_number(), 1);
        }
        Ok(_) => panic!("an unclosed header was accepted"),
    }
}

#[test]
fn error_names_the_first_bad_line_and_counts_blank_lines() {
    let result = parse("a=1\n\n  \n[s]\n[bad\n[worse\n");
    assert_eq!(result.err(), Some(ParseError::MalformedHeader { line_number: 5 }));
    let crlf = parse("a=1\r\n\r\n[bad\r\n");
    assert_eq!(crlf.err(), Some(ParseError::MalformedHeader { line_number: 3 }));
}

#[test]
fn separate_parses_are_equal_and_independent() {
    let text = "[s]\na=1\nb";
    let mut first = parse(text).unwrap();
    let second = parse(text).unwrap();
    assert_eq!(plain(&first), plain(&second));
    assert!(first.same_as(&second));
    first.set("s", "a", Some("changed"));
    first.add_section("extra");
    assert_eq!(first.get("s", "a"), Some(some("changed")));
    assert_eq!(second.get("s", "a"), Some(some("1")));
    assert!(!second.has_section("extra"));
    assert_ne!(plain(&first), plain(&second));
    assert!(!first.same_as(&second));
}

#[test]
fn whitespace_is_trimmed() {
    let doc = parse("[  s  ]\n  k  =  v  ").unwrap();
    assert_eq!(doc.section_names(), vec!["default", "s"]);
    assert_eq!(doc.keys("s"), Some(vec!["k".to_owned()]));
    assert_eq!(doc.get("s", "k"), Some(some("v")));
    let inner = parse("[ a  b ]\n k  k = v  v ").unwrap();
    assert_eq!(inner.get("a  b", "k  k"), Some(some("v  v")));
}

#[test]
fn unicode_whitespace_is_trimmed() {
    let doc = parse("\u{a0}[\u{3000}s\u{2003}]\u{85}\n\u{2028}k\u{1680}=\u{205f}v\u{202f}").unwrap();
    assert_eq!(doc.get("s", "k"), Some(some("v")));
}

#[test]
fn empty_text_is_the_default_section_alone() {
    for text in ["", "\n", "   \n\t\n\r\n"] {
        let doc = parse(text).unwrap();
        assert_eq!(doc.section_names(), vec!["default"]);
        assert_eq!(doc.keys("default"), Some(vec![]));
    }
}

#[test]
fn empty_key_is_accepted() {
    let doc = parse("=value").unwrap();
    assert_eq!(doc.get("default", ""), Some(some("value")));
    let bare = parse("[s]\n=").unwrap();
    assert_eq!(bare.get("s", ""), Some(some("")));
}

#[test]
fn only_the_first_delimiter_splits() {
    let doc = parse("a = b = c\nurl=http://x/?q=1").unwrap();
    assert_eq!(doc.get("default", "a"), Some(some("b = c")));
    assert_eq!(doc.get("default", "url"), Some(some("http://x/?q=1")));
}

#[test]
fn redeclared_default_merges() {
    let doc = parse("x=1\n[s]\ny=2\n[DEFAULT]\nz=3\n[ Default ]\nx=4").unwrap();
    assert_eq!(doc.section_names(), vec!["default", "s"]);
    assert_eq!(doc.get("default", "x"), Some(some("4")));
    assert_eq!(doc.get("default", "z"), Some(some("3")));
}

#[test]
fn repeated_header_resumes_its_section() {
    let doc = parse("[a]\nx=1\n[b]\ny=2\n[A]\nz=3\nx").unwrap();
    assert_eq!(doc.section_names(), vec!["default", "a", "b"]);
    assert_eq!(doc.get("a", "x"), Some(None));
    assert_eq!(doc.get("a", "z"), Some(some("3")));
    assert_eq!(doc.get("b", "y"), Some(some("2")));
    assert_eq!(doc.keys("a"), Some(vec!["x".to_owned(), "z".to_owned()]));
}

#[test]
fn header_without_keys_is_an_empty_section() {
    let doc = parse("[only]").unwrap();
    assert!(doc.has_section("only"));
    assert_eq!(doc.keys("only"), Some(vec![]));
    assert_eq!(doc.keys("other"), None);
    let empty_name = parse("[]\nk=v").unwrap();
    assert_eq!(empty_name.get("", "k"), Some(some("v")));
}

#[test]
fn text_after_the_closing_bracket_is_ignored() {
    let doc = parse("[s] trailing\nk=v").unwrap();
    assert_eq!(doc.get("s", "k"), Some(some("v")));
}

#[test]
fn lines_that_look_like_comments_are_keys() {
    let doc = parse("; note\n# other\nname: value").unwrap();
    assert_eq!(doc.get("default", "; note"), Some(None));
    assert_eq!(doc.get("default", "# other"), Some(None));
    assert_eq!(doc.get("default", "name: value"), Some(None));
}

#[test]
fn carriage_returns_end_lines_too() {
    let doc = parse("[s]\r\nk=v\r\nbare\r\n").unwrap();
    assert_eq!(doc.get("s", "k"), Some(some("v")));
    assert_eq!(doc.get("s", "bare"), Some(None));
}

#[test]
fn lines_are_classified() {
    assert!(matches!(classify_line(""), Line::Blank));
    assert!(matches!(classify_line(" \t\r"), Line::Blank));
    assert!(matches!(classify_line("[open"), Line::Malformed));
    assert!(matches!(classify_line("  [ \t"), Line::Malformed));
    match classify_line("  [ Some Name ] ") {
        Line::Header(name) => assert_eq!(name, "some name"),
        other => panic!("not a header: {:?}", other),
    }
    match classify_line(" Key = Some Value ") {
        Line::Pair(key, value) => {
            assert_eq!(key, "key");
            assert_eq!(value, some("Some Value"));
        }
        other => panic!("not a pair: {:?}", other),
    }
    match classify_line(" Bare Key ") {
        Line::Pair(key, value) => {
            assert_eq!(key, "bare key");
            assert_eq!(value, None);
        }
        other => panic!("not a pair: {:?}", other),
    }
    match classify_line("]x[") {
        Line::Pair(key, value) => {
            assert_eq!(key, "]x[");
            assert_eq!(value, None);
        }
        other => panic!("not a pair: {:?}", other),
    }
}

#[test]
fn new_document_holds_the_default_section() {
    let doc = Document::new();
    assert_eq!(doc.section_names(), vec!["default"]);
    assert!(doc.has_section("default"));
    assert_eq!(doc.keys("default"), Some(vec![]));
    assert_eq!(doc.get("default", "k"), None);
}

#[test]
fn set_makes_sections_and_overwrites_keys() {
    let mut doc = Document::new();
    doc.set("a", "k", Some("1"));
    doc.set("a", "j", None);
    doc.set("a", "k", Some("2"));
    doc.set("default", "d", Some(""));
    doc.add_section("a");
    doc.add_section("b");
    assert_eq!(doc.section_names(), vec!["default", "a", "b"]);
    assert_eq!(doc.keys("a"), Some(vec!["k".to_owned(), "j".to_owned()]));
    assert_eq!(doc.get("a", "k"), Some(some("2")));
    assert_eq!(doc.get("a", "j"), Some(None));
    assert_eq!(doc.get("default", "d"), Some(some("")));
    assert_eq!(doc.keys("b"), Some(vec![]));
    assert_eq!(doc.get("A", "k"), None);
}

#[test]
fn whitespace_is_what_std_calls_whitespace() {
    for code in 0u32..=0x10ffff {
        if let Some(c) = char::from_u32(code) {
            assert_eq!(is_space_char(c), c.is_whitespace(), "U+{:04X}", code);
        }
    }
}

#[test]
fn characters_convert_both_ways() {
    let v = to_chars("aé\u{1f600}b");
    assert_eq!(v, vec!['a', 'é', '\u{1f600}', 'b']);
    assert_eq!(to_text(&v, 0, 4), "aé\u{1f600}b");
    assert_eq!(to_text(&v, 1, 3), "é\u{1f600}");
    assert_eq!(to_text(&v, 2, 2), "");
    assert_eq!(to_chars(""), Vec::<char>::new());
}

#[test]
fn ranges_are_trimmed_and_searched() {
    let v = to_chars("  a=b = c  ");
    assert_eq!(trim_range(&v, 0, v.len()), (2, 9));
    assert_eq!(trim_range(&v, 0, 2), (2, 2));
    assert_eq!(trim_range(&v, 5, 8), (6, 7));
    assert_eq!(find_first(&v, 0, v.len(), '='), Some(3));
    assert_eq!(find_last(&v, 0, v.len(), '='), Some(6));
    assert_eq!(find_first(&v, 4, 6, '='), None);
    assert_eq!(find_last(&v, 4, 6, '='), None);
    assert_eq!(find_first(&v, 4, v.len(), '='), Some(6));
    assert_eq!(find_last(&v, 0, 6, '='), Some(3));
}

#[test]
fn agrees_with_configparser_on_plain_input() {
    let text = "[values]\n\tkey = value\n\n\t\t[VALUES2]\n\t\t\tkey2=value2\n\n\t[section]\n\tkey = 42\nbare\nempty =";
    let mut theirs = Plain::new();
    let loaded = configparser::ini::Ini::new().read(text.to_owned()).unwrap();
    for (name, section) in loaded {
        theirs.insert(name, section.into_iter().collect());
    }
    let mut ours = plain(&parse(text).unwrap());
    assert_eq!(ours.remove("default"), Some(BTreeMap::new()));
    assert_eq!(ours, theirs);
}

#[test]
fn order_of_writing_does_not_tell_documents_apart() {
    let one = parse("[a]\nx=1\ny\n[b]\nz=").unwrap();
    let other = parse("[b]\n[a]\ny\n[b]\nz=\n[a]\nx=0\nx=1").unwrap();
    assert!(one.same_as(&other));
    assert!(other.same_as(&one));
    assert!(one.within(&other) && other.within(&one));
    assert_eq!(plain(&one), plain(&other));
}

#[test]
fn documents_that_differ_are_told_apart() {
    let base = parse("[a]\nx=1\ny").unwrap();
    let more_keys = parse("[a]\nx=1\ny\nz").unwrap();
    let more_sections = parse("[a]\nx=1\ny\n[b]").unwrap();
    let other_value = parse("[a]\nx=2\ny").unwrap();
    let empty_value = parse("[a]\nx=1\ny=").unwrap();
    let other_case = parse("[a]\nx=1\nY").unwrap();
    assert!(base.same_as(&other_case));
    for other in [&more_keys, &more_sections] {
        assert!(base.within(other));
        assert!(!other.within(&base));
        assert!(!base.same_as(other));
        assert!(!other.same_as(&base));
    }
    for other in [&other_value, &empty_value] {
        assert!(!base.within(other));
        assert!(!other.within(&base));
        assert!(!base.same_as(other));
    }
    assert!(Document::new().within(&base));
    assert!(Document::new().same_as(&parse("").unwrap()));
}

#[test]
fn error_message_names_the_line() {
    let e = parse("a\n[s]\n\n[open").unwrap_err();
    assert_eq!(
        e.message(),
        "line 4: found an opening bracket for a section name but no closing bracket"
    );
    for n in [0usize, 1, 9, 10, 11, 99, 100, 1234567890, usize::MAX] {
        let e = ParseError::MalformedHeader { line_number: n };
        assert_eq!(e.line_number(), n);
        assert_eq!(
            e.message(),
            format!("line {}: found an opening bracket for a section name but no closing bracket", n)
        );
    }
}

#[test]
fn numbers_are_written_in_decimal() {
    for (n, text) in [(0usize, "0"), (7, "7"), (10, "10"), (405, "405"), (9000, "9000")] {
        let mut s = String::from("n=");
        push_decimal(&mut s, n);
        assert_eq!(s, format!("n={}", text));
    }
    let digits: Vec<char> = (0..10).map(digit_char).collect();
    assert_eq!(digits, vec!['0', '1', '2', '3', '4', '5', '6', '7', '8', '9']);
}

#[test]
fn a_clone_is_equal_and_on_its_own() {
    let first = parse("x=1\n[s]\na=1\nb\nc=").unwrap();
    let mut second = first.clone();
    assert!(first.same_as(&second));
    assert_eq!(plain(&first), plain(&second));
    assert_eq!(second.section_names(), first.section_names());
    second.set("s", "a", None);
    second.set("t", "k", Some("v"));
    assert_eq!(first.get("s", "a"), Some(some("1")));
    assert!(!first.has_section("t"));
    assert_eq!(second.get("s", "a"), Some(None));
    assert!(!first.same_as(&second));
}
