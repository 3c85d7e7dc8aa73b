use oxi_gen::columns::{clean_column, lettered_columns, named_columns, strip_quotes};
use oxi_gen::comments::without_comments;
use oxi_gen::order::text_at_most;
use oxi_gen::output::strip_prefix_lines;
use oxi_gen::pieces::pieces_of;
use oxi_gen::text::{blank, trim};
use oxi_gen::variables::extract_variables;

#[test]
fn white_space_is_trimmed_at_both_ends() {
    assert_eq!(trim(" \t a b \r\n"), "a b");
    assert_eq!(trim("\u{2003}x\u{3000}"), "x");
    assert_eq!(trim("   "), "");
    assert_eq!(trim(""), "");
}

#[test]
fn every_white_space_character_is_blank() {
    let mut found: Vec<u32> = Vec::new();
    for code in 0u32..0x110000 {
        if let Some(c) = char::from_u32(code) {
            if blank(&c.to_string()) {
                found.push(code);
            }
        }
    }
    let mut expected: Vec<u32> = vec![0x9, 0xa, 0xb, 0xc, 0xd, 0x20, 0x85, 0xa0, 0x1680];
    expected.extend(0x2000u32..0x200b);
    expected.extend(vec![0x2028, 0x2029, 0x202f, 0x205f, 0x3000]);
    assert_eq!(found, expected);
}

#[test]
fn blank_strings_trim_to_nothing() {
    for s in ["", " ", "\t\n", "\u{a0}"] {
        assert!(blank(s));
        assert_eq!(trim(s), "");
    }
    assert!(!blank(" x "));
}

#[test]
fn quotes_go_wherever_they_stand() {
    assert_eq!(strip_quotes("\"a\"b\"\"c"), "abc");
    assert_eq!(strip_quotes("plain"), "plain");
    assert_eq!(strip_quotes("\"\""), "");
}

#[test]
fn upper_case_goes_beyond_ascii() {
    assert_eq!(clean_column(" straße ", &true), "STRASSE");
    assert_eq!(clean_column("é\"t\"é", &true), "ÉTÉ");
    assert_eq!(clean_column("straße", &false), "straße");
}

#[test]
fn a_normalized_name_is_the_upper_case_of_the_plain_one() {
    for code in 0u32..0x110000 {
        if let Some(c) = char::from_u32(code) {
            let upper = c.to_string().to_uppercase();
            if c.is_ascii() {
                assert_eq!(upper, c.to_ascii_uppercase().to_string());
            } else {
                assert!(!upper.contains('"'));
            }
            if upper != c.to_string() {
                let field = format!(" x{}\"{}y\" ", c, c);
                let plain = clean_column(&field, &false);
                assert_eq!(plain, format!("x{}{}y", c, c));
                assert_eq!(clean_column(&field, &true), format!("X{}{}Y", upper, upper));
                assert_eq!(clean_column(&field, &true), plain.to_uppercase());
            }
        }
    }
}

#[test]
fn columns_are_named_after_the_header() {
    let header = vec![" id ".to_string(), "\"Full Name\"".to_string()];
    assert_eq!(named_columns(&header, false), vec!["id", "Full Name"]);
    assert_eq!(named_columns(&header, true), vec!["ID", "FULL NAME"]);
    assert!(named_columns(&Vec::new(), true).is_empty());
}

#[test]
fn columns_without_a_header_are_lettered() {
    let names = lettered_columns();
    assert_eq!(names.len(), 52);
    assert_eq!(names[0], "a");
    assert_eq!(names[25], "z");
    assert_eq!(names[26], "A");
    assert_eq!(names[51], "Z");
}

#[test]
fn pieces_are_what_stands_between_delimiters() {
    assert_eq!(pieces_of("a;b;;c", ";"), vec!["a", "b", "", "c"]);
    assert_eq!(pieces_of("a, b, c", ", "), vec!["a", "b", "c"]);
    assert_eq!(pieces_of("", ";"), vec![""]);
    assert_eq!(pieces_of(";", ";"), vec!["", ""]);
    assert_eq!(pieces_of("aaa", "aa"), vec!["", "a"]);
    assert_eq!(pieces_of("ab", ""), vec!["", "a", "b", ""]);
    assert_eq!(pieces_of("", ""), vec!["", ""]);
}

#[test]
fn pieces_are_those_of_the_standard_library() {
    for s in ["", "a", "a;b", ";;", "é;ü", "x--y-z", "abcabc"] {
        for delimiter in ["", ";", "--", "-", "abc", "é"] {
            let expected: Vec<&str> = s.split(delimiter).collect();
            assert_eq!(pieces_of(s, delimiter), expected);
        }
    }
}

#[test]
fn pieces_hold_no_delimiter() {
    for s in ["a;b", ";;", "x--y---z", "ababab"] {
        for delimiter in [";", "--", "ab"] {
            assert!(pieces_of(s, delimiter).iter().all(|piece| !piece.contains(delimiter)));
        }
    }
}

#[test]
fn joined_pieces_are_the_whole() {
    for s in ["", "a", "a;b", ";;", "x;;y;"] {
        assert_eq!(pieces_of(s, ";").join(";"), s);
    }
}

#[test]
fn comments_are_dropped() {
    let text = "a\n# b\n  # c\r\nd # e\r\nf#g";
    assert_eq!(without_comments(text), "a\n\n  \r\nd \r\nf");
    assert_eq!(without_comments("# only"), "");
    assert_eq!(without_comments(""), "");
    assert_eq!(without_comments("a\r"), "a\r");
}

#[test]
fn a_hash_in_an_iri_or_a_string_starts_no_comment() {
    for text in [
        "?a <http://e/x#y> ?b",
        "FILTER(?a = \"#1\")",
        "FILTER(?a = '#1')",
        "'\\'#' ?b",
        "\"\"\"one \"\" # two\n# three\"\"\" ?b",
        "'''#''' ?b",
        "ex:a\\#b ?b",
    ] {
        assert_eq!(without_comments(text), text);
    }
    assert_eq!(without_comments("?a < ?b # <c>"), "?a < ?b ");
    assert_eq!(without_comments("<a># b"), "<a>");
    assert_eq!(without_comments("'a'#b"), "'a'");
    assert_eq!(without_comments("it's # b\nc"), "it's \nc");
}

fn mentions(text: &str, names: &[&str], others: &[&str]) {
    let variables = extract_variables(text);
    for name in names {
        assert!(variables.contains(name), "{} in {:?}", name, text);
    }
    for name in others {
        assert!(!variables.contains(name), "{} not in {:?}", name, text);
    }
}

#[test]
fn comments_mention_no_variables() {
    mentions("SELECT ?x {\n# ?hidden \n?x ?y ?z }", &["x", "y", "z"], &["hidden"]);
    mentions("SELECT ?a # uses ?b here\nWHERE { ?a ?p ?o }", &["a", "p", "o"], &["b"]);
    mentions("?a <http://e/#> ?b # ?c", &["a", "b"], &["c"]);
}

#[test]
fn a_variable_may_end_the_text() {
    mentions("SELECT ?a ?b", &["a", "b"], &[]);
    mentions("?x", &["x"], &[]);
    mentions("?x# y", &["x"], &["y"]);
}

#[test]
fn variables_may_stand_side_by_side() {
    mentions("?a?b ?c", &["a", "b", "c"], &["ab"]);
    mentions("??a", &["a"], &[]);
}

#[test]
fn a_variable_has_a_name() {
    mentions("?1a ?_a1} ? ?", &["_a1"], &["1a", "a", ""]);
    mentions("?a-b ?c.", &["a", "c"], &["b", "a-b"]);
}

#[test]
fn prefix_lines_are_stripped_from_the_start_only() {
    let document = "@prefix a: <x> .\n@prefix b: <y> .\n<s> <p> <o> .\n@prefix c: <z> .\n";
    let rest = strip_prefix_lines(document.as_bytes().to_vec());
    assert_eq!(rest, b"<s> <p> <o> .\n@prefix c: <z> .\n");
    assert_eq!(strip_prefix_lines(rest.clone()), rest);
    assert!(strip_prefix_lines(b"@prefix without end".to_vec()).is_empty());
    assert!(strip_prefix_lines(Vec::new()).is_empty());
    assert_eq!(strip_prefix_lines(b"@prefi".to_vec()), b"@prefi");
}

#[test]
fn strings_are_ordered_by_their_bytes() {
    let sorted = ["", "\"z\"", "<a>", "<a>b", "<b>", "_:b", "é", "\u{ffff}", "\u{10000}"];
    for (i, a) in sorted.iter().enumerate() {
        for (j, b) in sorted.iter().enumerate() {
            assert_eq!(text_at_most(a, b), i <= j);
            assert_eq!(text_at_most(a, b), a <= b);
        }
    }
}
