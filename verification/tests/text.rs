use http_message::text::{
    find, matches_at, parse_u8, replace, split, split_once, chars_of, string_of,
};

fn chars(s: &str) -> Vec<char> {
    s.chars().collect()
}

fn text(c: &[char]) -> String {
    c.iter().collect()
}

#[test]
fn chars_and_strings_convert_both_ways() {
    assert_eq!(chars_of("aé🦀\n"), vec!['a', 'é', '🦀', '\n']);
    assert_eq!(chars_of(""), Vec::<char>::new());
    assert_eq!(string_of(&['a', 'é', '🦀', '\n']), "aé🦀\n");
    assert_eq!(string_of(&[]), "");
    assert_eq!(string_of(&chars_of("GET / HTTP/1.1")), "GET / HTTP/1.1");
}

#[test]
fn matches_at_tells_where_a_needle_stands() {
    let hay = chars("abcabc");
    assert!(matches_at(&hay, &chars("abc"), 0));
    assert!(matches_at(&hay, &chars("abc"), 3));
    assert!(!matches_at(&hay, &chars("abc"), 1));
    assert!(!matches_at(&hay, &chars("abc"), 4));
    assert!(matches_at(&hay, &chars(""), 6));
    assert!(!matches_at(&hay, &chars(""), 7));
    assert!(!matches_at(&hay, &chars("abcabcd"), 0));
    assert!(!matches_at(&hay, &chars("c"), usize::MAX));
}

#[test]
fn find_gives_the_first_occurrence() {
    assert_eq!(find(&chars("a\n\nb\n\n"), &chars("\n\n")), Some(1));
    assert_eq!(find(&chars("aaa"), &chars("aa")), Some(0));
    assert_eq!(find(&chars("abc"), &chars("c")), Some(2));
    assert_eq!(find(&chars("abc"), &chars("d")), None);
    assert_eq!(find(&chars("abc"), &chars("abcd")), None);
    assert_eq!(find(&chars("abc"), &chars("")), Some(0));
    assert_eq!(find(&chars(""), &chars("")), Some(0));
    assert_eq!(find(&chars(""), &chars("a")), None);
    assert_eq!(find(&chars("é🦀x"), &chars("x")), Some(2));
}

#[test]
fn find_agrees_with_the_standard_library() {
    let hays = ["", "a", "ab", "aab", "abab", "\n\n\r\r", "a b  c", "xx\n\nyy\n\n"];
    let needles = ["a", "b", "ab", "ba", "\n", "\n\n", "\n\r", " ", "  "];
    for hay in hays {
        for needle in needles {
            assert_eq!(find(&chars(hay), &chars(needle)), hay.find(needle), "{:?} {:?}", hay, needle);
        }
    }
}

#[test]
fn replace_collapses_reversed_line_endings() {
    let from = chars("\n\r");
    let to = chars("\n");
    assert_eq!(text(&replace(&chars("a\n\rb"), &from, &to)), "a\nb");
    assert_eq!(text(&replace(&chars("\n\r\n\r"), &from, &to)), "\n\n");
    assert_eq!(text(&replace(&chars("\n\n\r\r"), &from, &to)), "\n\n\r");
    assert_eq!(text(&replace(&chars("\r\n"), &from, &to)), "\r\n");
    assert_eq!(text(&replace(&chars("\n"), &from, &to)), "\n");
    assert_eq!(text(&replace(&chars(""), &from, &to)), "");
    assert_eq!(
        text(&replace(&chars("HTTP/1.1 404 Not\n\rFound\n\nbody"), &from, &to)),
        "HTTP/1.1 404 Not\nFound\n\nbody"
    );
}

#[test]
fn replace_takes_occurrences_from_the_left_without_overlap() {
    assert_eq!(text(&replace(&chars("aaa"), &chars("aa"), &chars("b"))), "ba");
    assert_eq!(text(&replace(&chars("aaaa"), &chars("aa"), &chars("b"))), "bb");
    assert_eq!(text(&replace(&chars("abc"), &chars("b"), &chars(""))), "ac");
    assert_eq!(text(&replace(&chars("abc"), &chars("b"), &chars("xyz"))), "axyzc");
    assert_eq!(text(&replace(&chars("abc"), &chars("abcd"), &chars("x"))), "abc");
}

#[test]
fn replace_with_an_empty_pattern_copies_the_text() {
    assert_eq!(text(&replace(&chars("abc"), &chars(""), &chars("x"))), "abc");
    assert_eq!(text(&replace(&chars(""), &chars(""), &chars("x"))), "");
}

#[test]
fn replace_agrees_with_the_standard_library() {
    let texts = ["", "\n", "\r", "\n\r", "\r\n", "a\n\r\n\rb", "\n\n\r\r\n\r", "aXbXXc", "XXX"];
    let pairs = [("\n\r", "\n"), ("X", ""), ("XX", "Y"), ("\n", "\n\r")];
    for t in texts {
        for (from, to) in pairs {
            assert_eq!(
                text(&replace(&chars(t), &chars(from), &chars(to))),
                t.replace(from, to),
                "{:?} {:?} {:?}",
                t,
                from,
                to
            );
        }
    }
}

#[test]
fn split_once_cuts_at_the_first_occurrence() {
    let s = chars("status\nheaders\n\nbody");
    let (head, tail) = split_once(&s, &chars("\n")).unwrap();
    assert_eq!(text(head), "status");
    assert_eq!(text(tail), "headers\n\nbody");
    let (head, tail) = split_once(tail, &chars("\n\n")).unwrap();
    assert_eq!(text(head), "headers");
    assert_eq!(text(tail), "body");
    assert!(split_once(&chars("nonewlinehere"), &chars("\n")).is_none());
    let (head, tail) = split_once(&s, &chars("")).unwrap();
    assert_eq!(text(head), "");
    assert_eq!(text(tail), "status\nheaders\n\nbody");
}

#[test]
fn status_line_ends_before_the_first_line_feed() {
    let normalized = replace(&chars("HTTP/1.1 404 Not\n\rFound\n\nbody"), &chars("\n\r"), &chars("\n"));
    let (status_line, remaining) = split_once(&normalized, &chars("\n")).unwrap();
    assert_eq!(text(status_line), "HTTP/1.1 404 Not");
    assert_eq!(text(remaining), "Found\n\nbody");
}

#[test]
fn split_cuts_at_every_occurrence() {
    fn pieces(s: &str, sep: &str) -> Vec<String> {
        split(&chars(s), &chars(sep)).into_iter().map(text).collect()
    }
    assert_eq!(pieces("HTTP/1.1 200 OK", " "), vec!["HTTP/1.1", "200", "OK"]);
    assert_eq!(pieces("a b  c", " "), vec!["a", "b", "", "c"]);
    assert_eq!(pieces("", " "), vec![""]);
    assert_eq!(pieces(" ", " "), vec!["", ""]);
    assert_eq!(pieces("abc", " "), vec!["abc"]);
    assert_eq!(pieces(" a ", " "), vec!["", "a", ""]);
    assert_eq!(pieces("aXXbXXXc", "XX"), vec!["a", "b", "Xc"]);
}

#[test]
fn split_with_an_empty_separator_gives_one_piece() {
    let s = chars("a b");
    let pieces = split(&s, &chars(""));
    assert_eq!(pieces.len(), 1);
    assert_eq!(text(pieces[0]), "a b");
    let empty = chars("");
    let pieces = split(&empty, &chars(""));
    assert_eq!(pieces.len(), 1);
    assert_eq!(text(pieces[0]), "");
}

#[test]
fn split_agrees_with_the_standard_library() {
    let texts = ["", " ", "  ", "a", "a b", " a  b ", "HTTP/1.1 200 Not Found", "a--b---c"];
    let seps = [" ", "-", "--", "b"];
    for t in texts {
        for sep in seps {
            let ours: Vec<String> = split(&chars(t), &chars(sep)).into_iter().map(text).collect();
            let theirs: Vec<String> = t.split(sep).map(String::from).collect();
            assert_eq!(ours, theirs, "{:?} {:?}", t, sep);
        }
    }
}

#[test]
fn parse_u8_reads_decimal_numbers() {
    assert_eq!(parse_u8(&chars("0")), Some(0));
    assert_eq!(parse_u8(&chars("7")), Some(7));
    assert_eq!(parse_u8(&chars("200")), Some(200));
    assert_eq!(parse_u8(&chars("255")), Some(255));
    assert_eq!(parse_u8(&chars("+255")), Some(255));
    assert_eq!(parse_u8(&chars("007")), Some(7));
    assert_eq!(parse_u8(&chars("256")), None);
    assert_eq!(parse_u8(&chars("1000")), None);
    assert_eq!(parse_u8(&chars("")), None);
    assert_eq!(parse_u8(&chars("+")), None);
    assert_eq!(parse_u8(&chars("-0")), None);
    assert_eq!(parse_u8(&chars("++1")), None);
    assert_eq!(parse_u8(&chars("1+")), None);
    assert_eq!(parse_u8(&chars(" 1")), None);
    assert_eq!(parse_u8(&chars("1 ")), None);
    assert_eq!(parse_u8(&chars("1_0")), None);
    assert_eq!(parse_u8(&chars("0x10")), None);
    assert_eq!(parse_u8(&chars("٣")), None);
}

#[test]
fn parse_u8_agrees_with_the_standard_library() {
    let mut samples: Vec<String> = Vec::new();
    for n in 0..1200u32 {
        samples.push(n.to_string());
        samples.push(format!("+{}", n));
        samples.push(format!("-{}", n));
        samples.push(format!("0{}", n));
        samples.push(format!("{}a", n));
        samples.push(format!("{} ", n));
    }
    for s in ["", "+", "-", "a", "00000000000000000000000000000255", "99999999999999999999999999", "2５5", "/", ":"] {
        samples.push(s.to_string());
    }
    for s in samples {
        assert_eq!(parse_u8(&chars(&s)), s.parse::<u8>().ok(), "{:?}", s);
    }
}
