use canteen::text::{find, matches_at, split, split_once, string_of, to_chars};

fn chars(s: &str) -> Vec<char> {
    s.chars().collect()
}

fn text(c: &[char]) -> String {
    c.iter().collect()
}

#[test]
fn to_chars_lists_characters_in_order() {
    assert_eq!(to_chars("a/b"), vec!['a', '/', 'b']);
    assert_eq!(to_chars(""), Vec::<char>::new());
    assert_eq!(to_chars("\u{e9}\u{1f600}x"), vec!['\u{e9}', '\u{1f600}', 'x']);
}

#[test]
fn string_of_joins_characters_in_order() {
    assert_eq!(string_of(&['a', '/', 'b']), "a/b");
    assert_eq!(string_of(&[]), "");
    assert_eq!(string_of(&['\u{e9}', '\u{1f600}', 'x']), "\u{e9}\u{1f600}x");
}

#[test]
fn chars_and_string_round_trip() {
    for s in ["", "GET / HTTP/1.1\r\n\r\n", "\u{4e16}\u{754c}: \u{e9}"] {
        assert_eq!(string_of(&to_chars(s)), s);
    }
}

#[test]
fn matches_at_tests_one_position() {
    let hay = chars("abcabc");
    assert!(matches_at(&hay, &chars("abc"), 0));
    assert!(matches_at(&hay, &chars("abc"), 3));
    assert!(!matches_at(&hay, &chars("abc"), 1));
    assert!(matches_at(&hay, &chars("c"), 5));
    assert!(!matches_at(&hay, &chars("ca"), 5));
    assert!(!matches_at(&hay, &chars("abc"), 4));
    assert!(!matches_at(&hay, &chars("abc"), 7));
    assert!(!matches_at(&hay, &chars("abcabcd"), 0));
}

#[test]
fn matches_at_with_empty_pattern() {
    let hay = chars("ab");
    assert!(matches_at(&hay, &[], 0));
    assert!(matches_at(&hay, &[], 2));
    assert!(!matches_at(&hay, &[], 3));
    assert!(matches_at(&[], &[], 0));
}

#[test]
fn matches_at_far_position_does_not_overflow() {
    let hay = chars("ab");
    assert!(!matches_at(&hay, &chars("b"), usize::MAX));
}

#[test]
fn find_gives_the_leftmost_occurrence() {
    assert_eq!(find(&chars("a: b: c"), &chars(": ")), Some(1));
    assert_eq!(find(&chars("abcabc"), &chars("c")), Some(2));
    assert_eq!(find(&chars("abcabc"), &chars("abcabc")), Some(0));
    assert_eq!(find(&chars("aaab"), &chars("aab")), Some(1));
    assert_eq!(find(&chars("\r\r\n\r\n"), &chars("\r\n\r\n")), Some(1));
}

#[test]
fn find_gives_nothing_without_occurrence() {
    assert_eq!(find(&chars("abc"), &chars("d")), None);
    assert_eq!(find(&chars("abc"), &chars("abcd")), None);
    assert_eq!(find(&chars(""), &chars("a")), None);
    assert_eq!(find(&chars("a:b"), &chars(": ")), None);
}

#[test]
fn find_of_empty_pattern_is_the_start() {
    assert_eq!(find(&chars("abc"), &[]), Some(0));
    assert_eq!(find(&[], &[]), Some(0));
}

#[test]
fn split_once_cuts_at_the_leftmost_occurrence() {
    let hay = chars("head\r\n\r\nbody\r\n\r\nmore");
    let (before, after) = split_once(&hay, &chars("\r\n\r\n")).unwrap();
    assert_eq!(text(before), "head");
    assert_eq!(text(after), "body\r\n\r\nmore");
}

#[test]
fn split_once_at_the_ends() {
    let hay = chars("::");
    let (before, after) = split_once(&hay, &chars(":")).unwrap();
    assert_eq!(text(before), "");
    assert_eq!(text(after), ":");
    let hay = chars("ab");
    let (before, after) = split_once(&hay, &chars("ab")).unwrap();
    assert_eq!(text(before), "");
    assert_eq!(text(after), "");
    assert!(split_once(&hay, &chars("ba")).is_none());
}

#[test]
fn split_gives_every_piece() {
    let hay = chars("/a//b/");
    let parts: Vec<String> = split(&hay, &chars("/")).iter().map(|p| text(p)).collect();
    assert_eq!(parts, vec!["", "a", "", "b", ""]);
    let hay = chars("one\r\ntwo\r\n\r\nthree");
    let parts: Vec<String> = split(&hay, &chars("\r\n")).iter().map(|p| text(p)).collect();
    assert_eq!(parts, vec!["one", "two", "", "three"]);
}

#[test]
fn split_without_occurrence_is_one_piece() {
    let hay = chars("abc");
    let parts: Vec<String> = split(&hay, &chars("/")).iter().map(|p| text(p)).collect();
    assert_eq!(parts, vec!["abc"]);
    let parts: Vec<String> = split(&[], &chars("/")).iter().map(|p| text(p)).collect();
    assert_eq!(parts, vec![""]);
}

#[test]
fn split_does_not_overlap() {
    let hay = chars("aaa");
    let parts: Vec<String> = split(&hay, &chars("aa")).iter().map(|p| text(p)).collect();
    assert_eq!(parts, vec!["", "a"]);
}

#[test]
fn split_with_empty_pattern_is_one_piece() {
    let hay = chars("abc");
    let parts: Vec<String> = split(&hay, &[]).iter().map(|p| text(p)).collect();
    assert_eq!(parts, vec!["abc"]);
}

#[test]
fn split_agrees_with_std_on_nonempty_patterns() {
    for (hay, pat) in [("a,b,,c", ","), (",,", ","), ("x--y--", "--"), ("", "-"), ("abab", "ab")] {
        let ours: Vec<String> = split(&chars(hay), &chars(pat)).iter().map(|p| text(p)).collect();
        let std: Vec<String> = hay.split(pat).map(|p| p.to_string()).collect();
        assert_eq!(ours, std);
    }
}
