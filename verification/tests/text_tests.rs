use mustream::order::{stable_sort, str_le};
use mustream::text::{lines, remove_dot_pairs_exec, trim, trim_char_exec};

#[test]
fn trim_char_removes_both_ends_only() {
    assert_eq!(trim_char_exec("//a/b//", '/'), "a/b");
    assert_eq!(trim_char_exec("////", '/'), "");
    assert_eq!(trim_char_exec("a", '/'), "a");
}

#[test]
fn dot_pairs_are_removed_left_to_right() {
    assert_eq!(remove_dot_pairs_exec("..."), ".");
    assert_eq!(remove_dot_pairs_exec("...."), "");
    assert_eq!(remove_dot_pairs_exec("a.b"), "a.b");
    assert_eq!(remove_dot_pairs_exec(".a.."), ".a");
}

#[test]
fn trim_removes_unicode_whitespace() {
    assert_eq!(trim("  /music/a.mp3\n"), "/music/a.mp3");
    assert_eq!(trim("\t\r\n\u{0B}\u{0C}x y\u{3000}\u{A0}"), "x y");
    assert_eq!(trim("   "), "");
    assert_eq!(trim("x"), "x");
}

#[test]
fn lines_split_like_str_lines() {
    assert_eq!(lines("a\nb\r\nc"), vec!["a", "b", "c"]);
    assert_eq!(lines("a\n"), vec!["a"]);
    assert_eq!(lines(""), Vec::<String>::new());
    assert_eq!(lines("\n\n"), vec!["", ""]);
    assert_eq!(lines("a\r"), vec!["a\r"]);
    assert_eq!(lines("x\r\n"), vec!["x"]);
}

#[test]
fn lexicographic_order_by_code_point() {
    assert!(str_le("a", "b"));
    assert!(str_le("ab", "abc"));
    assert!(!str_le("abc", "ab"));
    assert!(str_le("", ""));
    assert!(str_le("Z", "a"));
    assert!(str_le("é", "ö"));
}

#[test]
fn sorting_names_matches_std_sort() {
    let v: Vec<String> = ["beta", "Alpha", "alpha", "", "éclair", "beta", "b"]
        .iter()
        .map(|s| s.to_string())
        .collect();
    let mut expected = v.clone();
    expected.sort();
    assert_eq!(stable_sort(v), expected);
}

#[test]
fn sorting_a_sorted_list_changes_nothing() {
    let v: Vec<String> = ["A", "a", "a", "b", "c"].iter().map(|s| s.to_string()).collect();
    assert_eq!(stable_sort(v.clone()), v);
}
