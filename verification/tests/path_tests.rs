use mustream::path::{
    extension, file_name, file_stem, is_mp3, join, path_components, safe_path, sanitize,
    starts_with, Component,
};

fn names(path: &str) -> Vec<String> {
    path_components(path)
        .into_iter()
        .map(|c| match c {
            Component::Root => "/".to_string(),
            Component::Current => ".".to_string(),
            Component::Parent => "..".to_string(),
            Component::Normal(n) => n,
        })
        .collect()
}

#[test]
fn components_ignore_repeated_separators_and_interior_dots() {
    assert_eq!(names("/a//b/./c/"), vec!["/", "a", "b", "c"]);
    assert_eq!(names("./a/../b"), vec![".", "a", "..", "b"]);
    assert_eq!(names("a/."), vec!["a"]);
    assert_eq!(names(""), Vec::<String>::new());
    assert_eq!(names("."), vec!["."]);
    assert_eq!(names(".hidden/x"), vec![".hidden", "x"]);
}

#[test]
fn starts_with_compares_whole_components() {
    assert!(starts_with("/home/u/Music/a.mp3", "/home/u/Music"));
    assert!(starts_with("/home/u/Music", "/home/u/Music/"));
    assert!(!starts_with("/home/u/Music2/a.mp3", "/home/u/Music"));
    assert!(starts_with("/home/u/Music/../../etc", "/home/u/Music"));
    assert!(!starts_with("/etc", "/home/u/Music"));
    assert!(starts_with("anything", ""));
}

#[test]
fn join_puts_one_separator_and_lets_absolute_paths_replace() {
    assert_eq!(join("/m", "a/b"), "/m/a/b");
    assert_eq!(join("/m/", "a"), "/m/a");
    assert_eq!(join("/m", ""), "/m/");
    assert_eq!(join("", "a"), "a");
    assert_eq!(join("/m", "/etc"), "/etc");
}

#[test]
fn sanitize_trims_slashes_and_removes_dot_pairs() {
    assert_eq!(sanitize("/Artist/Album/"), "Artist/Album");
    assert_eq!(sanitize("../../etc/passwd"), "//etc/passwd");
    assert_eq!(sanitize("a/..../b"), "a//b");
    assert_eq!(sanitize("a/.../b"), "a/./b");
    assert_eq!(sanitize("///"), "");
    assert_eq!(sanitize("x..y"), "xy");
}

#[test]
fn safe_path_joins_relative_requests_under_the_root() {
    let root = "/home/u/Music";
    assert_eq!(safe_path(root, "Artist/Album").as_deref(), Some("/home/u/Music/Artist/Album"));
    assert_eq!(safe_path(root, "Artist/").as_deref(), Some("/home/u/Music/Artist"));
    assert_eq!(safe_path(root, "/Artist/"), None);
    assert_eq!(safe_path(root, "").as_deref(), Some("/home/u/Music/"));
    assert_eq!(safe_path(root, "a/../b").as_deref(), Some("/home/u/Music/a//b"));
}

#[test]
fn safe_path_refuses_what_leaves_the_root() {
    let root = "/home/u/Music";
    assert_eq!(safe_path(root, "../etc/passwd"), None);
    assert_eq!(safe_path(root, "/etc/passwd"), None);
    assert_eq!(safe_path(root, "/home/u/Music2/x"), None);
}

#[test]
fn safe_path_keeps_absolute_requests_inside_the_root() {
    let root = "/home/u/Music";
    assert_eq!(
        safe_path(root, "/home/u/Music/Artist/song.mp3").as_deref(),
        Some("/home/u/Music/Artist/song.mp3")
    );
    assert_eq!(safe_path(root, "/home/u/Music").as_deref(), Some("/home/u/Music"));
}

#[test]
fn safe_path_under_a_relative_root() {
    assert_eq!(safe_path("./Music", "a").as_deref(), Some("./Music/a"));
    assert_eq!(safe_path("./Music", "../a").as_deref(), None);
}

#[test]
fn file_name_stem_and_extension() {
    assert_eq!(file_name("/a/b/song.mp3").as_deref(), Some("song.mp3"));
    assert_eq!(file_name("/a/b/").as_deref(), Some("b"));
    assert_eq!(file_name("/a/b/.").as_deref(), Some("b"));
    assert_eq!(file_name("/a/.."), None);
    assert_eq!(file_name("/"), None);
    assert_eq!(file_stem("/a/song.tar.mp3").as_deref(), Some("song.tar"));
    assert_eq!(file_stem("/a/.hidden").as_deref(), Some(".hidden"));
    assert_eq!(file_stem("/a/noext").as_deref(), Some("noext"));
    assert_eq!(extension("/a/song.tar.mp3").as_deref(), Some("mp3"));
    assert_eq!(extension("/a/.hidden"), None);
    assert_eq!(extension("/a/noext"), None);
    assert_eq!(extension("/a/trail.").as_deref(), Some(""));
}

#[test]
fn mp3_extension_in_any_ascii_case() {
    assert!(is_mp3("/m/a.mp3"));
    assert!(is_mp3("/m/a.MP3"));
    assert!(is_mp3("/m/a.Mp3"));
    assert!(!is_mp3("/m/a.mp4"));
    assert!(!is_mp3("/m/.mp3"));
    assert!(!is_mp3("/m/mp3"));
    assert!(!is_mp3("/m/a.mp3x"));
}

#[test]
fn a_granted_path_requested_again_is_granted_unchanged() {
    let root = "/home/u/Music";
    for rel in ["Artist/Album", "", "a/../b", "/home/u/Music/x.mp3"] {
        let granted = safe_path(root, rel).unwrap();
        assert_eq!(safe_path(root, &granted).as_deref(), Some(granted.as_str()));
    }
}

#[test]
fn relative_requests_only_add_names_below_the_root() {
    let root = "/home/u/Music";
    for rel in ["a/../../b", "..", "x/./y", "./..//z"] {
        if let Some(p) = safe_path(root, rel) {
            let comps = path_components(&p);
            let root_len = path_components(root).len();
            assert!(comps[root_len..].iter().all(|c| matches!(c, Component::Normal(_))), "{}", p);
        }
    }
}
