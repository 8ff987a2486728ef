use mustream::routes::{
    browse_location, classify_entry, delete_plan, download_reply, fs_reply, home_or_default,
    mkdir_target, music_root, nonempty_query, output_template, prefix_pattern, preview_command,
    rename_plan, search_pattern, song_query, store_url, stream_plan, yt_result, yt_results,
    yt_search_target, BrowseQuery, DeletePlan, DeleteRequest, DownloadOutcome, EntryKind,
    EntryType, Lookup, MkdirRequest, RenameRequest, SearchQuery, SongQuery, StreamPlan, YtEntry,
    STATUS_INTERNAL_ERROR, STATUS_NOT_FOUND, STATUS_OK,
};
use mustream::song::Song;

fn entry(id: Option<&str>) -> YtEntry {
    YtEntry {
        title: None,
        uploader: None,
        channel: None,
        duration: None,
        id: id.map(|s| s.to_string()),
    }
}

#[test]
fn locations_under_home() {
    assert_eq!(music_root("/home/u"), "/home/u/Music");
    assert_eq!(store_url("/home/u"), "sqlite:/home/u/mustream.db");
    assert_eq!(home_or_default(None), ".");
    assert_eq!(home_or_default(Some("/h".to_string())), "/h");
}

#[test]
fn empty_queries_list_everything() {
    let q = SearchQuery { q: Some(String::new()) };
    assert!(matches!(song_query(&q), SongQuery::All));
    assert!(nonempty_query(&q).is_none());
    let q = SearchQuery { q: None };
    assert!(matches!(song_query(&q), SongQuery::All));
    let q = SearchQuery { q: Some("beat".to_string()) };
    assert!(matches!(song_query(&q), SongQuery::Search(s) if s == "beat"));
}

#[test]
fn patterns() {
    assert_eq!(search_pattern("beat"), "%beat%");
    assert_eq!(prefix_pattern("/m/a"), "/m/a%");
    assert_eq!(yt_search_target("lofi"), "ytsearch5:lofi");
}

#[test]
fn stream_decisions() {
    let s = Song {
        id: 1,
        title: "t".into(),
        artist: "a".into(),
        album: "b".into(),
        path: "/m/t.mp3".into(),
        duration: 1,
    };
    assert!(matches!(stream_plan(Lookup::Found(s)), StreamPlan::Open(p) if p == "/m/t.mp3"));
    assert!(matches!(stream_plan(Lookup::Absent), StreamPlan::Reply(STATUS_NOT_FOUND)));
    assert!(matches!(stream_plan(Lookup::Failed), StreamPlan::Reply(STATUS_INTERNAL_ERROR)));
}

#[test]
fn file_system_replies() {
    let (status, body) = fs_reply(Ok(()));
    assert_eq!(status, STATUS_OK);
    assert!(body.is_none());
    let (status, body) = fs_reply(Err("denied".to_string()));
    assert_eq!(status, STATUS_INTERNAL_ERROR);
    assert_eq!(body.unwrap().message, "denied");
}

#[test]
fn mkdir_and_delete_targets() {
    let root = "/home/u/Music";
    let r = mkdir_target(root, &MkdirRequest { path: "Artist/Album".into() });
    assert_eq!(r.as_deref(), Some("/home/u/Music/Artist/Album"));
    assert!(mkdir_target(root, &MkdirRequest { path: "/tmp".into() }).is_none());
    let req = DeleteRequest { path: "a.mp3".into() };
    assert!(matches!(delete_plan(root, &req, EntryType::File), Some(DeletePlan::RemoveFile(p)) if p == "/home/u/Music/a.mp3"));
    assert!(matches!(delete_plan(root, &req, EntryType::Dir), Some(DeletePlan::RemoveTree(_))));
    assert!(matches!(delete_plan(root, &req, EntryType::Other), Some(DeletePlan::Nothing)));
    let bad = DeleteRequest { path: "/etc".into() };
    assert!(delete_plan(root, &bad, EntryType::File).is_none());
}

#[test]
fn rename_needs_both_paths_inside() {
    let root = "/home/u/Music";
    let ok = RenameRequest { old_path: "a".into(), new_path: "b".into() };
    let plan = rename_plan(root, &ok).unwrap();
    assert_eq!(plan.from, "/home/u/Music/a");
    assert_eq!(plan.to, "/home/u/Music/b");
    assert_eq!(plan.pattern, "/home/u/Music/a%");
    let bad = RenameRequest { old_path: "a".into(), new_path: "/etc/x".into() };
    assert!(rename_plan(root, &bad).is_none());
    let bad = RenameRequest { old_path: "../x".into(), new_path: "b".into() };
    assert!(rename_plan(root, &bad).is_none());
}

#[test]
fn browse_locations() {
    let root = "/home/u/Music";
    let l = browse_location(root, &BrowseQuery { path: None });
    assert_eq!(l.rel, "");
    assert_eq!(l.full, root);
    let l = browse_location(root, &BrowseQuery { path: Some("/a/../b/".into()) });
    assert_eq!(l.rel, "a//b");
    assert_eq!(l.full, "/home/u/Music/a//b");
}

#[test]
fn directory_entries() {
    assert!(matches!(classify_entry("/m/Artist", true), EntryKind::Dir(n) if n == "Artist"));
    assert!(matches!(classify_entry("/m/a.MP3", false), EntryKind::Song(p) if p == "/m/a.MP3"));
    assert!(matches!(classify_entry("/m/cover.jpg", false), EntryKind::Skip));
    assert!(matches!(classify_entry("/m/x.mp3", true), EntryKind::Dir(n) if n == "x.mp3"));
}

#[test]
fn search_results_need_an_id() {
    assert!(yt_result(&entry(None)).is_none());
    let r = yt_result(&entry(Some("abc"))).unwrap();
    assert_eq!(r.title, "Unknown");
    assert_eq!(r.channel, "Unknown");
    assert_eq!(r.duration, 0);
    assert_eq!(r.url, "https://www.youtube.com/watch?v=abc");
}

#[test]
fn channel_falls_back_to_uploader() {
    let mut e = entry(Some("i"));
    e.uploader = Some("up".into());
    assert_eq!(yt_result(&e).unwrap().channel, "up");
    e.channel = Some("ch".into());
    e.title = Some("T".into());
    e.duration = Some(212);
    let r = yt_result(&e).unwrap();
    assert_eq!(r.channel, "ch");
    assert_eq!(r.title, "T");
    assert_eq!(r.duration, 212);
}

#[test]
fn results_keep_order_and_drop_entries_without_id() {
    let rs = yt_results(&vec![entry(Some("a")), entry(None), entry(Some("b"))]);
    let urls: Vec<String> = rs.into_iter().map(|r| r.url).collect();
    assert_eq!(
        urls,
        vec!["https://www.youtube.com/watch?v=a", "https://www.youtube.com/watch?v=b"]
    );
}

#[test]
fn preview_ids_are_checked() {
    assert_eq!(
        preview_command("dQw4w9WgXcQ").as_deref(),
        Some("yt-dlp -f 'bestaudio' -o - --no-playlist --quiet 'https://youtu.be/dQw4w9WgXcQ' | ffmpeg -i pipe:0 -f mp3 -q:a 5 pipe:1 2>/dev/null")
    );
    assert!(preview_command("a-b_c").is_some());
    assert!(preview_command("é1").is_some());
    assert!(preview_command("").is_some());
    assert!(preview_command("x'; rm -rf ~").is_none());
    assert!(preview_command("a b").is_none());
    assert!(preview_command("a/b").is_none());
}

#[test]
fn download_templates() {
    assert_eq!(
        output_template("/h", &Some("/Mix/../2024/".into())),
        "/h/Music/Mix//2024/%(title)s.%(ext)s"
    );
    assert_eq!(
        output_template("/h", &None),
        "/h/Music/%(artist,uploader|Unknown)s/%(title)s.%(ext)s"
    );
    assert_eq!(
        output_template("/h", &Some(String::new())),
        "/h/Music/%(artist,uploader|Unknown)s/%(title)s.%(ext)s"
    );
}

#[test]
fn download_replies() {
    let r = download_reply(DownloadOutcome::NotStarted);
    assert_eq!((r.status, r.message.as_str()), (500, "yt-dlp not found"));
    assert!(r.saved.is_none());
    let r = download_reply(DownloadOutcome::Failed("ERROR: bad url".into()));
    assert_eq!((r.status, r.message.as_str()), (500, "ERROR: bad url"));
    let r = download_reply(DownloadOutcome::Finished("/h/Music/A/t.mp3\n".into()));
    assert_eq!((r.status, r.message.as_str()), (200, "downloaded: /h/Music/A/t.mp3"));
    assert_eq!(r.saved.as_deref(), Some("/h/Music/A/t.mp3"));
}
