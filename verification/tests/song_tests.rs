use mustream::routes::browse_response;
use mustream::song::{resolve_next, song_from_tags, Outcome, Resolve, Song};

fn song(id: i64, title: &str) -> Song {
    Song {
        id,
        title: title.to_string(),
        artist: "A".to_string(),
        album: "B".to_string(),
        path: format!("/m/{}.mp3", id),
        duration: 60,
    }
}

#[test]
fn tags_make_a_song() {
    let s = song_from_tags(
        "/m/x/Track.mp3",
        Some("Title".to_string()),
        Some("Artist".to_string()),
        Some("Album".to_string()),
        215,
    );
    assert_eq!(
        s,
        Song {
            id: 0,
            title: "Title".to_string(),
            artist: "Artist".to_string(),
            album: "Album".to_string(),
            path: "/m/x/Track.mp3".to_string(),
            duration: 215,
        }
    );
}

#[test]
fn missing_tags_fall_back() {
    let s = song_from_tags("/m/x/Track.01.mp3", None, None, None, 3);
    assert_eq!(s.title, "Track.01");
    assert_eq!(s.artist, "Unknown");
    assert_eq!(s.album, "Unknown");
    assert_eq!(s.duration, 3);
}

#[test]
fn very_long_durations_wrap_as_a_cast_does() {
    let s = song_from_tags("/m/a.mp3", None, None, None, u64::MAX);
    assert_eq!(s.duration, -1);
}

#[test]
fn found_rows_are_used_as_they_are() {
    let r = resolve_next(Resolve::Lookup, Outcome::Row(Some(song(7, "t"))));
    assert!(matches!(r, Resolve::Done(Some(s)) if s.id == 7));
}

#[test]
fn a_missing_row_is_read_stored_and_looked_up_again() {
    let r = resolve_next(Resolve::Lookup, Outcome::Row(None));
    assert!(matches!(r, Resolve::ReadTags));
    let r = resolve_next(r, Outcome::Tags(Some(song(0, "t"))));
    assert!(matches!(r, Resolve::Store(_)));
    let r = resolve_next(r, Outcome::Stored);
    assert!(matches!(r, Resolve::Recheck));
    let r = resolve_next(r, Outcome::Row(Some(song(9, "t"))));
    assert!(matches!(r, Resolve::Done(Some(s)) if s.id == 9));
}

#[test]
fn a_file_without_tags_is_left_out() {
    let r = resolve_next(Resolve::ReadTags, Outcome::Tags(None));
    assert!(matches!(r, Resolve::Done(None)));
}

#[test]
fn an_unrelated_outcome_changes_nothing() {
    let r = resolve_next(Resolve::Lookup, Outcome::Stored);
    assert!(matches!(r, Resolve::Lookup));
    let r = resolve_next(Resolve::Done(None), Outcome::Row(Some(song(1, "x"))));
    assert!(matches!(r, Resolve::Done(None)));
}

#[test]
fn listing_sorts_dirs_and_songs_by_title_keeping_ties_in_order() {
    let dirs = vec!["b".to_string(), "a".to_string(), "C".to_string()];
    let songs = vec![song(1, "zeta"), song(2, "alpha"), song(3, "mid"), song(4, "alpha")];
    let r = browse_response("x".to_string(), dirs, songs);
    assert_eq!(r.path, "x");
    assert_eq!(r.dirs, vec!["C", "a", "b"]);
    let ids: Vec<i64> = r.songs.iter().map(|s| s.id).collect();
    assert_eq!(ids, vec![2, 4, 3, 1]);
}
