//! The song record, how one is made from a file's tags, and the steps that
//! find the record of a file while a directory is listed.

use vstd::prelude::*;
use crate::order::SortKey;
use crate::path::{file_stem, spec_file_stem};

verus! {

/// One song of the library.
#[derive(Debug, Clone, PartialEq, Eq)]
pub struct Song {
    pub id: i64,
    pub title: String,
    pub artist: String,
    pub album: String,
    pub path: String,
    pub duration: i64,
}

/// What a song holds, as plain values.
pub struct SongView {
    pub id: i64,
    pub title: Seq<char>,
    pub artist: Seq<char>,
    pub album: Seq<char>,
    pub path: Seq<char>,
    pub duration: i64,
}

impl View for Song {
    type V = SongView;

    open spec fn view(&self) -> SongView {
        SongView {
            id: self.id,
            title: self.title@,
            artist: self.artist@,
            album: self.album@,
            path: self.path@,
            duration: self.duration,
        }
    }
}

impl SortKey for Song {
    open spec fn key(&self) -> Seq<char> {
        self.title@
    }

    fn key_str(&self) -> (k: &str) {
        self.title.as_str()
    }
}

/// The text put in place of a missing artist or album.
pub open spec fn unknown_text() -> Seq<char> {
    seq!['U', 'n', 'k', 'n', 'o', 'w', 'n']
}

/// A string holding `Unknown`.
pub fn unknown() -> (s: String)
    ensures
        s@ == unknown_text(),
{
    let lit = "Unknown";
    proof {
        reveal_strlit("Unknown");
    }
    String::from_str(lit)
}

/// The value of an optional text, or the fallback.
pub open spec fn text_or(o: Option<String>, fallback: Seq<char>) -> Seq<char> {
    match o {
        Some(s) => s@,
        None => fallback,
    }
}

/// The title a song gets when its tags name none: the file's stem, or
/// nothing.
pub open spec fn stem_title(path: Seq<char>) -> Seq<char> {
    match spec_file_stem(path) {
        Some(stem) => stem,
        None => Seq::empty(),
    }
}

/// The record of the file at `path` whose tags hold `title`, `artist`
/// and `album` and whose audio lasts `duration_secs` seconds: a missing
/// title becomes the file's stem, a missing artist or album `Unknown`; the
/// id is 0 until the store assigns one.
pub fn song_from_tags(
    path: &str,
    title: Option<String>,
    artist: Option<String>,
    album: Option<String>,
    duration_secs: u64,
) -> (s: Song)
    ensures
        s.id == 0,
        s.title@ == text_or(title, stem_title(path@)),
        s.artist@ == text_or(artist, unknown_text()),
        s.album@ == text_or(album, unknown_text()),
        s.path@ == path@,
        s.duration == duration_secs as i64,
        title matches Some(t) ==> s.title@ == t@,
        title is None ==> (spec_file_stem(path@) matches Some(st) ==> s.title@ == st),
        (title is None && spec_file_stem(path@) is None) ==> s.title@.len() == 0,
        artist matches Some(a) ==> s.artist@ == a@,
        artist is None ==> s.artist@ == "Unknown"@,
        album matches Some(a) ==> s.album@ == a@,
        album is None ==> s.album@ == "Unknown"@,
{
    proof {
        reveal_strlit("Unknown");
        assert(unknown_text() =~= "Unknown"@);
    }
    let title = match title {
        Some(t) => t,
        None => match file_stem(path) {
            Some(stem) => stem,
            None => String::new(),
        },
    };
    let artist = match artist {
        Some(a) => a,
        None => unknown(),
    };
    let album = match album {
        Some(a) => a,
        None => unknown(),
    };
    Song {
        id: 0,
        title,
        artist,
        album,
        path: String::from_str(path),
        duration: duration_secs as i64,
    }
}

/// Where finding the record of one listed file stands.
pub enum Resolve {
    /// Look the file up in the store by its path.
    Lookup,
    /// The store has no record: read the file's tags.
    ReadTags,
    /// Store the record read from the tags.
    Store(Song),
    /// Look the file up again after storing it.
    Recheck,
    /// Finished, with the record if one was found.
    Done(Option<Song>),
}

/// What the step that a `Resolve` asks for came back with.
pub enum Outcome {
    /// A lookup by path: the record, or none (also when the lookup failed).
    Row(Option<Song>),
    /// Reading tags: the record they make, or none.
    Tags(Option<Song>),
    /// The record was stored (or storing failed; either way the lookup is
    /// repeated).
    Stored,
}

/// How many answered steps a stage is at most away from being done.
pub open spec fn steps_left(state: Resolve) -> nat {
    match state {
        Resolve::Lookup => 4,
        Resolve::ReadTags => 3,
        Resolve::Store(_) => 2,
        Resolve::Recheck => 1,
        Resolve::Done(_) => 0,
    }
}

/// Whether `outcome` answers the step that `state` asks for.
pub open spec fn answers(state: Resolve, outcome: Outcome) -> bool {
    match (state, outcome) {
        (Resolve::Lookup, Outcome::Row(_)) => true,
        (Resolve::ReadTags, Outcome::Tags(_)) => true,
        (Resolve::Store(_), Outcome::Stored) => true,
        (Resolve::Recheck, Outcome::Row(_)) => true,
        _ => false,
    }
}

/// The next stage after `state` has been answered by `outcome`: a record
/// found at the first lookup is kept; a missing one is read from the tags,
/// stored and looked up again; a file without tags yields nothing. An
/// outcome that does not answer the stage leaves it unchanged, and every
/// answered step brings the search closer to done, so a file is settled
/// after at most four steps.
pub fn resolve_next(state: Resolve, outcome: Outcome) -> (next: Resolve)
    ensures
        match (state, outcome) {
            (Resolve::Lookup, Outcome::Row(Some(s))) => next == Resolve::Done(Some(s)),
            (Resolve::Lookup, Outcome::Row(None)) => next == Resolve::ReadTags,
            (Resolve::ReadTags, Outcome::Tags(Some(s))) => next == Resolve::Store(s),
            (Resolve::ReadTags, Outcome::Tags(None)) => next == Resolve::Done(None),
            (Resolve::Store(_), Outcome::Stored) => next == Resolve::Recheck,
            (Resolve::Recheck, Outcome::Row(r)) => next == Resolve::Done(r),
            _ => next == state,
        },
        answers(state, outcome) ==> steps_left(next) < steps_left(state),
{
    match (state, outcome) {
        (Resolve::Lookup, Outcome::Row(Some(s))) => Resolve::Done(Some(s)),
        (Resolve::Lookup, Outcome::Row(None)) => Resolve::ReadTags,
        (Resolve::ReadTags, Outcome::Tags(Some(s))) => Resolve::Store(s),
        (Resolve::ReadTags, Outcome::Tags(None)) => Resolve::Done(None),
        (Resolve::Store(_), Outcome::Stored) => Resolve::Recheck,
        (Resolve::Recheck, Outcome::Row(r)) => Resolve::Done(r),
        (state, _) => state,
    }
}

} // verus!
