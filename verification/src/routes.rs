//! The requests and replies of the HTTP routes, and the decisions each
//! route makes between its calls to the store, the file system and
//! `yt-dlp`.

use vstd::prelude::*;
use crate::path::{safe_path, safe_path_spec, sanitize, sanitize_rel, opt_view, file_name, spec_file_name, is_mp3, is_mp3_path};
use crate::song::{Song, SongView, unknown, unknown_text, text_or};
use crate::order::{stable_sort, sorted_by_key, with_key};
use crate::text::{trim, trim_ws, no_dot_pair, char_is_alphanumeric, unicode_alphanumeric};

verus! {

pub const STATUS_OK: u16 = 200;
pub const STATUS_BAD_REQUEST: u16 = 400;
pub const STATUS_NOT_FOUND: u16 = 404;
pub const STATUS_INTERNAL_ERROR: u16 = 500;

/// Query of the song list and of the video search: `q`.
pub struct SearchQuery {
    pub q: Option<String>,
}

/// Body of a download request.
pub struct DownloadRequest {
    pub url: String,
    pub folder: Option<String>,
}

/// Query of a preview: the video id.
pub struct PreviewQuery {
    pub id: String,
}

/// A message sent back with a reply.
pub struct DownloadResponse {
    pub message: String,
}

/// Body of a directory creation, relative to the music root.
pub struct MkdirRequest {
    pub path: String,
}

/// Body of a deletion, relative to the music root.
pub struct DeleteRequest {
    pub path: String,
}

/// Body of a rename.
pub struct RenameRequest {
    pub old_path: String,
    pub new_path: String,
}

/// One video found by a search.
pub struct YtResult {
    pub title: String,
    pub channel: String,
    pub duration: i64,
    pub url: String,
}

/// Query of a directory listing.
pub struct BrowseQuery {
    pub path: Option<String>,
}

/// A directory listing.
pub struct BrowseResponse {
    pub path: String,
    pub dirs: Vec<String>,
    pub songs: Vec<Song>,
}

/// The directory of the music library under a home directory.
pub fn music_root(home: &str) -> (r: String)
    ensures
        r@ == home@ + "/Music"@,
{
    let mut r = String::from_str(home);
    r.append("/Music");
    r
}

/// The address of the song store under a home directory.
pub fn store_url(home: &str) -> (r: String)
    ensures
        r@ == "sqlite:"@ + home@ + "/mustream.db"@,
{
    let mut r = String::from_str("sqlite:");
    r.append(home);
    r.append("/mustream.db");
    r
}

/// The home directory: the value of `HOME`, or `.` when it is unset.
pub fn home_or_default(home: Option<String>) -> (r: String)
    ensures
        r@ == text_or(home, "."@),
{
    match home {
        Some(h) => h,
        None => String::from_str("."),
    }
}

/// The search text of a query: present only when `q` is given and not
/// empty.
pub open spec fn query_text(q: Option<String>) -> Option<Seq<char>> {
    match q {
        Some(s) => if s@.len() > 0 {
            Some(s@)
        } else {
            None
        },
        None => None,
    }
}

/// The search text of a query, when it is given and not empty.
pub fn nonempty_query(params: &SearchQuery) -> (r: Option<String>)
    ensures
        opt_view(r) == query_text(params.q),
        r matches Some(t) ==> params.q matches Some(q) && t@ == q@ && q@.len() > 0,
        params.q matches Some(q) ==> (q@.len() > 0 ==> (r matches Some(t) && t@ == q@)),
{
    match &params.q {
        Some(q) => if q.as_str().unicode_len() > 0 {
            Some(q.clone())
        } else {
            None
        },
        None => None,
    }
}

/// Which songs a listing asks the store for.
pub enum SongQuery {
    /// Every song, by artist, album and title.
    All,
    /// Songs whose title, artist or album holds the text.
    Search(String),
}

/// A listing searches when `q` is given and not empty, and lists every
/// song otherwise.
pub fn song_query(params: &SearchQuery) -> (r: SongQuery)
    ensures
        match query_text(params.q) {
            Some(t) => r matches SongQuery::Search(s) && s@ == t,
            None => r is All,
        },
        r matches SongQuery::Search(t) ==> params.q matches Some(q) && t@ == q@ && q@.len() > 0,
        params.q matches Some(q) ==> (q@.len() > 0 ==> (r matches SongQuery::Search(t) && t@ == q@)),
{
    match nonempty_query(params) {
        Some(q) => SongQuery::Search(q),
        None => SongQuery::All,
    }
}

/// The pattern that matches any text holding `q`.
pub fn search_pattern(q: &str) -> (r: String)
    ensures
        r@ == "%"@ + q@ + "%"@,
{
    let mut r = String::from_str("%");
    r.append(q);
    r.append("%");
    r
}

/// The pattern that matches any text starting with `prefix`.
pub fn prefix_pattern(prefix: &str) -> (r: String)
    ensures
        r@ == prefix@ + "%"@,
{
    let mut r = String::from_str(prefix);
    r.append("%");
    r
}

/// What came of looking a song up.
pub enum Lookup {
    Found(Song),
    Absent,
    Failed,
}

/// What streaming a song does next.
pub enum StreamPlan {
    /// Open the file at this path and stream it.
    Open(String),
    /// Reply with this status and nothing else.
    Reply(u16),
}

/// A found song is streamed from its path; an unknown id is answered 404
/// and a failed lookup 500.
pub fn stream_plan(lookup: Lookup) -> (r: StreamPlan)
    ensures
        match lookup {
            Lookup::Found(s) => r matches StreamPlan::Open(p) && p@ == s.path@,
            Lookup::Absent => r == StreamPlan::Reply(STATUS_NOT_FOUND),
            Lookup::Failed => r == StreamPlan::Reply(STATUS_INTERNAL_ERROR),
        },
{
    match lookup {
        Lookup::Found(s) => StreamPlan::Open(s.path),
        Lookup::Absent => StreamPlan::Reply(STATUS_NOT_FOUND),
        Lookup::Failed => StreamPlan::Reply(STATUS_INTERNAL_ERROR),
    }
}

/// The status and message of a file-system change: 200 alone, or 500 with
/// the error's text.
pub fn fs_reply(result: Result<(), String>) -> (r: (u16, Option<DownloadResponse>))
    ensures
        match result {
            Ok(()) => r.0 == STATUS_OK && r.1 is None,
            Err(e) => r.0 == STATUS_INTERNAL_ERROR && (r.1 matches Some(m) && m.message@ == e@),
        },
{
    match result {
        Ok(()) => (STATUS_OK, None),
        Err(e) => (STATUS_INTERNAL_ERROR, Some(DownloadResponse { message: e })),
    }
}

/// The directory a creation request names under the music root, or
/// `None` (answered 400) when it leaves the root.
pub fn mkdir_target(music_root: &str, req: &MkdirRequest) -> (r: Option<String>)
    ensures
        opt_view(r) == safe_path_spec(music_root@, req.path@),
{
    safe_path(music_root, req.path.as_str())
}

/// What a path on disk is.
pub enum EntryType {
    Dir,
    File,
    Other,
}

/// What a deletion does.
pub enum DeletePlan {
    /// Remove the directory and all it holds.
    RemoveTree(String),
    /// Remove the file, then its record in the store.
    RemoveFile(String),
    /// Nothing is there: reply 200 at once.
    Nothing,
}

/// The deletion of the path a request names: `None` (answered 400) when it
/// leaves the root; otherwise a directory is removed with its content, a
/// file with its record, and anything else is left alone.
pub fn delete_plan(music_root: &str, req: &DeleteRequest, kind: EntryType) -> (r: Option<DeletePlan>)
    ensures
        match safe_path_spec(music_root@, req.path@) {
            None => r is None,
            Some(p) => match kind {
                EntryType::Dir => r matches Some(DeletePlan::RemoveTree(q)) && q@ == p,
                EntryType::File => r matches Some(DeletePlan::RemoveFile(q)) && q@ == p,
                EntryType::Other => r matches Some(DeletePlan::Nothing),
            },
        },
{
    match safe_path(music_root, req.path.as_str()) {
        None => None,
        Some(p) => match kind {
            EntryType::Dir => Some(DeletePlan::RemoveTree(p)),
            EntryType::File => Some(DeletePlan::RemoveFile(p)),
            EntryType::Other => Some(DeletePlan::Nothing),
        },
    }
}

/// A granted rename: the two paths, and the pattern of the stored paths
/// that start with the old one.
pub struct RenamePlan {
    pub from: String,
    pub to: String,
    pub pattern: String,
}

/// The rename a request names: `None` (answered 400) when either path
/// leaves the root.
pub fn rename_plan(music_root: &str, req: &RenameRequest) -> (r: Option<RenamePlan>)
    ensures
        match (safe_path_spec(music_root@, req.old_path@), safe_path_spec(music_root@, req.new_path@)) {
            (Some(from), Some(to)) => r matches Some(plan) && plan.from@ == from && plan.to@ == to
                && plan.pattern@ == from + "%"@,
            _ => r is None,
        },
{
    let from = match safe_path(music_root, req.old_path.as_str()) {
        Some(p) => p,
        None => return None,
    };
    let to = match safe_path(music_root, req.new_path.as_str()) {
        Some(p) => p,
        None => return None,
    };
    let pattern = prefix_pattern(from.as_str());
    Some(RenamePlan { from, to, pattern })
}

/// Where a listing looks: the sanitised relative path it reports, and the
/// directory it reads.
pub struct BrowseLocation {
    pub rel: String,
    pub full: String,
}

/// The directory a listing reads: the music root itself for an empty
/// relative path, else the root, `/` and the sanitised path.
pub open spec fn browse_dir(root: Seq<char>, rel: Seq<char>) -> Seq<char> {
    if rel.len() == 0 {
        root
    } else {
        root + "/"@ + rel
    }
}

/// The location a listing query names under `music_root`: the query's
/// path (empty when absent) trimmed of `/` and stripped of `..`.
pub fn browse_location(music_root: &str, params: &BrowseQuery) -> (r: BrowseLocation)
    ensures
        r.rel@ == sanitize_rel(text_or(params.path, Seq::empty())),
        no_dot_pair(r.rel@),
        r.full@ == browse_dir(music_root@, r.rel@),
        r.rel@.len() == 0 ==> r.full@ == music_root@,
        r.rel@.len() > 0 ==> r.full@ == music_root@ + "/"@ + r.rel@,
{
    let rel = match &params.path {
        Some(p) => sanitize(p.as_str()),
        None => sanitize(""),
    };
    proof {
        reveal_strlit("");
    }
    let full = if rel.as_str().unicode_len() == 0 {
        String::from_str(music_root)
    } else {
        let mut f = String::from_str(music_root);
        f.append("/");
        f.append(rel.as_str());
        f
    };
    BrowseLocation { rel, full }
}

/// How a listing treats one entry of the directory.
pub enum EntryKind {
    /// A subdirectory, by name.
    Dir(String),
    /// An mp3 file, by path.
    Song(String),
    /// Anything else.
    Skip,
}

/// A directory is listed by its name, a file whose extension is `mp3` in
/// any case by its path, and anything else is skipped.
pub fn classify_entry(path: &str, is_dir: bool) -> (r: EntryKind)
    ensures
        is_dir ==> match spec_file_name(path@) {
            Some(n) => r matches EntryKind::Dir(d) && d@ == n,
            None => r is Skip,
        },
        !is_dir ==> if is_mp3_path(path@) {
            r matches EntryKind::Song(p) && p@ == path@
        } else {
            r is Skip
        },
{
    if is_dir {
        match file_name(path) {
            Some(n) => EntryKind::Dir(n),
            None => EntryKind::Skip,
        }
    } else if is_mp3(path) {
        EntryKind::Song(String::from_str(path))
    } else {
        EntryKind::Skip
    }
}

/// The views of a list of songs.
pub open spec fn songs_view(v: Seq<Song>) -> Seq<SongView> {
    v.map_values(|s: Song| s@)
}

/// The listing of a directory: its relative path, its subdirectories in
/// order, its songs ordered by title with songs of equal title in the
/// order they were found.
pub fn browse_response(rel: String, dirs: Vec<String>, songs: Vec<Song>) -> (r: BrowseResponse)
    ensures
        r.path@ == rel@,
        sorted_by_key(r.dirs@),
        r.dirs@.len() == dirs@.len(),
        forall|k: Seq<char>| #[trigger] with_key(r.dirs@, k) == with_key(dirs@, k),
        sorted_by_key(r.songs@),
        r.songs@.len() == songs@.len(),
        forall|k: Seq<char>| #[trigger] with_key(r.songs@, k) == with_key(songs@, k),
{
    BrowseResponse { path: rel, dirs: stable_sort(dirs), songs: stable_sort(songs) }
}


/// The argument that makes `yt-dlp` search for `q` and list five results.
pub fn yt_search_target(q: &str) -> (r: String)
    ensures
        r@ == "ytsearch5:"@ + q@,
{
    let mut r = String::from_str("ytsearch5:");
    r.append(q);
    r
}

/// The fields of one line of `yt-dlp`'s JSON output that a search reads;
/// the duration already cut to whole seconds.
pub struct YtEntry {
    pub title: Option<String>,
    pub uploader: Option<String>,
    pub channel: Option<String>,
    pub duration: Option<i64>,
    pub id: Option<String>,
}

/// What a search result holds, as plain values.
pub struct YtResultView {
    pub title: Seq<char>,
    pub channel: Seq<char>,
    pub duration: i64,
    pub url: Seq<char>,
}

impl View for YtResult {
    type V = YtResultView;

    open spec fn view(&self) -> YtResultView {
        YtResultView {
            title: self.title@,
            channel: self.channel@,
            duration: self.duration,
            url: self.url@,
        }
    }
}

/// The result an entry makes: none without an id; otherwise its title,
/// its channel or else its uploader (`Unknown` when neither is given), its
/// duration or 0, and the watch address of its id.
pub open spec fn yt_result_of(e: YtEntry) -> Option<YtResultView> {
    match e.id {
        None => None,
        Some(id) => Some(
            YtResultView {
                title: text_or(e.title, unknown_text()),
                channel: match e.channel {
                    Some(c) => c@,
                    None => text_or(e.uploader, unknown_text()),
                },
                duration: match e.duration {
                    Some(d) => d,
                    None => 0,
                },
                url: "https://www.youtube.com/watch?v="@ + id@,
            },
        ),
    }
}

fn text_or_unknown(o: &Option<String>) -> (r: String)
    ensures
        r@ == text_or(*o, unknown_text()),
{
    match o {
        Some(t) => t.clone(),
        None => unknown(),
    }
}

/// The search result one entry makes.
pub fn yt_result(e: &YtEntry) -> (r: Option<YtResult>)
    ensures
        match r {
            Some(x) => yt_result_of(*e) == Some(x@),
            None => yt_result_of(*e) is None,
        },
{
    let id = match &e.id {
        Some(id) => id,
        None => return None,
    };
    let title = text_or_unknown(&e.title);
    let channel = match &e.channel {
        Some(c) => c.clone(),
        None => text_or_unknown(&e.uploader),
    };
    let duration = match e.duration {
        Some(d) => d,
        None => 0,
    };
    let mut url = String::from_str("https://www.youtube.com/watch?v=");
    url.append(id.as_str());
    Some(YtResult { title, channel, duration, url })
}

/// The views of a list of search results.
pub open spec fn results_view(v: Seq<YtResult>) -> Seq<YtResultView> {
    v.map_values(|x: YtResult| x@)
}

/// The results of a search: the result of each entry that has one, in
/// order.
pub fn yt_results(entries: &Vec<YtEntry>) -> (r: Vec<YtResult>)
    ensures
        results_view(r@) == entries@.filter_map(|e: YtEntry| yt_result_of(e)),
        r@.len() == entries@.filter_map(|e: YtEntry| yt_result_of(e)).len(),
        forall|i: int|
            0 <= i < r@.len() ==> #[trigger] r@[i]@ == entries@.filter_map(
                |e: YtEntry| yt_result_of(e),
            )[i],
{
    let mut out: Vec<YtResult> = Vec::new();
    let n = entries.len();
    let ghost f = |e: YtEntry| yt_result_of(e);
    assert(entries@.take(0).filter_map(f) =~= Seq::<YtResultView>::empty()) by {
        reveal_with_fuel(Seq::filter_map, 1);
    }
    for i in 0..n
        invariant
            n == entries@.len(),
            f == (|e: YtEntry| yt_result_of(e)),
            results_view(out@) == entries@.take(i as int).filter_map(f),
    {
        let ghost before = out@;
        proof {
            entries@.lemma_filter_map_take_succ(f, i as int);
        }
        match yt_result(&entries[i]) {
            Some(x) => {
                out.push(x);
                assert(results_view(out@) =~= results_view(before).push(x@));
            },
            None => {},
        }
    }
    assert(entries@.take(n as int) =~= entries@);
    assert forall|i: int| 0 <= i < out@.len() implies #[trigger] out@[i]@ == entries@.filter_map(
        f,
    )[i] by {
        assert(results_view(out@)[i] == out@[i]@);
    }
    out
}

/// Every character of `id` is a letter or digit (in Unicode), `-` or `_`.
pub open spec fn preview_id_valid(id: Seq<char>) -> bool {
    forall|i: int|
        0 <= i < id.len() ==> unicode_alphanumeric(#[trigger] id[i]) || id[i] == '-' || id[i] == '_'
}

/// The shell pipeline that streams the audio of video `id` as mp3, or
/// `None` (answered 400) when the id holds anything but letters, digits,
/// `-` and `_`. Every ASCII character of an accepted id is a letter, a
/// digit, `-` or `_`, so it cannot end the quoted address.
pub fn preview_command(id: &str) -> (r: Option<String>)
    ensures
        r is Some <==> preview_id_valid(id@),
        r is Some <==> forall|i: int|
            0 <= i < id@.len() ==> unicode_alphanumeric(#[trigger] id@[i]) || id@[i] == '-' || id@[i]
                == '_',
        r matches Some(c) ==> c@ == "yt-dlp -f 'bestaudio' -o - --no-playlist --quiet 'https://youtu.be/"@
            + id@ + "' | ffmpeg -i pipe:0 -f mp3 -q:a 5 pipe:1 2>/dev/null"@,
        r is Some ==> forall|i: int|
            0 <= i < id@.len() && #[trigger] id@[i] <= '\x7f' ==> ('a' <= id@[i] <= 'z' || 'A' <= id@[i]
                <= 'Z' || '0' <= id@[i] <= '9' || id@[i] == '-' || id@[i] == '_'),
{
    let n = id.unicode_len();
    let mut i: usize = 0;
    while i < n
        invariant
            i <= n,
            n == id@.len(),
            forall|k: int|
                0 <= k < i ==> unicode_alphanumeric(#[trigger] id@[k]) || id@[k] == '-' || id@[k]
                    == '_',
            forall|k: int|
                0 <= k < i && #[trigger] id@[k] <= '\x7f' ==> ('a' <= id@[k] <= 'z' || 'A' <= id@[k]
                    <= 'Z' || '0' <= id@[k] <= '9' || id@[k] == '-' || id@[k] == '_'),
        decreases n - i,
    {
        let c = id.get_char(i);
        if !(char_is_alphanumeric(c) || c == '-' || c == '_') {
            return None;
        }
        i = i + 1;
    }
    let mut cmd = String::from_str(
        "yt-dlp -f 'bestaudio' -o - --no-playlist --quiet 'https://youtu.be/",
    );
    cmd.append(id);
    cmd.append("' | ffmpeg -i pipe:0 -f mp3 -q:a 5 pipe:1 2>/dev/null");
    Some(cmd)
}

/// Where `yt-dlp` saves a download: in the named folder of the library
/// (trimmed of `/` and stripped of `..`) when one is given, else in a
/// folder named after the artist or uploader.
pub fn output_template(home: &str, folder: &Option<String>) -> (r: String)
    ensures
        match *folder {
            Some(f) if f@.len() > 0 => r@ == home@ + "/Music/"@ + sanitize_rel(f@)
                + "/%(title)s.%(ext)s"@,
            _ => r@ == home@ + "/Music/%(artist,uploader|Unknown)s/%(title)s.%(ext)s"@,
        },
{
    let mut r = String::from_str(home);
    match folder {
        Some(f) if f.as_str().unicode_len() > 0 => {
            let safe = sanitize(f.as_str());
            r.append("/Music/");
            r.append(safe.as_str());
            r.append("/%(title)s.%(ext)s");
        },
        _ => {
            r.append("/Music/%(artist,uploader|Unknown)s/%(title)s.%(ext)s");
        },
    }
    r
}

/// How a run of `yt-dlp` ended.
pub enum DownloadOutcome {
    /// The program could not be started.
    NotStarted,
    /// It failed, with this error output.
    Failed(String),
    /// It succeeded, with this standard output.
    Finished(String),
}

/// The reply to a download, and the path of the saved file when there is
/// one to read tags from.
pub struct DownloadReply {
    pub status: u16,
    pub message: String,
    pub saved: Option<String>,
}

/// A program that cannot be started is answered 500 `yt-dlp not found`, a
/// failed run 500 with its error output, and a finished run 200 with the
/// path it printed, trimmed of whitespace, which is also the file saved.
pub fn download_reply(outcome: DownloadOutcome) -> (r: DownloadReply)
    ensures
        match outcome {
            DownloadOutcome::NotStarted => r.status == STATUS_INTERNAL_ERROR && r.message@
                == "yt-dlp not found"@ && r.saved is None,
            DownloadOutcome::Failed(err) => r.status == STATUS_INTERNAL_ERROR && r.message@ == err@
                && r.saved is None,
            DownloadOutcome::Finished(out) => r.status == STATUS_OK && r.message@ == "downloaded: "@
                + trim_ws(out@) && (r.saved matches Some(p) && p@ == trim_ws(out@)),
        },
{
    match outcome {
        DownloadOutcome::NotStarted => DownloadReply {
            status: STATUS_INTERNAL_ERROR,
            message: String::from_str("yt-dlp not found"),
            saved: None,
        },
        DownloadOutcome::Failed(err) => DownloadReply {
            status: STATUS_INTERNAL_ERROR,
            message: err,
            saved: None,
        },
        DownloadOutcome::Finished(out) => {
            let path = trim(out.as_str());
            let mut message = String::from_str("downloaded: ");
            message.append(path.as_str());
            DownloadReply { status: STATUS_OK, message, saved: Some(path) }
        },
    }
}


/// The search text a query carries is the whole of `q`, untouched, as
/// long as it is not empty; an absent or empty `q` carries none.
pub proof fn law_query_is_searched_whole(q: Option<String>)
    ensures
        q matches Some(s) ==> (s@.len() > 0 ==> query_text(q) == Some(s@)),
        !(q matches Some(s) && s@.len() > 0) ==> query_text(q) is None,
{
}

/// A search result links to the whole id of its video: its address is the
/// watch address followed by every character of the id, so two results
/// share an address exactly when their ids agree. A result exists exactly
/// when there is an id; given title, channel and duration are kept as
/// they are.
pub proof fn law_yt_result_links_whole_id(e: YtEntry, f: YtEntry)
    ensures
        yt_result_of(e) is Some <==> e.id is Some,
        yt_result_of(e) matches Some(v) ==> e.id matches Some(id) && v.url
            == "https://www.youtube.com/watch?v="@ + id@ && v.url.skip(
            "https://www.youtube.com/watch?v="@.len() as int,
        ) == id@,
        yt_result_of(e) matches Some(v) ==> (e.title matches Some(t) ==> v.title == t@),
        yt_result_of(e) matches Some(v) ==> (e.channel matches Some(c) ==> v.channel == c@),
        yt_result_of(e) matches Some(v) ==> (e.duration matches Some(d) ==> v.duration == d),
        yt_result_of(e) matches Some(v) ==> (e.duration is None ==> v.duration == 0),
        yt_result_of(e) matches Some(v) ==> (e.title is None ==> v.title == "Unknown"@),
        yt_result_of(e) matches Some(v) ==> (e.channel is None ==> (e.uploader matches Some(u)
            ==> v.channel == u@)),
        yt_result_of(e) matches Some(v) ==> ((e.channel is None && e.uploader is None) ==> v.channel
            == "Unknown"@),
        yt_result_of(e) matches Some(v) ==> (yt_result_of(f) matches Some(w) ==> (v.url == w.url
            <==> e.id.unwrap()@ == f.id.unwrap()@)),
{
    let pre = "https://www.youtube.com/watch?v="@;
    reveal_strlit("Unknown");
    assert(unknown_text() =~= "Unknown"@);
    if let Some(id) = e.id {
        assert((pre + id@).skip(pre.len() as int) =~= id@);
    }
    if e.id is Some && f.id is Some {
        let a = pre + e.id.unwrap()@;
        let b = pre + f.id.unwrap()@;
        if a == b {
            assert(a.skip(pre.len() as int) =~= e.id.unwrap()@);
            assert(b.skip(pre.len() as int) =~= f.id.unwrap()@);
        }
    }
}

/// The ids a preview accepts are those made only of letters and digits
/// (in Unicode), `-` and `_`; whether an id is accepted is decided
/// character by character, so two ids are accepted together exactly when
/// their concatenation is.
pub proof fn law_preview_ids_checked_per_character(a: Seq<char>, b: Seq<char>)
    ensures
        preview_id_valid(a) <==> forall|i: int|
            0 <= i < a.len() ==> unicode_alphanumeric(#[trigger] a[i]) || a[i] == '-' || a[i] == '_',
        preview_id_valid(a + b) <==> preview_id_valid(a) && preview_id_valid(b),
{
    let x = a + b;
    if preview_id_valid(a) && preview_id_valid(b) {
        assert forall|i: int| 0 <= i < x.len() implies unicode_alphanumeric(#[trigger] x[i]) || x[i]
            == '-' || x[i] == '_' by {
            if i < a.len() {
                assert(x[i] == a[i]);
            } else {
                assert(x[i] == b[i - a.len()]);
            }
        }
    }
    if preview_id_valid(x) {
        assert forall|i: int| 0 <= i < a.len() implies unicode_alphanumeric(#[trigger] a[i]) || a[i]
            == '-' || a[i] == '_' by {
            assert(x[i] == a[i]);
        }
        assert forall|i: int| 0 <= i < b.len() implies unicode_alphanumeric(#[trigger] b[i]) || b[i]
            == '-' || b[i] == '_' by {
            assert(x[i + a.len()] == b[i]);
        }
    }
}

} // verus!
