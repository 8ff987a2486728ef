//! Unix path arithmetic on strings, modelled on the component rules that
//! `std::path` documents: repeated separators and interior `.` are ignored,
//! a leading `.` is kept, `..` is a parent component.

use vstd::prelude::*;
use crate::text::{not_dot, law_dot_removal_only_drops_dots, law_trim_char_cuts_only_ends, run_len, lemma_run_len, lemma_run_len_at, no_dot_pair, remove_dot_pairs, trim_char, lemma_remove_dot_pairs_no_pair, remove_dot_pairs_exec, trim_char_exec};

verus! {

/// One component of a path, as `std::path::Component` names them on Unix.
pub enum PathPart {
    Root,
    Current,
    Parent,
    Normal(Seq<char>),
}

/// The component that one segment between separators contributes:
/// nothing for an empty segment or `.`, a parent for `..`.
pub open spec fn part_of(seg: Seq<char>) -> Seq<PathPart> {
    if seg.len() == 0 || seg =~= seq!['.'] {
        Seq::empty()
    } else if seg =~= seq!['.', '.'] {
        seq![PathPart::Parent]
    } else {
        seq![PathPart::Normal(seg)]
    }
}

/// The components of every segment of `s`, in order.
pub open spec fn body_parts(s: Seq<char>) -> Seq<PathPart>
    decreases s.len(),
{
    let k = run_len(s, '/');
    if k < s.len() {
        part_of(s.take(k as int)) + body_parts(s.skip(k as int + 1))
    } else {
        part_of(s)
    }
}

/// The component that the start of `s` adds: the root for a leading `/`,
/// the current directory for a leading `.` segment.
pub open spec fn lead_part(s: Seq<char>) -> Seq<PathPart> {
    if s.len() > 0 && s[0] == '/' {
        seq![PathPart::Root]
    } else if s.len() > 0 && s[0] == '.' && (s.len() == 1 || s[1] == '/') {
        seq![PathPart::Current]
    } else {
        Seq::empty()
    }
}

/// The components of the path `s`.
pub open spec fn components(s: Seq<char>) -> Seq<PathPart> {
    lead_part(s) + body_parts(s)
}

/// Whether the components of `base` are a prefix of those of `path`
/// (`Path::starts_with`: only whole components match).
pub open spec fn path_starts_with(path: Seq<char>, base: Seq<char>) -> bool {
    let p = components(path);
    let b = components(base);
    b.len() <= p.len() && p.take(b.len() as int) =~= b
}

/// `base` joined with `rel` as `Path::join` does: an absolute `rel`
/// replaces `base`, otherwise a separator is put between them unless `base`
/// is empty or already ends with one.
pub open spec fn join_path(base: Seq<char>, rel: Seq<char>) -> Seq<char> {
    if rel.len() > 0 && rel[0] == '/' {
        rel
    } else if base.len() == 0 || base.last() == '/' {
        base + rel
    } else {
        base + seq!['/'] + rel
    }
}

/// A separator splits the components of the text around it.
pub proof fn lemma_body_parts_concat(a: Seq<char>, b: Seq<char>)
    ensures
        body_parts(a + seq!['/'] + b) == body_parts(a) + body_parts(b),
    decreases a.len(),
{
    let x = a + seq!['/'] + b;
    lemma_run_len(a, '/');
    let k = run_len(a, '/');
    if k < a.len() {
        assert forall|i: int| 0 <= i < k implies x[i] != '/' by {
            assert(x[i] == a[i]);
        }
        lemma_run_len_at(x, k as int, '/');
        let a2 = a.skip(k as int + 1);
        assert(x.take(k as int) =~= a.take(k as int));
        assert(x.skip(k as int + 1) =~= a2 + seq!['/'] + b);
        lemma_body_parts_concat(a2, b);
        assert(body_parts(a) == part_of(a.take(k as int)) + body_parts(a2));
        assert(body_parts(x) == part_of(a.take(k as int)) + body_parts(a2 + seq!['/'] + b));
        assert(body_parts(x) =~= body_parts(a) + body_parts(b));
    } else {
        assert forall|i: int| 0 <= i < a.len() implies x[i] != '/' by {
            assert(x[i] == a[i]);
        }
        lemma_run_len_at(x, a.len() as int, '/');
        assert(x.take(a.len() as int) =~= a);
        assert(x.skip(a.len() as int + 1) =~= b);
        assert(body_parts(a) == part_of(a));
        assert(body_parts(x) =~= body_parts(a) + body_parts(b));
    }
}

/// Every component that the segments of `s` yield is a parent or a normal
/// one; a parent only where `s` holds `..`.
pub proof fn lemma_body_parts_kinds(s: Seq<char>)
    ensures
        forall|i: int|
            0 <= i < body_parts(s).len() ==> (#[trigger] body_parts(s)[i] is Normal
                || body_parts(s)[i] is Parent),
        no_dot_pair(s) ==> forall|i: int|
            0 <= i < body_parts(s).len() ==> #[trigger] body_parts(s)[i] is Normal,
    decreases s.len(),
{
    lemma_run_len(s, '/');
    let k = run_len(s, '/');
    if k < s.len() {
        let t = s.skip(k as int + 1);
        lemma_body_parts_kinds(t);
        let h = part_of(s.take(k as int));
        assert(body_parts(s) == h + body_parts(t));
        if no_dot_pair(s) {
            assert forall|i: int| 0 <= i < t.len() - 1 implies !(#[trigger] t[i] == '.' && t[i
                + 1] == '.') by {
                assert(t[i] == s[i + k + 1]);
                assert(t[i + 1] == s[i + k + 2]);
            }
            if s.take(k as int) =~= seq!['.', '.'] {
                assert(s[0] == s.take(k as int)[0]);
                assert(s[1] == s.take(k as int)[1]);
            }
        }
        assert forall|i: int| 0 <= i < body_parts(s).len() implies (#[trigger] body_parts(s)[i] is Normal
            || body_parts(s)[i] is Parent) && (no_dot_pair(s) ==> body_parts(s)[i] is Normal) by {
            if i >= h.len() {
                assert(body_parts(s)[i] == body_parts(t)[i - h.len()]);
            }
        }
    } else {
        if no_dot_pair(s) && s =~= seq!['.', '.'] {
            assert(s[0] == '.' && s[1] == '.');
        }
    }
}

/// A non-empty path has at least one component.
pub proof fn lemma_components_nonempty(s: Seq<char>)
    requires
        s.len() > 0,
    ensures
        components(s).len() > 0,
{
    if s[0] != '/' {
        lemma_run_len(s, '/');
        let k = run_len(s, '/');
        assert(k > 0);
        if !(s[0] == '.' && (s.len() == 1 || s[1] == '/')) {
            let seg = if k < s.len() { s.take(k as int) } else { s };
            assert(seg[0] == s[0]);
            if seg =~= seq!['.'] {
                assert(seg.len() == 1);
                if k < s.len() {
                    assert(s[1] == '/');
                }
            }
            assert(part_of(seg).len() == 1);
        }
    }
}

/// Joining a non-empty base with a relative text puts the text's segments
/// after the base's components.
pub proof fn lemma_join_components(base: Seq<char>, rel: Seq<char>)
    requires
        base.len() > 0,
        !(rel.len() > 0 && rel[0] == '/'),
    ensures
        components(join_path(base, rel)) == components(base) + body_parts(rel),
{
    let j = join_path(base, rel);
    if base.last() == '/' {
        let r = base.drop_last();
        assert(base =~= r + seq!['/'] + Seq::<char>::empty());
        assert(j =~= r + seq!['/'] + rel);
        lemma_body_parts_concat(r, rel);
        lemma_body_parts_concat(r, Seq::<char>::empty());
        assert(body_parts(Seq::<char>::empty()) =~= Seq::<PathPart>::empty());
        assert(body_parts(base) =~= body_parts(r));
        assert(j[0] == base[0]);
        if base.len() > 1 {
            assert(j[1] == base[1]);
        }
        assert(lead_part(j) == lead_part(base));
    } else {
        assert(j =~= base + seq!['/'] + rel);
        lemma_body_parts_concat(base, rel);
        assert(j[0] == base[0]);
        if base.len() > 1 {
            assert(j[1] == base[1]);
        } else {
            assert(j[1] == '/');
        }
        assert(lead_part(j) == lead_part(base));
    }
    assert(components(j) =~= components(base) + body_parts(rel));
}


/// A path component held by a running program.
pub enum Component {
    Root,
    Current,
    Parent,
    Normal(String),
}

impl View for Component {
    type V = PathPart;

    open spec fn view(&self) -> PathPart {
        match self {
            Component::Root => PathPart::Root,
            Component::Current => PathPart::Current,
            Component::Parent => PathPart::Parent,
            Component::Normal(name) => PathPart::Normal(name@),
        }
    }
}

/// The components that a list of held components stands for.
pub open spec fn parts_view(v: Seq<Component>) -> Seq<PathPart> {
    v.map_values(|c: Component| c@)
}

fn push_segment(out: &mut Vec<Component>, seg: &str)
    ensures
        parts_view(final(out)@) == parts_view(old(out)@) + part_of(seg@),
{
    let n = seg.unicode_len();
    let ghost before = out@;
    if n == 0 {
        assert(parts_view(out@) =~= parts_view(before) + part_of(seg@));
        return;
    }
    let c0 = seg.get_char(0);
    if n == 1 && c0 == '.' {
        assert(seg@ =~= seq!['.']);
        assert(parts_view(out@) =~= parts_view(before) + part_of(seg@));
        return;
    }
    if n == 2 && c0 == '.' && seg.get_char(1) == '.' {
        assert(seg@ =~= seq!['.', '.']);
        out.push(Component::Parent);
    } else {
        assert(!(seg@ =~= seq!['.']));
        assert(!(seg@ =~= seq!['.', '.']));
        out.push(Component::Normal(String::from_str(seg)));
    }
    assert(parts_view(out@) =~= parts_view(before) + part_of(seg@));
}

/// The components of the path `s`.
pub fn path_components(s: &str) -> (v: Vec<Component>)
    ensures
        parts_view(v@) == components(s@),
        v@.len() == components(s@).len(),
        forall|i: int| 0 <= i < v@.len() ==> #[trigger] v@[i]@ == components(s@)[i],
{
    let n = s.unicode_len();
    let mut out: Vec<Component> = Vec::new();
    if n > 0 && s.get_char(0) == '/' {
        out.push(Component::Root);
    } else if n > 0 && s.get_char(0) == '.' && (n == 1 || s.get_char(1) == '/') {
        out.push(Component::Current);
    }
    assert(parts_view(out@) =~= lead_part(s@));
    let mut start: usize = 0;
    let mut i: usize = 0;
    assert(s@.subrange(0, n as int) =~= s@);
    while i < n
        invariant
            start <= i <= n,
            n == s@.len(),
            forall|k: int| start <= k < i ==> s@[k] != '/',
            components(s@) == parts_view(out@) + body_parts(s@.subrange(start as int, n as int)),
        decreases n - i,
    {
        if s.get_char(i) == '/' {
            let ghost rest = s@.subrange(start as int, n as int);
            let ghost j = i - start;
            assert forall|k: int| 0 <= k < j implies rest[k] != '/' by {
                assert(rest[k] == s@[start + k]);
            }
            assert(rest[j] == s@[i as int]);
            proof { lemma_run_len_at(rest, j, '/'); }
            assert(rest.take(j) =~= s@.subrange(start as int, i as int));
            assert(rest.skip(j + 1) =~= s@.subrange(i + 1, n as int));
            let seg = s.substring_char(start, i);
            let ghost before = out@;
            push_segment(&mut out, seg);
            assert(body_parts(rest) == part_of(seg@) + body_parts(s@.subrange(i + 1, n as int)));
            assert(parts_view(before) + body_parts(rest) =~= parts_view(out@) + body_parts(
                s@.subrange(i + 1, n as int),
            ));
            start = i + 1;
        }
        i = i + 1;
    }
    let ghost rest = s@.subrange(start as int, n as int);
    assert forall|k: int| 0 <= k < rest.len() implies rest[k] != '/' by {
        assert(rest[k] == s@[start + k]);
    }
    proof { lemma_run_len_at(rest, rest.len() as int, '/'); }
    let seg = s.substring_char(start, n);
    let ghost before = out@;
    push_segment(&mut out, seg);
    assert(parts_view(before) + body_parts(rest) =~= parts_view(out@));
    assert forall|i: int| 0 <= i < out@.len() implies #[trigger] out@[i]@ == components(s@)[i] by {
        assert(parts_view(out@)[i] == out@[i]@);
    }
    out
}

fn same_component(a: &Component, b: &Component) -> (r: bool)
    ensures
        r == (a@ == b@),
{
    match (a, b) {
        (Component::Root, Component::Root) => true,
        (Component::Current, Component::Current) => true,
        (Component::Parent, Component::Parent) => true,
        (Component::Normal(x), Component::Normal(y)) => {
            let same = *x == *y;
            same
        },
        _ => false,
    }
}

/// Whether `base`'s components are a prefix of `path`'s.
pub fn starts_with(path: &str, base: &str) -> (r: bool)
    ensures
        r == path_starts_with(path@, base@),
{
    let p = path_components(path);
    let b = path_components(base);
    let ghost pv = parts_view(p@);
    let ghost bv = parts_view(b@);
    assert(pv.len() == p@.len() && bv.len() == b@.len());
    if b.len() > p.len() {
        return false;
    }
    let mut i: usize = 0;
    while i < b.len()
        invariant
            i <= b.len() <= p.len(),
            pv == parts_view(p@),
            bv == parts_view(b@),
            pv == components(path@),
            bv == components(base@),
            forall|j: int| 0 <= j < i ==> pv[j] == bv[j],
        decreases b.len() - i,
    {
        if !same_component(&p[i], &b[i]) {
            assert(pv.take(b.len() as int)[i as int] != bv[i as int]);
            assert(!(pv.take(b.len() as int) =~= bv));

            return false;
        }
        i = i + 1;
    }
    assert(pv.take(b.len() as int) =~= bv);
    true
}

/// `base` joined with `rel` (`Path::join`).
pub fn join(base: &str, rel: &str) -> (out: String)
    ensures
        out@ == join_path(base@, rel@),
{
    let rn = rel.unicode_len();
    if rn > 0 && rel.get_char(0) == '/' {
        return String::from_str(rel);
    }
    let bn = base.unicode_len();
    let mut out = String::from_str(base);
    if bn > 0 && base.get_char(bn - 1) != '/' {
        let sep = "/";
        proof {
            reveal_strlit("/");
        }
        out.append(sep);
    }
    out.append(rel);
    out
}

/// A request path made relative: leading and trailing `/` trimmed, then
/// every `..` removed.
pub open spec fn sanitize_rel(rel: Seq<char>) -> Seq<char> {
    remove_dot_pairs(trim_char(rel, '/'))
}

/// The path a request names: an absolute request as it is, a relative one
/// sanitised and joined to `root`.
pub open spec fn resolve_request(root: Seq<char>, rel: Seq<char>) -> Seq<char> {
    if rel.len() > 0 && rel[0] == '/' {
        rel
    } else {
        join_path(root, sanitize_rel(rel))
    }
}

/// The path a request names, when it lies under `root` by components.
pub open spec fn safe_path_spec(root: Seq<char>, rel: Seq<char>) -> Option<Seq<char>> {
    let p = resolve_request(root, rel);
    if path_starts_with(p, root) {
        Some(p)
    } else {
        None
    }
}

/// The view of an optional string.
pub open spec fn opt_view(o: Option<String>) -> Option<Seq<char>> {
    match o {
        Some(s) => Some(s@),
        None => None,
    }
}

/// Trims `/` from both ends of a request path and removes every `..`.
pub fn sanitize(rel: &str) -> (out: String)
    ensures
        out@ == sanitize_rel(rel@),
        no_dot_pair(out@),
{
    let trimmed = trim_char_exec(rel, '/');
    let out = remove_dot_pairs_exec(trimmed.as_str());
    proof {
        lemma_remove_dot_pairs_no_pair(trimmed@);
    }
    out
}

/// The file-system path that a request names under `music_root`, or `None`
/// when it does not start with `music_root` by whole components.
pub fn safe_path(music_root: &str, rel: &str) -> (r: Option<String>)
    ensures
        opt_view(r) == safe_path_spec(music_root@, rel@),
        r matches Some(p) ==> path_starts_with(p@, music_root@),
{
    let path = if rel.unicode_len() > 0 && rel.get_char(0) == '/' {
        String::from_str(rel)
    } else {
        let clean = sanitize(rel);
        join(music_root, clean.as_str())
    };
    if starts_with(path.as_str(), music_root) {
        Some(path)
    } else {
        None
    }
}

/// A relative request never leaves the root: what follows the root's own
/// components is made of ordinary names only, and unless sanitising
/// leaves a leading `/`, the request is always granted as the root joined
/// with the sanitised text.
pub proof fn law_relative_request_stays_under_root(root: Seq<char>, rel: Seq<char>)
    requires
        root.len() > 0,
        !(rel.len() > 0 && rel[0] == '/'),
    ensures
        safe_path_spec(root, rel) matches Some(p) ==> {
            let n = components(root).len();
            &&& components(p).take(n as int) == components(root)
            &&& forall|i: int| n <= i < components(p).len() ==> #[trigger] components(p)[i] is Normal
        },
        !(sanitize_rel(rel).len() > 0 && sanitize_rel(rel)[0] == '/') ==> safe_path_spec(root, rel)
            == Some(join_path(root, sanitize_rel(rel))),
{
    let s = sanitize_rel(rel);
    lemma_remove_dot_pairs_no_pair(trim_char(rel, '/'));
    lemma_body_parts_kinds(s);
    let n = components(root).len();
    if !(s.len() > 0 && s[0] == '/') {
        lemma_join_components(root, s);
        let p = join_path(root, s);
        assert(components(p).take(n as int) =~= components(root));
        assert forall|i: int| n <= i < components(p).len() implies #[trigger] components(p)[i] is Normal by {
            assert(components(p)[i] == body_parts(s)[i - n]);
        }
    } else {
        let p = s;
        if path_starts_with(p, root) {
            lemma_components_nonempty(root);
            assert(lead_part(p) == seq![PathPart::Root]);
            assert forall|i: int| n <= i < components(p).len() implies #[trigger] components(p)[i] is Normal by {
                assert(components(p)[i] == body_parts(s)[i - 1]);
            }
        }
    }
}

/// Whatever the request, a granted path starts with the root by whole
/// components, and a sanitised request holds no `..`.
pub proof fn law_granted_paths_start_with_root(root: Seq<char>, rel: Seq<char>)
    ensures
        safe_path_spec(root, rel) matches Some(p) ==> path_starts_with(p, root),
        no_dot_pair(sanitize_rel(rel)),
{
    lemma_remove_dot_pairs_no_pair(trim_char(rel, '/'));
}


/// Under an absolute root every granted path is absolute, and asking
/// for it again grants the same path: what a listing or rename hands back
/// can be used as a request as it is.
pub proof fn law_granted_path_is_stable(root: Seq<char>, rel: Seq<char>)
    requires
        root.len() > 0,
        root[0] == '/',
    ensures
        safe_path_spec(root, rel) matches Some(p) ==> p.len() > 0 && p[0] == '/'
            && safe_path_spec(root, p) == Some(p),
{
    let p = resolve_request(root, rel);
    if !(rel.len() > 0 && rel[0] == '/') {
        let s = sanitize_rel(rel);
        if !(s.len() > 0 && s[0] == '/') {
            if root.last() == '/' {
                assert(p == root + s);
            } else {
                assert(p == root + seq!['/'] + s);
            }
            assert(p[0] == root[0]);
        }
    }
}

/// The last component of `s` when it is a name (`Path::file_name`).
pub open spec fn spec_file_name(s: Seq<char>) -> Option<Seq<char>> {
    let c = components(s);
    if c.len() > 0 {
        match c.last() {
            PathPart::Normal(name) => Some(name),
            _ => None,
        }
    } else {
        None
    }
}

/// Index of the last `.` in `name`, or -1.
pub open spec fn last_dot(name: Seq<char>) -> int
    decreases name.len(),
{
    if name.len() == 0 {
        -1
    } else if name.last() == '.' {
        name.len() - 1
    } else {
        last_dot(name.drop_last())
    }
}

/// What follows the last `.` of a file name, unless that dot is the
/// first character or there is none.
pub open spec fn name_extension(name: Seq<char>) -> Option<Seq<char>> {
    let d = last_dot(name);
    if d <= 0 {
        None
    } else {
        Some(name.skip(d + 1))
    }
}

/// A file name without its extension.
pub open spec fn name_stem(name: Seq<char>) -> Seq<char> {
    let d = last_dot(name);
    if d <= 0 {
        name
    } else {
        name.take(d)
    }
}

/// `Path::extension`.
pub open spec fn spec_extension(s: Seq<char>) -> Option<Seq<char>> {
    match spec_file_name(s) {
        Some(name) => name_extension(name),
        None => None,
    }
}

/// `Path::file_stem`.
pub open spec fn spec_file_stem(s: Seq<char>) -> Option<Seq<char>> {
    match spec_file_name(s) {
        Some(name) => Some(name_stem(name)),
        None => None,
    }
}

/// `e` equals `mp3` ignoring ASCII case.
pub open spec fn is_mp3_ext(e: Seq<char>) -> bool {
    &&& e.len() == 3
    &&& (e[0] == 'm' || e[0] == 'M')
    &&& (e[1] == 'p' || e[1] == 'P')
    &&& e[2] == '3'
}

/// The path names a file whose extension is `mp3` in any ASCII case.
pub open spec fn is_mp3_path(s: Seq<char>) -> bool {
    spec_extension(s) matches Some(e) && is_mp3_ext(e)
}

pub proof fn lemma_last_dot(name: Seq<char>)
    ensures
        -1 <= last_dot(name) < name.len(),
        last_dot(name) >= 0 ==> name[last_dot(name)] == '.',
        forall|i: int| last_dot(name) < i < name.len() ==> name[i] != '.',
    decreases name.len(),
{
    if name.len() > 0 && name.last() != '.' {
        lemma_last_dot(name.drop_last());
        assert forall|i: int| last_dot(name) < i < name.len() implies name[i] != '.' by {
            if i < name.len() - 1 {
                assert(name[i] == name.drop_last()[i]);
            }
        }
    }
}

/// The last name of `path` (`Path::file_name`).
pub fn file_name(path: &str) -> (r: Option<String>)
    ensures
        opt_view(r) == spec_file_name(path@),
{
    let parts = path_components(path);
    let n = parts.len();
    if n == 0 {
        return None;
    }
    assert(parts_view(parts@).last() == parts@[n - 1]@);
    match &parts[n - 1] {
        Component::Normal(name) => Some(name.clone()),
        _ => None,
    }
}

fn find_last_dot(name: &str) -> (r: Option<usize>)
    ensures
        match r {
            Some(d) => last_dot(name@) == d && d < name@.len(),
            None => last_dot(name@) == -1,
        },
{
    let n = name.unicode_len();
    let mut i: usize = n;
    proof {
        lemma_last_dot(name@);
    }
    while i > 0
        invariant
            i <= n,
            n == name@.len(),
            -1 <= last_dot(name@) < n,
            last_dot(name@) >= 0 ==> name@[last_dot(name@)] == '.',
            forall|k: int| last_dot(name@) < k < n ==> name@[k] != '.',
            forall|k: int| i <= k < n ==> name@[k] != '.',
        decreases i,
    {
        if name.get_char(i - 1) == '.' {
            return Some(i - 1);
        }
        i = i - 1;
    }
    None
}

/// What follows the last dot of the file name of `path` (`Path::extension`).
pub fn extension(path: &str) -> (r: Option<String>)
    ensures
        opt_view(r) == spec_extension(path@),
{
    match file_name(path) {
        None => None,
        Some(name) => {
            let n = name.unicode_len();
            match find_last_dot(name.as_str()) {
                Some(d) => {
                    if d == 0 {
                        None
                    } else {
                        Some(String::from_str(name.as_str().substring_char(d + 1, n)))
                    }
                },
                None => None,
            }
        },
    }
}

/// The file name of `path` without its extension (`Path::file_stem`).
pub fn file_stem(path: &str) -> (r: Option<String>)
    ensures
        opt_view(r) == spec_file_stem(path@),
{
    match file_name(path) {
        None => None,
        Some(name) => {
            match find_last_dot(name.as_str()) {
                Some(d) => {
                    if d == 0 {
                        Some(name)
                    } else {
                        Some(String::from_str(name.as_str().substring_char(0, d)))
                    }
                },
                None => Some(name),
            }
        },
    }
}

/// Whether `path` names a file with extension `mp3`, in any ASCII case.
pub fn is_mp3(path: &str) -> (r: bool)
    ensures
        r == is_mp3_path(path@),
{
    match extension(path) {
        None => false,
        Some(e) => {
            let s = e.as_str();
            if s.unicode_len() != 3 {
                return false;
            }
            let c0 = s.get_char(0);
            let c1 = s.get_char(1);
            let c2 = s.get_char(2);
            (c0 == 'm' || c0 == 'M') && (c1 == 'p' || c1 == 'P') && c2 == '3'
        },
    }
}


proof fn lemma_last_name(dir: Seq<char>, name: Seq<char>)
    requires
        name.len() > 0,
        forall|i: int| 0 <= i < name.len() ==> name[i] != '/',
        !(name =~= seq!['.']),
        !(name =~= seq!['.', '.']),
    ensures
        spec_file_name(dir + seq!['/'] + name) == Some(name),
{
    let x = dir + seq!['/'] + name;
    lemma_body_parts_concat(dir, name);
    lemma_run_len_at(name, name.len() as int, '/');
    assert(body_parts(name) == part_of(name));
    assert(part_of(name) == seq![PathPart::Normal(name)]);
    let c = components(x);
    assert(c =~= lead_part(x) + body_parts(dir) + seq![PathPart::Normal(name)]);
    assert(c.last() == PathPart::Normal(name));
}

/// A file name read back from `dir/stem.ext`: the name is what follows
/// the last `/`, the extension what follows its last dot, the stem what
/// precedes that dot (dots inside the stem stay in it); the path is an mp3
/// path exactly when that extension is `mp3` in any ASCII case.
pub proof fn law_file_name_parts(dir: Seq<char>, stem: Seq<char>, ext: Seq<char>)
    requires
        stem.len() > 0,
        forall|i: int| 0 <= i < stem.len() ==> stem[i] != '/',
        forall|i: int| 0 <= i < ext.len() ==> ext[i] != '/' && ext[i] != '.',
        !(stem =~= seq!['.'] && ext.len() == 0),
    ensures
        spec_file_name(dir + seq!['/'] + (stem + seq!['.'] + ext)) == Some(stem + seq!['.'] + ext),
        spec_extension(dir + seq!['/'] + (stem + seq!['.'] + ext)) == Some(ext),
        spec_file_stem(dir + seq!['/'] + (stem + seq!['.'] + ext)) == Some(stem),
        is_mp3_path(dir + seq!['/'] + (stem + seq!['.'] + ext)) <==> (ext.len() == 3 && (ext[0] == 'm'
            || ext[0] == 'M') && (ext[1] == 'p' || ext[1] == 'P') && ext[2] == '3'),
{
    let name = stem + seq!['.'] + ext;
    let n = stem.len() as int;
    assert forall|i: int| 0 <= i < name.len() implies name[i] != '/' by {
        if i < n {
            assert(name[i] == stem[i]);
        } else if i > n {
            assert(name[i] == ext[i - n - 1]);
        }
    }
    if name =~= seq!['.', '.'] {
        assert(stem.len() == 1 && stem[0] == name[0]);
        assert(stem =~= seq!['.']);
    }
    lemma_last_name(dir, name);
    lemma_last_dot(name);
    let d = last_dot(name);
    assert(name[n] == '.');
    if d < n {
        assert(name[n] != '.');
    }
    if d > n {
        assert(name[d] == ext[d - n - 1]);
    }
    assert(d == n);
    assert(name.skip(n + 1) =~= ext);
    assert(name.take(n) =~= stem);
}

/// A file name with no dot after its first character has no extension;
/// its stem is the whole name and it is not an mp3 path.
pub proof fn law_file_name_without_extension(dir: Seq<char>, name: Seq<char>)
    requires
        name.len() > 0,
        forall|i: int| 0 <= i < name.len() ==> name[i] != '/',
        forall|i: int| 0 < i < name.len() ==> name[i] != '.',
        !(name =~= seq!['.']),
    ensures
        spec_file_name(dir + seq!['/'] + name) == Some(name),
        spec_extension(dir + seq!['/'] + name) is None,
        spec_file_stem(dir + seq!['/'] + name) == Some(name),
        !is_mp3_path(dir + seq!['/'] + name),
{
    if name =~= seq!['.', '.'] {
        assert(name[1] == '.');
    }
    lemma_last_name(dir, name);
    lemma_last_dot(name);
    let d = last_dot(name);
    if d > 0 {
        assert(name[d] == '.');
    }
    assert(d <= 0);
}


/// What one more segment after a separator adds to a non-empty path: a
/// name adds itself, `..` adds a parent, and `.` or nothing adds nothing.
pub proof fn law_components_of_one_more_segment(dir: Seq<char>, seg: Seq<char>)
    requires
        dir.len() > 0,
        forall|i: int| 0 <= i < seg.len() ==> seg[i] != '/',
    ensures
        (seg.len() == 0 || seg == seq!['.']) ==> components(dir + seq!['/'] + seg) == components(dir),
        seg == seq!['.', '.'] ==> components(dir + seq!['/'] + seg) == components(dir).push(
            PathPart::Parent,
        ),
        (seg.len() > 0 && seg != seq!['.'] && seg != seq!['.', '.']) ==> components(
            dir + seq!['/'] + seg,
        ) == components(dir).push(PathPart::Normal(seg)),
{
    lemma_join_components(dir, seg);
    lemma_run_len_at(seg, seg.len() as int, '/');
    assert(body_parts(seg) == part_of(seg));
    if dir.last() == '/' {
        assert(join_path(dir, seg) == dir + seg);
        assert(dir + seq!['/'] + seg =~= dir.drop_last() + seq!['/'] + (seq!['/'] + seg));
        assert(dir =~= dir.drop_last() + seq!['/'] + Seq::<char>::empty());
        lemma_body_parts_concat(dir.drop_last(), seq!['/'] + seg);
        lemma_body_parts_concat(dir.drop_last(), Seq::<char>::empty());
        lemma_body_parts_concat(Seq::<char>::empty(), seg);
        assert(Seq::<char>::empty() + seq!['/'] + seg =~= seq!['/'] + seg);
        assert(body_parts(Seq::<char>::empty()) =~= Seq::<PathPart>::empty());
        let x = dir + seq!['/'] + seg;
        assert(x[0] == dir[0]);
        if dir.len() > 1 {
            assert(x[1] == dir[1]);
        }
        assert(lead_part(x) == lead_part(dir));
        assert(components(x) =~= components(dir) + body_parts(seg));
    } else {
        assert(join_path(dir, seg) == dir + seq!['/'] + seg);
    }
    assert(components(dir) + Seq::<PathPart>::empty() =~= components(dir));
}

/// Sanitising a request only cuts `/` from its ends and drops dots: what
/// remains of its other characters is, in order, a contiguous part of the
/// request whose cut ends were all `/`; a request without dots is just
/// trimmed of `/`.
pub proof fn law_sanitize_only_trims_and_drops_dots(rel: Seq<char>)
    ensures
        exists|i: int, j: int|
            0 <= i <= j <= rel.len() && (forall|k: int| 0 <= k < i ==> rel[k] == '/') && (forall|k: int|
                j <= k < rel.len() ==> rel[k] == '/') && sanitize_rel(rel).filter(not_dot())
                == rel.subrange(i, j).filter(not_dot()) && ((forall|k: int|
                0 <= k < rel.len() ==> rel[k] != '.') ==> sanitize_rel(rel) == rel.subrange(i, j)),
        no_dot_pair(sanitize_rel(rel)),
{
    law_trim_char_cuts_only_ends(rel, '/');
    let t = trim_char(rel, '/');
    law_dot_removal_only_drops_dots(t);
    lemma_remove_dot_pairs_no_pair(t);
    let (i, j) = choose|i: int, j: int|
        0 <= i <= j <= rel.len() && t == rel.subrange(i, j) && (forall|k: int|
            0 <= k < i ==> rel[k] == '/') && (forall|k: int| j <= k < rel.len() ==> rel[k] == '/');
    if forall|k: int| 0 <= k < rel.len() ==> rel[k] != '.' {
        assert forall|k: int| 0 <= k < t.len() implies t[k] != '.' by {
            assert(t[k] == rel[i + k]);
        }
    }
    assert(0 <= i <= j <= rel.len() && (forall|k: int| 0 <= k < i ==> rel[k] == '/') && (forall|k: int|
        j <= k < rel.len() ==> rel[k] == '/') && sanitize_rel(rel).filter(not_dot()) == rel.subrange(
        i,
        j,
    ).filter(not_dot()) && ((forall|k: int| 0 <= k < rel.len() ==> rel[k] != '.') ==> sanitize_rel(
        rel,
    ) == rel.subrange(i, j)));
}


/// A path starts with a base exactly when, component by component, the
/// base's components open the path's: whole names are compared, never
/// parts of them.
pub proof fn law_starts_with_whole_components(path: Seq<char>, base: Seq<char>)
    ensures
        path_starts_with(path, base) <==> (components(base).len() <= components(path).len()
            && forall|i: int|
            0 <= i < components(base).len() ==> #[trigger] components(path)[i] == components(base)[i]),
{
    let p = components(path);
    let b = components(base);
    if b.len() <= p.len() && forall|i: int| 0 <= i < b.len() ==> #[trigger] p[i] == b[i] {
        assert(p.take(b.len() as int) =~= b);
    }
    if path_starts_with(path, base) {
        assert forall|i: int| 0 <= i < b.len() implies #[trigger] p[i] == b[i] by {
            assert(p.take(b.len() as int)[i] == p[i]);
        }
    }
}


/// An optional string's view is present exactly when the string is, and is
/// then that string's text.
pub proof fn law_opt_view(o: Option<String>)
    ensures
        o matches Some(x) ==> opt_view(o) == Some(x@),
        o is None ==> opt_view(o) is None,
{
}

} // verus!
