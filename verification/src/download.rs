//! The decisions of the `download` command: which releases are wanted
//! (resolution cap, arc filter, Extended preference, best per episode),
//! what becomes of each one (already in the library, already queued, or
//! queued into which folder), and how host paths are shown to a
//! containerized qBittorrent. Fetching, the torrent client and the
//! filesystem stay with the application.

use vstd::prelude::*;

use crate::dl::{self, Release, ReleaseView};
use crate::matcher::{self, ParsedFile, arc_from_folder_name, normalize_arc};
use crate::paths::{self, strip_prefix, join, starts_with, comps_exec};
use crate::text::{self, chars_of, string_of, slice_chars, push_all, push_str, trim, trim_range,
    to_ascii_lowercase, contains_chars, first_index_exec, has_prefix_exec, parse_u32_range,
    debug_quote, str_eq_chars};

verus! {

/// Settings of one `download` run.
pub struct Options {
    pub qbt_url: String,
    pub qbt_user: String,
    pub qbt_pass: String,
    pub qbt_category: Option<String>,
    pub resolution: String,
    /// How long cached upstream responses stay fresh, in seconds.
    pub cache_ttl_secs: u64,
    pub refresh: bool,
    pub dry_run: bool,
    pub prepopulate_nfo: bool,
    pub requeue_existing: bool,
    pub prefer_extended: bool,
    pub only_arc: Option<String>,
    /// `HOST=CONTAINER`: translate save paths from this machine's view to
    /// qBittorrent's when they differ (Docker mount tables and the like).
    pub save_path_map: Option<String>,
    pub fail_on_empty: bool,
}

// ---------- save-path map ----------

pub open spec fn slash_pred() -> spec_fn(char) -> bool {
    |c: char| c == '/'
}

/// `s.trim_end_matches('/')`.
pub open spec fn strip_trailing_slashes(s: Seq<char>) -> Seq<char> {
    s.take(s.len() - text::trail_run(s, slash_pred()))
}

/// A parsed `--save-path-map`: host prefix and the container path it
/// stands for.
pub struct PathMap {
    pub host: String,
    pub container: String,
}

/// Why a `--save-path-map` value was refused.
pub enum PathMapError {
    /// No `=` in the value.
    MissingEquals { input: String },
    /// A side is empty once trailing slashes are dropped.
    EmptySide { input: String },
}

pub open spec fn path_map_error_message(missing_equals: bool, input: Seq<char>) -> Seq<char> {
    if missing_equals {
        "--save-path-map must be HOST=CONTAINER (e.g. /mnt/media=/downloads), got "@
            + text::debug_quoted(input)
    } else {
        "--save-path-map sides must be non-empty: "@ + text::debug_quoted(input)
    }
}

impl PathMapError {
    pub fn message(&self) -> (r: String)
        ensures
            r@ == match self {
                PathMapError::MissingEquals { input } => path_map_error_message(true, input@),
                PathMapError::EmptySide { input } => path_map_error_message(false, input@),
            },
    {
        let mut out: Vec<char> = Vec::new();
        match self {
            PathMapError::MissingEquals { input } => {
                push_str(&mut out, "--save-path-map must be HOST=CONTAINER (e.g. /mnt/media=/downloads), got ");
                push_str(&mut out, debug_quote(input.as_str()).as_str());
            },
            PathMapError::EmptySide { input } => {
                push_str(&mut out, "--save-path-map sides must be non-empty: ");
                push_str(&mut out, debug_quote(input.as_str()).as_str());
            },
        }
        string_of(&out)
    }
}

/// What parsing a `--save-path-map` gives: split at the first `=`, each
/// side without trailing slashes; `None` for the error (`true`: no `=`).
pub open spec fn path_map_spec(s: Seq<char>) -> Result<(Seq<char>, Seq<char>), bool> {
    match text::first_index(s, '=') {
        None => Err(true),
        Some(i) => {
            let h = strip_trailing_slashes(s.take(i));
            let c = strip_trailing_slashes(s.skip(i + 1));
            if h.len() == 0 || c.len() == 0 {
                Err(false)
            } else {
                Ok((h, c))
            }
        },
    }
}

fn strip_trailing_slashes_range(s: &Vec<char>, lo: usize, hi: usize) -> (r: Vec<char>)
    requires
        lo <= hi <= s@.len(),
    ensures
        r@ == strip_trailing_slashes(s@.subrange(lo as int, hi as int)),
{
    let ghost sub = s@.subrange(lo as int, hi as int);
    let mut e = hi;
    while e > lo && s[e - 1] == '/'
        invariant
            lo <= e <= hi <= s@.len(),
            forall|i: int| e <= i < hi ==> #[trigger] s@[i] == '/',
        decreases e - lo,
    {
        e = e - 1;
    }
    proof {
        assert forall|i: int| sub.len() - (hi - e) <= i < sub.len() implies #[trigger] slash_pred()(sub[i]) by {
            assert(sub[i] == s@[lo + i]);
        }
        if e > lo {
            assert(sub[sub.len() - (hi - e) - 1] == s@[e - 1]);
        }
        text::lemma_trail_run_unique(sub, slash_pred(), hi - e);
        assert(sub.take(e - lo) == s@.subrange(lo as int, e as int));
    }
    slice_chars(s, lo, e)
}

impl PathMap {
    /// Parses `HOST=CONTAINER`, splitting at the first `=` and dropping
    /// trailing slashes on each side. The host side is taken as written;
    /// resolving symbolic links is left to the caller.
    pub fn parse(s: &str) -> (r: Result<PathMap, PathMapError>)
        ensures
            match r {
                Ok(m) => path_map_spec(s@) == Ok::<(Seq<char>, Seq<char>), bool>((m.host@, m.container@)),
                Err(PathMapError::MissingEquals { input }) => path_map_spec(s@) == Err::<
                    (Seq<char>, Seq<char>),
                    bool,
                >(true) && input@ == s@,
                Err(PathMapError::EmptySide { input }) => path_map_spec(s@) == Err::<
                    (Seq<char>, Seq<char>),
                    bool,
                >(false) && input@ == s@,
            },
    {
        let c = chars_of(s);
        let n = c.len();
        let i = match first_index_exec(&c, '=') {
            Some(i) => i,
            None => {
                return Err(PathMapError::MissingEquals { input: s.to_owned() });
            },
        };
        let h = strip_trailing_slashes_range(&c, 0, i);
        let k = strip_trailing_slashes_range(&c, i + 1, c.len());
        assert(c@.subrange(0, i as int) == c@.take(i as int));
        assert(c@.subrange(i + 1, c@.len() as int) == c@.skip(i + 1));
        if h.len() == 0 || k.len() == 0 {
            return Err(PathMapError::EmptySide { input: s.to_owned() });
        }
        Ok(PathMap { host: string_of(&h), container: string_of(&k) })
    }

    /// A host-side path as the container sees it: the part under the host
    /// prefix joined onto the container path; `None` outside the prefix.
    pub fn translate(&self, host_path: &str) -> (r: Option<String>)
        ensures
            match paths::strip_prefix_spec(host_path@, self.host@) {
                Some(t) => r matches Some(p) && p@ == paths::join_spec(self.container@, t),
                None => r is None,
            },
    {
        match strip_prefix(host_path, self.host.as_str()) {
            Some(tail) => Some(join(self.container.as_str(), tail.as_str())),
            None => None,
        }
    }

    /// Whether the host prefix is a parent of (or is) the library root.
    pub fn applies_to(&self, root: &str) -> (r: bool)
        ensures
            r == paths::starts_with_spec(root@, self.host@),
    {
        starts_with(root, self.host.as_str())
    }
}

// ---------- resolution cap ----------

pub open spec fn p_pred() -> spec_fn(char) -> bool {
    |c: char| c == 'p'
}

/// `--resolution` as a pixel height: trimmed, ASCII-lowercased, trailing
/// `p`s dropped, then a `u32`.
pub open spec fn resolution_cap_spec(s: Seq<char>) -> Option<u32> {
    let t = text::seq_ascii_lower(text::trim_spec(s));
    text::parse_u32_spec(t.take(t.len() - text::trail_run(t, p_pred())))
}

/// A `--resolution` value that is not a height.
pub struct ResolutionError {
    pub input: String,
}

impl ResolutionError {
    pub fn message(&self) -> (r: String)
        ensures
            r@ == "invalid --resolution "@ + text::debug_quoted(self.input@)
                + ": expected `1080p`, `720p`, …"@,
    {
        let mut out: Vec<char> = Vec::new();
        push_str(&mut out, "invalid --resolution ");
        push_str(&mut out, debug_quote(self.input.as_str()).as_str());
        push_str(&mut out, ": expected `1080p`, `720p`, …");
        string_of(&out)
    }
}

/// Accepts `1080p`, `1080P`, `1080`, `720p`, ... as a height cap.
pub fn parse_resolution_cap(s: &str) -> (r: Result<u32, ResolutionError>)
    ensures
        match r {
            Ok(h) => resolution_cap_spec(s@) == Some(h),
            Err(e) => resolution_cap_spec(s@) is None && e.input@ == s@,
        },
{
    let c = chars_of(s);
    let t = trim(&c);
    let lower = to_ascii_lowercase(&t);
    let n = lower.len();
    let mut e = n;
    while e > 0 && lower[e - 1] == 'p'
        invariant
            e <= n == lower@.len(),
            forall|i: int| e <= i < n ==> #[trigger] lower@[i] == 'p',
        decreases e,
    {
        e = e - 1;
    }
    proof {
        let l = lower@;
        assert forall|i: int| l.len() - (n - e) <= i < l.len() implies #[trigger] p_pred()(l[i]) by {}
        text::lemma_trail_run_unique(l, p_pred(), n - e);
        assert(l.subrange(0, e as int) == l.take(e as int));
    }
    match parse_u32_range(&lower, 0, e) {
        Some(h) => Ok(h),
        None => Err(ResolutionError { input: s.to_owned() }),
    }
}

// ---------- log helpers ----------

/// `magnet:?`
pub open spec fn magnet_prefix() -> Seq<char> {
    seq!['m', 'a', 'g', 'n', 'e', 't', ':', '?']
}

/// A magnet shortened for logs: up to its first `&` (marked with `…`);
/// anything else cut to 80 characters.
pub open spec fn short_magnet_spec(m: Seq<char>) -> Seq<char> {
    if text::has_prefix(m, magnet_prefix()) && text::first_index(m.skip(8), '&') is Some {
        magnet_prefix() + m.skip(8).take(text::first_index(m.skip(8), '&').unwrap()) + seq!['…']
    } else if m.len() <= 80 {
        m
    } else {
        m.take(80)
    }
}

pub fn short_magnet(m: &str) -> (r: String)
    ensures
        r@ == short_magnet_spec(m@),
{
    let s = chars_of(m);
    let pfx = vec!['m', 'a', 'g', 'n', 'e', 't', ':', '?'];
    assert(pfx@ == magnet_prefix());
    if has_prefix_exec(&s, &pfx) {
        let rest = slice_chars(&s, 8, s.len());
        assert(rest@ == s@.skip(8));
        match first_index_exec(&rest, '&') {
            Some(e) => {
                let mut out = pfx;
                let head = slice_chars(&rest, 0, e);
                push_all(&mut out, &head);
                out.push('…');
                assert(head@ == rest@.take(e as int));
                return string_of(&out);
            },
            None => {},
        }
    }
    let k: usize = if s.len() <= 80 {
        s.len()
    } else {
        80
    };
    let out = slice_chars(&s, 0, k);
    assert(s@.len() <= 80 ==> s@.subrange(0, k as int) == s@);
    string_of(&out)
}

/// The leading component of an absolute path, as `/<name>`
/// (`/mnt/media/x` → `/mnt`); `None` for the root alone or a relative
/// path.
pub open spec fn top_component_spec(p: Seq<char>) -> Option<Seq<char>> {
    let c = paths::comps(p);
    if c.len() >= 2 && c[0] == paths::root_mark() {
        Some(seq!['/'] + c[1])
    } else {
        None
    }
}

pub fn top_component(p: &str) -> (r: Option<String>)
    ensures
        matcher::opt_view(r) == top_component_spec(p@),
{
    let s = chars_of(p);
    let c = comps_exec(&s);
    let ghost cv = c@.map_values(|v: Vec<char>| v@);
    if c.len() >= 2 && c[0].len() == 1 && c[0][0] == '/' {
        assert(cv[0] =~= paths::root_mark());
        let mut out: Vec<char> = Vec::new();
        out.push('/');
        push_all(&mut out, &c[1]);
        assert(cv[1] == c@[1]@);
        Some(string_of(&out))
    } else {
        proof {
            if c@.len() >= 2 && cv[0] == paths::root_mark() {
                assert(c@[0]@ == cv[0]);
                assert(c@[0]@[0] == '/');
            }
        }
        None
    }
}

// ---------- arc folders ----------

/// `[One Pace] <arc>`: the folder proposed for an arc not yet in the
/// library.
pub open spec fn proposed_folder_spec(arc: Seq<char>) -> Seq<char> {
    "[One Pace] "@ + arc
}

pub fn proposed_arc_folder(arc_name: &str) -> (r: String)
    ensures
        r@ == proposed_folder_spec(arc_name@),
{
    let mut out: Vec<char> = Vec::new();
    push_str(&mut out, "[One Pace] ");
    push_str(&mut out, arc_name);
    string_of(&out)
}

/// An existing folder is the arc's when its name is an arc folder of
/// that (normalized) arc.
pub open spec fn folder_is_arc(name: Seq<char>, target: Seq<char>) -> bool {
    match matcher::folder_arc_spec(name) {
        Some(a) => matcher::normalize_arc_spec(a) == target,
        None => false,
    }
}

/// A folder whose normalized name holds the (normalized) arc name.
pub open spec fn folder_mentions_arc(name: Seq<char>, target: Seq<char>) -> bool {
    text::contains_seq(matcher::normalize_arc_spec(name), target)
}

/// First directory name, from index `i` on, satisfying `f`.
pub open spec fn first_dir(
    dirs: Seq<Seq<char>>,
    target: Seq<char>,
    exact: bool,
    i: int,
) -> Option<Seq<char>>
    decreases dirs.len() - i,
{
    if i < 0 || i >= dirs.len() {
        None
    } else if (exact && folder_is_arc(dirs[i], target)) || (!exact && folder_mentions_arc(dirs[i], target)) {
        Some(dirs[i])
    } else {
        first_dir(dirs, target, exact, i + 1)
    }
}

/// The folder an arc's releases go to: the first arc folder of that arc,
/// else the first folder whose normalized name mentions it, else a new
/// `[One Pace] <arc>`.
pub open spec fn arc_folder_spec(dirs: Seq<Seq<char>>, arc: Seq<char>) -> Seq<char> {
    let t = matcher::normalize_arc_spec(arc);
    match first_dir(dirs, t, true, 0) {
        Some(d) => d,
        None => match first_dir(dirs, t, false, 0) {
            Some(d) => d,
            None => proposed_folder_spec(arc),
        },
    }
}

pub open spec fn string_views(v: Seq<String>) -> Seq<Seq<char>> {
    v.map_values(|s: String| s@)
}

fn first_dir_exec(dirs: &Vec<String>, target: &Vec<char>, exact: bool) -> (r: Option<usize>)
    ensures
        match r {
            Some(i) => i < dirs@.len() && first_dir(string_views(dirs@), target@, exact, 0) == Some(
                dirs@[i as int]@,
            ),
            None => first_dir(string_views(dirs@), target@, exact, 0) is None,
        },
{
    let ghost dv = string_views(dirs@);
    let mut i: usize = 0;
    while i < dirs.len()
        invariant
            i <= dirs@.len(),
            dv == string_views(dirs@),
            first_dir(dv, target@, exact, 0) == first_dir(dv, target@, exact, i as int),
        decreases dirs@.len() - i,
    {
        let name = dirs[i].as_str();
        assert(dv[i as int] == name@);
        let hit = if exact {
            match arc_from_folder_name(name) {
                Some(a) => str_eq_chars(normalize_arc(a.as_str()).as_str(), target),
                None => false,
            }
        } else {
            let n = chars_of(normalize_arc(name).as_str());
            contains_chars(&n, target)
        };
        if hit {
            return Some(i);
        }
        i = i + 1;
    }
    None
}

/// Picks the library folder for an arc among the directory names under
/// the library root (in listing order), or proposes a new one.
pub fn choose_arc_folder(dirs: &Vec<String>, arc_name: &str) -> (r: String)
    ensures
        r@ == arc_folder_spec(string_views(dirs@), arc_name@),
{
    let target = chars_of(normalize_arc(arc_name).as_str());
    match first_dir_exec(dirs, &target, true) {
        Some(i) => dirs[i].clone(),
        None => match first_dir_exec(dirs, &target, false) {
            Some(i) => dirs[i].clone(),
            None => proposed_arc_folder(arc_name),
        },
    }
}

// ---------- per-release decisions ----------

/// What the run does with a chosen release.
#[derive(Debug, Clone, Copy, PartialEq, Eq, Structural)]
pub enum ReleaseAction {
    /// Its file name is not a One Pace name.
    Unparseable,
    /// Its file name carries no CRC.
    NoCrc,
    /// A library file has its CRC.
    AlreadyHave,
    /// A torrent in the client has its CRC.
    AlreadyQueued,
    /// Queue it.
    Queue,
}

/// The action for a release given the library's CRCs and the client's:
/// a release the library has is requeued only on request.
pub open spec fn release_action_spec(
    r: ReleaseView,
    have: Seq<Seq<char>>,
    queued: Seq<Seq<char>>,
    requeue_existing: bool,
) -> ReleaseAction {
    match r.parsed {
        None => ReleaseAction::Unparseable,
        Some(p) => match p.crc32 {
            None => ReleaseAction::NoCrc,
            Some(c) => if !requeue_existing && have.contains(c) {
                ReleaseAction::AlreadyHave
            } else if queued.contains(c) {
                ReleaseAction::AlreadyQueued
            } else {
                ReleaseAction::Queue
            },
        },
    }
}

pub(crate) fn contains_string(v: &Vec<String>, x: &str) -> (r: bool)
    ensures
        r == string_views(v@).contains(x@),
{
    let ghost sv = string_views(v@);
    let xc = chars_of(x);
    let mut i: usize = 0;
    while i < v.len()
        invariant
            i <= v@.len(),
            sv == string_views(v@),
            xc@ == x@,
            forall|k: int| 0 <= k < i ==> sv[k] != x@,
        decreases v@.len() - i,
    {
        if str_eq_chars(v[i].as_str(), &xc) {
            assert(sv[i as int] == x@);
            return true;
        }
        i = i + 1;
    }
    false
}

pub fn release_action(
    release: &Release,
    have: &Vec<String>,
    queued: &Vec<String>,
    requeue_existing: bool,
) -> (r: ReleaseAction)
    ensures
        r == release_action_spec(release@, string_views(have@), string_views(queued@), requeue_existing),
{
    match &release.parsed {
        None => ReleaseAction::Unparseable,
        Some(p) => match &p.crc32 {
            None => ReleaseAction::NoCrc,
            Some(c) => {
                if !requeue_existing && contains_string(have, c.as_str()) {
                    ReleaseAction::AlreadyHave
                } else if contains_string(queued, c.as_str()) {
                    ReleaseAction::AlreadyQueued
                } else {
                    ReleaseAction::Queue
                }
            },
        },
    }
}

/// The CRCs among a list of file names (torrent names in the client, in
/// order): those of the names that parse as One Pace releases with a CRC.
pub open spec fn crcs_of_names_spec(names: Seq<Seq<char>>) -> Seq<Seq<char>>
    decreases names.len(),
{
    if names.len() == 0 {
        seq![]
    } else {
        let prev = crcs_of_names_spec(names.drop_last());
        match matcher::parse_filename_spec(names.last()) {
            Some(p) => match p.crc32 {
                Some(c) => prev.push(c),
                None => prev,
            },
            None => prev,
        }
    }
}

pub fn crcs_of_names(names: &Vec<String>) -> (r: Vec<String>)
    ensures
        string_views(r@) == crcs_of_names_spec(string_views(names@)),
{
    let ghost nv = string_views(names@);
    let mut out: Vec<String> = Vec::new();
    let mut i: usize = 0;
    while i < names.len()
        invariant
            i <= names@.len(),
            nv == string_views(names@),
            string_views(out@) == crcs_of_names_spec(nv.take(i as int)),
        decreases names@.len() - i,
    {
        assert(nv.take(i + 1).drop_last() == nv.take(i as int));
        assert(nv.take(i + 1).last() == names@[i as int]@);
        let ghost before = string_views(out@);
        match ParsedFile::from_filename(names[i].as_str()) {
            Some(p) => match p.crc32 {
                Some(c) => {
                    out.push(c);
                    assert(string_views(out@) =~= before.push(c@));
                },
                None => {},
            },
            None => {},
        }
        i = i + 1;
    }
    assert(nv.take(i as int) == nv);
    out
}

/// The CRCs of a library's files (paths in walk order): those of the
/// video files whose names parse as One Pace releases with a CRC.
pub open spec fn library_crcs_spec(paths: Seq<Seq<char>>) -> Seq<Seq<char>>
    decreases paths.len(),
{
    if paths.len() == 0 {
        seq![]
    } else {
        let prev = library_crcs_spec(paths.drop_last());
        let p = paths.last();
        if crate::scan::is_video_spec(p) {
            match paths::file_name_spec(p) {
                Some(n) => match matcher::parse_filename_spec(n) {
                    Some(f) => match f.crc32 {
                        Some(c) => prev.push(c),
                        None => prev,
                    },
                    None => prev,
                },
                None => prev,
            }
        } else {
            prev
        }
    }
}

pub fn library_crcs(paths: &Vec<String>) -> (r: Vec<String>)
    ensures
        string_views(r@) == library_crcs_spec(string_views(paths@)),
{
    let ghost pv = string_views(paths@);
    let mut out: Vec<String> = Vec::new();
    let mut i: usize = 0;
    while i < paths.len()
        invariant
            i <= paths@.len(),
            pv == string_views(paths@),
            string_views(out@) == library_crcs_spec(pv.take(i as int)),
        decreases paths@.len() - i,
    {
        assert(pv.take(i + 1).drop_last() == pv.take(i as int));
        assert(pv.take(i + 1).last() == paths@[i as int]@);
        let ghost before = string_views(out@);
        let p = paths[i].as_str();
        if crate::scan::is_video(p) {
            match ParsedFile::from_path(p) {
                Some(f) => match f.crc32 {
                    Some(c) => {
                        out.push(c);
                        assert(string_views(out@) =~= before.push(c@));
                    },
                    None => {},
                },
                None => {},
            }
        }
        i = i + 1;
    }
    assert(pv.take(i as int) == pv);
    out
}

/// Where a queued release is saved: `(host view, client view)`. The host
/// view is the arc folder under the library root; the client view is its
/// translation when a path map is set. `None` when the map does not cover
/// the host path.
pub open spec fn save_paths_spec(
    root: Seq<char>,
    folder: Seq<char>,
    map: Option<(Seq<char>, Seq<char>)>,
) -> Option<(Seq<char>, Seq<char>)> {
    let host = paths::join_spec(root, folder);
    match map {
        None => Some((host, host)),
        Some((h, c)) => match paths::strip_prefix_spec(host, h) {
            Some(t) => Some((host, paths::join_spec(c, t))),
            None => None,
        },
    }
}

pub fn save_paths(root: &str, folder: &str, map: &Option<PathMap>) -> (r: Option<(String, String)>)
    ensures
        match save_paths_spec(
            root@,
            folder@,
            match map {
                Some(m) => Some((m.host@, m.container@)),
                None => None,
            },
        ) {
            Some((h, c)) => r matches Some(p) && p.0@ == h && p.1@ == c,
            None => r is None,
        },
{
    let host = join(root, folder);
    match map {
        None => {
            let h2 = host.clone();
            Some((host, h2))
        },
        Some(m) => match m.translate(host.as_str()) {
            Some(c) => Some((host, c)),
            None => None,
        },
    }
}

/// A counter after one more event (when `hit`), saturating.
pub open spec fn bump(x: usize, hit: bool) -> usize {
    if hit && x < usize::MAX {
        (x + 1) as usize
    } else {
        x
    }
}

/// Tallies of one run.
pub struct RunStats {
    pub queued: usize,
    pub already_have: usize,
    pub already_queued: usize,
    pub unparseable: usize,
    pub no_crc: usize,
    pub queue_failed: usize,
    pub prepopulate_failed: usize,
}

impl RunStats {
    pub fn new() -> (r: RunStats)
        ensures
            r.queued == 0 && r.already_have == 0 && r.already_queued == 0 && r.unparseable == 0
                && r.no_crc == 0 && r.queue_failed == 0 && r.prepopulate_failed == 0,
    {
        RunStats {
            queued: 0,
            already_have: 0,
            already_queued: 0,
            unparseable: 0,
            no_crc: 0,
            queue_failed: 0,
            prepopulate_failed: 0,
        }
    }

    /// Counts a release skipped for `a` (anything but `Queue`).
    pub fn record_skip(&mut self, a: ReleaseAction)
        ensures
            final(self).unparseable == bump(old(self).unparseable, a == ReleaseAction::Unparseable),
            final(self).no_crc == bump(old(self).no_crc, a == ReleaseAction::NoCrc),
            final(self).already_have == bump(old(self).already_have, a == ReleaseAction::AlreadyHave),
            final(self).already_queued == bump(
                old(self).already_queued,
                a == ReleaseAction::AlreadyQueued,
            ),
            final(self).queued == old(self).queued,
            final(self).queue_failed == old(self).queue_failed,
            final(self).prepopulate_failed == old(self).prepopulate_failed,
    {
        match a {
            ReleaseAction::Unparseable => {
                self.unparseable = self.unparseable.saturating_add(1);
            },
            ReleaseAction::NoCrc => {
                self.no_crc = self.no_crc.saturating_add(1);
            },
            ReleaseAction::AlreadyHave => {
                self.already_have = self.already_have.saturating_add(1);
            },
            ReleaseAction::AlreadyQueued => {
                self.already_queued = self.already_queued.saturating_add(1);
            },
            ReleaseAction::Queue => {},
        }
    }

    /// Counts a release queued (or, in a dry run, that would be).
    pub fn record_queued(&mut self)
        ensures
            final(self).queued == bump(old(self).queued, true),
            final(self).already_have == old(self).already_have,
            final(self).already_queued == old(self).already_queued,
            final(self).unparseable == old(self).unparseable,
            final(self).no_crc == old(self).no_crc,
            final(self).queue_failed == old(self).queue_failed,
            final(self).prepopulate_failed == old(self).prepopulate_failed,
    {
        self.queued = self.queued.saturating_add(1);
    }

    /// Counts a release the client refused to queue.
    pub fn record_queue_failed(&mut self)
        ensures
            final(self).queue_failed == bump(old(self).queue_failed, true),
            final(self).queued == old(self).queued,
            final(self).already_have == old(self).already_have,
            final(self).already_queued == old(self).already_queued,
            final(self).unparseable == old(self).unparseable,
            final(self).no_crc == old(self).no_crc,
            final(self).prepopulate_failed == old(self).prepopulate_failed,
    {
        self.queue_failed = self.queue_failed.saturating_add(1);
    }

    /// Counts a queued release whose NFO could not be written ahead.
    pub fn record_prepopulate_failed(&mut self)
        ensures
            final(self).prepopulate_failed == bump(old(self).prepopulate_failed, true),
            final(self).queued == old(self).queued,
            final(self).already_have == old(self).already_have,
            final(self).already_queued == old(self).already_queued,
            final(self).unparseable == old(self).unparseable,
            final(self).no_crc == old(self).no_crc,
            final(self).queue_failed == old(self).queue_failed,
    {
        self.prepopulate_failed = self.prepopulate_failed.saturating_add(1);
    }

    /// The run's outcome: an error message when some torrents failed to
    /// queue.
    pub fn failure_message(&self) -> (r: Option<String>)
        ensures
            self.queue_failed == 0 <==> r is None,
            r matches Some(m) ==> m@ == text::decimal(self.queue_failed as nat)
                + " torrent(s) failed to queue (see warnings above)"@,
    {
        if self.queue_failed == 0 {
            return None;
        }
        let mut out = text::fmt_usize(self.queue_failed);
        push_str(&mut out, " torrent(s) failed to queue (see warnings above)");
        Some(string_of(&out))
    }
}

// ---------- best release per episode ----------

pub open spec fn rviews(v: Seq<Release>) -> Seq<ReleaseView> {
    v.map_values(|r: Release| r@)
}

/// A release is in scope: it parses, it is not an Extended cut unless
/// those are preferred, its arc holds the `--only-arc` text (ASCII case
/// ignored), and its height is known and within the cap.
pub open spec fn eligible(r: ReleaseView, cap: u32, only: Option<Seq<char>>, pref: bool) -> bool {
    match r.parsed {
        None => false,
        Some(p) => {
            &&& pref || !p.extended
            &&& match only {
                Some(n) => text::contains_seq(text::seq_ascii_lower(p.arc), text::seq_ascii_lower(n)),
                None => true,
            }
            &&& match dl::release_height(r) {
                Some(h) => h <= cap,
                None => false,
            }
        },
    }
}

pub open spec fn eligible_pred(cap: u32, only: Option<Seq<char>>, pref: bool) -> spec_fn(
    ReleaseView,
) -> bool {
    |r: ReleaseView| eligible(r, cap, only, pref)
}

/// The episode slot of a release: normalized arc and episode number.
pub open spec fn key_of(r: ReleaseView) -> (Seq<char>, u32) {
    match r.parsed {
        Some(p) => (matcher::normalize_arc_spec(p.arc), p.episode),
        None => (seq![], 0),
    }
}

pub open spec fn key_is(k: (Seq<char>, u32)) -> spec_fn(ReleaseView) -> bool {
    |r: ReleaseView| key_of(r) == k
}

pub open spec fn is_ext(r: ReleaseView) -> bool {
    match r.parsed {
        Some(p) => p.extended,
        None => false,
    }
}

pub open spec fn ext_pred() -> spec_fn(ReleaseView) -> bool {
    |r: ReleaseView| is_ext(r)
}

pub open spec fn height0(r: ReleaseView) -> u32 {
    match dl::release_height(r) {
        Some(h) => h,
        None => 0,
    }
}

/// The tallest release of `g`, the last one among equals.
pub open spec fn best_of(g: Seq<ReleaseView>) -> Option<ReleaseView>
    decreases g.len(),
{
    if g.len() == 0 {
        None
    } else {
        match best_of(g.drop_last()) {
            None => Some(g.last()),
            Some(b) => if height0(g.last()) >= height0(b) {
                Some(g.last())
            } else {
                Some(b)
            },
        }
    }
}

/// The episode slots of `es`, in order of first appearance.
pub open spec fn keys_in_order(es: Seq<ReleaseView>) -> Seq<(Seq<char>, u32)>
    decreases es.len(),
{
    if es.len() == 0 {
        seq![]
    } else {
        let k = keys_in_order(es.drop_last());
        if k.contains(key_of(es.last())) {
            k
        } else {
            k.push(key_of(es.last()))
        }
    }
}

/// The release a slot keeps: with the Extended preference, the tallest
/// Extended cut if the slot has one; otherwise the tallest release.
pub open spec fn winner_of(es: Seq<ReleaseView>, k: (Seq<char>, u32), pref: bool) -> ReleaseView {
    let g = es.filter(key_is(k));
    match best_of(g.filter(ext_pred())) {
        Some(e) => if pref {
            e
        } else {
            best_of(g).unwrap()
        },
        None => best_of(g).unwrap(),
    }
}

/// The release each slot keeps, slots in order of first appearance.
pub open spec fn winners_spec(
    rs: Seq<ReleaseView>,
    cap: u32,
    only: Option<Seq<char>>,
    pref: bool,
) -> Seq<ReleaseView> {
    let es = rs.filter(eligible_pred(cap, only, pref));
    let ks = keys_in_order(es);
    Seq::new(ks.len(), |j: int| winner_of(es, ks[j], pref))
}

/// `a <= b` in code-point (equivalently UTF-8 byte) lexicographic order,
/// the order of `String`'s comparison.
pub open spec fn lex_le(a: Seq<char>, b: Seq<char>) -> bool
    decreases a.len(),
{
    if a.len() == 0 {
        true
    } else if b.len() == 0 {
        false
    } else if a[0] != b[0] {
        a[0] < b[0]
    } else {
        lex_le(a.skip(1), b.skip(1))
    }
}

pub proof fn lemma_lex_total(a: Seq<char>, b: Seq<char>)
    ensures
        lex_le(a, b) || lex_le(b, a),
    decreases a.len(),
{
    if a.len() > 0 && b.len() > 0 {
        if a[0] == b[0] {
            lemma_lex_total(a.skip(1), b.skip(1));
        }
    }
}

/// Neighbours are in order of file name.
pub open spec fn sorted_by_name(s: Seq<ReleaseView>) -> bool {
    forall|i: int| 0 <= i < s.len() - 1 ==> #[trigger] lex_le(s[i].filename, s[i + 1].filename)
}

fn name_le(a: &Vec<char>, b: &Vec<char>) -> (r: bool)
    ensures
        r == lex_le(a@, b@),
{
    let mut i: usize = 0;
    assert(a@.skip(0) == a@ && b@.skip(0) == b@);
    loop
        invariant
            i <= a@.len(),
            i <= b@.len(),
            lex_le(a@, b@) == lex_le(a@.skip(i as int), b@.skip(i as int)),
        decreases a@.len() - i,
    {
        let ghost sa = a@.skip(i as int);
        let ghost sb = b@.skip(i as int);
        if i == a.len() {
            return true;
        }
        if i == b.len() {
            return false;
        }
        assert(sa[0] == a@[i as int] && sb[0] == b@[i as int]);
        if a[i] != b[i] {
            let r = a[i] < b[i];
            assert(lex_le(sa, sb) == r);
            return r;
        }
        assert(sa.skip(1) == a@.skip(i + 1));
        assert(sb.skip(1) == b@.skip(i + 1));
        i = i + 1;
    }
}

proof fn lemma_keys_cover(es: Seq<ReleaseView>)
    ensures
        forall|i: int| 0 <= i < es.len() ==> keys_in_order(es).contains(#[trigger] key_of(es[i])),
        keys_in_order(es).no_duplicates(),
    decreases es.len(),
{
    if es.len() > 0 {
        lemma_keys_cover(es.drop_last());
        let k = keys_in_order(es.drop_last());
        assert forall|i: int| 0 <= i < es.len() implies keys_in_order(es).contains(#[trigger] key_of(es[i])) by {
            if i < es.len() - 1 {
                assert(es[i] == es.drop_last()[i]);
                assert(k.contains(key_of(es.drop_last()[i])));
                if !k.contains(key_of(es.last())) {
                    let w = choose|w: int| 0 <= w < k.len() && k[w] == key_of(es[i]);
                    assert(keys_in_order(es)[w] == key_of(es[i]));
                }
            } else {
                if !k.contains(key_of(es.last())) {
                    assert(keys_in_order(es)[k.len() as int] == key_of(es.last()));
                }
            }
        }
    }
}

/// An episode slot being filled: its key, its tallest release and its
/// tallest Extended cut.
struct Bucket {
    arc: Vec<char>,
    episode: u32,
    best: Release,
    best_ext: Option<Release>,
}

pub open spec fn opt_rview(o: Option<Release>) -> Option<ReleaseView> {
    match o {
        Some(r) => Some(r@),
        None => None,
    }
}

spec fn bucket_ok(b: Bucket, es: Seq<ReleaseView>, k: (Seq<char>, u32)) -> bool {
    &&& (b.arc@, b.episode) == k
    &&& best_of(es.filter(key_is(k))) == Some(b.best@)
    &&& opt_rview(b.best_ext) == best_of(es.filter(key_is(k)).filter(ext_pred()))
}

fn find_bucket(buckets: &Vec<Bucket>, arc: &Vec<char>, ep: u32) -> (r: Option<usize>)
    ensures
        match r {
            Some(j) => j < buckets@.len() && (buckets@[j as int].arc@, buckets@[j as int].episode) == (
            arc@, ep),
            None => forall|t: int| 0 <= t < buckets@.len() ==> (#[trigger] buckets@[t].arc@, buckets@[t].episode)
                != (arc@, ep),
        },
{
    let mut j: usize = 0;
    while j < buckets.len()
        invariant
            j <= buckets@.len(),
            forall|t: int| 0 <= t < j ==> (#[trigger] buckets@[t].arc@, buckets@[t].episode) != (arc@, ep),
        decreases buckets@.len() - j,
    {
        if buckets[j].episode == ep && text::chars_eq(&buckets[j].arc, arc) {
            return Some(j);
        }
        j = j + 1;
    }
    None
}

fn release_key(r: &Release) -> (k: (Vec<char>, u32))
    requires
        r@.parsed is Some,
    ensures
        (k.0@, k.1) == key_of(r@),
{
    match &r.parsed {
        Some(p) => (chars_of(normalize_arc(p.arc.as_str()).as_str()), p.episode),
        None => (Vec::new(), 0),
    }
}

fn is_eligible(r: &Release, cap: u32, only: &Option<Vec<char>>, pref: bool) -> (b: bool)
    ensures
        b == eligible(r@, cap, match only {
            Some(n) => Some(n@),
            None => None,
        }, pref),
{
    match &r.parsed {
        None => false,
        Some(p) => {
            if !pref && p.extended {
                return false;
            }
            match only {
                Some(n) => {
                    let arc = chars_of(p.arc.as_str());
                    let la = to_ascii_lowercase(&arc);
                    let ln = to_ascii_lowercase(n);
                    if !contains_chars(&la, &ln) {
                        return false;
                    }
                },
                None => {},
            }
            match r.height() {
                Some(h) => h <= cap,
                None => false,
            }
        },
    }
}

fn height_or_zero(r: &Release) -> (h: u32)
    ensures
        h == height0(r@),
{
    match r.height() {
        Some(h) => h,
        None => 0,
    }
}

proof fn lemma_best_push(g: Seq<ReleaseView>, r: ReleaseView)
    ensures
        best_of(g.push(r)) == match best_of(g) {
            None => Some(r),
            Some(b) => if height0(r) >= height0(b) {
                Some(r)
            } else {
                Some(b)
            },
        },
{
    assert(g.push(r).drop_last() == g);
}

proof fn lemma_keys_push(es: Seq<ReleaseView>, r: ReleaseView)
    ensures
        keys_in_order(es.push(r)) == if keys_in_order(es).contains(key_of(r)) {
            keys_in_order(es)
        } else {
            keys_in_order(es).push(key_of(r))
        },
{
    assert(es.push(r).drop_last() == es);
}

/// Groups the in-scope releases by episode slot and keeps one per slot:
/// the tallest within the cap (the last one listed among equals); with
/// `prefer_extended`, an Extended cut wins its slot over any regular one.
/// Without it, Extended cuts are left out. The result is ordered by file
/// name.
pub fn pick_best_per_episode(
    releases: Vec<Release>,
    max_height: u32,
    only_arc: Option<&str>,
    prefer_extended: bool,
) -> (r: Vec<Release>)
    ensures
        ({
            let w = winners_spec(
                rviews(releases@),
                max_height,
                match only_arc {
                    Some(n) => Some(n@),
                    None => None,
                },
                prefer_extended,
            );
            &&& rviews(r@).len() == w.len()
            &&& rviews(r@).to_multiset() == w.to_multiset()
            &&& sorted_by_name(rviews(r@))
        }),
{
    let only: Option<Vec<char>> = match only_arc {
        Some(n) => Some(chars_of(n)),
        None => None,
    };
    let ghost onlyv: Option<Seq<char>> = match only_arc {
        Some(n) => Some(n@),
        None => None,
    };
    let ghost rv = rviews(releases@);
    let ghost ep = eligible_pred(max_height, onlyv, prefer_extended);
    let mut buckets: Vec<Bucket> = Vec::new();
    let mut i: usize = 0;
    while i < releases.len()
        invariant
            i <= releases@.len(),
            rv == rviews(releases@),
            ep == eligible_pred(max_height, onlyv, prefer_extended),
            onlyv == match only {
                Some(n) => Some(n@),
                None => None::<Seq<char>>,
            },
            buckets@.len() == keys_in_order(rv.take(i as int).filter(ep)).len(),
            forall|j: int| 0 <= j < buckets@.len() ==> bucket_ok(#[trigger] buckets@[j], rv.take(i as int).filter(ep), keys_in_order(rv.take(i as int).filter(ep))[j]),
        decreases releases@.len() - i,
    {
        let r = &releases[i];
        let ghost es = rv.take(i as int).filter(ep);
        let ghost ks = keys_in_order(es);
        proof {
            assert(rv.take(i + 1) == rv.take(i as int).push(r@));
            rv.take(i as int).lemma_filter_push(r@, ep);
        }
        if is_eligible(r, max_height, &only, prefer_extended) {
            let ghost es2 = es.push(r@);
            assert(rv.take(i + 1).filter(ep) == es2);
            let (karc, kep) = release_key(r);
            let ghost k = key_of(r@);
            let h = height_or_zero(r);
            let ext = match &r.parsed {
                Some(p) => p.extended,
                None => false,
            };
            assert(ext == is_ext(r@));
            proof {
                lemma_keys_cover(es);
                lemma_keys_push(es, r@);
            }
            // Find the slot.
            let slot = find_bucket(&buckets, &karc, kep);
            if let Some(j) = slot {
                let b = &buckets[j];
                let bh = height_or_zero(&b.best);
                let new_best = if h >= bh {
                    r.clone_release()
                } else {
                    b.best.clone_release()
                };
                let new_ext = if ext {
                    match &b.best_ext {
                        None => Some(r.clone_release()),
                        Some(e) => {
                            if h >= height_or_zero(e) {
                                Some(r.clone_release())
                            } else {
                                Some(e.clone_release())
                            }
                        },
                    }
                } else {
                    match &b.best_ext {
                        None => None,
                        Some(e) => Some(e.clone_release()),
                    }
                };
                let nb = Bucket { arc: karc, episode: kep, best: new_best, best_ext: new_ext };
                proof {
                    assert(ks[j as int] == k);
                    assert(ks.contains(k));
                    assert(keys_in_order(es2) == ks);
                    let g = es.filter(key_is(k));
                    es.lemma_filter_push(r@, key_is(k));
                    assert(es2.filter(key_is(k)) == g.push(r@));
                    lemma_best_push(g, r@);
                    g.lemma_filter_push(r@, ext_pred());
                    lemma_best_push(g.filter(ext_pred()), r@);
                    assert(bucket_ok(nb, es2, k));
                    assert forall|t: int| 0 <= t < buckets@.len() && t != j implies bucket_ok(#[trigger] buckets@[t], es2, ks[t]) by {
                        assert(bucket_ok(buckets@[t], es, ks[t]));
                        assert(ks[t] != ks[j as int]);
                        es.lemma_filter_push(r@, key_is(ks[t]));
                    }
                }
                buckets.set(j, nb);
            } else {
                let ext_copy = if ext {
                    Some(r.clone_release())
                } else {
                    None
                };
                let nb = Bucket { arc: karc, episode: kep, best: r.clone_release(), best_ext: ext_copy };
                proof {
                    assert(!ks.contains(k)) by {
                        if ks.contains(k) {
                            let w = choose|w: int| 0 <= w < ks.len() && ks[w] == k;
                            assert(bucket_ok(buckets@[w], es, ks[w]));
                            assert((buckets@[w].arc@, buckets@[w].episode) == k);
                        }
                    }
                    assert(keys_in_order(es2) == ks.push(k));
                    let g = es.filter(key_is(k));
                    assert forall|t: int| 0 <= t < es.len() implies !key_is(k)(#[trigger] es[t]) by {
                        assert(ks.contains(key_of(es[t])));
                    }
                    crate::source::sheet::lemma_filter_none(es, key_is(k));
                    assert(g =~= Seq::<ReleaseView>::empty());
                    es.lemma_filter_push(r@, key_is(k));
                    assert(es2.filter(key_is(k)) == g.push(r@));
                    lemma_best_push(g, r@);
                    g.lemma_filter_push(r@, ext_pred());
                    assert(g.filter(ext_pred()).len() == 0);
                    assert(g.filter(ext_pred()) =~= Seq::<ReleaseView>::empty());
                    lemma_best_push(g.filter(ext_pred()), r@);
                    assert(bucket_ok(nb, es2, k));
                    assert forall|t: int| 0 <= t < buckets@.len() implies bucket_ok(#[trigger] buckets@[t], es2, ks[t]) by {
                        assert(bucket_ok(buckets@[t], es, ks[t]));
                        assert(ks[t] != k);
                        es.lemma_filter_push(r@, key_is(ks[t]));
                    }
                }
                buckets.push(nb);
                proof {
                    assert forall|t: int| 0 <= t < buckets@.len() implies bucket_ok(#[trigger] buckets@[t], es2, keys_in_order(es2)[t]) by {
                        if t < buckets@.len() - 1 {
                        }
                    }
                }
            }
        } else {
            assert(rv.take(i + 1).filter(ep) == es);
        }
        i = i + 1;
    }
    let ghost es = rv.take(i as int).filter(ep);
    assert(rv.take(i as int) == rv);
    let ghost w = winners_spec(rv, max_height, onlyv, prefer_extended);
    // The kept release of each slot, slots in order.
    let mut ws: Vec<Release> = Vec::new();
    let mut j: usize = 0;
    while j < buckets.len()
        invariant
            j <= buckets@.len(),
            es == rv.filter(ep),
            ep == eligible_pred(max_height, onlyv, prefer_extended),
            w == winners_spec(rv, max_height, onlyv, prefer_extended),
            buckets@.len() == keys_in_order(es).len(),
            forall|t: int| 0 <= t < buckets@.len() ==> bucket_ok(#[trigger] buckets@[t], es, keys_in_order(es)[t]),
            rviews(ws@) == w.take(j as int),
        decreases buckets@.len() - j,
    {
        let b = &buckets[j];
        let pick = if prefer_extended && b.best_ext.is_some() {
            match &b.best_ext {
                Some(e) => e.clone_release(),
                None => b.best.clone_release(),
            }
        } else {
            b.best.clone_release()
        };
        proof {
            assert(bucket_ok(buckets@[j as int], es, keys_in_order(es)[j as int]));
            assert(w[j as int] == winner_of(es, keys_in_order(es)[j as int], prefer_extended));
            assert(pick@ == w[j as int]);
        }
        let ghost before = rviews(ws@);
        ws.push(pick);
        assert(rviews(ws@) =~= before.push(w[j as int]));
        assert(w.take(j + 1) == w.take(j as int).push(w[j as int]));
        j = j + 1;
    }
    assert(w.take(j as int) == w);
    // Order by file name (stable insertion).
    let ghost wv = rviews(ws@);
    let mut out: Vec<Release> = Vec::new();
    assert(rviews(out@) =~= wv.take(0));
    let mut k: usize = 0;
    while k < ws.len()
        invariant
            k <= ws@.len(),
            wv == rviews(ws@),
            wv == w,
            rviews(out@).len() == k,
            rviews(out@).to_multiset() == wv.take(k as int).to_multiset(),
            sorted_by_name(rviews(out@)),
        decreases ws@.len() - k,
    {
        let x = ws[k].clone_release();
        let xn = chars_of(x.filename.as_str());
        let mut p: usize = 0;
        while p < out.len() && name_le(&chars_of(out[p].filename.as_str()), &xn)
            invariant
                p <= out@.len(),
                xn@ == x.filename@,
                p > 0 ==> lex_le(out@[p - 1].filename@, x.filename@),
            decreases out@.len() - p,
        {
            p = p + 1;
        }
        let ghost ov = rviews(out@);
        let ghost xv = x@;
        proof {
            if p < out@.len() {
                assert(!lex_le(ov[p as int].filename, xv.filename));
                lemma_lex_total(ov[p as int].filename, xv.filename);
            }
        }
        out.insert(p, x);
        proof {
            let nv = rviews(out@);
            assert(nv =~= ov.insert(p as int, xv));
            assert forall|a: int| 0 <= a < nv.len() - 1 implies #[trigger] lex_le(nv[a].filename, nv[a + 1].filename) by {
                if a < p - 1 {
                    assert(nv[a] == ov[a] && nv[a + 1] == ov[a + 1]);
                } else if a == p - 1 {
                    assert(nv[a] == ov[a]);
                } else if a == p {
                    assert(nv[a + 1] == ov[a]);
                } else {
                    assert(nv[a] == ov[a - 1] && nv[a + 1] == ov[a]);
                    assert(lex_le(ov[a - 1].filename, ov[(a - 1) + 1].filename));
                }
            }
            vstd::seq_lib::to_multiset_insert(ov, p as int, xv);
            assert(wv.take(k + 1) == wv.take(k as int).push(wv[k as int]));
            vstd::seq_lib::to_multiset_build(wv.take(k as int), wv[k as int]);
        }
        k = k + 1;
    }
    assert(wv.take(k as int) == wv);
    out
}

// ---------- prepopulated NFOs and hints ----------

/// Where a release's NFO is pre-written: `<save_path>/<stem>.nfo`, the
/// stem being that of the release's file name; `None` when the file name
/// has no stem.
pub open spec fn prepopulate_path_spec(save_path: Seq<char>, filename: Seq<char>) -> Option<Seq<char>> {
    match paths::file_name_spec(filename) {
        None => None,
        Some(n) => Some(
            paths::with_extension_spec(paths::join_spec(save_path, paths::name_stem(n)), "nfo"@),
        ),
    }
}

/// What becomes of a found episode's NFO ahead of its download.
#[derive(Debug, Clone, Copy, PartialEq, Eq, Structural)]
pub enum PrepopulateAction {
    /// An NFO is already there: it is left alone.
    Keep,
    /// Dry run: the write is only reported.
    Report,
    /// The NFO is written, locked (`<lockdata>true</lockdata>`), so the
    /// media server keeps it once the file lands.
    WriteLocked,
}

/// The prepopulate decision: an existing NFO is kept; otherwise a dry run
/// reports and a real run writes a locked NFO.
pub fn prepopulate_action(nfo_exists: bool, dry_run: bool) -> (r: PrepopulateAction)
    ensures
        r == (if nfo_exists {
            PrepopulateAction::Keep
        } else if dry_run {
            PrepopulateAction::Report
        } else {
            PrepopulateAction::WriteLocked
        }),
{
    if nfo_exists {
        PrepopulateAction::Keep
    } else if dry_run {
        PrepopulateAction::Report
    } else {
        PrepopulateAction::WriteLocked
    }
}

pub fn prepopulate_path(save_path: &str, filename: &str) -> (r: Option<String>)
    ensures
        matcher::opt_view(r) == prepopulate_path_spec(save_path@, filename@),
{
    let f = chars_of(filename);
    match paths::file_name_chars(&f) {
        None => None,
        Some(n) => {
            let stem = paths::name_stem_exec(&n);
            let joined = join(save_path, string_of(&stem).as_str());
            Some(paths::with_extension(joined.as_str(), "nfo"))
        },
    }
}

/// The `--save-path-map` hint: shown when no map is set, qBittorrent
/// reports a non-empty default save path, and neither path lies under
/// the other. It suggests the leading components of both (each path
/// itself when it has none).
pub open spec fn save_path_hint_spec(map_set: bool, root: Seq<char>, qbt_default: Option<Seq<char>>) -> Option<
    (Seq<char>, Seq<char>),
> {
    match qbt_default {
        None => None,
        Some(q) => if map_set || q.len() == 0 || paths::starts_with_spec(root, q)
            || paths::starts_with_spec(q, root) {
            None
        } else {
            Some(
                (
                    match top_component_spec(root) {
                        Some(t) => t,
                        None => root,
                    },
                    match top_component_spec(q) {
                        Some(t) => t,
                        None => q,
                    },
                ),
            )
        },
    }
}

pub fn save_path_hint(map_set: bool, root: &str, qbt_default: Option<&str>) -> (r: Option<
    (String, String),
>)
    ensures
        match save_path_hint_spec(
            map_set,
            root@,
            match qbt_default {
                Some(q) => Some(q@),
                None => None,
            },
        ) {
            Some((h, c)) => r matches Some(p) && p.0@ == h && p.1@ == c,
            None => r is None,
        },
{
    let q = match qbt_default {
        None => {
            return None;
        },
        Some(q) => q,
    };
    if map_set || q.is_empty() || starts_with(root, q) || starts_with(q, root) {
        return None;
    }
    let h = match top_component(root) {
        Some(t) => t,
        None => root.to_owned(),
    };
    let c = match top_component(q) {
        Some(t) => t,
        None => q.to_owned(),
    };
    Some((h, c))
}

// ---------- the run, one release at a time ----------

/// What the run does with one chosen release.
pub enum ReleasePlan {
    /// Leave it, for the reason given (never `Queue`).
    Skip(ReleaseAction),
    /// Queue it into `folder`, saved at `host_path` as this machine sees
    /// it and at `save_path` as the client sees it.
    Queue { folder: String, host_path: String, save_path: String },
    /// The path map does not cover the save path.
    MapFailure { host_path: String },
}

/// The folder an arc goes to, given the root's directory listing (or
/// `None` when the root could not be listed).
pub open spec fn folder_for(dirs: Option<Seq<Seq<char>>>, arc: Seq<char>) -> Seq<char> {
    match dirs {
        Some(d) => arc_folder_spec(d, arc),
        None => proposed_folder_spec(arc),
    }
}

pub fn release_plan(
    release: &Release,
    have: &Vec<String>,
    queued: &Vec<String>,
    requeue_existing: bool,
    root: &str,
    dirs: &Option<Vec<String>>,
    map: &Option<PathMap>,
) -> (r: ReleasePlan)
    ensures
        ({
            let a = release_action_spec(
                release@,
                string_views(have@),
                string_views(queued@),
                requeue_existing,
            );
            let dv = match dirs {
                Some(d) => Some(string_views(d@)),
                None => None,
            };
            let mv = match map {
                Some(m) => Some((m.host@, m.container@)),
                None => None,
            };
            if a != ReleaseAction::Queue {
                r == ReleasePlan::Skip(a)
            } else {
                let folder = folder_for(dv, release@.parsed.unwrap().arc);
                match save_paths_spec(root@, folder, mv) {
                    Some((h, c)) => r matches ReleasePlan::Queue { folder: f, host_path: hp, save_path: sp }
                        && f@ == folder && hp@ == h && sp@ == c,
                    None => r matches ReleasePlan::MapFailure { host_path: hp } && hp@
                        == paths::join_spec(root@, folder),
                }
            }
        }),
{
    let a = release_action(release, have, queued, requeue_existing);
    if a != ReleaseAction::Queue {
        return ReleasePlan::Skip(a);
    }
    let arc = match &release.parsed {
        Some(p) => p.arc.as_str(),
        None => {
            return ReleasePlan::Skip(ReleaseAction::Unparseable);
        },
    };
    let folder = match dirs {
        Some(d) => choose_arc_folder(d, arc),
        None => proposed_arc_folder(arc),
    };
    match save_paths(root, folder.as_str(), map) {
        Some((h, c)) => ReleasePlan::Queue { folder, host_path: h, save_path: c },
        None => ReleasePlan::MapFailure { host_path: join(root, folder.as_str()) },
    }
}

// ---------- laws ----------

proof fn lemma_best_mem(g: Seq<ReleaseView>)
    ensures
        g.len() > 0 ==> best_of(g) is Some,
        best_of(g) matches Some(b) ==> g.contains(b),
    decreases g.len(),
{
    if g.len() > 0 {
        lemma_best_mem(g.drop_last());
        match best_of(g.drop_last()) {
            None => {
                assert(g[g.len() - 1] == g.last());
            },
            Some(b) => {
                assert(g[g.len() - 1] == g.last());
                let i = choose|i: int| 0 <= i < g.drop_last().len() && g.drop_last()[i] == b;
                assert(g[i] == b);
            },
        }
    }
}

proof fn lemma_keys_from_elems(es: Seq<ReleaseView>)
    ensures
        forall|j: int| 0 <= j < keys_in_order(es).len() ==> exists|i: int| 0 <= i < es.len() && key_of(es[i])
            == #[trigger] keys_in_order(es)[j],
    decreases es.len(),
{
    if es.len() > 0 {
        let d = es.drop_last();
        lemma_keys_from_elems(d);
        let k = keys_in_order(d);
        assert forall|j: int| 0 <= j < keys_in_order(es).len() implies exists|i: int| 0 <= i < es.len() && key_of(es[i])
            == #[trigger] keys_in_order(es)[j] by {
            if j < k.len() {
                assert(keys_in_order(es)[j] == k[j]);
                let i = choose|i: int| 0 <= i < d.len() && key_of(d[i]) == k[j];
                assert(es[i] == d[i]);
            } else {
                assert(key_of(es[es.len() - 1]) == keys_in_order(es)[j]);
            }
        }
    }
}

/// The releases `pick_best_per_episode` keeps: each is in scope (it
/// parses, fits the cap, matches the arc filter, and is an Extended cut
/// only when those are preferred), each fills its own episode slot, no
/// two fill the same, and with the preference an Extended cut fills any
/// slot that has one, whatever the heights.
pub proof fn law_pick_best_keeps_one_in_scope_per_slot(
    rs: Seq<ReleaseView>,
    cap: u32,
    only: Option<Seq<char>>,
    pref: bool,
)
    ensures
        ({
            let w = winners_spec(rs, cap, only, pref);
            let es = rs.filter(eligible_pred(cap, only, pref));
            &&& forall|j: int| 0 <= j < w.len() ==> eligible(#[trigger] w[j], cap, only, pref)
            &&& forall|j: int| 0 <= j < w.len() ==> #[trigger] key_of(w[j]) == keys_in_order(es)[j]
            &&& forall|a: int, b: int| 0 <= a < w.len() && 0 <= b < w.len() && a != b ==> key_of(w[a])
                != key_of(w[b])
            &&& forall|j: int| 0 <= j < w.len() && pref && (exists|i: int| 0 <= i < es.len() && is_ext(es[i])
                && #[trigger] key_of(es[i]) == key_of(w[j])) ==> is_ext(w[j])
        }),
{
    broadcast use vstd::seq_lib::group_filter_ensures;

    let w = winners_spec(rs, cap, only, pref);
    let es = rs.filter(eligible_pred(cap, only, pref));
    let ks = keys_in_order(es);
    lemma_keys_cover(es);
    lemma_keys_from_elems(es);
    assert forall|j: int| 0 <= j < w.len() implies eligible(#[trigger] w[j], cap, only, pref) && key_of(w[j]) == ks[j]
        && (pref && (exists|i: int| 0 <= i < es.len() && is_ext(es[i]) && #[trigger] key_of(es[i]) == key_of(w[j])) ==> is_ext(w[j])) by {
        let k = ks[j];
        let g = es.filter(key_is(k));
        let i0 = choose|i: int| 0 <= i < es.len() && key_of(es[i]) == k;
        es.lemma_filter_contains(key_is(k), i0);
        lemma_best_mem(g);
        lemma_best_mem(g.filter(ext_pred()));
        let b = best_of(g).unwrap();
        let t = choose|t: int| 0 <= t < g.len() && g[t] == b;
        assert(key_is(k)(g[t]));
        assert(g.contains(g[t]));
        es.lemma_filter_contains_rev(key_is(k), g[t]);
        assert(es.contains(g[t]));
        let u = choose|u: int| 0 <= u < es.len() && es[u] == g[t];
        assert(eligible_pred(cap, only, pref)(es[u]));
        match best_of(g.filter(ext_pred())) {
            Some(e) => {
                let t2 = choose|t2: int| 0 <= t2 < g.filter(ext_pred()).len() && g.filter(ext_pred())[t2] == e;
                assert(ext_pred()(g.filter(ext_pred())[t2]));
                assert(g.filter(ext_pred()).contains(e));
                g.lemma_filter_contains_rev(ext_pred(), e);
                assert(g.contains(e));
                let t3 = choose|t3: int| 0 <= t3 < g.len() && g[t3] == e;
                assert(key_is(k)(g[t3]));
                assert(g.contains(g[t3]));
                es.lemma_filter_contains_rev(key_is(k), g[t3]);
                assert(es.contains(g[t3]));
                let u2 = choose|u2: int| 0 <= u2 < es.len() && es[u2] == g[t3];
                assert(eligible_pred(cap, only, pref)(es[u2]));
            },
            None => {
                if pref && (exists|i: int| 0 <= i < es.len() && is_ext(es[i]) && #[trigger] key_of(es[i]) == key_of(w[j])) {
                    let i1 = choose|i: int| 0 <= i < es.len() && is_ext(es[i]) && #[trigger] key_of(es[i]) == key_of(w[j]);
                    es.lemma_filter_contains(key_is(k), i1);
                    let t4 = choose|t4: int| 0 <= t4 < g.len() && g[t4] == es[i1];
                    g.lemma_filter_contains(ext_pred(), t4);
                    assert(g.filter(ext_pred()).len() > 0);
                }
            },
        }
        assert(es.contains(es[u]));
        assert(rs.contains(es[u])) by {
            rs.lemma_filter_contains_rev(eligible_pred(cap, only, pref), es[u]);
        }
    }
    assert forall|a: int, b: int| 0 <= a < w.len() && 0 <= b < w.len() && a != b implies key_of(w[a]) != key_of(w[b]) by {
        assert(key_of(w[a]) == ks[a]);
        assert(key_of(w[b]) == ks[b]);
    }
}

proof fn lemma_best_max(g: Seq<ReleaseView>)
    ensures
        best_of(g) matches Some(b) ==> forall|x: int| 0 <= x < g.len() ==> height0(#[trigger] g[x]) <= height0(b),
    decreases g.len(),
{
    if g.len() > 0 {
        lemma_best_max(g.drop_last());
        let b = best_of(g).unwrap();
        assert forall|x: int| 0 <= x < g.len() implies height0(#[trigger] g[x]) <= height0(b) by {
            if x < g.len() - 1 {
                assert(g[x] == g.drop_last()[x]);
            }
        }
    }
}

/// Each slot keeps its tallest release within the cap: no release in
/// scope for the same slot is taller than the one kept, except a regular
/// cut beside a kept Extended cut (with the preference, Extended wins
/// whatever the heights).
pub proof fn law_pick_best_keeps_tallest(rs: Seq<ReleaseView>, cap: u32, only: Option<Seq<char>>, pref: bool)
    ensures
        ({
            let w = winners_spec(rs, cap, only, pref);
            let es = rs.filter(eligible_pred(cap, only, pref));
            forall|j: int, i: int|
                0 <= j < w.len() && 0 <= i < es.len() && key_of(#[trigger] es[i]) == key_of(#[trigger] w[j])
                    && (is_ext(es[i]) || !is_ext(w[j])) ==> height0(es[i]) <= height0(w[j])
        }),
{
    let w = winners_spec(rs, cap, only, pref);
    let es = rs.filter(eligible_pred(cap, only, pref));
    let ks = keys_in_order(es);
    law_pick_best_keeps_one_in_scope_per_slot(rs, cap, only, pref);
    assert forall|j: int, i: int|
        0 <= j < w.len() && 0 <= i < es.len() && key_of(#[trigger] es[i]) == key_of(#[trigger] w[j])
            && (is_ext(es[i]) || !is_ext(w[j])) implies height0(es[i]) <= height0(w[j]) by {
        let k = ks[j];
        assert(key_of(w[j]) == k);
        let g = es.filter(key_is(k));
        es.lemma_filter_contains(key_is(k), i);
        let t = choose|t: int| 0 <= t < g.len() && g[t] == es[i];
        lemma_best_mem(g);
        lemma_best_max(g);
        let ge = g.filter(ext_pred());
        lemma_best_mem(ge);
        lemma_best_max(ge);
        match best_of(ge) {
            Some(e) => {
                if pref {
                    assert(w[j] == e);
                    let t2 = choose|t2: int| 0 <= t2 < ge.len() && ge[t2] == e;
                    assert(ext_pred()(ge[t2]));
                    if is_ext(es[i]) {
                        g.lemma_filter_contains(ext_pred(), t);
                        let t3 = choose|t3: int| 0 <= t3 < ge.len() && ge[t3] == es[i];
                        assert(height0(ge[t3]) <= height0(e));
                    }
                } else {
                    assert(w[j] == best_of(g).unwrap());
                    assert(height0(g[t]) <= height0(w[j]));
                }
            },
            None => {
                assert(w[j] == best_of(g).unwrap());
                assert(height0(g[t]) <= height0(w[j]));
            },
        }
    }
}

/// The path map moves the rest of a host path under the container path:
/// for an absolute host prefix and a relative rest, `<host>/<rest>`
/// strips back to `<rest>` (written from its components), which
/// `translate` joins onto the container path.
pub proof fn law_translate_maps_host_prefix(host: Seq<char>, rest: Seq<char>)
    requires
        host.len() > 0,
        host[0] == '/',
        rest.len() == 0 || rest[0] != '/',
        !paths::leading_cur_dir(rest),
    ensures
        paths::strip_prefix_spec(paths::join_spec(host, rest), host) == Some(
            paths::join_comps(paths::comps(rest)),
        ),
{
    paths::lemma_join_comps(host, rest);
    let cb = paths::comps(host);
    let cp = paths::comps(paths::join_spec(host, rest));
    assert(cp.subrange(0, cb.len() as int) =~= cb);
    assert(cp.subrange(cb.len() as int, cp.len() as int) =~= paths::comps(rest));
}


proof fn lemma_lower_idempotent(s: Seq<char>)
    ensures
        text::seq_ascii_lower(text::seq_ascii_lower(s)) == text::seq_ascii_lower(s),
        text::seq_ascii_lower(text::seq_ascii_upper(s)) == text::seq_ascii_lower(s),
{
    assert(text::seq_ascii_lower(text::seq_ascii_lower(s)) =~= text::seq_ascii_lower(s));
    assert(text::seq_ascii_lower(text::seq_ascii_upper(s)) =~= text::seq_ascii_lower(s));
}

proof fn lemma_lower_keeps_occurrence(s: Seq<char>, t: Seq<char>, i: int)
    requires
        text::occurs_at(s, t, i),
    ensures
        text::occurs_at(text::seq_ascii_lower(s), text::seq_ascii_lower(t), i),
{
    let ls = text::seq_ascii_lower(s);
    assert(ls.subrange(i, i + t.len()) =~= text::seq_ascii_lower(t)) by {
        assert forall|k: int| 0 <= k < t.len() implies ls.subrange(i, i + t.len())[k] == text::seq_ascii_lower(t)[k] by {
            assert(s.subrange(i, i + t.len())[k] == s[i + k]);
        }
    }
}

/// The `--only-arc` filter ignores ASCII case on both sides: the filter
/// text in lower or upper case selects the same releases as written, a
/// release whose arc is the filter text up to ASCII case passes the
/// filter, and so does one whose arc holds the filter text as written.
pub proof fn law_only_arc_ignores_ascii_case(r: ReleaseView, cap: u32, n: Seq<char>, pref: bool)
    ensures
        eligible(r, cap, Some(n), pref) == eligible(r, cap, Some(text::seq_ascii_lower(n)), pref),
        eligible(r, cap, Some(n), pref) == eligible(r, cap, Some(text::seq_ascii_upper(n)), pref),
        (r.parsed matches Some(p) && text::seq_ascii_lower(p.arc) == text::seq_ascii_lower(n)) ==> eligible(
            r,
            cap,
            Some(n),
            pref,
        ) == eligible(r, cap, None, pref),
        (r.parsed matches Some(p) && text::contains_seq(p.arc, n)) ==> eligible(r, cap, Some(n), pref)
            == eligible(r, cap, None, pref),
{
    lemma_lower_idempotent(n);
    match r.parsed {
        Some(p) => {
            let la = text::seq_ascii_lower(p.arc);
            if la == text::seq_ascii_lower(n) {
                assert(text::occurs_at(la, la, 0)) by {
                    assert(la.subrange(0, la.len() as int) =~= la);
                }
            }
            if text::contains_seq(p.arc, n) {
                let i = choose|i: int| text::occurs_at(p.arc, n, i);
                lemma_lower_keeps_occurrence(p.arc, n, i);
            }
        },
        None => {},
    }
}

proof fn lemma_first_dir_finds(dirs: Seq<Seq<char>>, t: Seq<char>, k: int, i: int)
    requires
        0 <= k <= i < dirs.len(),
        folder_is_arc(dirs[i], t),
        forall|j: int| k <= j < i ==> !folder_is_arc(#[trigger] dirs[j], t),
    ensures
        first_dir(dirs, t, true, k) == Some(dirs[i]),
    decreases i - k,
{
    if k < i {
        lemma_first_dir_finds(dirs, t, k + 1, i);
    }
}

/// An existing arc folder of the arc wins: when some listed directory is
/// an arc folder whose arc normalizes to the requested arc, the folder
/// chosen is the first such directory, whatever folders before it merely
/// mention the arc's name.
pub proof fn law_arc_folder_prefers_exact_match(dirs: Seq<Seq<char>>, arc: Seq<char>, i: int)
    requires
        0 <= i < dirs.len(),
        matcher::folder_arc_spec(dirs[i]) matches Some(a) && matcher::normalize_arc_spec(a)
            == matcher::normalize_arc_spec(arc),
        forall|j: int|
            0 <= j < i ==> !(matcher::folder_arc_spec(#[trigger] dirs[j]) matches Some(a)
                && matcher::normalize_arc_spec(a) == matcher::normalize_arc_spec(arc)),
    ensures
        arc_folder_spec(dirs, arc) == dirs[i],
{
    let t = matcher::normalize_arc_spec(arc);
    assert forall|j: int| 0 <= j < i implies !folder_is_arc(#[trigger] dirs[j], t) by {}
    lemma_first_dir_finds(dirs, t, 0, i);
}

/// A release already in the client is never queued again: whenever its
/// CRC is among the queued ones and it is not skipped as one the library
/// has, it is `AlreadyQueued`, whether or not requeueing was asked for;
/// and a release that is queued has a CRC that is not queued and that the
/// library lacks unless requeueing was asked for.
pub proof fn law_queued_release_never_requeued(
    r: ReleaseView,
    have: Seq<Seq<char>>,
    queued: Seq<Seq<char>>,
    requeue_existing: bool,
)
    ensures
        (r.parsed matches Some(p) && p.crc32 matches Some(c) && queued.contains(c) && (requeue_existing
            || !have.contains(c))) ==> release_action_spec(r, have, queued, requeue_existing)
            == ReleaseAction::AlreadyQueued,
        release_action_spec(r, have, queued, requeue_existing) == ReleaseAction::Queue ==> (r.parsed matches Some(
            p,
        ) && p.crc32 matches Some(c) && !queued.contains(c) && (requeue_existing || !have.contains(c))),
{
}

} // verus!
