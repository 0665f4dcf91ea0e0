//! The decisions of the `generate` command: which library files are
//! episodes, which file of an episode gets the NFO (an Extended cut over a
//! regular one), what is written where and under which label, how a
//! planned write compares with what is on disk, and what happens to the
//! conflicting ones. Walking the library, asking the sources' services,
//! writing files and prompting stay with the application.

use sha2::Digest;
use vstd::prelude::*;

use crate::cli::LockMode;
use crate::download::lex_le;
use crate::matcher::{self, ParsedFile, ParsedFileView, normalize_arc, is_arc_folder_name};
use crate::model::{Episode, EpisodeView, Season, SeasonView, Series, SeriesView};
use crate::paths::{self, comps_exec, with_extension, parent, same_path, join};
use crate::source::{DataSource, ImageKind, identify_or_fallback};
use crate::text::{self, chars_of, string_of, push_all, push_str, fmt_u32_padded, fmt_usize,
    contains_chars, to_lowercase_str, trim, to_ascii_lowercase, str_eq_chars};

verus! {

/// Settings of one `generate` run.
pub struct Options {
    pub dry_run: bool,
    /// How long cached upstream responses stay fresh, in seconds.
    pub cache_ttl_secs: u64,
    pub refresh: bool,
    /// Overwrite conflicts (foreign files, or ours edited since) without
    /// asking.
    pub force: bool,
    /// Skip conflicts without prompting (cron, CI).
    pub non_interactive: bool,
    /// Written into the series' `<displayorder>` (e.g. "absolute").
    pub display_order: String,
    /// Which NFO kinds get `<lockdata>true</lockdata>`.
    pub lock: LockMode,
}

/// `one pace`
pub open spec fn one_pace() -> Seq<char> {
    "one pace"@
}

pub open spec fn is_arc_folder_spec(name: Seq<char>) -> bool {
    matcher::grammar_match(matcher::Grammar::ArcFolder, name) is Some
}

pub open spec fn arc_folder_pred() -> spec_fn(Seq<char>) -> bool {
    |n: Seq<char>| is_arc_folder_spec(n)
}

/// The flat-layout warning: when the root's name (lowercased) does not
/// mention One Pace but at least two arc folders sit directly inside it,
/// their number; Jellyfin would take each arc for a series.
pub open spec fn layout_warning_spec(root_name: Seq<char>, dirs: Seq<Seq<char>>) -> Option<nat> {
    let n = dirs.filter(arc_folder_pred()).len();
    if text::contains_seq(text::lowercase_str(root_name), one_pace()) || n < 2 {
        None
    } else {
        Some(n)
    }
}

pub fn layout_warning(root_name: &str, dirs: &Vec<String>) -> (r: Option<usize>)
    ensures
        match layout_warning_spec(root_name@, dirs@.map_values(|d: String| d@)) {
            Some(n) => r == Some(n as usize),
            None => r is None,
        },
{
    let lower = chars_of(to_lowercase_str(root_name).as_str());
    let op = chars_of("one pace");
    if contains_chars(&lower, &op) {
        return None;
    }
    let ghost dv = dirs@.map_values(|d: String| d@);
    let mut n: usize = 0;
    let mut i: usize = 0;
    while i < dirs.len()
        invariant
            i <= dirs@.len(),
            dv == dirs@.map_values(|d: String| d@),
            n == dv.take(i as int).filter(arc_folder_pred()).len(),
            n <= i,
        decreases dirs@.len() - i,
    {
        proof {
            assert(dv.take(i + 1) == dv.take(i as int).push(dv[i as int]));
            dv.take(i as int).lemma_filter_push(dv[i as int], arc_folder_pred());
        }
        if is_arc_folder_name(dirs[i].as_str()) {
            n = n + 1;
        }
        i = i + 1;
    }
    assert(dv.take(i as int) == dv);
    if n >= 2 {
        Some(n)
    } else {
        None
    }
}

// ---------- matched files ----------

/// `a <= b` as `Path`s compare: component by component.
pub open spec fn comps_le(a: Seq<Seq<char>>, b: Seq<Seq<char>>) -> bool
    decreases a.len(),
{
    if a.len() == 0 {
        true
    } else if b.len() == 0 {
        false
    } else if a[0] != b[0] {
        lex_le(a[0], b[0])
    } else {
        comps_le(a.skip(1), b.skip(1))
    }
}

pub proof fn lemma_comps_total(a: Seq<Seq<char>>, b: Seq<Seq<char>>)
    ensures
        comps_le(a, b) || comps_le(b, a),
    decreases a.len(),
{
    if a.len() > 0 && b.len() > 0 {
        if a[0] == b[0] {
            lemma_comps_total(a.skip(1), b.skip(1));
        } else {
            crate::download::lemma_lex_total(a[0], b[0]);
        }
    }
}

fn seq_lex_le_exec(a: &Vec<char>, b: &Vec<char>) -> (r: bool)
    ensures
        r == lex_le(a@, b@),
{
    let mut i: usize = 0;
    assert(a@.skip(0) == a@ && b@.skip(0) == b@);
    loop
        invariant
            i <= a@.len(),
            i <= b@.len(),
            lex_le(a@, b@) == lex_le(a@.skip(i as int), b@.skip(i as int)),
        decreases a@.len() - i,
    {
        let ghost sa = a@.skip(i as int);
        let ghost sb = b@.skip(i as int);
        if i == a.len() {
            return true;
        }
        if i == b.len() {
            return false;
        }
        assert(sa[0] == a@[i as int] && sb[0] == b@[i as int]);
        if a[i] != b[i] {
            let r = a[i] < b[i];
            assert(lex_le(sa, sb) == r);
            return r;
        }
        assert(sa.skip(1) == a@.skip(i + 1));
        assert(sb.skip(1) == b@.skip(i + 1));
        i = i + 1;
    }
}

pub(crate) fn comps_le_exec(a: &Vec<Vec<char>>, b: &Vec<Vec<char>>) -> (r: bool)
    ensures
        r == comps_le(a@.map_values(|v: Vec<char>| v@), b@.map_values(|v: Vec<char>| v@)),
{
    let ghost av = a@.map_values(|v: Vec<char>| v@);
    let ghost bv = b@.map_values(|v: Vec<char>| v@);
    let mut i: usize = 0;
    assert(av.skip(0) == av && bv.skip(0) == bv);
    loop
        invariant
            i <= a@.len(),
            i <= b@.len(),
            av == a@.map_values(|v: Vec<char>| v@),
            bv == b@.map_values(|v: Vec<char>| v@),
            comps_le(av, bv) == comps_le(av.skip(i as int), bv.skip(i as int)),
        decreases a@.len() - i,
    {
        let ghost sa = av.skip(i as int);
        let ghost sb = bv.skip(i as int);
        if i == a.len() {
            return true;
        }
        if i == b.len() {
            return false;
        }
        assert(sa[0] == a@[i as int]@ && sb[0] == b@[i as int]@);
        if !text::chars_eq(&a[i], &b[i]) {
            return seq_lex_le_exec(&a[i], &b[i]);
        }
        assert(sa.skip(1) == av.skip(i + 1));
        assert(sb.skip(1) == bv.skip(i + 1));
        i = i + 1;
    }
}

pub struct MatchedView {
    pub path: Seq<char>,
    pub parsed: ParsedFileView,
}

pub open spec fn matched_views(v: Seq<(String, ParsedFile)>) -> Seq<(Seq<char>, ParsedFileView)> {
    v.map_values(|m: (String, ParsedFile)| (m.0@, m.1@))
}

/// The library's episode files among its file paths (in walk order):
/// the video files whose names parse as One Pace releases.
pub open spec fn matched_spec(paths: Seq<Seq<char>>) -> Seq<(Seq<char>, ParsedFileView)>
    decreases paths.len(),
{
    if paths.len() == 0 {
        seq![]
    } else {
        let prev = matched_spec(paths.drop_last());
        let p = paths.last();
        if crate::scan::is_video_spec(p) {
            match paths::file_name_spec(p) {
                Some(n) => match matcher::parse_filename_spec(n) {
                    Some(f) => prev.push((p, f)),
                    None => prev,
                },
                None => prev,
            }
        } else {
            prev
        }
    }
}

pub open spec fn video_pred() -> spec_fn(Seq<char>) -> bool {
    |p: Seq<char>| crate::scan::is_video_spec(p)
}

/// Neighbours are in path order.
pub open spec fn sorted_by_path(s: Seq<(Seq<char>, ParsedFileView)>) -> bool {
    forall|i: int|
        0 <= i < s.len() - 1 ==> #[trigger] comps_le(paths::comps(s[i].0), paths::comps(s[i + 1].0))
}

/// The episode files of a library (file paths in walk order), ordered by
/// path, and the number of video files seen.
pub fn match_files(files: &Vec<String>) -> (r: (Vec<(String, ParsedFile)>, usize))
    ensures
        ({
            let fv = files@.map_values(|f: String| f@);
            &&& r.1 == fv.filter(video_pred()).len()
            &&& matched_views(r.0@).to_multiset() == matched_spec(fv).to_multiset()
            &&& sorted_by_path(matched_views(r.0@))
        }),
{
    let ghost fv = files@.map_values(|f: String| f@);
    let mut found: Vec<(String, ParsedFile)> = Vec::new();
    let mut total: usize = 0;
    let mut i: usize = 0;
    while i < files.len()
        invariant
            i <= files@.len(),
            fv == files@.map_values(|f: String| f@),
            total == fv.take(i as int).filter(video_pred()).len(),
            total <= i,
            matched_views(found@) == matched_spec(fv.take(i as int)),
        decreases files@.len() - i,
    {
        let p = files[i].as_str();
        proof {
            assert(fv.take(i + 1) == fv.take(i as int).push(p@));
            assert(fv.take(i + 1).drop_last() == fv.take(i as int));
            fv.take(i as int).lemma_filter_push(p@, video_pred());
        }
        let ghost before = matched_views(found@);
        if crate::scan::is_video(p) {
            total = total + 1;
            match ParsedFile::from_path(p) {
                Some(f) => {
                    found.push((p.to_owned(), f));
                    assert(matched_views(found@) =~= before.push((p@, found@.last().1@)));
                },
                None => {},
            }
        }
        i = i + 1;
    }
    assert(fv.take(i as int) == fv);
    // Order by path (stable insertion).
    let ghost mv = matched_views(found@);
    let mut out: Vec<(String, ParsedFile)> = Vec::new();
    let mut outc: Vec<Vec<Vec<char>>> = Vec::new();
    assert(matched_views(out@) =~= mv.take(0));
    let mut k: usize = 0;
    while k < found.len()
        invariant
            k <= found@.len(),
            mv == matched_views(found@),
            mv == matched_spec(fv),
            matched_views(out@).len() == k,
            outc@.len() == out@.len(),
            forall|t: int| 0 <= t < outc@.len() ==> (#[trigger] outc@[t])@.map_values(|v: Vec<char>| v@)
                == paths::comps(out@[t].0@),
            matched_views(out@).to_multiset() == mv.take(k as int).to_multiset(),
            sorted_by_path(matched_views(out@)),
        decreases found@.len() - k,
    {
        let x = (found[k].0.clone(), found[k].1.clone_parsed());
        let xc = comps_exec(&chars_of(x.0.as_str()));
        let mut p: usize = 0;
        while p < out.len() && comps_le_exec(&outc[p], &xc)
            invariant
                p <= out@.len(),
                outc@.len() == out@.len(),
                forall|t: int| 0 <= t < outc@.len() ==> (#[trigger] outc@[t])@.map_values(|v: Vec<char>| v@)
                    == paths::comps(out@[t].0@),
                xc@.map_values(|v: Vec<char>| v@) == paths::comps(x.0@),
                p > 0 ==> comps_le(paths::comps(out@[p - 1].0@), paths::comps(x.0@)),
            decreases out@.len() - p,
        {
            p = p + 1;
        }
        let ghost ov = matched_views(out@);
        let ghost xv = (x.0@, x.1@);
        proof {
            assert(xv == mv[k as int]);
            if p < out@.len() {
                assert(!comps_le(paths::comps(ov[p as int].0), paths::comps(xv.0)));
                lemma_comps_total(paths::comps(ov[p as int].0), paths::comps(xv.0));
            }
        }
        let ghost oc = outc@;
        out.insert(p, x);
        outc.insert(p, xc);
        proof {
            let nv = matched_views(out@);
            assert(nv =~= ov.insert(p as int, xv));
            assert forall|t: int| 0 <= t < outc@.len() implies (#[trigger] outc@[t])@.map_values(|v: Vec<char>| v@)
                == paths::comps(out@[t].0@) by {
                if t < p {
                    assert(outc@[t] == oc[t]);
                } else if t > p {
                    assert(outc@[t] == oc[t - 1]);
                }
            }
            assert forall|a: int| 0 <= a < nv.len() - 1 implies #[trigger] comps_le(paths::comps(nv[a].0), paths::comps(nv[a + 1].0)) by {
                if a < p - 1 {
                    assert(nv[a] == ov[a] && nv[a + 1] == ov[a + 1]);
                } else if a == p - 1 {
                    assert(nv[a] == ov[a]);
                } else if a == p {
                    assert(nv[a + 1] == ov[a]);
                } else {
                    assert(nv[a] == ov[a - 1] && nv[a + 1] == ov[a]);
                    assert(comps_le(paths::comps(ov[a - 1].0), paths::comps(ov[(a - 1) + 1].0)));
                }
            }
            vstd::seq_lib::to_multiset_insert(ov, p as int, xv);
            assert(mv.take(k + 1) == mv.take(k as int).push(mv[k as int]));
            vstd::seq_lib::to_multiset_build(mv.take(k as int), mv[k as int]);
        }
        k = k + 1;
    }
    assert(mv.take(k as int) == mv);
    (out, total)
}

// ---------- one file per episode ----------

/// The episode slot of a file: normalized arc and episode number.
pub open spec fn slot_of(m: (Seq<char>, ParsedFileView)) -> (Seq<char>, u32) {
    (matcher::normalize_arc_spec(m.1.arc), m.1.episode)
}

/// Index of the slot `k` among the kept files, if it has one.
pub open spec fn slot_index(w: Seq<(Seq<char>, ParsedFileView)>, k: (Seq<char>, u32), i: int) -> Option<int>
    decreases w.len() - i,
{
    if i < 0 || i >= w.len() {
        None
    } else if slot_of(w[i]) == k {
        Some(i)
    } else {
        slot_index(w, k, i + 1)
    }
}

/// The file kept for each episode slot, slots in order of first
/// appearance: the first file of a slot, replaced by a later Extended cut
/// when the kept one is a regular cut. A second file of the same variant
/// is dropped.
pub open spec fn winning_files_spec(m: Seq<(Seq<char>, ParsedFileView)>) -> Seq<(Seq<char>, ParsedFileView)>
    decreases m.len(),
{
    if m.len() == 0 {
        seq![]
    } else {
        let prev = winning_files_spec(m.drop_last());
        let e = m.last();
        match slot_index(prev, slot_of(e), 0) {
            None => prev.push(e),
            Some(j) => if e.1.extended && !prev[j].1.extended {
                prev.update(j, e)
            } else {
                prev
            },
        }
    }
}

fn slot_index_exec(w: &Vec<(String, ParsedFile)>, arc: &Vec<char>, ep: u32) -> (r: Option<usize>)
    ensures
        match r {
            Some(j) => slot_index(matched_views(w@), (arc@, ep), 0) == Some(j as int) && j < w@.len(),
            None => slot_index(matched_views(w@), (arc@, ep), 0) is None,
        },
{
    let ghost wv = matched_views(w@);
    let mut i: usize = 0;
    while i < w.len()
        invariant
            i <= w@.len(),
            wv == matched_views(w@),
            slot_index(wv, (arc@, ep), 0) == slot_index(wv, (arc@, ep), i as int),
        decreases w@.len() - i,
    {
        let e = &w[i];
        assert(wv[i as int] == (e.0@, e.1@));
        if e.1.episode == ep {
            let n = chars_of(normalize_arc(e.1.arc.as_str()).as_str());
            if text::chars_eq(&n, arc) {
                return Some(i);
            }
        }
        i = i + 1;
    }
    None
}

/// For each (arc, episode) slot, the one file whose NFO is written: an
/// Extended cut wins over a regular one; otherwise the first file found.
pub fn pick_winning_files(matched: &Vec<(String, ParsedFile)>) -> (r: Vec<(String, ParsedFile)>)
    ensures
        matched_views(r@) == winning_files_spec(matched_views(matched@)),
{
    let ghost mv = matched_views(matched@);
    let mut w: Vec<(String, ParsedFile)> = Vec::new();
    let mut i: usize = 0;
    while i < matched.len()
        invariant
            i <= matched@.len(),
            mv == matched_views(matched@),
            matched_views(w@) == winning_files_spec(mv.take(i as int)),
        decreases matched@.len() - i,
    {
        let e = &matched[i];
        proof {
            assert(mv.take(i + 1).drop_last() == mv.take(i as int));
            assert(mv.take(i + 1).last() == (e.0@, e.1@));
        }
        let arc = chars_of(normalize_arc(e.1.arc.as_str()).as_str());
        let ghost before = matched_views(w@);
        match slot_index_exec(&w, &arc, e.1.episode) {
            None => {
                w.push((e.0.clone(), e.1.clone_parsed()));
                assert(matched_views(w@) =~= before.push((e.0@, e.1@)));
            },
            Some(j) => {
                if e.1.extended && !w[j].1.extended {
                    w.set(j, (e.0.clone(), e.1.clone_parsed()));
                    assert(matched_views(w@) =~= before.update(j as int, (e.0@, e.1@)));
                }
            },
        }
        i = i + 1;
    }
    assert(mv.take(i as int) == mv);
    w
}

// ---------- the write plan ----------

/// What a planned write puts on disk.
pub enum Asset {
    SeriesNfo { series: Series, lock: bool },
    SeasonNfo { season: Season, lock: bool },
    EpisodeNfo { episode: Episode, lock: bool },
    Poster(Vec<u8>),
}

/// One planned write: where, under which label in the log, and what.
pub struct PendingWrite {
    pub path: String,
    pub label: String,
    pub kind: Asset,
}

/// What a planned write puts on disk, as values.
pub enum AssetView {
    SeriesNfo { series: SeriesView, lock: bool },
    SeasonNfo { season: SeasonView, lock: bool },
    EpisodeNfo { episode: EpisodeView, lock: bool },
    Poster(Seq<u8>),
}

/// A planned write, as values.
pub struct WriteView {
    pub path: Seq<char>,
    pub label: Seq<char>,
    pub kind: AssetView,
}

impl View for Asset {
    type V = AssetView;

    open spec fn view(&self) -> AssetView {
        match self {
            Asset::SeriesNfo { series, lock } => AssetView::SeriesNfo { series: series@, lock: *lock },
            Asset::SeasonNfo { season, lock } => AssetView::SeasonNfo { season: season@, lock: *lock },
            Asset::EpisodeNfo { episode, lock } => AssetView::EpisodeNfo { episode: episode@, lock: *lock },
            Asset::Poster(b) => AssetView::Poster(b@),
        }
    }
}

impl View for PendingWrite {
    type V = WriteView;

    open spec fn view(&self) -> WriteView {
        WriteView { path: self.path@, label: self.label@, kind: self.kind@ }
    }
}

pub open spec fn write_views(v: Seq<PendingWrite>) -> Seq<WriteView> {
    v.map_values(|w: PendingWrite| w@)
}

proof fn lemma_write_views_append(a: Seq<PendingWrite>, b: Seq<PendingWrite>)
    ensures
        write_views(a + b) == write_views(a) + write_views(b),
{
    assert(write_views(a + b) =~= write_views(a) + write_views(b));
}

/// `S<season:02>E<number:02> (<i>/<total>)`, `i` counted from one.
pub open spec fn episode_label_spec(season: u32, number: u32, i: nat, total: nat) -> Seq<char> {
    seq!['S'] + text::zero_pad(text::decimal(season as nat), 2) + seq!['E'] + text::zero_pad(
        text::decimal(number as nat),
        2,
    ) + seq![' ', '('] + text::decimal(i + 1) + seq!['/'] + text::decimal(total) + seq![')']
}

/// The episode as written: an Extended cut says so in its title.
pub open spec fn titled_episode(e: EpisodeView, extended: bool) -> EpisodeView {
    if extended {
        EpisodeView { title: e.title + " (Extended)"@, ..e }
    } else {
        e
    }
}

/// The arc folder an episode file lends its season: its parent, unless
/// that is the library root itself.
pub open spec fn arc_folder_of(media: Seq<char>, root: Seq<char>) -> Option<Seq<char>> {
    match paths::parent_spec(media) {
        Some(p) => if paths::same_path_spec(p, root) {
            None
        } else {
            Some(p)
        },
        None => None,
    }
}

/// The planned write of one episode's NFO: next to the media file, with
/// the media's extension replaced by `nfo`.
pub fn plan_episode(
    root: &str,
    media_path: &str,
    extended: bool,
    episode: Episode,
    i: usize,
    total: usize,
    lock: bool,
) -> (r: (PendingWrite, Option<(u32, String)>))
    requires
        i < total,
    ensures
        r.0.path@ == paths::with_extension_spec(media_path@, "nfo"@),
        r.0.label@ == episode_label_spec(episode.season, episode.number, i as nat, total as nat),
        r.0.kind matches Asset::EpisodeNfo { episode: e, lock: l } && e@ == titled_episode(
            episode@,
            extended,
        ) && l == lock,
        match arc_folder_of(media_path@, root@) {
            Some(p) => r.1 matches Some((n, f)) && n == episode.season && f@ == p,
            None => r.1 is None,
        },
{
    let mut ep = episode;
    if extended {
        let mut t = chars_of(ep.title.as_str());
        push_str(&mut t, " (Extended)");
        ep.title = string_of(&t);
    }
    let mut label: Vec<char> = Vec::new();
    label.push('S');
    push_all(&mut label, &fmt_u32_padded(ep.season, 2));
    label.push('E');
    push_all(&mut label, &fmt_u32_padded(ep.number, 2));
    label.push(' ');
    label.push('(');
    push_all(&mut label, &fmt_usize(i + 1));
    label.push('/');
    push_all(&mut label, &fmt_usize(total));
    label.push(')');
    assert(label@ =~= episode_label_spec(ep.season, ep.number, i as nat, total as nat));
    let folder = match parent(media_path) {
        Some(p) => {
            if same_path(p.as_str(), root) {
                None
            } else {
                Some((ep.season, p))
            }
        },
        None => None,
    };
    let season = ep.season;
    (
        PendingWrite {
            path: with_extension(media_path, "nfo"),
            label: string_of(&label),
            kind: Asset::EpisodeNfo { episode: ep, lock },
        },
        folder,
    )
}

/// What a kept file's episode lookup came to, as the tallies count it.
#[derive(Debug, Clone, Copy, PartialEq, Eq, Structural)]
pub enum LookupOutcome {
    /// The source had the episode: its NFO is planned.
    Matched,
    /// No source had the episode.
    NoMatch,
    /// The lookup failed.
    Failed,
}

/// The plan for the `i`-th of `total` kept files, at `media_path`, given
/// what its episode lookup answered: a found episode gets the write (and
/// the season folder) `plan_episode` makes; nothing otherwise.
pub fn plan_lookup(
    root: &str,
    media_path: &str,
    extended: bool,
    answer: Result<Option<Episode>, anyhow::Error>,
    i: usize,
    total: usize,
    lock: bool,
) -> (r: (LookupOutcome, Option<(PendingWrite, Option<(u32, String)>)>))
    requires
        i < total,
    ensures
        match answer {
            Ok(Some(e)) => r.0 == LookupOutcome::Matched && (r.1 matches Some((w, f)) && w@
                == episode_write_spec(root@, media_path@, extended, e@, i as nat, total as nat, lock)
                && match arc_folder_of(media_path@, root@) {
                Some(p) => f matches Some((n, g)) && n == e.season && g@ == p,
                None => f is None,
            }),
            Ok(None) => r.0 == LookupOutcome::NoMatch && r.1 is None,
            Err(_) => r.0 == LookupOutcome::Failed && r.1 is None,
        },
{
    match answer {
        Ok(Some(ep)) => {
            let ghost e = ep@;
            let (w, folder) = plan_episode(root, media_path, extended, ep, i, total, lock);
            assert(w@ == episode_write_spec(root@, media_path@, extended, e, i as nat, total as nat, lock));
            (LookupOutcome::Matched, Some((w, folder)))
        },
        Ok(None) => (LookupOutcome::NoMatch, None),
        Err(_) => (LookupOutcome::Failed, None),
    }
}

/// Tallies of the episode planning.
pub struct EpisodeStats {
    pub matched_to_source: usize,
    pub no_source_match: usize,
    pub fetch_failed: usize,
}

/// The NFO write `plan_episode` makes for the `j`-th of `total` kept
/// files, at `media`, given its episode `e`.
pub open spec fn episode_write_spec(
    root: Seq<char>,
    media: Seq<char>,
    extended: bool,
    e: EpisodeView,
    j: nat,
    total: nat,
    lock: bool,
) -> WriteView {
    WriteView {
        path: paths::with_extension_spec(media, "nfo"@),
        label: episode_label_spec(e.season, e.number, j, total),
        kind: AssetView::EpisodeNfo { episode: titled_episode(e, extended), lock },
    }
}

/// What the sources answered for one kept file's episode.
pub enum EpisodeAnswer {
    /// The episode's metadata.
    Found(EpisodeView),
    /// No source had the episode.
    Missing,
    /// The lookup failed.
    Failed,
}

pub open spec fn answer_view(a: Result<Option<Episode>, anyhow::Error>) -> EpisodeAnswer {
    match a {
        Ok(Some(e)) => EpisodeAnswer::Found(e@),
        Ok(None) => EpisodeAnswer::Missing,
        Err(_) => EpisodeAnswer::Failed,
    }
}

/// An episode plan, as values: the NFO writes, each season's arc folder,
/// and the tallies of the files no source had and of failed lookups.
pub struct EpisodePlanView {
    pub writes: Seq<WriteView>,
    pub folders: Seq<(u32, Seq<char>)>,
    pub missing: nat,
    pub failed: nat,
}

/// Some folder of `folders` is season `n`'s.
pub open spec fn has_season(folders: Seq<(u32, Seq<char>)>, n: u32) -> bool {
    exists|t: int| 0 <= t < folders.len() && #[trigger] folders[t].0 == n
}

/// The plan `p` after the `j`-th of `total` kept files, at `media`, got
/// answer `a`: a found episode adds its NFO write and, when the file sits
/// in an arc folder and its season has no folder yet, that folder.
pub open spec fn episode_step(
    p: EpisodePlanView,
    root: Seq<char>,
    media: Seq<char>,
    extended: bool,
    j: nat,
    total: nat,
    lock: bool,
    a: EpisodeAnswer,
) -> EpisodePlanView {
    match a {
        EpisodeAnswer::Found(e) => EpisodePlanView {
            writes: p.writes.push(episode_write_spec(root, media, extended, e, j, total, lock)),
            folders: match arc_folder_of(media, root) {
                Some(f) => if has_season(p.folders, e.season) {
                    p.folders
                } else {
                    p.folders.push((e.season, f))
                },
                None => p.folders,
            },
            missing: p.missing,
            failed: p.failed,
        },
        EpisodeAnswer::Missing => EpisodePlanView {
            writes: p.writes,
            folders: p.folders,
            missing: p.missing + 1,
            failed: p.failed,
        },
        EpisodeAnswer::Failed => EpisodePlanView {
            writes: p.writes,
            folders: p.folders,
            missing: p.missing,
            failed: p.failed + 1,
        },
    }
}

/// The episode plan of the kept files `files` (path, Extended), in order,
/// each with its answer, out of `total` kept files.
pub open spec fn episode_plan_spec(
    files: Seq<(Seq<char>, bool)>,
    answers: Seq<EpisodeAnswer>,
    root: Seq<char>,
    total: nat,
    lock: bool,
) -> EpisodePlanView
    decreases files.len(),
{
    if files.len() == 0 || answers.len() == 0 {
        EpisodePlanView { writes: seq![], folders: seq![], missing: 0, failed: 0 }
    } else {
        episode_step(
            episode_plan_spec(files.drop_last(), answers.drop_last(), root, total, lock),
            root,
            files.last().0,
            files.last().1,
            (files.len() - 1) as nat,
            total,
            lock,
            answers.last(),
        )
    }
}

/// The kept files as the plan reads them: path and Extended mark.
pub open spec fn winner_files(winners: Seq<(String, ParsedFile)>) -> Seq<(Seq<char>, bool)> {
    winners.map_values(|w: (String, ParsedFile)| (w.0@, w.1.extended))
}

/// Plans the episode NFOs of the kept files, asking `source` for each
/// one's metadata under its canonical identity (the CRC oracle's answer,
/// else its own arc and number). Files without metadata, or whose lookup
/// failed, are counted and skipped. Also returns each season's arc folder
/// (the first one met). The answers are the sources' to give: the
/// contract states the plan, folders and tallies exactly for the answers
/// given, not which answers a given source replies.
pub fn plan_episode_assets(
    source: &dyn DataSource,
    root: &str,
    winners: &Vec<(String, ParsedFile)>,
    lock: bool,
) -> (r: (Vec<PendingWrite>, Vec<(u32, String)>, EpisodeStats))
    ensures
        r.2.matched_to_source == r.0@.len(),
        exists|answers: Seq<EpisodeAnswer>|
            answers.len() == winners@.len() && #[trigger] episode_plan_spec(
                winner_files(winners@),
                answers,
                root@,
                winners@.len() as nat,
                lock,
            ) == (EpisodePlanView {
                writes: write_views(r.0@),
                folders: folder_views(r.1@),
                missing: r.2.no_source_match as nat,
                failed: r.2.fetch_failed as nat,
            }),
{
    let total = winners.len();
    let ghost files = winner_files(winners@);
    let ghost mut answers: Seq<EpisodeAnswer> = Seq::empty();
    let mut pending: Vec<PendingWrite> = Vec::new();
    let mut folders: Vec<(u32, String)> = Vec::new();
    let mut stats = EpisodeStats { matched_to_source: 0, no_source_match: 0, fetch_failed: 0 };
    let mut i: usize = 0;
    assert(write_views(pending@) =~= seq![]);
    assert(folder_views(folders@) =~= seq![]);
    while i < total
        invariant
            total == winners@.len(),
            files == winner_files(winners@),
            i <= total,
            answers.len() == i,
            pending@.len() == stats.matched_to_source,
            stats.matched_to_source + stats.no_source_match + stats.fetch_failed == i,
            episode_plan_spec(files.take(i as int), answers, root@, total as nat, lock) == (
            EpisodePlanView {
                writes: write_views(pending@),
                folders: folder_views(folders@),
                missing: stats.no_source_match as nat,
                failed: stats.fetch_failed as nat,
            }),
        decreases total - i,
    {
        let (media, parsed) = (&winners[i].0, &winners[i].1);
        let (arc_norm, number) = identify_or_fallback(source, parsed);
        let answer = source.episode(arc_norm.as_str(), number);
        let ghost a = answer_view(answer);
        let ghost prev = EpisodePlanView {
            writes: write_views(pending@),
            folders: folder_views(folders@),
            missing: stats.no_source_match as nat,
            failed: stats.fetch_failed as nat,
        };
        let (outcome, planned) = plan_lookup(root, media.as_str(), parsed.extended, answer, i, total, lock);
        proof {
            assert(files.take(i + 1).drop_last() =~= files.take(i as int));
            assert(files.take(i + 1).last() == (media@, parsed.extended));
            assert(answers.push(a).drop_last() =~= answers);
            answers = answers.push(a);
        }
        let ghost next = episode_step(prev, root@, media@, parsed.extended, i as nat, total as nat, lock, a);
        assert(episode_plan_spec(files.take(i + 1), answers, root@, total as nat, lock) == next);
        match planned {
            Some((w, folder)) => {
                let ghost ws0 = pending@;
                pending.push(w);
                assert(write_views(pending@) =~= write_views(ws0).push(w@));
                stats.matched_to_source = stats.matched_to_source + 1;
                match folder {
                    Some((n, f)) => {
                        let ghost fv0 = folder_views(folders@);
                        let mut known = false;
                        let mut j: usize = 0;
                        while j < folders.len()
                            invariant
                                j <= folders@.len(),
                                fv0 == folder_views(folders@),
                                known == exists|t: int| 0 <= t < j && #[trigger] fv0[t].0 == n,
                            decreases folders@.len() - j,
                        {
                            assert(fv0[j as int].0 == folders@[j as int].0);
                            if folders[j].0 == n {
                                known = true;
                            }
                            j = j + 1;
                        }
                        assert(known == has_season(fv0, n));
                        if !known {
                            folders.push((n, f));
                            assert(folder_views(folders@) =~= fv0.push((n, f@)));
                        }
                    },
                    None => {},
                }
            },
            None => {
                if outcome == LookupOutcome::NoMatch {
                    stats.no_source_match = stats.no_source_match + 1;
                } else {
                    stats.fetch_failed = stats.fetch_failed + 1;
                }
            },
        }
        i = i + 1;
    }
    assert(files.take(total as int) =~= files);
    (pending, folders, stats)
}

/// The series writes for what the sources answered: `tvshow.nfo` (with
/// the chosen display order) when there is a series, then `poster.png`
/// when there is also a poster; nothing without a series.
pub open spec fn series_writes_spec(
    root: Seq<char>,
    display_order: Seq<char>,
    lock: bool,
    series: Option<SeriesView>,
    poster: Option<Seq<u8>>,
) -> Seq<WriteView> {
    match series {
        None => seq![],
        Some(s) => seq![
            WriteView {
                path: paths::join_spec(root, "tvshow.nfo"@),
                label: "tvshow.nfo"@,
                kind: AssetView::SeriesNfo {
                    series: SeriesView { display_order: Some(display_order), ..s },
                    lock,
                },
            },
        ] + match poster {
            Some(b) => seq![
                WriteView {
                    path: paths::join_spec(root, "poster.png"@),
                    label: "poster.png"@,
                    kind: AssetView::Poster(b),
                },
            ],
            None => seq![],
        },
    }
}

pub open spec fn opt_views<T: View>(o: Option<T>) -> Option<T::V> {
    match o {
        Some(x) => Some(x@),
        None => None,
    }
}

/// The series writes for a series (if a source had one) and its poster
/// (if a source had one).
pub fn series_writes(
    root: &str,
    display_order: &str,
    lock: bool,
    series: Option<Series>,
    poster: Option<Vec<u8>>,
) -> (r: Vec<PendingWrite>)
    ensures
        write_views(r@) == series_writes_spec(root@, display_order@, lock, opt_views(series), opt_views(poster)),
{
    let mut out: Vec<PendingWrite> = Vec::new();
    match series {
        Some(series) => {
            let mut s = series;
            s.display_order = Some(display_order.to_owned());
            out.push(
                PendingWrite {
                    path: join(root, "tvshow.nfo"),
                    label: "tvshow.nfo".to_owned(),
                    kind: Asset::SeriesNfo { series: s, lock },
                },
            );
            match poster {
                Some(bytes) => {
                    out.push(
                        PendingWrite {
                            path: join(root, "poster.png"),
                            label: "poster.png".to_owned(),
                            kind: Asset::Poster(bytes),
                        },
                    );
                },
                None => {},
            }
        },
        None => {},
    }
    assert(write_views(out@) =~= series_writes_spec(
        root@,
        display_order@,
        lock,
        opt_views(series),
        opt_views(poster),
    ));
    out
}

/// Plans the series assets: asks the sources for the series, and for its
/// poster when there is a series, and plans `series_writes` of what they
/// answered (a failed lookup counts as no answer). The answers are the
/// source's to give: the contract states the plan for some answers, not
/// which ones a given source replies.
pub fn plan_series_assets(
    source: &dyn DataSource,
    root: &str,
    display_order: &str,
    lock: bool,
) -> (r: Vec<PendingWrite>)
    ensures
        exists|s: Option<SeriesView>, p: Option<Seq<u8>>|
            write_views(r@) == #[trigger] series_writes_spec(root@, display_order@, lock, s, p),
{
    let (series, poster): (Option<Series>, Option<Vec<u8>>) = match source.series() {
        Ok(Some(series)) => {
            let poster = match source.image(ImageKind::SeriesPoster) {
                Ok(Some(bytes)) => Some(bytes),
                _ => None,
            };
            (Some(series), poster)
        },
        _ => (None, None),
    };
    let ghost sv = opt_views(series);
    let ghost pv = opt_views(poster);
    let out = series_writes(root, display_order, lock, series, poster);
    assert(write_views(out@) == series_writes_spec(root@, display_order@, lock, sv, pv));
    out
}

/// `<name> (S<season:02>)`
pub open spec fn season_label_spec(name: Seq<char>, season: u32) -> Seq<char> {
    name + seq![' ', '(', 'S'] + text::zero_pad(text::decimal(season as nat), 2) + seq![')']
}

fn season_label(name: &str, season: u32) -> (r: String)
    ensures
        r@ == season_label_spec(name@, season),
{
    let mut out = chars_of(name);
    out.push(' ');
    out.push('(');
    out.push('S');
    push_all(&mut out, &fmt_u32_padded(season, 2));
    out.push(')');
    string_of(&out)
}

/// The writes of one season folder for what the sources answered: its
/// `season.nfo` when there is a season, its `poster.png` when there is a
/// poster.
pub open spec fn season_writes_spec(
    n: u32,
    folder: Seq<char>,
    lock: bool,
    season: Option<SeasonView>,
    poster: Option<Seq<u8>>,
) -> Seq<WriteView> {
    (match season {
        Some(s) => seq![
            WriteView {
                path: paths::join_spec(folder, "season.nfo"@),
                label: season_label_spec("season.nfo"@, n),
                kind: AssetView::SeasonNfo { season: s, lock },
            },
        ],
        None => seq![],
    }) + match poster {
        Some(b) => seq![
            WriteView {
                path: paths::join_spec(folder, "poster.png"@),
                label: season_label_spec("poster.png"@, n),
                kind: AssetView::Poster(b),
            },
        ],
        None => seq![],
    }
}

/// The writes of the season folders, in order, each for the answers the
/// sources gave about it.
pub open spec fn season_plan_spec(
    folders: Seq<(u32, Seq<char>)>,
    answers: Seq<(Option<SeasonView>, Option<Seq<u8>>)>,
    lock: bool,
) -> Seq<WriteView>
    decreases folders.len(),
{
    if folders.len() == 0 || answers.len() == 0 {
        seq![]
    } else {
        season_plan_spec(folders.drop_last(), answers.drop_last(), lock) + season_writes_spec(
            folders.last().0,
            folders.last().1,
            lock,
            answers.last().0,
            answers.last().1,
        )
    }
}

pub open spec fn folder_views(v: Seq<(u32, String)>) -> Seq<(u32, Seq<char>)> {
    v.map_values(|f: (u32, String)| (f.0, f.1@))
}

/// The writes of season `n`'s folder for a season (if a source had one)
/// and its poster (if a source had one).
pub fn season_writes(
    n: u32,
    folder: &str,
    lock: bool,
    season: Option<Season>,
    poster: Option<Vec<u8>>,
) -> (r: Vec<PendingWrite>)
    ensures
        write_views(r@) == season_writes_spec(n, folder@, lock, opt_views(season), opt_views(poster)),
{
    let mut out: Vec<PendingWrite> = Vec::new();
    match season {
        Some(season) => {
            out.push(
                PendingWrite {
                    path: join(folder, "season.nfo"),
                    label: season_label("season.nfo", n),
                    kind: Asset::SeasonNfo { season, lock },
                },
            );
        },
        None => {},
    }
    match poster {
        Some(bytes) => {
            out.push(
                PendingWrite {
                    path: join(folder, "poster.png"),
                    label: season_label("poster.png", n),
                    kind: Asset::Poster(bytes),
                },
            );
        },
        None => {},
    }
    assert(write_views(out@) =~= season_writes_spec(n, folder@, lock, opt_views(season), opt_views(poster)));
    out
}

/// Plans each season folder's assets, in order: asks the sources for the
/// season and, unless that lookup failed, for its poster, and plans
/// `season_writes` of what they answered. The answers are the source's
/// to give: the contract states the plan for some answers, not which ones
/// a given source replies.
pub fn plan_season_assets(
    source: &dyn DataSource,
    folders: &Vec<(u32, String)>,
    lock: bool,
) -> (r: Vec<PendingWrite>)
    ensures
        exists|answers: Seq<(Option<SeasonView>, Option<Seq<u8>>)>|
            answers.len() == folders@.len() && write_views(r@) == #[trigger] season_plan_spec(
                folder_views(folders@),
                answers,
                lock,
            ),
{
    let ghost fv = folder_views(folders@);
    let ghost mut answers: Seq<(Option<SeasonView>, Option<Seq<u8>>)> = Seq::empty();
    let mut out: Vec<PendingWrite> = Vec::new();
    let mut i: usize = 0;
    while i < folders.len()
        invariant
            i <= folders@.len(),
            fv == folder_views(folders@),
            answers.len() == i,
            write_views(out@) == season_plan_spec(fv.take(i as int), answers, lock),
        decreases folders@.len() - i,
    {
        let n = folders[i].0;
        let folder = &folders[i].1;
        let (season, poster): (Option<Season>, Option<Vec<u8>>) = match source.season(n) {
            Ok(found) => {
                let poster = match source.image(ImageKind::SeasonPoster { number: n }) {
                    Ok(Some(bytes)) => Some(bytes),
                    _ => None,
                };
                (found, poster)
            },
            Err(_) => (None, None),
        };
        let ghost sv = opt_views(season);
        let ghost pv = opt_views(poster);
        let mut w = season_writes(n, folder.as_str(), lock, season, poster);
        let ghost before = out@;
        let ghost ws = w@;
        out.append(&mut w);
        proof {
            lemma_write_views_append(before, ws);
            let t = fv.take(i + 1);
            assert(t.drop_last() == fv.take(i as int));
            assert(t.last() == (n, folder@));
            assert(answers.push((sv, pv)).drop_last() == answers);
            answers = answers.push((sv, pv));
        }
        i = i + 1;
    }
    assert(fv.take(folders@.len() as int) == fv);
    out
}

// ---------- applying the plan ----------

/// Whether an NFO on disk carries our marker, and whether its body still
/// matches it.
#[derive(Debug, Clone, Copy, PartialEq, Eq, Structural)]
pub enum MarkerStatus {
    IntactOurs,
    EditedOurs,
    Absent,
}

/// How a planned write compares with what is on disk.
#[derive(Debug, Clone, Copy, PartialEq, Eq, Structural)]
pub enum WriteStatus {
    /// Nothing there. Safe.
    Fresh,
    /// Our NFO, unchanged since written. Safe.
    UpdateOurs,
    /// Our NFO, edited by the user since. Conflict.
    UserEdited,
    /// An NFO without our marker. Conflict.
    ForeignNfo,
    /// A poster with the same bytes. Nothing to do.
    PosterUnchanged,
    /// A poster with other bytes. Conflict.
    PosterDiffers,
}

pub open spec fn classify_spec(is_poster: bool, exists: bool, marker: MarkerStatus, same_bytes: bool) -> WriteStatus {
    if !exists {
        WriteStatus::Fresh
    } else if is_poster {
        if same_bytes {
            WriteStatus::PosterUnchanged
        } else {
            WriteStatus::PosterDiffers
        }
    } else {
        match marker {
            MarkerStatus::IntactOurs => WriteStatus::UpdateOurs,
            MarkerStatus::EditedOurs => WriteStatus::UserEdited,
            MarkerStatus::Absent => WriteStatus::ForeignNfo,
        }
    }
}

/// Classifies a planned write from what the disk shows: whether its
/// path exists, the marker of an NFO there, and whether a poster there
/// has the same digest.
pub fn classify(is_poster: bool, exists: bool, marker: MarkerStatus, same_bytes: bool) -> (r: WriteStatus)
    ensures
        r == classify_spec(is_poster, exists, marker, same_bytes),
{
    if !exists {
        return WriteStatus::Fresh;
    }
    if is_poster {
        return if same_bytes {
            WriteStatus::PosterUnchanged
        } else {
            WriteStatus::PosterDiffers
        };
    }
    match marker {
        MarkerStatus::IntactOurs => WriteStatus::UpdateOurs,
        MarkerStatus::EditedOurs => WriteStatus::UserEdited,
        MarkerStatus::Absent => WriteStatus::ForeignNfo,
    }
}

/// SHA-256 of a byte string.
pub uninterp spec fn sha256_digest(b: Seq<u8>) -> Seq<u8>;

/// `sha2::Sha256::digest`: the 32-byte SHA-256 digest of `bytes`.
#[verifier::external_body]
pub(crate) fn bytes_sha256(bytes: &Vec<u8>) -> (r: Vec<u8>)
    ensures
        r@ == sha256_digest(bytes@),
        r@.len() == 32,
{
    sha2::Sha256::digest(bytes.as_slice()).to_vec()
}

/// Whether a poster on disk has the digest of the poster planned.
pub fn same_poster(existing: &Vec<u8>, planned: &Vec<u8>) -> (r: bool)
    ensures
        r == (sha256_digest(existing@) == sha256_digest(planned@)),
{
    let a = bytes_sha256(existing);
    let b = bytes_sha256(planned);
    let mut i: usize = 0;
    while i < 32
        invariant
            a@.len() == 32 && b@.len() == 32,
            a@ == sha256_digest(existing@),
            b@ == sha256_digest(planned@),
            i <= 32,
            forall|k: int| 0 <= k < i ==> a@[k] == b@[k],
        decreases 32 - i,
    {
        if a[i] != b[i] {
            assert(a@[i as int] != b@[i as int]);
            return false;
        }
        i = i + 1;
    }
    assert(a@ =~= b@);
    true
}

pub open spec fn is_safe(s: WriteStatus) -> bool {
    s == WriteStatus::Fresh || s == WriteStatus::UpdateOurs
}

pub open spec fn is_conflict(s: WriteStatus) -> bool {
    s == WriteStatus::UserEdited || s == WriteStatus::ForeignNfo || s == WriteStatus::PosterDiffers
}

/// Indices (into `st`) of the statuses satisfying `p`, in order.
pub open spec fn indices_where(st: Seq<WriteStatus>, p: spec_fn(WriteStatus) -> bool) -> Seq<int>
    decreases st.len(),
{
    if st.len() == 0 {
        seq![]
    } else {
        let prev = indices_where(st.drop_last(), p);
        if p(st.last()) {
            prev.push(st.len() - 1)
        } else {
            prev
        }
    }
}

pub open spec fn safe_pred() -> spec_fn(WriteStatus) -> bool {
    |s: WriteStatus| is_safe(s)
}

pub open spec fn conflict_pred() -> spec_fn(WriteStatus) -> bool {
    |s: WriteStatus| is_conflict(s)
}

pub open spec fn unchanged_pred() -> spec_fn(WriteStatus) -> bool {
    |s: WriteStatus| s == WriteStatus::PosterUnchanged
}

/// Splits classified writes into the safe ones, the number unchanged,
/// and the conflicting ones (indices in plan order).
pub fn partition_writes(statuses: &Vec<WriteStatus>) -> (r: (Vec<usize>, usize, Vec<usize>))
    ensures
        r.0@.map_values(|i: usize| i as int) == indices_where(statuses@, safe_pred()),
        r.1 == indices_where(statuses@, unchanged_pred()).len(),
        r.2@.map_values(|i: usize| i as int) == indices_where(statuses@, conflict_pred()),
{
    let mut safe: Vec<usize> = Vec::new();
    let mut conflicts: Vec<usize> = Vec::new();
    let mut unchanged: usize = 0;
    let mut i: usize = 0;
    while i < statuses.len()
        invariant
            i <= statuses@.len(),
            safe@.map_values(|i: usize| i as int) == indices_where(statuses@.take(i as int), safe_pred()),
            unchanged == indices_where(statuses@.take(i as int), unchanged_pred()).len(),
            unchanged <= i,
            conflicts@.map_values(|i: usize| i as int) == indices_where(statuses@.take(i as int), conflict_pred()),
        decreases statuses@.len() - i,
    {
        let s = statuses[i];
        let ghost t = statuses@.take(i + 1);
        assert(t.drop_last() == statuses@.take(i as int));
        assert(t.last() == s);
        let ghost sb = safe@.map_values(|i: usize| i as int);
        let ghost cb = conflicts@.map_values(|i: usize| i as int);
        match s {
            WriteStatus::Fresh | WriteStatus::UpdateOurs => {
                safe.push(i);
                assert(safe@.map_values(|i: usize| i as int) =~= sb.push(i as int));
            },
            WriteStatus::PosterUnchanged => {
                unchanged = unchanged + 1;
            },
            _ => {
                conflicts.push(i);
                assert(conflicts@.map_values(|i: usize| i as int) =~= cb.push(i as int));
            },
        }
        i = i + 1;
    }
    assert(statuses@.take(i as int) == statuses@);
    (safe, unchanged, conflicts)
}

/// What happens to the conflicting writes.
#[derive(Debug, Clone, Copy, PartialEq, Eq, Structural)]
pub enum ConflictPolicy {
    /// Dry run: report them, count them skipped.
    Report,
    /// `--force`: write them.
    Overwrite,
    /// `--non-interactive`: skip them.
    Skip,
    /// No terminal to ask on: refuse the run.
    Refuse,
    /// Ask once for all of them.
    Ask,
}

pub open spec fn conflict_policy_spec(dry_run: bool, force: bool, non_interactive: bool, tty: bool) -> ConflictPolicy {
    if dry_run {
        ConflictPolicy::Report
    } else if force {
        ConflictPolicy::Overwrite
    } else if non_interactive {
        ConflictPolicy::Skip
    } else if !tty {
        ConflictPolicy::Refuse
    } else {
        ConflictPolicy::Ask
    }
}

/// What each setting decides: a dry run only reports; otherwise
/// `--force` overwrites whether or not the run is interactive or has a
/// terminal; the user is asked only from a terminal, without `--force`
/// or `--non-interactive`; conflicts are skipped only under
/// `--non-interactive` without `--force`; a run is refused only without
/// a terminal.
pub proof fn law_conflict_policy(dry_run: bool, force: bool, non_interactive: bool, tty: bool)
    ensures
        dry_run ==> conflict_policy_spec(dry_run, force, non_interactive, tty) == ConflictPolicy::Report,
        !dry_run && force ==> conflict_policy_spec(dry_run, force, non_interactive, tty)
            == ConflictPolicy::Overwrite,
        conflict_policy_spec(dry_run, force, non_interactive, tty) == ConflictPolicy::Ask ==> !dry_run
            && !force && !non_interactive && tty,
        conflict_policy_spec(dry_run, force, non_interactive, tty) == ConflictPolicy::Skip ==> !dry_run
            && !force && non_interactive,
        conflict_policy_spec(dry_run, force, non_interactive, tty) == ConflictPolicy::Refuse ==> !dry_run
            && !force && !non_interactive && !tty,
{
}

/// The conflict policy: dry run first, then `--force`, then
/// `--non-interactive`; otherwise ask, which needs a terminal.
pub fn conflict_policy(dry_run: bool, force: bool, non_interactive: bool, stdin_is_tty: bool) -> (r: ConflictPolicy)
    ensures
        r == conflict_policy_spec(dry_run, force, non_interactive, stdin_is_tty),
{
    if dry_run {
        ConflictPolicy::Report
    } else if force {
        ConflictPolicy::Overwrite
    } else if non_interactive {
        ConflictPolicy::Skip
    } else if !stdin_is_tty {
        ConflictPolicy::Refuse
    } else {
        ConflictPolicy::Ask
    }
}

/// The answer to "Overwrite all? [y/N]" is yes: `y` or `yes`, trimmed,
/// ASCII case ignored.
pub open spec fn answer_is_yes_spec(a: Seq<char>) -> bool {
    let t = text::seq_ascii_lower(text::trim_spec(a));
    t == "y"@ || t == "yes"@
}

pub fn answer_is_yes(answer: &str) -> (r: bool)
    ensures
        r == answer_is_yes_spec(answer@),
{
    let t = to_ascii_lowercase(&trim(&chars_of(answer)));
    str_eq_chars("y", &t) || str_eq_chars("yes", &t)
}

/// How many conflicts the prompt lists (at most ten), and how many it
/// leaves to "... and N more".
pub fn conflict_preview(n: usize) -> (r: (usize, usize))
    ensures
        r.0 == (if n < 10 { n } else { 10 }),
        r.0 + r.1 == n,
{
    if n < 10 {
        (n, 0)
    } else {
        (10, n - 10)
    }
}

// ---------- laws ----------

/// The season an answer gives, when it found an episode.
pub open spec fn answer_season(a: EpisodeAnswer) -> Option<u32> {
    match a {
        EpisodeAnswer::Found(e) => Some(e.season),
        _ => None,
    }
}

/// Kept file `j` is the first one in season `n` that sits in an arc
/// folder, and that folder is `f`.
pub open spec fn first_in_season(
    files: Seq<(Seq<char>, bool)>,
    answers: Seq<EpisodeAnswer>,
    root: Seq<char>,
    n: u32,
    f: Seq<char>,
    j: int,
) -> bool {
    &&& 0 <= j < files.len()
    &&& answer_season(answers[j]) == Some(n)
    &&& arc_folder_of(files[j].0, root) == Some(f)
    &&& forall|i: int|
        0 <= i < j && #[trigger] answer_season(answers[i]) == Some(n) ==> arc_folder_of(files[i].0, root) is None
}

/// Folder `f` of season `f.0` is that of the first found episode of its
/// season that sits in an arc folder.
pub open spec fn first_met(
    files: Seq<(Seq<char>, bool)>,
    answers: Seq<EpisodeAnswer>,
    root: Seq<char>,
    f: (u32, Seq<char>),
) -> bool {
    exists|j: int| #[trigger] first_in_season(files, answers, root, f.0, f.1, j)
}

/// Every season gets one arc folder, the first one met: in an episode
/// plan no two folders are of one season, each found episode in an arc
/// folder has its season's folder, and each folder is that of the first
/// found episode of its season that sits in one.
pub proof fn law_episode_folders(
    files: Seq<(Seq<char>, bool)>,
    answers: Seq<EpisodeAnswer>,
    root: Seq<char>,
    total: nat,
    lock: bool,
)
    requires
        answers.len() == files.len(),
    ensures
        ({
            let p = episode_plan_spec(files, answers, root, total, lock);
            &&& forall|a: int, b: int| 0 <= a < b < p.folders.len() ==> p.folders[a].0 != p.folders[b].0
            &&& forall|j: int|
                0 <= j < files.len() && arc_folder_of(files[j].0, root) is Some && #[trigger] answer_season(
                    answers[j],
                ) is Some ==> has_season(p.folders, answer_season(answers[j])->0)
            &&& forall|t: int|
                0 <= t < p.folders.len() ==> #[trigger] first_met(files, answers, root, p.folders[t])
        }),
    decreases files.len(),
{
    let p = episode_plan_spec(files, answers, root, total, lock);
    if files.len() > 0 {
        let fd = files.drop_last();
        let ad = answers.drop_last();
        law_episode_folders(fd, ad, root, total, lock);
        let q = episode_plan_spec(fd, ad, root, total, lock);
        let last = (files.len() - 1) as int;
        assert forall|j: int| 0 <= j < last implies files[j] == fd[j] && answers[j] == ad[j] by {}
        // folders of the shorter plan stay where they were
        assert forall|t: int| 0 <= t < q.folders.len() implies p.folders[t] == q.folders[t] by {}
        let grew = p.folders.len() != q.folders.len();
        match answers[last] {
            EpisodeAnswer::Found(e) => {
                match arc_folder_of(files[last].0, root) {
                    Some(f) => {
                        if !has_season(q.folders, e.season) {
                            assert(p.folders == q.folders.push((e.season, f)));
                        }
                    },
                    None => {},
                }
            },
            _ => {},
        }
        assert(grew ==> p.folders == q.folders.push(p.folders.last()) && !has_season(q.folders, p.folders.last().0)
            && answer_season(answers[last]) == Some(p.folders.last().0) && arc_folder_of(files[last].0, root) == Some(
            p.folders.last().1,
        ));
        assert(!grew ==> p.folders == q.folders);
        assert forall|a: int, b: int| 0 <= a < b < p.folders.len() implies p.folders[a].0 != p.folders[b].0 by {
            if b >= q.folders.len() && p.folders[a].0 == p.folders[b].0 {
                assert(q.folders[a].0 == p.folders[b].0);
            }
        }
        assert forall|t: int, j: int|
            0 <= t < q.folders.len() && first_in_season(fd, ad, root, q.folders[t].0, q.folders[t].1, j) implies
            first_in_season(files, answers, root, q.folders[t].0, q.folders[t].1, j) by {
            assert forall|i: int| 0 <= i < j && #[trigger] answer_season(answers[i]) == Some(q.folders[t].0) implies
                arc_folder_of(files[i].0, root) is None by {
                assert(answer_season(ad[i]) == Some(q.folders[t].0));
            }
        }
        assert forall|t: int| 0 <= t < p.folders.len() implies #[trigger] first_met(files, answers, root, p.folders[t]) by {
            if t < q.folders.len() {
                assert(first_met(fd, ad, root, q.folders[t]));
                let j = choose|j: int| #[trigger] first_in_season(fd, ad, root, q.folders[t].0, q.folders[t].1, j);
                assert(first_in_season(files, answers, root, p.folders[t].0, p.folders[t].1, j));
            } else {
                let n = p.folders[t].0;
                assert forall|i: int| 0 <= i < last && #[trigger] answer_season(answers[i]) == Some(n) implies
                    arc_folder_of(files[i].0, root) is None by {
                    if arc_folder_of(files[i].0, root) is Some {
                        assert(answer_season(ad[i]) is Some);
                        assert(has_season(q.folders, n));
                    }
                }
                assert(first_in_season(files, answers, root, n, p.folders[t].1, last));
            }
        }
        assert forall|j: int|
            0 <= j < files.len() && arc_folder_of(files[j].0, root) is Some && #[trigger] answer_season(answers[j]) is Some
            implies has_season(p.folders, answer_season(answers[j])->0) by {
            let n = answer_season(answers[j])->0;
            if j < last {
                assert(answer_season(ad[j]) is Some);
                assert(has_season(q.folders, n));
                let t = choose|t: int| 0 <= t < q.folders.len() && #[trigger] q.folders[t].0 == n;
                assert(p.folders[t].0 == n);
            } else if !has_season(q.folders, n) {
                assert(p.folders[q.folders.len() as int].0 == n);
            } else {
                let t = choose|t: int| 0 <= t < q.folders.len() && #[trigger] q.folders[t].0 == n;
                assert(p.folders[t].0 == n);
            }
        }
    } else {
        assert(p.folders.len() == 0);
    }
}

proof fn lemma_slot_index(w: Seq<(Seq<char>, ParsedFileView)>, k: (Seq<char>, u32), i: int)
    requires
        0 <= i,
    ensures
        match slot_index(w, k, i) {
            Some(j) => i <= j < w.len() && slot_of(w[j]) == k,
            None => forall|t: int| i <= t < w.len() ==> slot_of(#[trigger] w[t]) != k,
        },
    decreases w.len() - i,
{
    if i < w.len() && slot_of(w[i]) != k {
        lemma_slot_index(w, k, i + 1);
    }
}

pub open spec fn slots_distinct(w: Seq<(Seq<char>, ParsedFileView)>) -> bool {
    forall|a: int, b: int| 0 <= a < w.len() && 0 <= b < w.len() && a != b ==> slot_of(#[trigger] w[a])
        != slot_of(#[trigger] w[b])
}

/// The slot of file `f` is filled in `w`, by an Extended cut when `f`
/// is one.
pub open spec fn slot_filled(w: Seq<(Seq<char>, ParsedFileView)>, f: (Seq<char>, ParsedFileView)) -> bool {
    exists|j: int| 0 <= j < w.len() && slot_of(#[trigger] w[j]) == slot_of(f) && (f.1.extended ==> w[j].1.extended)
}

/// One file per episode slot, Extended first: the files kept fill
/// pairwise different slots, every file's slot is filled, and a slot
/// with an Extended cut among its files is filled by an Extended cut.
pub proof fn law_winning_files(m: Seq<(Seq<char>, ParsedFileView)>)
    ensures
        slots_distinct(winning_files_spec(m)),
        forall|i: int| 0 <= i < m.len() ==> slot_filled(winning_files_spec(m), #[trigger] m[i]),
    decreases m.len(),
{
    if m.len() > 0 {
        let d = m.drop_last();
        law_winning_files(d);
        let w = winning_files_spec(d);
        let e = m.last();
        let k = slot_of(e);
        lemma_slot_index(w, k, 0);
        let w2 = winning_files_spec(m);
        match slot_index(w, k, 0) {
            None => {
                assert(w2 == w.push(e));
                assert forall|a: int, b: int| 0 <= a < w2.len() && 0 <= b < w2.len() && a != b implies slot_of(#[trigger] w2[a])
                    != slot_of(#[trigger] w2[b]) by {
                    if a < w.len() && b < w.len() {
                        assert(w2[a] == w[a] && w2[b] == w[b]);
                    } else if a < w.len() {
                        assert(w2[a] == w[a]);
                    } else {
                        assert(w2[b] == w[b]);
                    }
                }
                assert forall|i: int| 0 <= i < m.len() implies slot_filled(w2, #[trigger] m[i]) by {
                    if i < d.len() {
                        assert(m[i] == d[i]);
                        assert(slot_filled(w, d[i]));
                        let j = choose|j: int| 0 <= j < w.len() && slot_of(#[trigger] w[j]) == slot_of(d[i]) && (d[i].1.extended
                            ==> w[j].1.extended);
                        assert(w2[j] == w[j]);
                    } else {
                        assert(w2[w.len() as int] == e);
                    }
                }
            },
            Some(j) => {
                let upd = e.1.extended && !w[j].1.extended;
                assert(w2 == if upd { w.update(j, e) } else { w });
                assert forall|a: int, b: int| 0 <= a < w2.len() && 0 <= b < w2.len() && a != b implies slot_of(#[trigger] w2[a])
                    != slot_of(#[trigger] w2[b]) by {
                    assert(slot_of(w2[a]) == slot_of(w[a]));
                    assert(slot_of(w2[b]) == slot_of(w[b]));
                }
                assert forall|i: int| 0 <= i < m.len() implies slot_filled(w2, #[trigger] m[i]) by {
                    if i < d.len() {
                        assert(m[i] == d[i]);
                        assert(slot_filled(w, d[i]));
                        let t = choose|t: int| 0 <= t < w.len() && slot_of(#[trigger] w[t]) == slot_of(d[i]) && (d[i].1.extended
                            ==> w[t].1.extended);
                        if t == j && upd {
                            assert(w2[t] == e);
                        } else {
                            assert(w2[t] == w[t]);
                        }
                    } else {
                        assert(m[i] == e);
                        if upd {
                            assert(w2[j] == e);
                        } else {
                            assert(w2[j] == w[j]);
                        }
                    }
                }
            },
        }
    }
}

} // verus!
