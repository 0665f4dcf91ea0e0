//! The computing half of the onepace.net adapter.
//!
//! The site is a Next.js app: its arc list ships inline in the RSC
//! payload of `/watch` (one line holding the `timeline.segments` JSON,
//! behind a `<hex>:` prefix), and `/releases` carries every magnet link,
//! either as length-prefixed RSC text chunks or as quoted JSON strings.
//! Fetching and JSON decoding belong to the application; this module
//! finds the payload line, numbers the seasons, and pulls the releases
//! out of the raw payload.

use vstd::prelude::*;
use vstd::utf8::{encode_utf8, valid_utf8, decode_utf8};

use crate::dl::{self, Release, ReleaseView, parse_magnet};
use crate::json::{self, Json, JsonView, find_key, find_key_at, member, member_value, parse_json, json_of};
use crate::matcher::{self, ParsedFile};
use crate::model::{Season, SeasonView};
use crate::text::{self, chars_of, string_of, slice_chars, push_all, fmt_u32, contains_chars,
    split_on_exec, string_from_utf8};

verus! {

// ---------- timeline ----------

/// One arc (or special) of the site's timeline.
pub struct Segment {
    pub title: String,
    pub description: String,
    pub special: bool,
}

pub struct SegmentView {
    pub title: Seq<char>,
    pub description: Seq<char>,
    pub special: bool,
}

impl View for Segment {
    type V = SegmentView;

    open spec fn view(&self) -> SegmentView {
        SegmentView { title: self.title@, description: self.description@, special: self.special }
    }
}

impl Segment {
    pub fn clone_segment(&self) -> (r: Segment)
        ensures
            r@ == self@,
    {
        Segment { title: self.title.clone(), description: self.description.clone(), special: self.special }
    }
}

/// The seasons of the timeline: the N-th non-special segment is season N.
pub struct Timeline {
    pub seasons_by_number: Vec<(u32, Segment)>,
}

pub open spec fn timeline_view(v: Seq<(u32, Segment)>) -> Seq<(u32, SegmentView)> {
    v.map_values(|p: (u32, Segment)| (p.0, p.1@))
}

pub open spec fn segment_views(v: Seq<Segment>) -> Seq<SegmentView> {
    v.map_values(|s: Segment| s@)
}

/// The numbered seasons of a segment list: specials skipped, the others
/// numbered 1, 2, ... in order.
pub open spec fn timeline_spec(segs: Seq<SegmentView>) -> Seq<(u32, SegmentView)>
    decreases segs.len(),
{
    if segs.len() == 0 {
        seq![]
    } else {
        let prev = timeline_spec(segs.drop_last());
        if segs.last().special {
            prev
        } else {
            prev.push(((prev.len() + 1) as u32, segs.last()))
        }
    }
}

pub proof fn lemma_timeline_len(segs: Seq<SegmentView>)
    ensures
        timeline_spec(segs).len() <= segs.len(),
    decreases segs.len(),
{
    if segs.len() > 0 {
        lemma_timeline_len(segs.drop_last());
    }
}

/// Numbers the non-special segments 1, 2, ... in order.
pub fn build_timeline(segments: Vec<Segment>) -> (r: Timeline)
    requires
        segments@.len() <= u32::MAX,
    ensures
        timeline_view(r.seasons_by_number@) == timeline_spec(segment_views(segments@)),
{
    let ghost sv = segment_views(segments@);
    let mut number: u32 = 0;
    let mut by_num: Vec<(u32, Segment)> = Vec::new();
    let n = segments.len();
    let mut i: usize = 0;
    while i < n
        invariant
            n == segments@.len(),
            n <= u32::MAX,
            sv == segment_views(segments@),
            i <= n,
            timeline_view(by_num@) == timeline_spec(sv.take(i as int)),
            number == by_num@.len(),
            by_num@.len() <= i,
        decreases n - i,
    {
        let seg = segments[i].clone_segment();
        proof {
            assert(sv.take(i + 1).drop_last() == sv.take(i as int));
            assert(sv.take(i + 1).last() == seg@);
        }
        let ghost prev = timeline_view(by_num@);
        if !seg.special {
            number = number + 1;
            by_num.push((number, seg));
            assert(timeline_view(by_num@) =~= prev.push((number, seg@)));
        }
        i = i + 1;
    }
    assert(sv.take(i as int) == sv);
    Timeline { seasons_by_number: by_num }
}

/// First timeline entry, from index `i` on, numbered `number`.
pub open spec fn season_entry_from(t: Seq<(u32, SegmentView)>, number: u32, i: int) -> Option<
    SegmentView,
>
    decreases t.len() - i,
{
    if i < 0 || i >= t.len() {
        None
    } else if t[i].0 == number {
        Some(t[i].1)
    } else {
        season_entry_from(t, number, i + 1)
    }
}

/// The season a timeline entry stands for: titled `"<N>. <title>"`,
/// described by the segment's description.
pub open spec fn season_of_segment(number: u32, seg: SegmentView) -> SeasonView {
    SeasonView {
        number,
        title: text::decimal(number as nat) + ". "@ + seg.title,
        plot: Some(seg.description),
    }
}

impl Timeline {
    /// Season `number` of the timeline, if it has one.
    pub fn season(&self, number: u32) -> (r: Option<Season>)
        ensures
            match season_entry_from(timeline_view(self.seasons_by_number@), number, 0) {
                Some(seg) => r matches Some(s) && s@ == season_of_segment(number, seg),
                None => r is None,
            },
    {
        let ghost t = timeline_view(self.seasons_by_number@);
        let mut i: usize = 0;
        while i < self.seasons_by_number.len()
            invariant
                i <= self.seasons_by_number@.len(),
                t == timeline_view(self.seasons_by_number@),
                season_entry_from(t, number, 0) == season_entry_from(t, number, i as int),
            decreases self.seasons_by_number@.len() - i,
        {
            let (n, seg) = (&self.seasons_by_number[i].0, &self.seasons_by_number[i].1);
            assert(t[i as int] == (*n, seg@));
            if *n == number {
                let mut title = fmt_u32(number);
                title.push('.');
                title.push(' ');
                let tt = chars_of(seg.title.as_str());
                push_all(&mut title, &tt);
                assert(title@ =~= text::decimal(number as nat) + ". "@ + seg.title@) by {
                    reveal_strlit(". ");
                }
                return Some(
                    Season {
                        number,
                        title: string_of(&title),
                        plot: Some(seg.description.clone()),
                    },
                );
            }
            i = i + 1;
        }
        None
    }
}

/// Timeline numbering: in a timeline built from `segs`, season `k` is
/// the `k`-th non-special segment.
pub proof fn law_timeline_numbering(segs: Seq<SegmentView>, k: int)
    requires
        segs.len() <= u32::MAX,
        0 <= k < timeline_spec(segs).len(),
    ensures
        timeline_spec(segs)[k].0 == k + 1,
        !timeline_spec(segs)[k].1.special,
        season_entry_from(timeline_spec(segs), (k + 1) as u32, 0) == Some(timeline_spec(segs)[k].1),
    decreases segs.len(),
{
    lemma_timeline_numbered(segs);
    lemma_season_entry_at(timeline_spec(segs), k, 0);
}

proof fn lemma_timeline_numbered(segs: Seq<SegmentView>)
    requires
        segs.len() <= u32::MAX,
    ensures
        forall|k: int| 0 <= k < timeline_spec(segs).len() ==> (#[trigger] timeline_spec(segs)[k]).0 == k + 1
            && !timeline_spec(segs)[k].1.special,
        timeline_spec(segs).len() <= segs.len(),
    decreases segs.len(),
{
    if segs.len() > 0 {
        lemma_timeline_numbered(segs.drop_last());
        let prev = timeline_spec(segs.drop_last());
        if !segs.last().special {
            assert forall|k: int| 0 <= k < timeline_spec(segs).len() implies (#[trigger] timeline_spec(segs)[k]).0 == k + 1
                && !timeline_spec(segs)[k].1.special by {
                if k < prev.len() {
                    assert(timeline_spec(segs)[k] == prev[k]);
                }
            }
        }
    }
}

proof fn lemma_season_entry_at(t: Seq<(u32, SegmentView)>, k: int, i: int)
    requires
        0 <= i <= k < t.len(),
        forall|j: int| 0 <= j < t.len() ==> (#[trigger] t[j]).0 == j + 1,
    ensures
        season_entry_from(t, (k + 1) as u32, i) == Some(t[k].1),
    decreases k - i,
{
    if i < k {
        assert(t[i].0 == i + 1);
        lemma_season_entry_at(t, k, i + 1);
    }
}

// ---------- the timeline line of the /watch payload ----------

/// Why the `/watch` payload could not be read.
#[derive(Debug, Clone, Copy, PartialEq, Eq, Structural)]
pub enum RscError {
    /// No line holds both `"timeline":` and `"segments":`.
    NoTimelineLine,
    /// The timeline line lacks its `<hex>:` prefix.
    MissingPrefix,
    /// The payload after the prefix is not JSON.
    BadJson,
    /// No object in the payload has a `segments` member.
    NoSegments,
    /// The `segments` member is not a list of segments.
    BadSegments,
    /// The segment list is empty.
    EmptySegments,
}

impl RscError {
    pub fn message(&self) -> (r: String)
        ensures
            r@ == rsc_error_message(*self),
    {
        match self {
            RscError::NoTimelineLine => "no timeline.segments line in RSC payload".to_owned(),
            RscError::MissingPrefix => "RSC line missing hex-id prefix".to_owned(),
            RscError::BadJson => "parsing RSC JSON payload".to_owned(),
            RscError::NoSegments => "could not locate segments[] in RSC JSON".to_owned(),
            RscError::BadSegments => "deserializing segments".to_owned(),
            RscError::EmptySegments => "onepace.net returned empty segment list".to_owned(),
        }
    }
}

pub open spec fn rsc_error_message(e: RscError) -> Seq<char> {
    match e {
        RscError::NoTimelineLine => "no timeline.segments line in RSC payload"@,
        RscError::MissingPrefix => "RSC line missing hex-id prefix"@,
        RscError::BadJson => "parsing RSC JSON payload"@,
        RscError::NoSegments => "could not locate segments[] in RSC JSON"@,
        RscError::BadSegments => "deserializing segments"@,
        RscError::EmptySegments => "onepace.net returned empty segment list"@,
    }
}

/// `str::lines`: pieces between line feeds, a `\r` before a line feed
/// dropped, no piece after a final line feed, none at all for "".
pub open spec fn lines_spec(s: Seq<char>) -> Seq<Seq<char>> {
    let parts = text::split_on(s, '\n');
    let n = if s.len() > 0 && s.last() == '\n' {
        parts.len() - 1
    } else {
        parts.len() as int
    };
    if s.len() == 0 {
        seq![]
    } else {
        Seq::new(
            n as nat,
            |i: int|
                if i < parts.len() - 1 && parts[i].len() > 0 && parts[i].last() == '\r' {
                    parts[i].drop_last()
                } else {
                    parts[i]
                },
        )
    }
}

/// A line holding the timeline: it mentions both `"timeline":` and
/// `"segments":`.
pub open spec fn is_timeline_line(l: Seq<char>) -> bool {
    text::contains_seq(l, "\"timeline\":"@) && text::contains_seq(l, "\"segments\":"@)
}

/// First line, from index `i` on, that holds the timeline.
pub open spec fn timeline_line_from(lines: Seq<Seq<char>>, i: int) -> Option<Seq<char>>
    decreases lines.len() - i,
{
    if i < 0 || i >= lines.len() {
        None
    } else if is_timeline_line(lines[i]) {
        Some(lines[i])
    } else {
        timeline_line_from(lines, i + 1)
    }
}

/// Lowercase hex digits `0-9a-f`.
pub open spec fn is_lower_hex(c: char) -> bool {
    text::is_ascii_digit(c) || ('a' <= c && c <= 'f')
}

/// Length of the run of lowercase hex digits starting `s`.
pub open spec fn lower_hex_run(s: Seq<char>, i: int) -> nat
    decreases s.len() - i,
{
    if 0 <= i < s.len() && is_lower_hex(s[i]) {
        1 + lower_hex_run(s, i + 1)
    } else {
        0
    }
}

/// The JSON of the timeline line: the line without its `<hex>:` prefix.
pub open spec fn timeline_payload_spec(rsc: Seq<char>) -> Result<Seq<char>, RscError> {
    match timeline_line_from(lines_spec(rsc), 0) {
        None => Err(RscError::NoTimelineLine),
        Some(l) => {
            let h = lower_hex_run(l, 0) as int;
            if h >= 1 && h < l.len() && l[h] == ':' {
                Ok(l.subrange(h + 1, l.len() as int))
            } else {
                Err(RscError::MissingPrefix)
            }
        },
    }
}

fn lines_exec(s: &Vec<char>) -> (r: Vec<Vec<char>>)
    ensures
        text::views(r@) == lines_spec(s@),
{
    let mut out: Vec<Vec<char>> = Vec::new();
    if s.len() == 0 {
        assert(text::views(out@) =~= lines_spec(s@));
        return out;
    }
    let parts = split_on_exec(s, '\n');
    let ghost pv = text::views(parts@);
    let n: usize = if s[s.len() - 1] == '\n' {
        proof {
            text::lemma_split_on_nonempty(s@, '\n');
        }
        parts.len() - 1
    } else {
        parts.len()
    };
    let mut i: usize = 0;
    while i < n
        invariant
            n <= parts@.len(),
            pv == text::views(parts@),
            pv == text::split_on(s@, '\n'),
            s@.len() > 0,
            n == (if s@.last() == '\n' {
                parts@.len() - 1
            } else {
                parts@.len() as int
            }),
            i <= n,
            text::views(out@) == lines_spec(s@).take(i as int),
        decreases n - i,
    {
        let p = &parts[i];
        assert(pv[i as int] == p@);
        assert(lines_spec(s@).len() == n);
        let strip = i + 1 < parts.len() && p.len() > 0 && p[p.len() - 1] == '\r';
        let line = if strip {
            let l = slice_chars(p, 0, p.len() - 1);
            assert(l@ == p@.drop_last());
            l
        } else {
            let l = slice_chars(p, 0, p.len());
            assert(l@ == p@);
            l
        };
        assert(strip == (i < pv.len() - 1 && pv[i as int].len() > 0 && pv[i as int].last() == '\r'));
        let ghost before = text::views(out@);
        proof {
            let q = text::split_on(s@, '\n');
            assert(q == pv);
            let c = i < q.len() - 1 && q[i as int].len() > 0 && q[i as int].last() == '\r';
            assert(c == strip);
            assert(lines_spec(s@)[i as int] == if c {
                q[i as int].drop_last()
            } else {
                q[i as int]
            });
            if c {
                assert(line@ == q[i as int].drop_last());
            } else {
                assert(line@ == q[i as int]);
            }
        }
        assert(lines_spec(s@)[i as int] == line@);
        let ghost lv = line@;
        out.push(line);
        assert(text::views(out@) =~= before.push(lv));
        assert(lines_spec(s@).take(i + 1) =~= lines_spec(s@).take(i as int).push(lv));
        i = i + 1;
    }
    assert(lines_spec(s@).take(n as int) =~= lines_spec(s@));
    out
}

/// The JSON payload of the `/watch` RSC line that carries the timeline.
pub fn timeline_payload(rsc: &str) -> (r: Result<String, RscError>)
    ensures
        match r {
            Ok(p) => timeline_payload_spec(rsc@) == Ok::<Seq<char>, RscError>(p@),
            Err(e) => timeline_payload_spec(rsc@) == Err::<Seq<char>, RscError>(e),
        },
{
    let s = chars_of(rsc);
    let lines = lines_exec(&s);
    let ghost lv = text::views(lines@);
    let tl = chars_of("\"timeline\":");
    let sg = chars_of("\"segments\":");
    let mut i: usize = 0;
    while i < lines.len()
        invariant
            i <= lines@.len(),
            lv == text::views(lines@),
            lv == lines_spec(rsc@),
            tl@ == "\"timeline\":"@,
            sg@ == "\"segments\":"@,
            timeline_line_from(lv, 0) == timeline_line_from(lv, i as int),
        decreases lines@.len() - i,
    {
        let l = &lines[i];
        assert(lv[i as int] == l@);
        if contains_chars(l, &tl) && contains_chars(l, &sg) {
            let n = l.len();
            let mut h: usize = 0;
            while h < n && (('0' <= l[h] && l[h] <= '9') || ('a' <= l[h] && l[h] <= 'f'))
                invariant
                    n == l@.len(),
                    h <= n,
                    lower_hex_run(l@, 0) == h + lower_hex_run(l@, h as int),
                decreases n - h,
            {
                h = h + 1;
            }
            if h >= 1 && h < n && l[h] == ':' {
                let p = slice_chars(l, h + 1, n);
                return Ok(string_of(&p));
            }
            return Err(RscError::MissingPrefix);
        }
        i = i + 1;
    }
    Err(RscError::NoTimelineLine)
}

// ---------- segments from the payload's JSON ----------

/// A segment as `serde` reads one from a JSON value: an object whose
/// `title` and `description` are strings and whose `special` is a boolean
/// (other members ignored), or an array of exactly those three, in order.
pub open spec fn segment_of(v: JsonView) -> Option<SegmentView> {
    match v {
        JsonView::Object(_, _) => match (member(v, "title"@), member(v, "description"@), member(v, "special"@)) {
            (Some(JsonView::Str(t)), Some(JsonView::Str(d)), Some(JsonView::Bool(b))) => Some(
                SegmentView { title: t, description: d, special: b },
            ),
            _ => None,
        },
        JsonView::Array(a) => if a.len() == 3 {
            match (a[0], a[1], a[2]) {
                (JsonView::Str(t), JsonView::Str(d), JsonView::Bool(b)) => Some(
                    SegmentView { title: t, description: d, special: b },
                ),
                _ => None,
            }
        } else {
            None
        },
        _ => None,
    }
}

/// Every element of a list read as a segment, or `None` if one is not.
pub open spec fn segments_of(l: Seq<JsonView>) -> Option<Seq<SegmentView>>
    decreases l.len(),
{
    if l.len() == 0 {
        Some(seq![])
    } else {
        match (segments_of(l.drop_last()), segment_of(l.last())) {
            (Some(p), Some(x)) => Some(p.push(x)),
            _ => None,
        }
    }
}

/// A JSON value read as a list of segments.
pub open spec fn segment_list_spec(v: JsonView) -> Option<Seq<SegmentView>> {
    match v {
        JsonView::Array(a) => segments_of(a),
        _ => None,
    }
}

/// The segments of the `/watch` payload: the timeline line's JSON, its
/// first `segments` member in the walk `find_key_at` orders, read as a
/// non-empty list of segments.
pub open spec fn extract_segments_spec(rsc: Seq<char>) -> Result<Seq<SegmentView>, RscError> {
    match timeline_payload_spec(rsc) {
        Err(e) => Err(e),
        Ok(p) => match json_of(p) {
            None => Err(RscError::BadJson),
            Some(j) => match find_key_at(j, "segments"@) {
                None => Err(RscError::NoSegments),
                Some(s) => match segment_list_spec(s) {
                    None => Err(RscError::BadSegments),
                    Some(segs) => if segs.len() == 0 {
                        Err(RscError::EmptySegments)
                    } else {
                        Ok(segs)
                    },
                },
            },
        },
    }
}

fn string_value(v: Option<&Json>) -> (r: Option<String>)
    ensures
        match v {
            Some(j) => match j@ {
                JsonView::Str(t) => r matches Some(x) && x@ == t,
                _ => r is None,
            },
            None => r is None,
        },
{
    match v {
        Some(Json::Str(t)) => Some(t.clone()),
        _ => None,
    }
}

fn bool_value(v: Option<&Json>) -> (r: Option<bool>)
    ensures
        match v {
            Some(j) => match j@ {
                JsonView::Bool(b) => r == Some(b),
                _ => r is None,
            },
            None => r is None,
        },
{
    match v {
        Some(Json::Bool(b)) => Some(*b),
        _ => None,
    }
}

/// One segment read from a JSON value, as `segment_of` says.
pub fn segment_from(v: &Json) -> (r: Option<Segment>)
    ensures
        match r {
            Some(s) => segment_of(v@) == Some(s@),
            None => segment_of(v@) is None,
        },
{
    proof {
        reveal_strlit("title");
        reveal_strlit("description");
        reveal_strlit("special");
    }
    match v {
        Json::Object(_) => {
            let t = string_value(member_value(v, "title"));
            let d = string_value(member_value(v, "description"));
            let b = bool_value(member_value(v, "special"));
            match (t, d, b) {
                (Some(title), Some(description), Some(special)) => Some(Segment { title, description, special }),
                _ => None,
            }
        },
        Json::Array(a) => {
            proof {
                json::lemma_json_views(a@);
            }
            if a.len() == 3 {
                let t = string_value(Some(&a[0]));
                let d = string_value(Some(&a[1]));
                let b = bool_value(Some(&a[2]));
                match (t, d, b) {
                    (Some(title), Some(description), Some(special)) => Some(Segment { title, description, special }),
                    _ => None,
                }
            } else {
                None
            }
        },
        _ => None,
    }
}

/// A JSON value read as a list of segments, as `segment_list_spec` says.
pub fn segment_list(v: &Json) -> (r: Option<Vec<Segment>>)
    ensures
        match r {
            Some(s) => segment_list_spec(v@) == Some(segment_views(s@)),
            None => segment_list_spec(v@) is None,
        },
{
    match v {
        Json::Array(a) => {
            proof {
                json::lemma_json_views(a@);
            }
            let ghost vs = json::json_views(a@);
            assert(v@ == JsonView::Array(vs));
            let mut out: Vec<Segment> = Vec::new();
            let mut i: usize = 0;
            while i < a.len()
                invariant
                    i <= a@.len(),
                    vs == json::json_views(a@),
                    vs.len() == a@.len(),
                    forall|t: int| 0 <= t < a@.len() ==> #[trigger] vs[t] == json::json_view(a@[t]),
                    segments_of(vs.subrange(0, i as int)) == Some(segment_views(out@)),
                    v@ == JsonView::Array(vs),
                decreases a@.len() - i,
            {
                let ghost pre = vs.subrange(0, i + 1);
                assert(pre.drop_last() == vs.subrange(0, i as int));
                assert(pre.last() == a@[i as int]@);
                match segment_from(&a[i]) {
                    Some(s) => {
                        out.push(s);
                        assert(segment_views(out@) =~= segment_views(out@.drop_last()).push(s@));
                    },
                    None => {
                        proof {
                            lemma_segments_none(vs, i as int + 1);
                        }
                        return None;
                    },
                }
                i = i + 1;
            }
            assert(vs.subrange(0, a@.len() as int) == vs);
            Some(out)
        },
        _ => None,
    }
}

proof fn lemma_segments_none(l: Seq<JsonView>, n: int)
    requires
        0 <= n <= l.len(),
        segments_of(l.subrange(0, n)) is None,
    ensures
        segments_of(l) is None,
    decreases l.len() - n,
{
    if n < l.len() {
        assert(l.subrange(0, n + 1).drop_last() == l.subrange(0, n));
        lemma_segments_none(l, n + 1);
    } else {
        assert(l.subrange(0, n) == l);
    }
}

/// The segments of the `/watch` RSC payload.
pub fn extract_segments(rsc: &str) -> (r: Result<Vec<Segment>, RscError>)
    ensures
        match r {
            Ok(s) => extract_segments_spec(rsc@) == Ok::<Seq<SegmentView>, RscError>(segment_views(s@)),
            Err(e) => extract_segments_spec(rsc@) == Err::<Seq<SegmentView>, RscError>(e),
        },
{
    proof {
        reveal_strlit("segments");
    }
    let payload = match timeline_payload(rsc) {
        Ok(p) => p,
        Err(e) => {
            return Err(e);
        },
    };
    let j = match parse_json(payload.as_str()) {
        Some(j) => j,
        None => {
            return Err(RscError::BadJson);
        },
    };
    let found = match find_key(&j, "segments") {
        Some(x) => x,
        None => {
            return Err(RscError::NoSegments);
        },
    };
    let segs = match segment_list(found) {
        Some(s) => s,
        None => {
            return Err(RscError::BadSegments);
        },
    };
    nonempty_segments(segs)
}

/// A segment list must not be empty.
pub fn nonempty_segments(segs: Vec<Segment>) -> (r: Result<Vec<Segment>, RscError>)
    ensures
        segs@.len() > 0 ==> r == Ok::<Vec<Segment>, RscError>(segs),
        segs@.len() == 0 ==> r == Err::<Vec<Segment>, RscError>(RscError::EmptySegments),
{
    if segs.len() == 0 {
        Err(RscError::EmptySegments)
    } else {
        Ok(segs)
    }
}

// ---------- releases ----------

pub open spec fn is_lower_hex_byte(b: u8) -> bool {
    (0x30 <= b <= 0x39) || (0x61 <= b <= 0x66)
}

/// Run of lowercase hex bytes starting at `i`.
pub open spec fn hex_bytes_run(b: Seq<u8>, i: int) -> nat
    decreases b.len() - i,
{
    if 0 <= i < b.len() && is_lower_hex_byte(b[i]) {
        1 + hex_bytes_run(b, i + 1)
    } else {
        0
    }
}

pub open spec fn bytes_at(b: Seq<u8>, lit: Seq<u8>, i: int) -> bool {
    0 <= i && i + lit.len() <= b.len() && b.subrange(i, i + lit.len()) == lit
}

/// `:T`
pub open spec fn colon_t() -> Seq<u8> {
    seq![0x3Au8, 0x54u8]
}

/// `,magnet:?`
pub open spec fn comma_magnet() -> Seq<u8> {
    seq![0x2Cu8, 0x6Du8, 0x61u8, 0x67u8, 0x6Eu8, 0x65u8, 0x74u8, 0x3Au8, 0x3Fu8]
}

/// `magnet:?`
pub open spec fn magnet_bytes() -> Seq<u8> {
    seq![0x6Du8, 0x61u8, 0x67u8, 0x6Eu8, 0x65u8, 0x74u8, 0x3Au8, 0x3Fu8]
}

/// An RSC text-chunk header `<hex>:T<hex>,magnet:?` starting at `p`: the
/// bounds of its length digits and where the match ends.
pub open spec fn chunk_at(b: Seq<u8>, p: int) -> Option<(int, int, int)> {
    let h1 = hex_bytes_run(b, p) as int;
    let q = p + h1;
    let h2 = hex_bytes_run(b, q + 2) as int;
    let r = q + 2 + h2;
    if 0 <= p && h1 >= 1 && bytes_at(b, colon_t(), q) && h2 >= 1 && bytes_at(b, comma_magnet(), r) {
        Some((q + 2, r, r + 9))
    } else {
        None
    }
}

/// The chunk headers found scanning from `p`, leftmost first, each search
/// resuming after the previous match.
pub open spec fn chunk_hits(b: Seq<u8>, p: int) -> Seq<(int, int, int)>
    decreases b.len() - p,
{
    if p < 0 || p >= b.len() {
        seq![]
    } else {
        match chunk_at(b, p) {
            Some(m) => if m.2 > p {
                seq![m] + chunk_hits(b, m.2)
            } else {
                seq![]
            },
            None => chunk_hits(b, p + 1),
        }
    }
}

/// Value of lowercase hex digits.
pub open spec fn hex_value(d: Seq<u8>) -> nat
    decreases d.len(),
{
    if d.len() == 0 {
        0
    } else {
        hex_value(d.drop_last()) * 16 + (if d.last() <= 0x39 {
            d.last() - 0x30
        } else {
            d.last() - 0x61 + 10
        }) as nat
    }
}

/// The magnet bytes a chunk header announces: as many bytes as its
/// length says, from the `magnet:?` on, if the length fits a `usize` and
/// the payload has that many bytes.
pub open spec fn chunk_uri(b: Seq<u8>, m: (int, int, int)) -> Option<Seq<u8>> {
    let v = hex_value(b.subrange(m.0, m.1));
    let start = m.2 - 8;
    if v <= usize::MAX && start + v <= b.len() {
        Some(b.subrange(start, start + v))
    } else {
        None
    }
}

/// Keeps the byte strings that are UTF-8, decoded.
pub open spec fn decoded(us: Seq<Option<Seq<u8>>>) -> Seq<Seq<char>>
    decreases us.len(),
{
    if us.len() == 0 {
        seq![]
    } else {
        let prev = decoded(us.drop_last());
        match us.last() {
            Some(u) => if valid_utf8(u) {
                prev.push(decode_utf8(u))
            } else {
                prev
            },
            None => prev,
        }
    }
}

/// A JSON-quoted magnet `"magnet:?<non-quotes>"` starting at `p`: the
/// bounds of the URI between the quotes.
pub open spec fn json_at(b: Seq<u8>, p: int) -> Option<(int, int)> {
    let k = quote_free_run(b, p + 9) as int;
    if 0 <= p < b.len() && b[p] == 0x22 && bytes_at(b, magnet_bytes(), p + 1) && k >= 1 && p + 9
        + k < b.len() {
        Some((p + 1, p + 9 + k))
    } else {
        None
    }
}

/// Run of bytes other than `"` starting at `i`.
pub open spec fn quote_free_run(b: Seq<u8>, i: int) -> nat
    decreases b.len() - i,
{
    if 0 <= i < b.len() && b[i] != 0x22 {
        1 + quote_free_run(b, i + 1)
    } else {
        0
    }
}

/// The quoted magnets found scanning from `p`, leftmost first.
pub open spec fn json_hits(b: Seq<u8>, p: int) -> Seq<(int, int)>
    decreases b.len() - p,
{
    if p < 0 || p >= b.len() {
        seq![]
    } else {
        match json_at(b, p) {
            Some(m) => if m.1 + 1 > p {
                seq![m] + json_hits(b, m.1 + 1)
            } else {
                seq![]
            },
            None => json_hits(b, p + 1),
        }
    }
}

/// Every magnet URI of a `/releases` payload, in the order they are
/// taken in: the chunk-format ones, then the JSON-quoted ones.
pub open spec fn release_uris(b: Seq<u8>) -> Seq<Seq<char>> {
    decoded(chunk_hits(b, 0).map_values(|m: (int, int, int)| chunk_uri(b, m))) + decoded(
        json_hits(b, 0).map_values(|m: (int, int)| Some(b.subrange(m.0, m.1))),
    )
}

/// The release a magnet URI becomes, when it parses.
pub open spec fn release_of(uri: Seq<char>, pm: dl::ParsedMagnetView) -> ReleaseView {
    let fname = match pm.display_name {
        Some(d) => d,
        None => seq![],
    };
    ReleaseView { magnet: uri, filename: fname, parsed: matcher::parse_filename_spec(fname) }
}

/// Taking one more magnet URI: it is dropped if it does not parse or its
/// info-hash was seen already, else its release is appended.
pub open spec fn ingest_step(
    state: (Seq<Seq<char>>, Seq<ReleaseView>),
    uri: Seq<char>,
) -> (Seq<Seq<char>>, Seq<ReleaseView>) {
    match dl::parse_magnet_spec(uri) {
        None => state,
        Some(pm) => if state.0.contains(pm.btih) {
            state
        } else {
            (state.0.push(pm.btih), state.1.push(release_of(uri, pm)))
        },
    }
}

pub open spec fn ingest_all(uris: Seq<Seq<char>>) -> (Seq<Seq<char>>, Seq<ReleaseView>)
    decreases uris.len(),
{
    if uris.len() == 0 {
        (seq![], seq![])
    } else {
        ingest_step(ingest_all(uris.drop_last()), uris.last())
    }
}

proof fn lemma_decoded_push(us: Seq<Option<Seq<u8>>>, e: Option<Seq<u8>>)
    ensures
        decoded(us.push(e)) == match e {
            Some(u) => if valid_utf8(u) {
                decoded(us).push(decode_utf8(u))
            } else {
                decoded(us)
            },
            None => decoded(us),
        },
{
    assert(us.push(e).drop_last() == us);
}

proof fn lemma_ingest_push(uris: Seq<Seq<char>>, u: Seq<char>)
    ensures
        ingest_all(uris.push(u)) == ingest_step(ingest_all(uris), u),
{
    assert(uris.push(u).drop_last() == uris);
}

pub open spec fn release_views(v: Seq<Release>) -> Seq<ReleaseView> {
    v.map_values(|r: Release| r@)
}

pub open spec fn string_views(v: Seq<String>) -> Seq<Seq<char>> {
    v.map_values(|s: String| s@)
}

/// Adds the release of one magnet URI unless it does not parse or its
/// info-hash is already among `seen`.
pub fn ingest_magnet(uri: &str, seen: &mut Vec<String>, out: &mut Vec<Release>)
    ensures
        (string_views(final(seen)@), release_views(final(out)@)) == ingest_step(
            (string_views(old(seen)@), release_views(old(out)@)),
            uri@,
        ),
{
    let pm = match parse_magnet(uri) {
        Some(pm) => pm,
        None => {
            return;
        },
    };
    let ghost sv = string_views(seen@);
    let btih = chars_of(pm.btih.as_str());
    let mut j: usize = 0;
    while j < seen.len()
        invariant
            j <= seen@.len(),
            sv == string_views(seen@),
            seen@ == old(seen)@,
            out@ == old(out)@,
            dl::parse_magnet_spec(uri@) == Some(pm@),
            btih@ == pm.btih@,
            forall|k: int| 0 <= k < j ==> sv[k] != btih@,
        decreases seen@.len() - j,
    {
        if text::str_eq_chars(seen[j].as_str(), &btih) {
            assert(sv[j as int] == pm.btih@);
            assert(sv.contains(pm.btih@));
            return;
        }
        j = j + 1;
    }
    assert(!sv.contains(pm.btih@));
    let filename = match &pm.display_name {
        Some(d) => d.clone(),
        None => String::new(),
    };
    let parsed = ParsedFile::from_filename(filename.as_str());
    let ghost ov = release_views(out@);
    seen.push(pm.btih.clone());
    out.push(Release { magnet: uri.to_owned(), filename, parsed });
    assert(string_views(seen@) =~= sv.push(pm.btih@));
    assert(release_views(out@) =~= ov.push(release_of(uri@, pm@)));
}

fn bytes_at_exec(b: &[u8], lit: &Vec<u8>, i: usize) -> (r: bool)
    ensures
        r == bytes_at(b@, lit@, i as int),
{
    let n = b.len();
    if i > n || lit.len() > n - i {
        return false;
    }
    let mut k: usize = 0;
    while k < lit.len()
        invariant
            n == b@.len(),
            i + lit@.len() <= n,
            k <= lit@.len(),
            forall|j: int| 0 <= j < k ==> b@[i + j] == lit@[j],
        decreases lit@.len() - k,
    {
        if b[i + k] != lit[k] {
            assert(b@.subrange(i as int, i + lit@.len())[k as int] == b@[i + k]);
            return false;
        }
        k = k + 1;
    }
    assert(b@.subrange(i as int, i + lit@.len()) == lit@);
    true
}

fn hex_bytes_run_exec(b: &[u8], i: usize) -> (r: usize)
    requires
        i <= b@.len(),
    ensures
        r == hex_bytes_run(b@, i as int),
        i + r <= b@.len(),
{
    let mut j = i;
    while j < b.len() && ((0x30 <= b[j] && b[j] <= 0x39) || (0x61 <= b[j] && b[j] <= 0x66))
        invariant
            i <= j <= b@.len(),
            hex_bytes_run(b@, i as int) == (j - i) + hex_bytes_run(b@, j as int),
        decreases b@.len() - j,
    {
        j = j + 1;
    }
    j - i
}

fn quote_free_run_exec(b: &[u8], i: usize) -> (r: usize)
    requires
        i <= b@.len(),
    ensures
        r == quote_free_run(b@, i as int),
        i + r <= b@.len(),
{
    let mut j = i;
    while j < b.len() && b[j] != 0x22
        invariant
            i <= j <= b@.len(),
            quote_free_run(b@, i as int) == (j - i) + quote_free_run(b@, j as int),
        decreases b@.len() - j,
    {
        j = j + 1;
    }
    j - i
}

fn copy_bytes(b: &[u8], lo: usize, hi: usize) -> (r: Vec<u8>)
    requires
        lo <= hi <= b@.len(),
    ensures
        r@ == b@.subrange(lo as int, hi as int),
{
    let mut r: Vec<u8> = Vec::new();
    let mut i = lo;
    while i < hi
        invariant
            lo <= i <= hi <= b@.len(),
            r@ == b@.subrange(lo as int, i as int),
        decreases hi - i,
    {
        r.push(b[i]);
        assert(r@ =~= b@.subrange(lo as int, i + 1));
        i = i + 1;
    }
    r
}

fn chunk_at_exec(b: &[u8], p: usize, ct: &Vec<u8>, cm: &Vec<u8>) -> (r: Option<(usize, usize, usize)>)
    requires
        p <= b@.len(),
        ct@ == colon_t(),
        cm@ == comma_magnet(),
    ensures
        match r {
            Some(m) => chunk_at(b@, p as int) == Some((m.0 as int, m.1 as int, m.2 as int)) && m.2
                <= b@.len(),
            None => chunk_at(b@, p as int) is None,
        },
{
    let n = b.len();
    let h1 = hex_bytes_run_exec(b, p);
    if h1 == 0 {
        return None;
    }
    let q = p + h1;
    if !bytes_at_exec(b, ct, q) {
        return None;
    }
    let h2 = hex_bytes_run_exec(b, q + 2);
    if h2 == 0 {
        return None;
    }
    let r = q + 2 + h2;
    if !bytes_at_exec(b, cm, r) {
        return None;
    }
    Some((q + 2, r, r + 9))
}

/// `usize::from_str_radix(d, 16)` on lowercase hex digits: `None` on
/// overflow.
fn hex_value_exec(b: &[u8], lo: usize, hi: usize) -> (r: Option<usize>)
    requires
        lo <= hi <= b@.len(),
        forall|k: int| lo <= k < hi ==> is_lower_hex_byte(#[trigger] b@[k]),
    ensures
        match r {
            Some(v) => v == hex_value(b@.subrange(lo as int, hi as int)),
            None => hex_value(b@.subrange(lo as int, hi as int)) > usize::MAX,
        },
{
    let mut v: usize = 0;
    let mut i = lo;
    while i < hi
        invariant
            lo <= i <= hi <= b@.len(),
            forall|k: int| lo <= k < hi ==> is_lower_hex_byte(#[trigger] b@[k]),
            v == hex_value(b@.subrange(lo as int, i as int)),
        decreases hi - i,
    {
        let c = b[i];
        let d: usize = if c <= 0x39 {
            (c - 0x30) as usize
        } else {
            (c - 0x61 + 10) as usize
        };
        assert(b@.subrange(lo as int, i + 1).drop_last() == b@.subrange(lo as int, i as int));
        assert(b@.subrange(lo as int, i + 1).last() == c);
        if v > (usize::MAX - d) / 16 {
            proof {
                lemma_hex_value_mono(b@.subrange(lo as int, hi as int), i + 1 - lo);
                assert(b@.subrange(lo as int, hi as int).take(i + 1 - lo) == b@.subrange(lo as int, i + 1));
                assert(v * 16 + d > usize::MAX) by (nonlinear_arith)
                    requires
                        v > (usize::MAX - d) / 16,
                        d < 16,
                ;
            }
            return None;
        }
        assert(v * 16 + d <= usize::MAX) by (nonlinear_arith)
            requires
                v <= (usize::MAX - d) / 16,
                d < 16,
        ;
        v = v * 16 + d;
        i = i + 1;
    }
    Some(v)
}

proof fn lemma_hex_value_mono(d: Seq<u8>, k: int)
    requires
        0 <= k <= d.len(),
    ensures
        hex_value(d.take(k)) <= hex_value(d),
    decreases d.len() - k,
{
    if k < d.len() {
        lemma_hex_value_mono(d, k + 1);
        assert(d.take(k + 1).drop_last() == d.take(k));
        assert(hex_value(d.take(k)) <= hex_value(d.take(k + 1))) by (nonlinear_arith)
            requires
                hex_value(d.take(k + 1)) == hex_value(d.take(k + 1).drop_last()) * 16 + (if d.take(
                    k + 1,
                ).last() <= 0x39 {
                    d.take(k + 1).last() - 0x30
                } else {
                    d.take(k + 1).last() - 0x61 + 10
                }) as nat,
                d.take(k + 1).drop_last() == d.take(k),
        ;
    } else {
        assert(d.take(k) == d);
    }
}

proof fn lemma_hex_run_digits(b: Seq<u8>, i: int)
    requires
        0 <= i <= b.len(),
    ensures
        forall|k: int| i <= k < i + hex_bytes_run(b, i) ==> is_lower_hex_byte(#[trigger] b[k]),
    decreases b.len() - i,
{
    if i < b.len() && is_lower_hex_byte(b[i]) {
        lemma_hex_run_digits(b, i + 1);
    }
}

/// Every release of a `/releases` RSC payload: each magnet URI is taken
/// from the length-prefixed text chunks (`<id>:T<len>,magnet:?...`, the
/// length counting the URI's bytes) and then from the JSON-quoted
/// strings; URIs that do not parse are dropped, and an info-hash seen
/// before is not taken again. Releases whose file name is not a One Pace
/// name are kept with `parsed = None`.
pub fn extract_releases(rsc: &str) -> (r: Vec<Release>)
    ensures
        release_views(r@) == ingest_all(release_uris(encode_utf8(rsc@))).1,
{
    let b = rsc.as_bytes();
    let ghost bv = b@;
    assert(bv == encode_utf8(rsc@));
    let n = b.len();
    let ct: Vec<u8> = vec![0x3Au8, 0x54u8];
    let cm: Vec<u8> = vec![0x2Cu8, 0x6Du8, 0x61u8, 0x67u8, 0x6Eu8, 0x65u8, 0x74u8, 0x3Au8, 0x3Fu8];
    let mg: Vec<u8> = vec![0x6Du8, 0x61u8, 0x67u8, 0x6Eu8, 0x65u8, 0x74u8, 0x3Au8, 0x3Fu8];
    assert(ct@ == colon_t());
    assert(cm@ == comma_magnet());
    assert(mg@ == magnet_bytes());
    let mut seen: Vec<String> = Vec::new();
    let mut releases: Vec<Release> = Vec::new();
    let ghost mut done: Seq<(int, int, int)> = seq![];
    let ghost mut uris: Seq<Seq<char>> = seq![];
    assert(string_views(seen@) =~= seq![]);
    assert(release_views(releases@) =~= seq![]);
    // Format A: length-prefixed RSC text chunks.
    let mut p: usize = 0;
    while p < n
        invariant
            n == bv.len(),
            bv == b@,
            ct@ == colon_t(),
            cm@ == comma_magnet(),
            p <= n,
            chunk_hits(bv, 0) == done + chunk_hits(bv, p as int),
            uris == decoded(done.map_values(|m: (int, int, int)| chunk_uri(bv, m))),
            (string_views(seen@), release_views(releases@)) == ingest_all(uris),
        decreases n - p,
    {
        match chunk_at_exec(b, p, &ct, &cm) {
            Some(m) => {
                let ghost gm = (m.0 as int, m.1 as int, m.2 as int);
                proof {
                    assert(chunk_hits(bv, p as int) == seq![gm] + chunk_hits(bv, m.2 as int));
                    assert(done + chunk_hits(bv, p as int) == done.push(gm) + chunk_hits(bv, m.2 as int));
                    assert(done.push(gm).map_values(|x: (int, int, int)| chunk_uri(bv, x)) =~= done.map_values(
                        |x: (int, int, int)| chunk_uri(bv, x),
                    ).push(chunk_uri(bv, gm)));
                    lemma_hex_run_digits(bv, (p + hex_bytes_run(bv, p as int)) + 2);
                    lemma_decoded_push(done.map_values(|x: (int, int, int)| chunk_uri(bv, x)), chunk_uri(bv, gm));
                    done = done.push(gm);
                }
                match hex_value_exec(b, m.0, m.1) {
                    Some(len) => {
                        let start = m.2 - 8;
                        if start <= n && len <= n - start {
                            let bytes = copy_bytes(b, start, start + len);
                            match string_from_utf8(bytes) {
                                Some(uri) => {
                                    proof {
                                        lemma_ingest_push(uris, uri@);
                                        uris = uris.push(uri@);
                                    }
                                    ingest_magnet(uri.as_str(), &mut seen, &mut releases);
                                },
                                None => {},
                            }
                        }
                    },
                    None => {},
                }
                p = m.2;
            },
            None => {
                p = p + 1;
            },
        }
    }
    assert(chunk_hits(bv, n as int) == Seq::<(int, int, int)>::empty());
    assert(done =~= chunk_hits(bv, 0));
    let ghost uris_a = uris;
    let ghost mut jdone: Seq<(int, int)> = seq![];
    // Format B: JSON-quoted magnets.
    let mut p: usize = 0;
    while p < n
        invariant
            n == bv.len(),
            bv == b@,
            mg@ == magnet_bytes(),
            p <= n,
            json_hits(bv, 0) == jdone + json_hits(bv, p as int),
            uris == uris_a + decoded(jdone.map_values(|m: (int, int)| Some(bv.subrange(m.0, m.1)))),
            (string_views(seen@), release_views(releases@)) == ingest_all(uris),
        decreases n - p,
    {
        let mut hit: Option<(usize, usize)> = None;
        if b[p] == 0x22 && n - p >= 9 && bytes_at_exec(b, &mg, p + 1) {
            let k = quote_free_run_exec(b, p + 9);
            if k >= 1 && p + 9 + k < n {
                hit = Some((p + 1, p + 9 + k));
            }
        }
        assert(match hit {
            Some(m) => json_at(bv, p as int) == Some((m.0 as int, m.1 as int)),
            None => json_at(bv, p as int) is None,
        });
        match hit {
            Some(m) => {
                let ghost gm = (m.0 as int, m.1 as int);
                proof {
                    assert(json_hits(bv, p as int) == seq![gm] + json_hits(bv, m.1 + 1));
                    assert(jdone + json_hits(bv, p as int) == jdone.push(gm) + json_hits(bv, m.1 + 1));
                    assert(jdone.push(gm).map_values(|x: (int, int)| Some(bv.subrange(x.0, x.1))) =~= jdone.map_values(
                        |x: (int, int)| Some(bv.subrange(x.0, x.1)),
                    ).push(Some(bv.subrange(gm.0, gm.1))));
                    lemma_decoded_push(jdone.map_values(|x: (int, int)| Some(bv.subrange(x.0, x.1))), Some(bv.subrange(gm.0, gm.1)));
                    jdone = jdone.push(gm);
                }
                let bytes = copy_bytes(b, m.0, m.1);
                match string_from_utf8(bytes) {
                    Some(uri) => {
                        proof {
                            lemma_ingest_push(uris, uri@);
                            uris = uris.push(uri@);
                        }
                        ingest_magnet(uri.as_str(), &mut seen, &mut releases);
                    },
                    None => {},
                }
                p = m.1 + 1;
            },
            None => {
                p = p + 1;
            },
        }
    }
    assert(json_hits(bv, n as int) == Seq::<(int, int)>::empty());
    assert(jdone =~= json_hits(bv, 0));
    releases
}

/// Release de-duplication: the releases taken from any list of magnet
/// URIs have pairwise different info-hashes, one recorded per release.
pub proof fn law_releases_unique_btih(uris: Seq<Seq<char>>)
    ensures
        ingest_all(uris).0.no_duplicates(),
        ingest_all(uris).0.len() == ingest_all(uris).1.len(),
        forall|i: int| 0 <= i < ingest_all(uris).1.len() ==> (#[trigger] dl::parse_magnet_spec(ingest_all(uris).1[i].magnet)) == Some(
            dl::ParsedMagnetView {
                btih: ingest_all(uris).0[i],
                display_name: dl::parse_magnet_spec(ingest_all(uris).1[i].magnet).unwrap().display_name,
            },
        ),
    decreases uris.len(),
{
    if uris.len() > 0 {
        law_releases_unique_btih(uris.drop_last());
        let prev = ingest_all(uris.drop_last());
        let u = uris.last();
        match dl::parse_magnet_spec(u) {
            None => {},
            Some(pm) => {
                if !prev.0.contains(pm.btih) {
                    let now = ingest_all(uris);
                    assert(now.0 == prev.0.push(pm.btih));
                    assert forall|a: int, b: int| 0 <= a < now.0.len() && 0 <= b < now.0.len() && a != b implies now.0[a] != now.0[b] by {
                        if a == now.0.len() - 1 {
                            assert(now.0[b] == prev.0[b]);
                        } else if b == now.0.len() - 1 {
                            assert(now.0[a] == prev.0[a]);
                        }
                    }
                    assert forall|i: int| 0 <= i < now.1.len() implies (#[trigger] dl::parse_magnet_spec(now.1[i].magnet)) == Some(
                        dl::ParsedMagnetView {
                            btih: now.0[i],
                            display_name: dl::parse_magnet_spec(now.1[i].magnet).unwrap().display_name,
                        },
                    ) by {
                        if i < prev.1.len() {
                            assert(now.1[i] == prev.1[i]);
                            assert(now.0[i] == prev.0[i]);
                        }
                    }
                }
            },
        }
    }
}

} // verus!
