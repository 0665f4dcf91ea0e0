//! The computing half of the community Google Sheet adapter.
//!
//! The spreadsheet keeps one tab per arc, listing each One Pace episode
//! with its chapters, anime episodes, release date and the CRC32 of its
//! MKV (regular and Extended cut). Tabs are discovered from the `gid=`
//! links of the preview page and fetched through the public `gviz/tq`
//! JSONP endpoint; the fetching and the JSON decoding belong to the
//! application. Here: the gid scan, the JSONP envelope, the reading of a
//! decoded table into rows, and the in-memory index that answers CRC and
//! episode queries.

use vstd::prelude::*;

use crate::dl::{self, ascii_digit_run_exec};
use crate::matcher;
use crate::text::{self, chars_of, string_of, slice_chars, trim, trim_range, occurs_at_exec,
    is_ascii_digit_char, is_ascii_ws_char, parse_u32_range, split_on_exec, first_index_exec,
    fmt_u32_padded, push_all, push_str};
use crate::model::{Episode, EpisodeView};
use crate::json::{Json, JsonView, json_of, parse_json};

verus! {

// ---------- gids ----------

/// `gid=`
pub open spec fn gid_marker() -> Seq<char> {
    seq!['g', 'i', 'd', '=']
}

/// The gid named by a `gid=<digits>` match starting at `i`, when one
/// starts there and its digits fit a `u32`.
pub open spec fn gid_at(s: Seq<char>, i: int) -> Option<u32> {
    if text::occurs_at(s, gid_marker(), i) && i + 4 < s.len() && text::is_ascii_digit(s[i + 4]) {
        text::parse_u32_spec(s.subrange(i + 4, i + 4 + dl::ascii_digit_run(s, i + 4)))
    } else {
        None
    }
}

/// `v` is the gid of some match starting before `k`.
pub open spec fn gid_seen(s: Seq<char>, k: int, v: u32) -> bool {
    exists|i: int| 0 <= i < k && #[trigger] gid_at(s, i) == Some(v)
}

pub open spec fn strictly_increasing(v: Seq<u32>) -> bool {
    forall|i: int, j: int| 0 <= i < j < v.len() ==> v[i] < v[j]
}

/// Adds `x` to a strictly increasing vector, keeping it so.
fn insert_sorted_unique(v: &mut Vec<u32>, x: u32)
    requires
        strictly_increasing(old(v)@),
    ensures
        strictly_increasing(final(v)@),
        forall|w: u32| final(v)@.contains(w) <==> (old(v)@.contains(w) || w == x),
{
    let n = v.len();
    let mut p: usize = 0;
    while p < n && v[p] < x
        invariant
            n == v@.len(),
            p <= n,
            forall|k: int| 0 <= k < p ==> v@[k] < x,
        decreases n - p,
    {
        p = p + 1;
    }
    if p < n && v[p] == x {
        return;
    }
    let ghost old_v = v@;
    v.insert(p, x);
    proof {
        let nv = old_v.insert(p as int, x);
        assert(v@ == nv);
        assert forall|i: int, j: int| 0 <= i < j < nv.len() implies nv[i] < nv[j] by {
            if j < p {
            } else if j == p {
            } else if i < p {
                assert(nv[j] == old_v[j - 1]);
                assert(old_v[p as int] > x);
            } else if i == p {
                assert(nv[j] == old_v[j - 1]);
                assert(old_v[p as int] > x);
                if j - 1 > p {
                    assert(old_v[p as int] < old_v[j - 1]);
                }
            } else {
                assert(nv[i] == old_v[i - 1]);
                assert(nv[j] == old_v[j - 1]);
            }
        }
        assert forall|w: u32| nv.contains(w) <==> (old_v.contains(w) || w == x) by {
            if nv.contains(w) {
                let k = choose|k: int| 0 <= k < nv.len() && nv[k] == w;
                if k < p {
                    assert(old_v[k] == w);
                } else if k > p {
                    assert(old_v[k - 1] == w);
                }
            }
            if old_v.contains(w) {
                let k = choose|k: int| 0 <= k < old_v.len() && old_v[k] == w;
                if k < p {
                    assert(nv[k] == w);
                } else {
                    assert(nv[k + 1] == w);
                }
            }
            if w == x {
                assert(nv[p as int] == w);
            }
        }
    }
}

/// The distinct tab gids linked from the preview page, in increasing
/// order: every `gid=<digits>` whose digits parse as a `u32`.
pub fn extract_gids(html: &str) -> (r: Vec<u32>)
    ensures
        strictly_increasing(r@),
        forall|v: u32| r@.contains(v) <==> gid_seen(html@, html@.len() as int, v),
{
    let s = chars_of(html);
    let n = s.len();
    let marker = vec!['g', 'i', 'd', '='];
    assert(marker@ == gid_marker());
    let mut r: Vec<u32> = Vec::new();
    let mut i: usize = 0;
    while i < n
        invariant
            n == s@.len(),
            s@ == html@,
            marker@ == gid_marker(),
            i <= n,
            strictly_increasing(r@),
            forall|v: u32| r@.contains(v) <==> gid_seen(s@, i as int, v),
        decreases n - i,
    {
        let mut found: Option<u32> = None;
        if occurs_at_exec(&s, &marker, i) && i + 4 < n && is_ascii_digit_char(s[i + 4]) {
            let k = ascii_digit_run_exec(&s, i + 4);
            found = parse_u32_range(&s, i + 4, i + 4 + k);
        }
        assert(found == gid_at(s@, i as int));
        let ghost before = r@;
        match found {
            Some(v) => {
                insert_sorted_unique(&mut r, v);
            },
            None => {},
        }
        proof {
            assert forall|w: u32| r@.contains(w) <==> gid_seen(s@, i + 1, w) by {
                if gid_seen(s@, i + 1, w) {
                    let j = choose|j: int| 0 <= j < i + 1 && #[trigger] gid_at(s@, j) == Some(w);
                    if j < i {
                        assert(gid_seen(s@, i as int, w));
                    }
                }
                if gid_seen(s@, i as int, w) {
                    let j = choose|j: int| 0 <= j < i && #[trigger] gid_at(s@, j) == Some(w);
                    assert(gid_at(s@, j) == Some(w));
                }
                if found == Some(w) {
                    assert(gid_at(s@, i as int) == Some(w));
                }
            }
        }
        i = i + 1;
    }
    r
}

/// The gids of the arc tabs: every gid but the summary tab's, 0.
pub fn arc_tab_gids(gids: &Vec<u32>) -> (r: Vec<u32>)
    ensures
        r@ == gids@.filter(|g: u32| g != 0),
{
    let mut out: Vec<u32> = Vec::new();
    let mut i: usize = 0;
    while i < gids.len()
        invariant
            i <= gids@.len(),
            out@ == gids@.take(i as int).filter(|g: u32| g != 0),
        decreases gids@.len() - i,
    {
        proof {
            assert(gids@.take(i + 1) == gids@.take(i as int).push(gids@[i as int]));
            gids@.take(i as int).lemma_filter_push(gids@[i as int], |g: u32| g != 0);
        }
        if gids[i] != 0 {
            out.push(gids[i]);
        }
        i = i + 1;
    }
    assert(gids@.take(i as int) == gids@);
    out
}

// ---------- JSONP envelope ----------

/// Where the closing parenthesis of a trimmed JSONP body sits: the body
/// ends in `)` or in `);`.
pub open spec fn jsonp_close(t: Seq<char>) -> Option<int> {
    if t.len() >= 1 && t.last() == ')' {
        Some(t.len() - 1)
    } else if t.len() >= 2 && t[t.len() - 2] == ')' && t.last() == ';' {
        Some(t.len() - 2)
    } else {
        None
    }
}

/// The JSON inside `callback(...)` or `callback(...);`: from after the
/// first `(` of the trimmed body to its closing `)`.
pub open spec fn jsonp_payload_spec(body: Seq<char>) -> Option<Seq<char>> {
    let t = text::trim_spec(body);
    match (text::first_index(t, '('), jsonp_close(t)) {
        (Some(p), Some(k)) => Some(t.subrange(p + 1, k)),
        _ => None,
    }
}

/// The JSON payload of a `gviz/tq` JSONP response; `None` when the body
/// is not such an envelope.
pub fn jsonp_payload(body: &str) -> (r: Option<String>)
    ensures
        match r {
            Some(p) => jsonp_payload_spec(body@) == Some(p@),
            None => jsonp_payload_spec(body@) is None,
        },
{
    let s = chars_of(body);
    let t = trim(&s);
    let n = t.len();
    let close: Option<usize> = if n >= 1 && t[n - 1] == ')' {
        Some(n - 1)
    } else if n >= 2 && t[n - 2] == ')' && t[n - 1] == ';' {
        Some(n - 2)
    } else {
        None
    };
    assert(close matches Some(k) ==> jsonp_close(t@) == Some(k as int));
    assert(close is None ==> jsonp_close(t@) is None);
    match (first_index_exec(&t, '('), close) {
        (Some(p), Some(k)) => {
            proof {
                text::lemma_first_index(t@, '(');
            }
            assert(t@[p as int] == '(');
            assert(p < k);
            let inner = slice_chars(&t, p + 1, k);
            Some(string_of(&inner))
        },
        _ => None,
    }
}

// ---------- decoded tables ----------

/// One column header of a decoded `gviz` table.
pub struct GvizCol {
    pub label: String,
}

/// One cell: its value (`None` for JSON `null`; a string as is; any other
/// JSON value in its JSON text) and its formatted display text.
pub struct GvizCell {
    pub v: Option<String>,
    pub f: Option<String>,
}

/// A cell's value as the table reads it, given the value's JSON text:
/// `None` for `null`; a string's contents; a number as written; `true`
/// or `false`; anything else (an array, an object) as its JSON text.
pub open spec fn cell_value_spec(text: Seq<char>) -> Option<Seq<char>> {
    match json_of(text) {
        Some(JsonView::Null) => None,
        Some(JsonView::Str(s)) => Some(s),
        Some(JsonView::Number(n)) => Some(n),
        Some(JsonView::Bool(b)) => Some(if b { "true"@ } else { "false"@ }),
        _ => Some(text),
    }
}

/// The value of a decoded cell, from the value's JSON text (see
/// `cell_value_spec`).
pub fn cell_value(text: &str) -> (r: Option<String>)
    ensures
        matcher::opt_view(r) == cell_value_spec(text@),
{
    match parse_json(text) {
        Some(Json::Null) => None,
        Some(Json::Str(s)) => Some(s),
        Some(Json::Number(n)) => Some(n),
        Some(Json::Bool(b)) => Some(if b { "true".to_owned() } else { "false".to_owned() }),
        _ => Some(text.to_owned()),
    }
}

/// One row: its cells, `None` for an empty cell.
pub struct GvizRow {
    pub c: Vec<Option<GvizCell>>,
}

/// A decoded `gviz` table.
pub struct GvizTable {
    pub cols: Vec<GvizCol>,
    pub rows: Vec<GvizRow>,
}

pub struct CellView {
    pub v: Option<Seq<char>>,
    pub f: Option<Seq<char>>,
}

impl View for GvizCell {
    type V = CellView;

    open spec fn view(&self) -> CellView {
        CellView { v: matcher::opt_view(self.v), f: matcher::opt_view(self.f) }
    }
}

pub open spec fn opt_cell_view(o: Option<GvizCell>) -> Option<CellView> {
    match o {
        Some(c) => Some(c@),
        None => None,
    }
}

impl View for GvizRow {
    type V = Seq<Option<CellView>>;

    open spec fn view(&self) -> Seq<Option<CellView>> {
        self.c@.map_values(|o: Option<GvizCell>| opt_cell_view(o))
    }
}

pub struct TableView {
    pub labels: Seq<Seq<char>>,
    pub rows: Seq<Seq<Option<CellView>>>,
}

impl View for GvizTable {
    type V = TableView;

    open spec fn view(&self) -> TableView {
        TableView {
            labels: self.cols@.map_values(|c: GvizCol| c.label@),
            rows: self.rows@.map_values(|r: GvizRow| r@),
        }
    }
}

/// First column at or after `i` whose trimmed label is `label`.
pub open spec fn find_col_from(labels: Seq<Seq<char>>, label: Seq<char>, i: int) -> Option<int>
    decreases labels.len() - i,
{
    if i < 0 || i >= labels.len() {
        None
    } else if text::trim_spec(labels[i]) == label {
        Some(i)
    } else {
        find_col_from(labels, label, i + 1)
    }
}

/// Index of the first column whose trimmed label is `label`.
pub fn find_col(cols: &Vec<GvizCol>, label: &str) -> (r: Option<usize>)
    ensures
        match r {
            Some(i) => find_col_from(cols@.map_values(|c: GvizCol| c.label@), label@, 0) == Some(
                i as int,
            ),
            None => find_col_from(cols@.map_values(|c: GvizCol| c.label@), label@, 0) is None,
        },
{
    let ghost labels = cols@.map_values(|c: GvizCol| c.label@);
    let want = chars_of(label);
    let mut i: usize = 0;
    while i < cols.len()
        invariant
            i <= cols@.len(),
            labels == cols@.map_values(|c: GvizCol| c.label@),
            want@ == label@,
            find_col_from(labels, label@, 0) == find_col_from(labels, label@, i as int),
        decreases cols@.len() - i,
    {
        let l = chars_of(cols[i].label.as_str());
        let t = trim(&l);
        assert(labels[i as int] == cols@[i as int].label@);
        if text::chars_eq(&t, &want) {
            return Some(i);
        }
        i = i + 1;
    }
    None
}

/// The text of cell `idx`: its formatted text when that is non-empty,
/// else its value; `None` for a missing or empty cell or a `null` value.
pub open spec fn cell_str_spec(row: Seq<Option<CellView>>, idx: int) -> Option<Seq<char>> {
    if 0 <= idx < row.len() {
        match row[idx] {
            None => None,
            Some(c) => match c.f {
                Some(f) => if f.len() > 0 {
                    Some(f)
                } else {
                    c.v
                },
                None => c.v,
            },
        }
    } else {
        None
    }
}

/// Stringify a cell, preferring the formatted display value (`f`), so
/// that "Ep. 153" comes out rather than the raw value.
pub fn cell_str(row: &GvizRow, idx: usize) -> (r: Option<String>)
    ensures
        matcher::opt_view(r) == cell_str_spec(row@, idx as int),
{
    if idx >= row.c.len() {
        return None;
    }
    assert(row@[idx as int] == opt_cell_view(row.c@[idx as int]));
    match &row.c[idx] {
        None => None,
        Some(cell) => {
            match &cell.f {
                Some(f) => {
                    if !f.as_str().is_empty() {
                        return Some(f.clone());
                    }
                },
                None => {},
            }
            matcher::clone_opt_string(&cell.v)
        },
    }
}

// ---------- labels ----------

pub open spec fn ascii_ws_pred() -> spec_fn(char) -> bool {
    |c: char| text::is_ascii_ws(c)
}

pub open spec fn ascii_digit_pred() -> spec_fn(char) -> bool {
    |c: char| text::is_ascii_digit(c)
}

/// End of `s` once trailing ASCII white space is dropped.
pub open spec fn body_end(s: Seq<char>) -> int {
    s.len() - text::trail_run(s, ascii_ws_pred())
}

/// The episode number at the end of a label (`"Skypiea 03"` → 3): the
/// last one to three digits of the digit run that ends the label, before
/// any trailing ASCII white space.
pub open spec fn episode_number_spec(s: Seq<char>) -> Option<u32> {
    let e = body_end(s);
    let body = s.take(e);
    let t = text::trail_run(body, ascii_digit_pred());
    if t == 0 {
        None
    } else {
        let k = if t < 3 {
            t as int
        } else {
            3
        };
        Some(text::digits_value(body.subrange(e - k, e)) as u32)
    }
}

/// `body_end` and `trail_run` computed.
fn trailing_ws_start(s: &Vec<char>, hi: usize) -> (r: usize)
    requires
        hi <= s@.len(),
    ensures
        r <= hi,
        r == hi - text::trail_run(s@.take(hi as int), ascii_ws_pred()),
{
    let mut e = hi;
    while e > 0 && is_ascii_ws_char(s[e - 1])
        invariant
            e <= hi <= s@.len(),
            forall|i: int| e <= i < hi ==> text::is_ascii_ws(#[trigger] s@[i]),
        decreases e,
    {
        e = e - 1;
    }
    proof {
        let b = s@.take(hi as int);
        assert forall|i: int| b.len() - (hi - e) <= i < b.len() implies #[trigger] ascii_ws_pred()(b[i]) by {
            assert(b[i] == s@[i]);
        }
        if e > 0 {
            assert(b[b.len() - (hi - e) - 1] == s@[e - 1]);
        }
        text::lemma_trail_run_unique(b, ascii_ws_pred(), hi - e);
    }
    e
}

fn trailing_digits_start(s: &Vec<char>, hi: usize) -> (r: usize)
    requires
        hi <= s@.len(),
    ensures
        r <= hi,
        r == hi - text::trail_run(s@.take(hi as int), ascii_digit_pred()),
{
    let mut e = hi;
    while e > 0 && is_ascii_digit_char(s[e - 1])
        invariant
            e <= hi <= s@.len(),
            forall|i: int| e <= i < hi ==> text::is_ascii_digit(#[trigger] s@[i]),
        decreases e,
    {
        e = e - 1;
    }
    proof {
        let b = s@.take(hi as int);
        assert forall|i: int| b.len() - (hi - e) <= i < b.len() implies #[trigger] ascii_digit_pred()(b[i]) by {
            assert(b[i] == s@[i]);
        }
        if e > 0 {
            assert(b[b.len() - (hi - e) - 1] == s@[e - 1]);
        }
        text::lemma_trail_run_unique(b, ascii_digit_pred(), hi - e);
    }
    e
}

/// The episode number a label ends with, e.g. `"Long Ring Long Land 02"`
/// → 2; `None` when it ends in no digit.
pub fn parse_episode_number(label: &str) -> (r: Option<u32>)
    ensures
        r == episode_number_spec(label@),
{
    let s = chars_of(label);
    let n = s.len();
    assert(s@.take(n as int) == s@);
    let e = trailing_ws_start(&s, n);
    let d = trailing_digits_start(&s, e);
    if d == e {
        return None;
    }
    let k: usize = if e - d < 3 {
        e - d
    } else {
        3
    };
    let ghost body = s@.take(e as int);
    proof {
        assert(s@.take(e as int) == body);
        let sub = body.subrange(e - k, e as int);
        assert(sub == s@.subrange(e - k, e as int));
        text::lemma_trail_run_bound(body, ascii_digit_pred());
        assert forall|i: int| 0 <= i < sub.len() implies text::is_ascii_digit(#[trigger] sub[i]) by {
            assert(sub[i] == body[e - k + i]);
            assert(ascii_digit_pred()(body[e - k + i]));
        }
        text::lemma_digits_value_lt_pow10(sub);
        assert(text::pow10(sub.len()) <= 1000) by {
            reveal_with_fuel(text::pow10, 4);
        }
    }
    parse_u32_range(&s, e - k, e)
}

/// Characters an arc name at the start of a label may hold after its
/// first letter: ASCII letters, apostrophe, space and hyphen.
pub open spec fn label_class(c: char) -> bool {
    text::is_ascii_upper(c) || text::is_ascii_lower(c) || c == '\'' || c == ' ' || c == '-'
}

/// The arc name leading a label such as `"Wano 01"`: a name of ASCII
/// letters (and `' -`), white space, one to three digits, optional
/// trailing white space.
pub open spec fn leading_label_arc(s: Seq<char>) -> Option<Seq<char>> {
    let e = body_end(s);
    let body = s.take(e);
    let t = text::trail_run(body, ascii_digit_pred());
    let head = body.take(e - t);
    let w = text::trail_run(head, ascii_ws_pred());
    let b = head.len() - w;
    if 1 <= t <= 3 && w >= 1 && b >= 1 && (text::is_ascii_upper(s[0]) || text::is_ascii_lower(s[0]))
        && (forall|i: int| 1 <= i < b ==> label_class(#[trigger] s[i])) {
        Some(text::trim_spec(s.take(b)))
    } else {
        None
    }
}

/// The arc a row belongs to: the table's first-column header when it is
/// non-empty, else the name leading the episode label.
pub open spec fn pick_arc_spec(header: Option<Seq<char>>, label: Seq<char>) -> Option<Seq<char>> {
    match header {
        Some(h) => if h.len() > 0 {
            Some(h)
        } else {
            leading_label_arc(label)
        },
        None => leading_label_arc(label),
    }
}

fn leading_label_arc_exec(s: &Vec<char>) -> (r: Option<Vec<char>>)
    ensures
        match r {
            Some(a) => leading_label_arc(s@) == Some(a@),
            None => leading_label_arc(s@) is None,
        },
{
    let n = s.len();
    assert(s@.take(n as int) == s@);
    let e = trailing_ws_start(s, n);
    let d = trailing_digits_start(s, e);
    let b = trailing_ws_start(s, d);
    let ghost body = s@.take(e as int);
    let ghost head = body.take(d as int);
    proof {
        assert(body.take(d as int) == s@.take(d as int));
        assert(head.len() == d);
    }
    if !(1 <= e - d && e - d <= 3 && b < d && b >= 1) {
        return None;
    }
    if !(('A' <= s[0] && s[0] <= 'Z') || ('a' <= s[0] && s[0] <= 'z')) {
        return None;
    }
    assert(leading_label_arc(s@) == if (forall|j: int| 1 <= j < b ==> label_class(#[trigger] s@[j])) {
        Some(text::trim_spec(s@.take(b as int)))
    } else {
        None
    });
    let mut i: usize = 1;
    while i < b
        invariant
            1 <= i <= b <= s@.len(),
            forall|j: int| 1 <= j < i ==> label_class(#[trigger] s@[j]),
            leading_label_arc(s@) == if (forall|j: int| 1 <= j < b ==> label_class(#[trigger] s@[j])) {
                Some(text::trim_spec(s@.take(b as int)))
            } else {
                None
            },
        decreases b - i,
    {
        let c = s[i];
        if !(('A' <= c && c <= 'Z') || ('a' <= c && c <= 'z') || c == '\'' || c == ' ' || c == '-') {
            assert(!label_class(s@[i as int]));
            return None;
        }
        i = i + 1;
    }
    let r = trim_range(s, 0, b);
    assert(s@.subrange(0, b as int) == s@.take(b as int));
    Some(r)
}

/// The arc a row belongs to: the (trimmed) column header when non-empty,
/// else the leading text of the episode label (`"Wano 01"` → `"Wano"`).
pub fn pick_arc(header: Option<&str>, label: &str) -> (r: Option<String>)
    ensures
        matcher::opt_view(r) == pick_arc_spec(
            match header {
                Some(h) => Some(h@),
                None => None,
            },
            label@,
        ),
{
    match header {
        Some(h) => {
            if !h.is_empty() {
                return Some(h.to_owned());
            }
        },
        None => {},
    }
    let s = chars_of(label);
    match leading_label_arc_exec(&s) {
        Some(a) => Some(string_of(&a)),
        None => None,
    }
}

// ---------- release dates ----------

pub open spec fn dash() -> Seq<char> {
    seq!['-']
}

/// `"2025.05.03"` → `"2025-05-03"`: three dot-separated `u32` fields, a
/// month in 1..=12, a day in 1..=31 and a year from 1900, written with a
/// four-digit year and two-digit month and day.
pub open spec fn release_date_spec(s: Seq<char>) -> Option<Seq<char>> {
    let t = text::trim_spec(s);
    let parts = text::split_on(t, '.');
    if t.len() == 0 || parts.len() != 3 {
        None
    } else {
        match (
            text::parse_u32_spec(parts[0]),
            text::parse_u32_spec(parts[1]),
            text::parse_u32_spec(parts[2]),
        ) {
            (Some(y), Some(m), Some(d)) => if 1 <= m <= 12 && 1 <= d <= 31 && y >= 1900 {
                Some(
                    text::zero_pad(text::decimal(y as nat), 4) + dash() + text::zero_pad(
                        text::decimal(m as nat),
                        2,
                    ) + dash() + text::zero_pad(text::decimal(d as nat), 2),
                )
            } else {
                None
            },
            _ => None,
        }
    }
}

/// Normalizes a dotted sheet date to ISO form; `None` unless it is a
/// well-formed three-part dotted date.
pub fn normalize_release_date(s: &str) -> (r: Option<String>)
    ensures
        matcher::opt_view(r) == release_date_spec(s@),
{
    let c = chars_of(s);
    let t = trim(&c);
    if t.len() == 0 {
        return None;
    }
    let parts = split_on_exec(&t, '.');
    if parts.len() != 3 {
        return None;
    }
    assert(parts@[0]@ == text::split_on(t@, '.')[0]);
    assert(parts@[1]@ == text::split_on(t@, '.')[1]);
    assert(parts@[2]@ == text::split_on(t@, '.')[2]);
    let y = match parse_u32_range(&parts[0], 0, parts[0].len()) {
        Some(v) => v,
        None => {
            assert(parts@[0]@.subrange(0, parts@[0]@.len() as int) == parts@[0]@);
            return None;
        },
    };
    let m = match parse_u32_range(&parts[1], 0, parts[1].len()) {
        Some(v) => v,
        None => {
            assert(parts@[0]@.subrange(0, parts@[0]@.len() as int) == parts@[0]@);
            assert(parts@[1]@.subrange(0, parts@[1]@.len() as int) == parts@[1]@);
            return None;
        },
    };
    let d = match parse_u32_range(&parts[2], 0, parts[2].len()) {
        Some(v) => v,
        None => {
            assert(parts@[0]@.subrange(0, parts@[0]@.len() as int) == parts@[0]@);
            assert(parts@[1]@.subrange(0, parts@[1]@.len() as int) == parts@[1]@);
            assert(parts@[2]@.subrange(0, parts@[2]@.len() as int) == parts@[2]@);
            return None;
        },
    };
    assert(parts@[0]@.subrange(0, parts@[0]@.len() as int) == parts@[0]@);
    assert(parts@[1]@.subrange(0, parts@[1]@.len() as int) == parts@[1]@);
    assert(parts@[2]@.subrange(0, parts@[2]@.len() as int) == parts@[2]@);
    if !(1 <= m && m <= 12 && 1 <= d && d <= 31 && y >= 1900) {
        return None;
    }
    let mut out = fmt_u32_padded(y, 4);
    out.push('-');
    let mm = fmt_u32_padded(m, 2);
    push_all(&mut out, &mm);
    out.push('-');
    let dd = fmt_u32_padded(d, 2);
    push_all(&mut out, &dd);
    Some(string_of(&out))
}

// ---------- arc tabs ----------

/// Why an arc tab cannot be used.
#[derive(Debug, Clone, Copy, PartialEq, Eq, Structural)]
pub enum SheetError {
    /// The body is not a `callback(...)` JSONP envelope.
    NotJsonp,
    /// No column is labelled `One Pace Episode`.
    NoEpisodeColumn,
    /// No column is labelled `MKV CRC32`.
    NoCrcColumn,
}

impl SheetError {
    /// The error's message.
    pub fn message(&self) -> (r: String)
        ensures
            r@ == sheet_error_message(*self),
    {
        match self {
            SheetError::NotJsonp => "not a JSONP envelope".to_owned(),
            SheetError::NoEpisodeColumn => "no 'One Pace Episode' column".to_owned(),
            SheetError::NoCrcColumn => "no MKV CRC32 column".to_owned(),
        }
    }
}

pub open spec fn sheet_error_message(e: SheetError) -> Seq<char> {
    match e {
        SheetError::NotJsonp => "not a JSONP envelope"@,
        SheetError::NoEpisodeColumn => "no 'One Pace Episode' column"@,
        SheetError::NoCrcColumn => "no MKV CRC32 column"@,
    }
}

/// One episode row of an arc tab.
pub struct ParsedRow {
    pub arc: String,
    pub episode_label: String,
    pub episode_number: u32,
    pub chapters: String,
    pub anime_episodes: String,
    pub release_date: Option<String>,
    /// Regular and Extended CRC32s, as written in the sheet (trimmed).
    pub crcs: Vec<String>,
}

pub struct ParsedRowView {
    pub arc: Seq<char>,
    pub episode_label: Seq<char>,
    pub episode_number: u32,
    pub chapters: Seq<char>,
    pub anime_episodes: Seq<char>,
    pub release_date: Option<Seq<char>>,
    pub crcs: Seq<Seq<char>>,
}

impl View for ParsedRow {
    type V = ParsedRowView;

    open spec fn view(&self) -> ParsedRowView {
        ParsedRowView {
            arc: self.arc@,
            episode_label: self.episode_label@,
            episode_number: self.episode_number,
            chapters: self.chapters@,
            anime_episodes: self.anime_episodes@,
            release_date: matcher::opt_view(self.release_date),
            crcs: self.crcs@.map_values(|c: String| c@),
        }
    }
}

pub open spec fn row_views(v: Seq<ParsedRow>) -> Seq<ParsedRowView> {
    v.map_values(|r: ParsedRow| r@)
}

/// Where the columns a row is read from sit.
pub ghost struct Columns {
    pub header: Option<Seq<char>>,
    pub ep: int,
    pub chapters: Option<int>,
    pub episodes: Option<int>,
    pub release: Option<int>,
    pub crc: int,
    pub crc_ext: Option<int>,
}

/// Cell `idx` (when there is such a column), or the empty text.
pub open spec fn cell_or_empty(row: Seq<Option<CellView>>, idx: Option<int>) -> Seq<char> {
    match idx {
        Some(i) => match cell_str_spec(row, i) {
            Some(x) => x,
            None => seq![],
        },
        None => seq![],
    }
}

/// The trimmed CRC in cell `idx`, when there is a non-blank one.
pub open spec fn crc_cell(row: Seq<Option<CellView>>, idx: Option<int>) -> Seq<Seq<char>> {
    match idx {
        Some(i) => match cell_str_spec(row, i) {
            Some(x) => if text::trim_spec(x).len() > 0 {
                seq![text::trim_spec(x)]
            } else {
                seq![]
            },
            None => seq![],
        },
        None => seq![],
    }
}

/// What a table row yields: nothing without a non-blank episode label
/// that ends in a number; otherwise the row, its arc from the header or
/// the label (or the label itself), its release date normalized.
pub open spec fn row_spec(row: Seq<Option<CellView>>, c: Columns) -> Option<ParsedRowView> {
    match cell_str_spec(row, c.ep) {
        None => None,
        Some(raw) => {
            let label = text::trim_spec(raw);
            if label.len() == 0 {
                None
            } else {
                match episode_number_spec(label) {
                    None => None,
                    Some(n) => Some(
                        ParsedRowView {
                            arc: match pick_arc_spec(c.header, label) {
                                Some(a) => a,
                                None => label,
                            },
                            episode_label: label,
                            episode_number: n,
                            chapters: cell_or_empty(row, c.chapters),
                            anime_episodes: cell_or_empty(row, c.episodes),
                            release_date: match c.release {
                                Some(i) => match cell_str_spec(row, i) {
                                    Some(x) => release_date_spec(x),
                                    None => None,
                                },
                                None => None,
                            },
                            crcs: crc_cell(row, Some(c.crc)) + crc_cell(row, c.crc_ext),
                        },
                    ),
                }
            }
        },
    }
}

/// The rows a table yields, in order.
pub open spec fn rows_spec(rows: Seq<Seq<Option<CellView>>>, c: Columns) -> Seq<ParsedRowView>
    decreases rows.len(),
{
    if rows.len() == 0 {
        seq![]
    } else {
        let prev = rows_spec(rows.drop_last(), c);
        match row_spec(rows.last(), c) {
            Some(r) => prev.push(r),
            None => prev,
        }
    }
}

/// The columns of a table with the labels `labels`.
pub open spec fn columns_of(labels: Seq<Seq<char>>, ep: int, crc: int) -> Columns {
    Columns {
        header: if labels.len() > 0 {
            Some(text::trim_spec(labels[0]))
        } else {
            None
        },
        ep,
        chapters: find_col_from(labels, "Chapters"@, 0),
        episodes: find_col_from(labels, "Episodes"@, 0),
        release: find_col_from(labels, "Release Date"@, 0),
        crc,
        crc_ext: find_col_from(labels, "MKV CRC32 (Extended)"@, 0),
    }
}

/// What reading an arc tab's table gives.
pub open spec fn arc_table_spec(t: TableView) -> Result<Seq<ParsedRowView>, SheetError> {
    match find_col_from(t.labels, "One Pace Episode"@, 0) {
        None => Err(SheetError::NoEpisodeColumn),
        Some(ep) => match find_col_from(t.labels, "MKV CRC32"@, 0) {
            None => Err(SheetError::NoCrcColumn),
            Some(crc) => Ok(rows_spec(t.rows, columns_of(t.labels, ep, crc))),
        },
    }
}

fn cell_or_empty_exec(row: &GvizRow, idx: Option<usize>) -> (r: String)
    ensures
        r@ == cell_or_empty(row@, match idx {
            Some(i) => Some(i as int),
            None => None,
        }),
{
    match idx {
        Some(i) => match cell_str(row, i) {
            Some(x) => x,
            None => String::new(),
        },
        None => String::new(),
    }
}

fn push_crc_cell(out: &mut Vec<String>, row: &GvizRow, idx: Option<usize>)
    ensures
        final(out)@.map_values(|c: String| c@) == old(out)@.map_values(|c: String| c@) + crc_cell(
            row@,
            match idx {
                Some(i) => Some(i as int),
                None => None,
            },
        ),
{
    let ghost before = old(out)@.map_values(|c: String| c@);
    match idx {
        Some(i) => match cell_str(row, i) {
            Some(x) => {
                let xc = chars_of(x.as_str());
                let t = trim(&xc);
                if t.len() > 0 {
                    out.push(string_of(&t));
                    assert(out@.map_values(|c: String| c@) =~= before + seq![t@]);
                    return;
                }
            },
            None => {},
        },
        None => {},
    }
    assert(out@.map_values(|c: String| c@) =~= before + seq![]);
}

fn row_exec(
    row: &GvizRow,
    header: &Option<String>,
    ep: usize,
    chapters: Option<usize>,
    episodes: Option<usize>,
    release: Option<usize>,
    crc: usize,
    crc_ext: Option<usize>,
) -> (r: Option<ParsedRow>)
    ensures
        ({
            let c = Columns {
                header: matcher::opt_view(*header),
                ep: ep as int,
                chapters: match chapters {
                    Some(i) => Some(i as int),
                    None => None,
                },
                episodes: match episodes {
                    Some(i) => Some(i as int),
                    None => None,
                },
                release: match release {
                    Some(i) => Some(i as int),
                    None => None,
                },
                crc: crc as int,
                crc_ext: match crc_ext {
                    Some(i) => Some(i as int),
                    None => None,
                },
            };
            match r {
                Some(p) => row_spec(row@, c) == Some(p@),
                None => row_spec(row@, c) is None,
            }
        }),
{
    let raw = match cell_str(row, ep) {
        Some(x) => x,
        None => {
            return None;
        },
    };
    let rc = chars_of(raw.as_str());
    let lc = trim(&rc);
    if lc.len() == 0 {
        return None;
    }
    let label = string_of(&lc);
    let n = match parse_episode_number(label.as_str()) {
        Some(n) => n,
        None => {
            return None;
        },
    };
    let hdr: Option<&str> = match header {
        Some(h) => Some(h.as_str()),
        None => None,
    };
    let arc = match pick_arc(hdr, label.as_str()) {
        Some(a) => a,
        None => label.clone(),
    };
    let chapters_s = cell_or_empty_exec(row, chapters);
    let episodes_s = cell_or_empty_exec(row, episodes);
    let release_date = match release {
        Some(i) => match cell_str(row, i) {
            Some(x) => normalize_release_date(x.as_str()),
            None => None,
        },
        None => None,
    };
    let mut crcs: Vec<String> = Vec::new();
    assert(crcs@.map_values(|c: String| c@) =~= seq![]);
    push_crc_cell(&mut crcs, row, Some(crc));
    push_crc_cell(&mut crcs, row, crc_ext);
    assert(seq![] + crc_cell(row@, Some(crc as int)) == crc_cell(row@, Some(crc as int)));
    Some(
        ParsedRow {
            arc,
            episode_label: label,
            episode_number: n,
            chapters: chapters_s,
            anime_episodes: episodes_s,
            release_date,
            crcs,
        },
    )
}

/// Reads the episode rows of a decoded arc tab: rows without a usable
/// episode label are skipped; a tab without a `One Pace Episode` or a
/// `MKV CRC32` column is refused.
pub fn parse_arc_table(table: &GvizTable) -> (r: Result<Vec<ParsedRow>, SheetError>)
    ensures
        match r {
            Ok(rows) => arc_table_spec(table@) == Ok::<Seq<ParsedRowView>, SheetError>(
                row_views(rows@),
            ),
            Err(e) => arc_table_spec(table@) == Err::<Seq<ParsedRowView>, SheetError>(e),
        },
{
    let ghost labels = table@.labels;
    let ep = match find_col(&table.cols, "One Pace Episode") {
        Some(i) => i,
        None => {
            return Err(SheetError::NoEpisodeColumn);
        },
    };
    let chapters = find_col(&table.cols, "Chapters");
    let episodes = find_col(&table.cols, "Episodes");
    let release = find_col(&table.cols, "Release Date");
    let crc = match find_col(&table.cols, "MKV CRC32") {
        Some(i) => i,
        None => {
            return Err(SheetError::NoCrcColumn);
        },
    };
    let crc_ext = find_col(&table.cols, "MKV CRC32 (Extended)");
    let header: Option<String> = if table.cols.len() > 0 {
        let l = chars_of(table.cols[0].label.as_str());
        let t = trim(&l);
        Some(string_of(&t))
    } else {
        None
    };
    let ghost c = columns_of(labels, ep as int, crc as int);
    assert(matcher::opt_view(header) == c.header);
    let mut out: Vec<ParsedRow> = Vec::new();
    let mut i: usize = 0;
    while i < table.rows.len()
        invariant
            i <= table.rows@.len(),
            labels == table@.labels,
            c == columns_of(labels, ep as int, crc as int),
            matcher::opt_view(header) == c.header,
            c.chapters == match chapters {
                Some(i) => Some(i as int),
                None => None::<int>,
            },
            c.episodes == match episodes {
                Some(i) => Some(i as int),
                None => None::<int>,
            },
            c.release == match release {
                Some(i) => Some(i as int),
                None => None::<int>,
            },
            c.crc_ext == match crc_ext {
                Some(i) => Some(i as int),
                None => None::<int>,
            },
            row_views(out@) == rows_spec(table@.rows.take(i as int), c),
        decreases table.rows@.len() - i,
    {
        let ghost before = row_views(out@);
        let r = row_exec(&table.rows[i], &header, ep, chapters, episodes, release, crc, crc_ext);
        assert(table@.rows.take(i + 1).drop_last() == table@.rows.take(i as int));
        assert(table@.rows.take(i + 1).last() == table.rows@[i as int]@);
        match r {
            Some(p) => {
                out.push(p);
                assert(row_views(out@) =~= before.push(p@));
            },
            None => {},
        }
        i = i + 1;
    }
    assert(table@.rows.take(i as int) == table@.rows);
    Ok(out)
}

// ---------- episodes ----------

/// One episode as the sheet lists it.
pub struct SheetEpisode {
    /// Display form of the arc (e.g. "Skypiea"), used in synthesized titles.
    pub arc: String,
    pub arc_normalized: String,
    pub episode_label: String,
    pub episode_number: u32,
    pub chapters: String,
    pub anime_episodes: String,
    pub release_date: Option<String>,
}

pub struct SheetEpisodeView {
    pub arc: Seq<char>,
    pub arc_normalized: Seq<char>,
    pub episode_label: Seq<char>,
    pub episode_number: u32,
    pub chapters: Seq<char>,
    pub anime_episodes: Seq<char>,
    pub release_date: Option<Seq<char>>,
}

impl View for SheetEpisode {
    type V = SheetEpisodeView;

    open spec fn view(&self) -> SheetEpisodeView {
        SheetEpisodeView {
            arc: self.arc@,
            arc_normalized: self.arc_normalized@,
            episode_label: self.episode_label@,
            episode_number: self.episode_number,
            chapters: self.chapters@,
            anime_episodes: self.anime_episodes@,
            release_date: matcher::opt_view(self.release_date),
        }
    }
}

impl SheetEpisode {
    pub fn clone_entry(&self) -> (r: SheetEpisode)
        ensures
            r@ == self@,
    {
        SheetEpisode {
            arc: self.arc.clone(),
            arc_normalized: self.arc_normalized.clone(),
            episode_label: self.episode_label.clone(),
            episode_number: self.episode_number,
            chapters: self.chapters.clone(),
            anime_episodes: self.anime_episodes.clone(),
            release_date: matcher::clone_opt_string(&self.release_date),
        }
    }
}

/// The index entry a parsed row becomes.
pub open spec fn entry_of(r: ParsedRowView) -> SheetEpisodeView {
    SheetEpisodeView {
        arc: r.arc,
        arc_normalized: matcher::normalize_arc_spec(r.arc),
        episode_label: r.episode_label,
        episode_number: r.episode_number,
        chapters: r.chapters,
        anime_episodes: r.anime_episodes,
        release_date: r.release_date,
    }
}

/// The minimal episode record made from a sheet row: title
/// `"<Arc> <NN>"`, a plot naming the manga chapters, the anime episodes
/// and the release date, in season 0.
pub open spec fn synth_spec(e: SheetEpisodeView) -> EpisodeView {
    EpisodeView {
        showtitle: "One Pace"@,
        season: 0,
        number: e.episode_number,
        title: e.arc + seq![' '] + text::zero_pad(text::decimal(e.episode_number as nat), 2),
        plot: Some(
            "Manga: "@ + e.chapters + ". Original anime: "@ + e.anime_episodes + "."@ + match e.release_date {
                Some(d) => " Released "@ + d + "."@,
                None => seq![],
            },
        ),
        premiered: e.release_date,
        aired: e.release_date,
    }
}

pub fn synthesize_episode(entry: &SheetEpisode) -> (r: Episode)
    ensures
        r@ == synth_spec(entry@),
{
    let mut title: Vec<char> = chars_of(entry.arc.as_str());
    title.push(' ');
    let num = fmt_u32_padded(entry.episode_number, 2);
    push_all(&mut title, &num);
    assert(title@ =~= entry.arc@ + seq![' '] + text::zero_pad(text::decimal(entry.episode_number as nat), 2));
    let mut plot: Vec<char> = Vec::new();
    push_str(&mut plot, "Manga: ");
    push_str(&mut plot, entry.chapters.as_str());
    push_str(&mut plot, ". Original anime: ");
    push_str(&mut plot, entry.anime_episodes.as_str());
    push_str(&mut plot, ".");
    match &entry.release_date {
        Some(d) => {
            push_str(&mut plot, " Released ");
            push_str(&mut plot, d.as_str());
            push_str(&mut plot, ".");
        },
        None => {},
    }
    let ghost p = plot@;
    assert(p == "Manga: "@ + entry.chapters@ + ". Original anime: "@ + entry.anime_episodes@ + "."@
        + match entry@.release_date {
        Some(d) => " Released "@ + d + "."@,
        None => seq![],
    });
    Episode {
        showtitle: "One Pace".to_owned(),
        season: 0,
        number: entry.episode_number,
        title: string_of(&title),
        plot: Some(string_of(&plot)),
        premiered: matcher::clone_opt_string(&entry.release_date),
        aired: matcher::clone_opt_string(&entry.release_date),
    }
}

/// Spelling drift between library folder names and the sheet's arc
/// names: `arabasta` is listed as `alabasta`, `wano act 1` as `wano`.
pub open spec fn sheet_alias(s: Seq<char>) -> Option<Seq<char>> {
    if s == "arabasta"@ {
        Some("alabasta"@)
    } else if s == "wano act 1"@ {
        Some("wano"@)
    } else {
        None
    }
}

/// The sheet's spelling of a normalized arc name, where it differs.
pub fn arc_alias(normalized: &str) -> (r: Option<&'static str>)
    ensures
        match r {
            Some(a) => sheet_alias(normalized@) == Some(a@),
            None => sheet_alias(normalized@) is None,
        },
{
    let s = chars_of(normalized);
    if text::str_eq_chars("arabasta", &s) {
        Some("alabasta")
    } else if text::str_eq_chars("wano act 1", &s) {
        Some("wano")
    } else {
        None
    }
}

// ---------- index ----------

/// The CRC table as a map, later pairs overriding earlier ones.
pub open spec fn crc_keyed(v: Seq<(String, SheetEpisode)>) -> Map<Seq<char>, SheetEpisodeView>
    decreases v.len(),
{
    if v.len() == 0 {
        Map::empty()
    } else {
        crc_keyed(v.drop_last()).insert(v.last().0@, v.last().1@)
    }
}

pub open spec fn keys_unique(v: Seq<(String, SheetEpisode)>) -> bool {
    forall|i: int, j: int| 0 <= i < j < v.len() ==> #[trigger] v[i].0@ != #[trigger] v[j].0@
}

pub proof fn lemma_crc_keyed_lookup(v: Seq<(String, SheetEpisode)>, j: int)
    requires
        keys_unique(v),
        0 <= j < v.len(),
    ensures
        crc_keyed(v).contains_key(v[j].0@),
        crc_keyed(v)[v[j].0@] == v[j].1@,
    decreases v.len(),
{
    if j < v.len() - 1 {
        assert(v.drop_last()[j] == v[j]);
        assert(v[j].0@ != v[v.len() - 1].0@);
        lemma_crc_keyed_lookup(v.drop_last(), j);
    }
}

pub proof fn lemma_crc_keyed_absent(v: Seq<(String, SheetEpisode)>, k: Seq<char>)
    requires
        forall|j: int| 0 <= j < v.len() ==> (#[trigger] v[j]).0@ != k,
    ensures
        !crc_keyed(v).contains_key(k),
    decreases v.len(),
{
    if v.len() > 0 {
        assert forall|j: int| 0 <= j < v.drop_last().len() implies (#[trigger] v.drop_last()[j]).0@ != k by {
            assert(v.drop_last()[j] == v[j]);
        }
        assert(v[v.len() - 1].0@ != k);
        lemma_crc_keyed_absent(v.drop_last(), k);
    }
}

pub proof fn lemma_crc_keyed_update(v: Seq<(String, SheetEpisode)>, j: int, t: (String, SheetEpisode))
    requires
        keys_unique(v),
        0 <= j < v.len(),
        v[j].0@ == t.0@,
    ensures
        crc_keyed(v.update(j, t)) == crc_keyed(v).insert(t.0@, t.1@),
        keys_unique(v.update(j, t)),
    decreases v.len(),
{
    let u = v.update(j, t);
    assert forall|a: int, b: int| 0 <= a < b < u.len() implies #[trigger] u[a].0@ != #[trigger] u[b].0@ by {
        assert(u[a].0@ == v[a].0@);
        assert(u[b].0@ == v[b].0@);
    }
    if j == v.len() - 1 {
        assert(u.drop_last() == v.drop_last());
        assert(crc_keyed(v).insert(t.0@, t.1@) =~= crc_keyed(v.drop_last()).insert(t.0@, t.1@));
    } else {
        assert(u.drop_last() == v.drop_last().update(j, t));
        assert(v.drop_last()[j] == v[j]);
        lemma_crc_keyed_update(v.drop_last(), j, t);
        assert(v[v.len() - 1].0@ != t.0@);
        assert(crc_keyed(u) =~= crc_keyed(v).insert(t.0@, t.1@));
    }
}

pub open spec fn ep_views(v: Seq<SheetEpisode>) -> Seq<SheetEpisodeView> {
    v.map_values(|e: SheetEpisode| e@)
}

/// The index the sheet's tabs build: the entry of each CRC, and every
/// entry in the order absorbed (grouped by arc on lookup).
pub struct SheetIndex {
    by_crc: Vec<(String, SheetEpisode)>,
    entries: Vec<SheetEpisode>,
}

pub struct SheetIndexView {
    pub by_crc: Map<Seq<char>, SheetEpisodeView>,
    pub entries: Seq<SheetEpisodeView>,
}

impl View for SheetIndex {
    type V = SheetIndexView;

    closed spec fn view(&self) -> SheetIndexView {
        SheetIndexView { by_crc: crc_keyed(self.by_crc@), entries: ep_views(self.entries@) }
    }
}

/// The entries of arc `k`.
pub open spec fn arc_is(k: Seq<char>) -> spec_fn(SheetEpisodeView) -> bool {
    |e: SheetEpisodeView| e.arc_normalized == k
}

/// The entries numbered `n`.
pub open spec fn ep_is(n: u32) -> spec_fn(SheetEpisodeView) -> bool {
    |e: SheetEpisodeView| e.episode_number == n
}

/// The entries of arc `k` numbered `n`.
pub open spec fn arc_ep_is(k: Seq<char>, n: u32) -> spec_fn(SheetEpisodeView) -> bool {
    |e: SheetEpisodeView| e.arc_normalized == k && e.episode_number == n
}

/// `crcs` (uppercased) all mapped to `e`, later ones last.
pub open spec fn crc_fold(
    m: Map<Seq<char>, SheetEpisodeView>,
    crcs: Seq<Seq<char>>,
    e: SheetEpisodeView,
) -> Map<Seq<char>, SheetEpisodeView>
    decreases crcs.len(),
{
    if crcs.len() == 0 {
        m
    } else {
        crc_fold(m, crcs.drop_last(), e).insert(text::seq_ascii_upper(crcs.last()), e)
    }
}

/// The index after absorbing `rows`, in order: each row's CRCs point at
/// its entry (a later row wins a CRC), and the entry joins its arc.
pub open spec fn absorb_spec(iv: SheetIndexView, rows: Seq<ParsedRowView>) -> SheetIndexView
    decreases rows.len(),
{
    if rows.len() == 0 {
        iv
    } else {
        let prev = absorb_spec(iv, rows.drop_last());
        let e = entry_of(rows.last());
        SheetIndexView {
            by_crc: crc_fold(prev.by_crc, rows.last().crcs, e),
            entries: prev.entries.push(e),
        }
    }
}

/// Episode numbers never decrease along `s`.
pub open spec fn sorted_by_episode(s: Seq<SheetEpisodeView>) -> bool {
    forall|i: int, j: int| 0 <= i <= j < s.len() ==> s[i].episode_number <= s[j].episode_number
}

/// The arc an episode lookup reads: the name as written when the index
/// lists that arc, else its alias (when it has one).
pub open spec fn lookup_arc(iv: SheetIndexView, arc: Seq<char>) -> Seq<char> {
    if iv.entries.filter(arc_is(arc)).len() > 0 {
        arc
    } else {
        match sheet_alias(arc) {
            Some(a) => a,
            None => arc,
        }
    }
}

/// What `episode` answers: the first entry with that number of the arc
/// as written, or failing that of its alias, synthesized.
pub open spec fn sheet_episode_spec(iv: SheetIndexView, arc: Seq<char>, n: u32) -> Option<
    EpisodeView,
> {
    let k = lookup_arc(iv, arc);
    let c = iv.entries.filter(arc_ep_is(k, n));
    if c.len() > 0 {
        Some(synth_spec(c[0]))
    } else {
        None
    }
}

/// The first element satisfying `p` heads `s.filter(p)`.
pub proof fn lemma_filter_first<A>(s: Seq<A>, p: spec_fn(A) -> bool, j: int)
    requires
        0 <= j < s.len(),
        p(s[j]),
        forall|i: int| 0 <= i < j ==> !p(#[trigger] s[i]),
    ensures
        s.filter(p).len() > 0,
        s.filter(p)[0] == s[j],
{
    let a = s.take(j);
    let b = s.skip(j + 1);
    assert(s == a + (seq![s[j]] + b));
    assert forall|i: int| 0 <= i < a.len() implies !p(#[trigger] a[i]) by {
        assert(a[i] == s[i]);
    }
    lemma_filter_none(a, p);
    Seq::filter_distributes_over_add(a, seq![s[j]] + b, p);
    b.lemma_filter_prepend(s[j], p);
    assert(s.filter(p) == a.filter(p) + (seq![s[j]] + b.filter(p)));
    assert(s.filter(p)[0] == (seq![s[j]] + b.filter(p))[0]);
}

/// No element satisfies `p`: the filter is empty.
pub proof fn lemma_filter_none<A>(s: Seq<A>, p: spec_fn(A) -> bool)
    requires
        forall|i: int| 0 <= i < s.len() ==> !p(#[trigger] s[i]),
    ensures
        s.filter(p).len() == 0,
{
    let np = |x: A| !p(x);
    assert forall|i: int| 0 <= i < s.len() implies #[trigger] np(s[i]) by {}
    assert(s.all(np));
    s.lemma_all_neg_filter_empty(p);
}

impl SheetIndex {
    /// The index's invariant: each CRC appears once.
    pub closed spec fn wf(&self) -> bool {
        keys_unique(self.by_crc@)
    }

    /// An empty index.
    pub fn new() -> (r: SheetIndex)
        ensures
            r.wf(),
            r@.by_crc == Map::<Seq<char>, SheetEpisodeView>::empty(),
            r@.entries == Seq::<SheetEpisodeView>::empty(),
    {
        let r = SheetIndex { by_crc: Vec::new(), entries: Vec::new() };
        assert(ep_views(r.entries@) =~= Seq::<SheetEpisodeView>::empty());
        r
    }

    fn find_crc(&self, key: &Vec<char>) -> (r: Option<usize>)
        ensures
            match r {
                Some(j) => j < self.by_crc@.len() && self.by_crc@[j as int].0@ == key@,
                None => forall|j: int| 0 <= j < self.by_crc@.len() ==> (#[trigger] self.by_crc@[j]).0@ != key@,
            },
    {
        let mut j: usize = 0;
        while j < self.by_crc.len()
            invariant
                j <= self.by_crc@.len(),
                forall|i: int| 0 <= i < j ==> (#[trigger] self.by_crc@[i]).0@ != key@,
            decreases self.by_crc@.len() - j,
        {
            if text::str_eq_chars(self.by_crc[j].0.as_str(), key) {
                return Some(j);
            }
            j = j + 1;
        }
        None
    }

    /// Points `key` at `e`, replacing what it pointed at.
    fn set_crc(&mut self, key: Vec<char>, e: SheetEpisode)
        requires
            old(self).wf(),
        ensures
            final(self).wf(),
            final(self)@.by_crc == old(self)@.by_crc.insert(key@, e@),
            final(self)@.entries == old(self)@.entries,
    {
        let ghost ev = e@;
        let k = string_of(&key);
        match self.find_crc(&key) {
            Some(j) => {
                proof {
                    lemma_crc_keyed_update(self.by_crc@, j as int, (k, e));
                }
                self.by_crc.set(j, (k, e));
            },
            None => {
                let ghost v = self.by_crc@;
                self.by_crc.push((k, e));
                proof {
                    assert(self.by_crc@.drop_last() == v);
                    assert forall|a: int, b: int| 0 <= a < b < self.by_crc@.len() implies #[trigger] self.by_crc@[a].0@ != #[trigger] self.by_crc@[b].0@ by {
                        if b == v.len() {
                            assert(self.by_crc@[a] == v[a]);
                        } else {
                            assert(self.by_crc@[a] == v[a]);
                            assert(self.by_crc@[b] == v[b]);
                        }
                    }
                }
            },
        }
    }

    /// Adds the rows of one arc tab: each row's CRCs (uppercased) point at
    /// its entry, and the entry joins its arc's list.
    pub fn absorb(&mut self, rows: Vec<ParsedRow>)
        requires
            old(self).wf(),
        ensures
            final(self).wf(),
            final(self)@ == absorb_spec(old(self)@, row_views(rows@)),
    {
        let ghost start = self@;
        let mut i: usize = 0;
        while i < rows.len()
            invariant
                i <= rows@.len(),
                self.wf(),
                self@ == absorb_spec(start, row_views(rows@).take(i as int)),
            decreases rows@.len() - i,
        {
            let row = &rows[i];
            let entry = SheetEpisode {
                arc: row.arc.clone(),
                arc_normalized: matcher::normalize_arc(row.arc.as_str()),
                episode_label: row.episode_label.clone(),
                episode_number: row.episode_number,
                chapters: row.chapters.clone(),
                anime_episodes: row.anime_episodes.clone(),
                release_date: matcher::clone_opt_string(&row.release_date),
            };
            let ghost ev = entry@;
            assert(ev == entry_of(row@));
            let ghost prev = self@;
            let ghost crcs = row@.crcs;
            let mut c: usize = 0;
            while c < row.crcs.len()
                invariant
                    c <= row.crcs@.len(),
                    crcs == row.crcs@.map_values(|x: String| x@),
                    self.wf(),
                    entry@ == ev,
                    self@.entries == prev.entries,
                    self@.by_crc == crc_fold(prev.by_crc, crcs.take(c as int), ev),
                decreases row.crcs@.len() - c,
            {
                let cc = chars_of(row.crcs[c].as_str());
                let key = text::to_ascii_uppercase(&cc);
                assert(crcs.take(c + 1).drop_last() == crcs.take(c as int));
                assert(crcs.take(c + 1).last() == row.crcs@[c as int]@);
                self.set_crc(key, entry.clone_entry());
                c = c + 1;
            }
            assert(crcs.take(c as int) == crcs);
            let ghost before = self.entries@;
            self.entries.push(entry);
            proof {
                assert(ep_views(self.entries@) =~= ep_views(before).push(ev));
                assert(row_views(rows@).take(i + 1).drop_last() == row_views(rows@).take(i as int));
                assert(row_views(rows@).take(i + 1).last() == rows@[i as int]@);
            }
            i = i + 1;
        }
        assert(row_views(rows@).take(i as int) == row_views(rows@));
    }

    /// Orders the entries by episode number, keeping the order of entries
    /// with equal numbers (a stable sort; each arc's list comes out sorted).
    pub fn finalize(&mut self)
        requires
            old(self).wf(),
        ensures
            final(self).wf(),
            final(self)@.by_crc == old(self)@.by_crc,
            sorted_by_episode(final(self)@.entries),
            forall|n: u32| #[trigger] final(self)@.entries.filter(ep_is(n)) == old(self)@.entries.filter(ep_is(n)),
    {
        let ghost input = self@.entries;
        let mut out: Vec<SheetEpisode> = Vec::new();
        let mut i: usize = 0;
        while i < self.entries.len()
            invariant
                i <= self.entries@.len(),
                ep_views(self.entries@) == input,
                sorted_by_episode(ep_views(out@)),
                forall|n: u32| #[trigger] ep_views(out@).filter(ep_is(n)) == input.take(i as int).filter(ep_is(n)),
            decreases self.entries@.len() - i,
        {
            let x = self.entries[i].clone_entry();
            let xn = x.episode_number;
            let mut p: usize = 0;
            while p < out.len() && out[p].episode_number <= xn
                invariant
                    p <= out@.len(),
                    forall|k: int| 0 <= k < p ==> (#[trigger] out@[k]).episode_number <= xn,
                decreases out@.len() - p,
            {
                p = p + 1;
            }
            let ghost ov = ep_views(out@);
            let ghost xv = x@;
            out.insert(p, x);
            proof {
                let nv = ep_views(out@);
                assert(nv =~= ov.insert(p as int, xv));
                assert forall|a: int, b: int| 0 <= a <= b < nv.len() implies nv[a].episode_number <= nv[b].episode_number by {
                    if b < p {
                        assert(nv[a] == ov[a] && nv[b] == ov[b]);
                    } else if b == p {
                        if a < p {
                            assert(nv[a] == ov[a]);
                        }
                    } else {
                        assert(nv[b] == ov[b - 1]);
                        if a < p {
                            assert(nv[a] == ov[a]);
                            if p < ov.len() {
                                assert(ov[p as int].episode_number > xn);
                            }
                        } else if a == p {
                            assert(ov[p as int].episode_number > xn);
                        } else {
                            assert(nv[a] == ov[a - 1]);
                        }
                    }
                }
                let lo = ov.take(p as int);
                let hi = ov.skip(p as int);
                assert(ov == lo + hi);
                assert(nv == lo + (seq![xv] + hi));
                assert forall|n: u32| #[trigger] nv.filter(ep_is(n)) == input.take(i + 1).filter(ep_is(n)) by {
                    assert(input.take(i + 1) == input.take(i as int).push(xv));
                    input.take(i as int).lemma_filter_push(xv, ep_is(n));
                    Seq::filter_distributes_over_add(lo, seq![xv] + hi, ep_is(n));
                    Seq::filter_distributes_over_add(lo, hi, ep_is(n));
                    hi.lemma_filter_prepend(xv, ep_is(n));
                    if n == xn {
                        assert forall|k: int| 0 <= k < hi.len() implies !ep_is(n)(#[trigger] hi[k]) by {
                            assert(hi[k] == ov[p + k]);
                            assert(ov[p as int].episode_number > xn);
                        }
                        lemma_filter_none(hi, ep_is(n));
                        assert(hi.filter(ep_is(n)) =~= Seq::<SheetEpisodeView>::empty());
                        assert(nv.filter(ep_is(n)) =~= lo.filter(ep_is(n)).push(xv));
                        assert(ov.filter(ep_is(n)) =~= lo.filter(ep_is(n)));
                    } else {
                        assert(nv.filter(ep_is(n)) =~= lo.filter(ep_is(n)) + hi.filter(ep_is(n)));
                    }
                }
            }
            i = i + 1;
        }
        assert(input.take(i as int) == input);
        self.entries = out;
    }

    /// `(arc_normalized, episode_number)` of the entry the sheet lists for
    /// this CRC (matched case-insensitively), if any.
    pub fn lookup_arc_ep_by_crc(&self, crc: &str) -> (r: Option<(String, u32)>)
        requires
            self.wf(),
        ensures
            ({
                let key = text::seq_ascii_upper(crc@);
                match r {
                    Some((a, n)) => self@.by_crc.contains_key(key) && a@
                        == self@.by_crc[key].arc_normalized && n == self@.by_crc[key].episode_number,
                    None => !self@.by_crc.contains_key(key),
                }
            }),
    {
        let c = chars_of(crc);
        let key = text::to_ascii_uppercase(&c);
        match self.find_crc(&key) {
            Some(j) => {
                proof {
                    lemma_crc_keyed_lookup(self.by_crc@, j as int);
                }
                let e = &self.by_crc[j].1;
                Some((e.arc_normalized.clone(), e.episode_number))
            },
            None => {
                proof {
                    lemma_crc_keyed_absent(self.by_crc@, key@);
                }
                None
            },
        }
    }

    /// The synthesized episode `episode_number` of an arc (by normalized
    /// name, tried as written first and through the sheet's spelling
    /// aliases only when the sheet does not list it), if the sheet lists it.
    pub fn episode(&self, arc_normalized: &str, episode_number: u32) -> (r: Option<Episode>)
        ensures
            match r {
                Some(e) => sheet_episode_spec(self@, arc_normalized@, episode_number) == Some(e@),
                None => sheet_episode_spec(self@, arc_normalized@, episode_number) is None,
            },
    {
        let canonical: Vec<char> = if self.has_arc(arc_normalized) {
            chars_of(arc_normalized)
        } else {
            match arc_alias(arc_normalized) {
                Some(a) => chars_of(a),
                None => chars_of(arc_normalized),
            }
        };
        let ghost k = canonical@;
        let ghost ev = ep_views(self.entries@);
        let mut j: usize = 0;
        while j < self.entries.len()
            invariant
                j <= self.entries@.len(),
                ev == ep_views(self.entries@),
                ev == self@.entries,
                k == canonical@,
                k == lookup_arc(self@, arc_normalized@),
                forall|i: int| 0 <= i < j ==> !arc_ep_is(k, episode_number)(#[trigger] ev[i]),
            decreases self.entries@.len() - j,
        {
            let e = &self.entries[j];
            assert(ev[j as int] == e@);
            if e.episode_number == episode_number && text::str_eq_chars(e.arc_normalized.as_str(), &canonical) {
                proof {
                    lemma_filter_first(ev, arc_ep_is(k, episode_number), j as int);
                }
                return Some(synthesize_episode(e));
            }
            j = j + 1;
        }
        proof {
            lemma_filter_none(ev, arc_ep_is(k, episode_number));
        }
        None
    }

    /// Whether the sheet lists any episode of this (normalized) arc.
    pub fn has_arc(&self, arc_normalized: &str) -> (r: bool)
        ensures
            r == (self@.entries.filter(arc_is(arc_normalized@)).len() > 0),
    {
        let k = chars_of(arc_normalized);
        let ghost ev = ep_views(self.entries@);
        let mut j: usize = 0;
        while j < self.entries.len()
            invariant
                j <= self.entries@.len(),
                ev == ep_views(self.entries@),
                k@ == arc_normalized@,
                forall|i: int| 0 <= i < j ==> !arc_is(k@)(#[trigger] ev[i]),
            decreases self.entries@.len() - j,
        {
            if text::str_eq_chars(self.entries[j].arc_normalized.as_str(), &k) {
                proof {
                    lemma_filter_first(ev, arc_is(k@), j as int);
                }
                return true;
            }
            j = j + 1;
        }
        proof {
            lemma_filter_none(ev, arc_is(k@));
        }
        false
    }

    /// The entries of one (normalized) arc, in index order.
    pub fn arc_entries(&self, arc_normalized: &str) -> (r: Vec<SheetEpisode>)
        ensures
            ep_views(r@) == self@.entries.filter(arc_is(arc_normalized@)),
    {
        let k = chars_of(arc_normalized);
        let ghost ev = ep_views(self.entries@);
        let mut out: Vec<SheetEpisode> = Vec::new();
        let mut j: usize = 0;
        while j < self.entries.len()
            invariant
                j <= self.entries@.len(),
                ev == ep_views(self.entries@),
                k@ == arc_normalized@,
                ep_views(out@) == ev.take(j as int).filter(arc_is(k@)),
            decreases self.entries@.len() - j,
        {
            let ghost before = ep_views(out@);
            proof {
                assert(ev.take(j + 1) == ev.take(j as int).push(ev[j as int]));
                ev.take(j as int).lemma_filter_push(ev[j as int], arc_is(k@));
            }
            if text::str_eq_chars(self.entries[j].arc_normalized.as_str(), &k) {
                out.push(self.entries[j].clone_entry());
                assert(ep_views(out@) =~= before.push(ev[j as int]));
            }
            j = j + 1;
        }
        assert(ev.take(j as int) == ev);
        out
    }
}

// ---------- laws ----------

proof fn lemma_crc_fold(m: Map<Seq<char>, SheetEpisodeView>, crcs: Seq<Seq<char>>, e: SheetEpisodeView, k: Seq<char>)
    ensures
        (exists|i: int| 0 <= i < crcs.len() && text::seq_ascii_upper(#[trigger] crcs[i]) == k) ==> crc_fold(m, crcs, e).contains_key(k)
            && crc_fold(m, crcs, e)[k] == e,
        (forall|i: int| 0 <= i < crcs.len() ==> text::seq_ascii_upper(#[trigger] crcs[i]) != k) ==> crc_fold(m, crcs, e).contains_key(k)
            == m.contains_key(k) && crc_fold(m, crcs, e)[k] == m[k],
    decreases crcs.len(),
{
    if crcs.len() > 0 {
        let d = crcs.drop_last();
        lemma_crc_fold(m, d, e, k);
        if exists|i: int| 0 <= i < crcs.len() && text::seq_ascii_upper(#[trigger] crcs[i]) == k {
            let i = choose|i: int| 0 <= i < crcs.len() && text::seq_ascii_upper(#[trigger] crcs[i]) == k;
            if text::seq_ascii_upper(crcs.last()) != k {
                assert(i < crcs.len() - 1);
                assert(d[i] == crcs[i]);
            }
        }
        if forall|i: int| 0 <= i < crcs.len() ==> text::seq_ascii_upper(#[trigger] crcs[i]) != k {
            assert forall|i: int| 0 <= i < d.len() implies text::seq_ascii_upper(#[trigger] d[i]) != k by {
                assert(d[i] == crcs[i]);
            }
            assert(text::seq_ascii_upper(crcs[crcs.len() - 1]) != k);
        }
    }
}

/// CRC lookup after absorbing a row: each of the row's CRCs, in any
/// letter case, now names the row's entry; every other key keeps its
/// entry.
pub proof fn law_crc_lookup_after_absorb(iv: SheetIndexView, row: ParsedRowView, k: Seq<char>)
    ensures
        (exists|i: int| 0 <= i < row.crcs.len() && text::seq_ascii_upper(#[trigger] row.crcs[i]) == k)
            ==> absorb_spec(iv, seq![row]).by_crc.contains_key(k) && absorb_spec(iv, seq![row]).by_crc[k]
            == entry_of(row),
        (forall|i: int| 0 <= i < row.crcs.len() ==> text::seq_ascii_upper(#[trigger] row.crcs[i]) != k)
            ==> absorb_spec(iv, seq![row]).by_crc.contains_key(k) == iv.by_crc.contains_key(k)
            && absorb_spec(iv, seq![row]).by_crc[k] == iv.by_crc[k],
        absorb_spec(iv, seq![row]).entries == iv.entries.push(entry_of(row)),
{
    assert(seq![row].drop_last() =~= Seq::<ParsedRowView>::empty());
    assert(absorb_spec(iv, Seq::<ParsedRowView>::empty()) == iv);
    lemma_crc_fold(iv.by_crc, row.crcs, entry_of(row), k);
}

proof fn lemma_filter_arc_ep(s: Seq<SheetEpisodeView>, k: Seq<char>, n: u32)
    ensures
        s.filter(ep_is(n)).filter(arc_is(k)) == s.filter(arc_ep_is(k, n)),
    decreases s.len(),
{
    if s.len() > 0 {
        let d = s.drop_last();
        lemma_filter_arc_ep(d, k, n);
        assert(d.push(s.last()) == s);
        d.lemma_filter_push(s.last(), ep_is(n));
        d.lemma_filter_push(s.last(), arc_ep_is(k, n));
        d.filter(ep_is(n)).lemma_filter_push(s.last(), arc_is(k));
    } else {
        assert(s.filter(ep_is(n)).len() == 0);
        assert(s.filter(ep_is(n)).filter(arc_is(k)).len() == 0);
        assert(s.filter(arc_ep_is(k, n)).len() == 0);
        assert(s.filter(ep_is(n)).filter(arc_is(k)) =~= s.filter(arc_ep_is(k, n)));
    }
}

/// Indexes whose entries agree number by number list the same arcs.
proof fn lemma_listed_transfer(a: SheetIndexView, b: SheetIndexView, arc: Seq<char>)
    requires
        forall|m: u32| #[trigger] b.entries.filter(ep_is(m)) == a.entries.filter(ep_is(m)),
        a.entries.filter(arc_is(arc)).len() > 0,
    ensures
        b.entries.filter(arc_is(arc)).len() > 0,
{
    let fa = a.entries.filter(arc_is(arc));
    let x = fa[0];
    assert(fa.contains(x));
    a.entries.lemma_filter_contains_rev(arc_is(arc), x);
    let i = choose|i: int| 0 <= i < a.entries.len() && a.entries[i] == x;
    let m = x.episode_number;
    a.entries.lemma_filter_contains(ep_is(m), i);
    assert(b.entries.filter(ep_is(m)).contains(x));
    b.entries.lemma_filter_contains_rev(ep_is(m), x);
    let j = choose|j: int| 0 <= j < b.entries.len() && b.entries[j] == x;
    b.entries.lemma_filter_contains(arc_is(arc), j);
    assert(b.entries.filter(arc_is(arc)).contains(x));
}

/// Ordering the index does not change what an episode lookup answers:
/// two indexes whose entries agree number by number (as `finalize`
/// guarantees of its result) give the same episode for every arc and
/// number.
pub proof fn law_finalize_keeps_episode_lookups(a: SheetIndexView, b: SheetIndexView, arc: Seq<char>, n: u32)
    requires
        forall|m: u32| #[trigger] b.entries.filter(ep_is(m)) == a.entries.filter(ep_is(m)),
    ensures
        sheet_episode_spec(b, arc, n) == sheet_episode_spec(a, arc, n),
{
    if a.entries.filter(arc_is(arc)).len() > 0 {
        lemma_listed_transfer(a, b, arc);
    }
    if b.entries.filter(arc_is(arc)).len() > 0 {
        lemma_listed_transfer(b, a, arc);
    }
    let k = lookup_arc(a, arc);
    assert(lookup_arc(b, arc) == k);
    lemma_filter_arc_ep(a.entries, k, n);
    lemma_filter_arc_ep(b.entries, k, n);
    assert(b.entries.filter(ep_is(n)) == a.entries.filter(ep_is(n)));
}

} // verus!
