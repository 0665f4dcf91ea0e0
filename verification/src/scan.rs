//! Which library files are videos.

use vstd::prelude::*;

use crate::paths::{self, file_name_chars, name_extension_exec};
use crate::text::{self, to_ascii_lowercase, str_eq_chars, chars_of};
use crate::download::string_views;
use crate::generate::{comps_le, comps_le_exec, lemma_comps_total, video_pred};
use crate::paths::comps_exec;

verus! {

/// Video container extensions, lowercase: `mkv`, `mp4`, `m4v`, `avi`.
pub open spec fn video_ext(e: Seq<char>) -> bool {
    e == "mkv"@ || e == "mp4"@ || e == "m4v"@ || e == "avi"@
}

/// A video file: its extension, ASCII-lowercased, is a video container's.
pub open spec fn is_video_spec(path: Seq<char>) -> bool {
    match paths::extension_spec(path) {
        Some(e) => video_ext(text::seq_ascii_lower(e)),
        None => false,
    }
}

/// Whether `path` names a video file, by extension (case-insensitive).
pub fn is_video(path: &str) -> (r: bool)
    ensures
        r == is_video_spec(path@),
{
    let s = text::chars_of(path);
    match file_name_chars(&s) {
        None => false,
        Some(name) => match name_extension_exec(&name) {
            None => false,
            Some(e) => {
                let lower = to_ascii_lowercase(&e);
                str_eq_chars("mkv", &lower) || str_eq_chars("mp4", &lower) || str_eq_chars(
                    "m4v",
                    &lower,
                ) || str_eq_chars("avi", &lower)
            },
        },
    }
}

/// Neighbours are in path order (component by component).
pub open spec fn paths_sorted(s: Seq<Seq<char>>) -> bool {
    forall|i: int| 0 <= i < s.len() - 1 ==> #[trigger] comps_le(paths::comps(s[i]), paths::comps(s[i + 1]))
}

/// The video files among `files`, ordered as paths compare.
pub fn video_files(files: &Vec<String>) -> (r: Vec<String>)
    ensures
        string_views(r@).to_multiset() == string_views(files@).filter(video_pred()).to_multiset(),
        paths_sorted(string_views(r@)),
{
    let ghost fv = string_views(files@);
    let mut found: Vec<String> = Vec::new();
    let mut i: usize = 0;
    while i < files.len()
        invariant
            i <= files@.len(),
            fv == string_views(files@),
            string_views(found@) == fv.take(i as int).filter(video_pred()),
        decreases files@.len() - i,
    {
        proof {
            assert(fv.take(i + 1) == fv.take(i as int).push(fv[i as int]));
            fv.take(i as int).lemma_filter_push(fv[i as int], video_pred());
        }
        if is_video(files[i].as_str()) {
            let ghost before = string_views(found@);
            found.push(files[i].clone());
            assert(string_views(found@) =~= before.push(fv[i as int]));
        }
        i = i + 1;
    }
    assert(fv.take(i as int) == fv);
    let ghost mv = string_views(found@);
    let mut out: Vec<String> = Vec::new();
    let mut outc: Vec<Vec<Vec<char>>> = Vec::new();
    assert(string_views(out@) =~= mv.take(0));
    let mut k: usize = 0;
    while k < found.len()
        invariant
            k <= found@.len(),
            mv == string_views(found@),
            string_views(out@).len() == k,
            outc@.len() == out@.len(),
            forall|t: int| 0 <= t < outc@.len() ==> (#[trigger] outc@[t])@.map_values(|v: Vec<char>| v@)
                == paths::comps(out@[t]@),
            string_views(out@).to_multiset() == mv.take(k as int).to_multiset(),
            paths_sorted(string_views(out@)),
        decreases found@.len() - k,
    {
        let x = found[k].clone();
        let xc = comps_exec(&chars_of(x.as_str()));
        let mut p: usize = 0;
        while p < out.len() && comps_le_exec(&outc[p], &xc)
            invariant
                p <= out@.len(),
                outc@.len() == out@.len(),
                forall|t: int| 0 <= t < outc@.len() ==> (#[trigger] outc@[t])@.map_values(|v: Vec<char>| v@)
                    == paths::comps(out@[t]@),
                xc@.map_values(|v: Vec<char>| v@) == paths::comps(x@),
                p > 0 ==> comps_le(paths::comps(out@[p - 1]@), paths::comps(x@)),
            decreases out@.len() - p,
        {
            p = p + 1;
        }
        let ghost ov = string_views(out@);
        let ghost xv = x@;
        proof {
            assert(xv == mv[k as int]);
            if p < out@.len() {
                assert(!comps_le(paths::comps(ov[p as int]), paths::comps(xv)));
                lemma_comps_total(paths::comps(ov[p as int]), paths::comps(xv));
            }
        }
        let ghost oc = outc@;
        out.insert(p, x);
        outc.insert(p, xc);
        proof {
            let nv = string_views(out@);
            assert(nv =~= ov.insert(p as int, xv));
            assert forall|t: int| 0 <= t < outc@.len() implies (#[trigger] outc@[t])@.map_values(|v: Vec<char>| v@)
                == paths::comps(out@[t]@) by {
                if t < p {
                    assert(outc@[t] == oc[t]);
                } else if t > p {
                    assert(outc@[t] == oc[t - 1]);
                }
            }
            assert forall|a: int| 0 <= a < nv.len() - 1 implies #[trigger] comps_le(paths::comps(nv[a]), paths::comps(nv[a + 1])) by {
                if a < p - 1 {
                    assert(nv[a] == ov[a] && nv[a + 1] == ov[a + 1]);
                } else if a == p - 1 {
                    assert(nv[a] == ov[a]);
                } else if a == p {
                    assert(nv[a + 1] == ov[a]);
                } else {
                    assert(nv[a] == ov[a - 1] && nv[a + 1] == ov[a]);
                    assert(comps_le(paths::comps(ov[a - 1]), paths::comps(ov[(a - 1) + 1])));
                }
            }
            vstd::seq_lib::to_multiset_insert(ov, p as int, xv);
            assert(mv.take(k + 1) == mv.take(k as int).push(mv[k as int]));
            vstd::seq_lib::to_multiset_build(mv.take(k as int), mv[k as int]);
        }
        k = k + 1;
    }
    assert(mv.take(k as int) == mv);
    out
}

} // verus!
