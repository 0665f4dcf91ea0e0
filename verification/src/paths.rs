//! Unix path arithmetic on strings, by components the way `std::path`
//! sees them: a root, an optional leading `.`, then the non-empty,
//! non-`.` segments between slashes.

use vstd::prelude::*;

use crate::text::{self, chars_of, string_of, slice_chars, push_all, chars_eq};

verus! {

pub open spec fn root_mark() -> Seq<char> {
    seq!['/']
}

pub open spec fn dot() -> Seq<char> {
    seq!['.']
}

pub open spec fn dot_dot() -> Seq<char> {
    seq!['.', '.']
}

/// `s` split at every `/` (empty pieces kept).
pub open spec fn split_slash(s: Seq<char>) -> Seq<Seq<char>>
    decreases s.len(),
{
    if s.len() == 0 {
        seq![seq![]]
    } else {
        let prev = split_slash(s.drop_last());
        if s.last() == '/' {
            prev.push(seq![])
        } else {
            prev.update(prev.len() - 1, prev.last().push(s.last()))
        }
    }
}

pub open spec fn body_seg(g: Seq<char>) -> bool {
    g.len() > 0 && g != dot()
}

/// A relative path that starts with the component `.`.
pub open spec fn leading_cur_dir(s: Seq<char>) -> bool {
    s.len() > 0 && s[0] == '.' && (s.len() == 1 || s[1] == '/')
}

/// `Path::components`, with the root written `/` and the current
/// directory written `.`.
/// The segments that name a component.
pub open spec fn body_filter(segs: Seq<Seq<char>>) -> Seq<Seq<char>> {
    segs.filter(|g: Seq<char>| body_seg(g))
}

pub open spec fn comps(s: Seq<char>) -> Seq<Seq<char>> {
    let body = body_filter(split_slash(s));
    if s.len() > 0 && s[0] == '/' {
        seq![root_mark()] + body
    } else if leading_cur_dir(s) {
        seq![dot()] + body
    } else {
        body
    }
}

pub open spec fn is_normal(g: Seq<char>) -> bool {
    g != root_mark() && g != dot() && g != dot_dot()
}

/// `Path::file_name`: the last component, when it is a normal one.
pub open spec fn file_name_spec(s: Seq<char>) -> Option<Seq<char>> {
    let c = comps(s);
    if c.len() > 0 && is_normal(c.last()) {
        Some(c.last())
    } else {
        None
    }
}

/// Last `.` of `name`, if any.
pub open spec fn last_dot(name: Seq<char>) -> Option<int>
    decreases name.len(),
{
    if name.len() == 0 {
        None
    } else if name.last() == '.' {
        Some(name.len() - 1)
    } else {
        last_dot(name.drop_last())
    }
}

/// `Path::extension` of a file name: after the last `.`, unless that dot
/// is the first character.
pub open spec fn name_extension(name: Seq<char>) -> Option<Seq<char>> {
    match last_dot(name) {
        Some(i) => if i > 0 {
            Some(name.subrange(i + 1, name.len() as int))
        } else {
            None
        },
        None => None,
    }
}

/// `Path::file_stem` of a file name.
pub open spec fn name_stem(name: Seq<char>) -> Seq<char> {
    match last_dot(name) {
        Some(i) => if i > 0 {
            name.subrange(0, i)
        } else {
            name
        },
        None => name,
    }
}

pub open spec fn extension_spec(s: Seq<char>) -> Option<Seq<char>> {
    match file_name_spec(s) {
        Some(n) => name_extension(n),
        None => None,
    }
}

/// Components joined by `/` (the text of a relative remainder).
pub open spec fn join_comps(c: Seq<Seq<char>>) -> Seq<char>
    decreases c.len(),
{
    if c.len() == 0 {
        seq![]
    } else if c.len() == 1 {
        c[0]
    } else {
        join_comps(c.drop_last()) + seq!['/'] + c.last()
    }
}

pub open spec fn comps_prefix(a: Seq<Seq<char>>, b: Seq<Seq<char>>) -> bool {
    a.len() <= b.len() && b.subrange(0, a.len() as int) == a
}

/// `Path::starts_with`: `base`'s components begin `path`'s.
pub open spec fn starts_with_spec(path: Seq<char>, base: Seq<char>) -> bool {
    comps_prefix(comps(base), comps(path))
}

/// `Path::strip_prefix`, the remainder written with single slashes.
pub open spec fn strip_prefix_spec(path: Seq<char>, base: Seq<char>) -> Option<Seq<char>> {
    let cb = comps(base);
    let cp = comps(path);
    if comps_prefix(cb, cp) {
        Some(join_comps(cp.subrange(cb.len() as int, cp.len() as int)))
    } else {
        None
    }
}

/// `Path::join` (`PathBuf::push`): an absolute `tail` replaces `base`;
/// otherwise a separator is added unless `base` is empty or ends in one.
pub open spec fn join_spec(base: Seq<char>, tail: Seq<char>) -> Seq<char> {
    if tail.len() > 0 && tail[0] == '/' {
        tail
    } else if base.len() == 0 || base.last() == '/' {
        base + tail
    } else {
        base + seq!['/'] + tail
    }
}

/// `PathBuf == PathBuf`: same components.
pub open spec fn same_path_spec(a: Seq<char>, b: Seq<char>) -> bool {
    comps(a) == comps(b)
}

// ---------- exec ----------

proof fn lemma_split_nonempty(s: Seq<char>)
    ensures
        split_slash(s).len() >= 1,
    decreases s.len(),
{
    if s.len() > 0 {
        lemma_split_nonempty(s.drop_last());
    }
}

fn split_slash_exec(s: &Vec<char>) -> (r: Vec<Vec<char>>)
    ensures
        r@.len() >= 1,
        r@.map_values(|v: Vec<char>| v@) == split_slash(s@),
{
    let mut r: Vec<Vec<char>> = Vec::new();
    r.push(Vec::new());
    let mut cur: Vec<char> = Vec::new();
    let mut i: usize = 0;
    assert(r@.map_values(|v: Vec<char>| v@) == seq![Seq::<char>::empty()]);
    while i < s.len()
        invariant
            i <= s@.len(),
            r@.len() >= 1,
            r@.last()@ == cur@,
            r@.map_values(|v: Vec<char>| v@) == split_slash(s@.subrange(0, i as int)),
        decreases s@.len() - i,
    {
        let c = s[i];
        let ghost prev = r@.map_values(|v: Vec<char>| v@);
        proof {
            lemma_split_nonempty(s@.subrange(0, i as int));
            assert(s@.subrange(0, i + 1).drop_last() == s@.subrange(0, i as int));
        }
        if c == '/' {
            r.push(Vec::new());
            cur = Vec::new();
            assert(r@.map_values(|v: Vec<char>| v@) == prev.push(seq![]));
        } else {
            let last = r.len() - 1;
            cur.push(c);
            let mut tmp: Vec<char> = Vec::new();
            push_all(&mut tmp, &cur);
            r.set(last, tmp);
            assert(r@.map_values(|v: Vec<char>| v@) == prev.update(
                prev.len() - 1,
                prev.last().push(c),
            ));
        }
        i = i + 1;
    }
    assert(s@.subrange(0, s@.len() as int) == s@);
    r
}

fn is_dot_exec(g: &Vec<char>) -> (r: bool)
    ensures
        r == (g@ == dot()),
{
    if g.len() == 1 && g[0] == '.' {
        assert(g@ == dot());
        true
    } else {
        assert(g@ != dot()) by {
            if g@ == dot() {
                assert(g@[0] == '.');
            }
        }
        false
    }
}

/// `Path::components` of `s`.
pub fn comps_exec(s: &Vec<char>) -> (r: Vec<Vec<char>>)
    ensures
        r@.map_values(|v: Vec<char>| v@) == comps(s@),
{
    let segs = split_slash_exec(s);
    let ghost segv = segs@.map_values(|v: Vec<char>| v@);
    let mut body: Vec<Vec<char>> = Vec::new();
    let mut i: usize = 0;
    while i < segs.len()
        invariant
            i <= segs@.len(),
            segv == segs@.map_values(|v: Vec<char>| v@),
            body@.map_values(|v: Vec<char>| v@) == body_filter(segv.subrange(0, i as int)),
        decreases segs@.len() - i,
    {
        let ghost before = body@.map_values(|v: Vec<char>| v@);
        proof {
            reveal_with_fuel(Seq::<_>::filter, 1);
            assert(segv.subrange(0, i + 1).drop_last() == segv.subrange(0, i as int));
            assert(segv.subrange(0, i + 1).last() == segs@[i as int]@);
        }
        if segs[i].len() > 0 && !is_dot_exec(&segs[i]) {
            let mut copy: Vec<char> = Vec::new();
            push_all(&mut copy, &segs[i]);
            body.push(copy);
            assert(body@.map_values(|v: Vec<char>| v@) =~= before.push(segs@[i as int]@));
        }
        i = i + 1;
    }
    assert(segv.subrange(0, segs@.len() as int) == segv);
    let ghost bodyv = body@.map_values(|v: Vec<char>| v@);
    let n = s.len();
    if n > 0 && s[0] == '/' {
        let mut r: Vec<Vec<char>> = Vec::new();
        let mut m: Vec<char> = Vec::new();
        m.push('/');
        r.push(m);
        let mut j: usize = 0;
        while j < body.len()
            invariant
                j <= body@.len(),
                bodyv == body@.map_values(|v: Vec<char>| v@),
                r@.map_values(|v: Vec<char>| v@) == seq![root_mark()] + bodyv.subrange(0, j as int),
            decreases body@.len() - j,
        {
            let ghost prev = r@.map_values(|v: Vec<char>| v@);
            let mut copy: Vec<char> = Vec::new();
            push_all(&mut copy, &body[j]);
            r.push(copy);
            assert(r@.map_values(|v: Vec<char>| v@) =~= prev.push(bodyv[j as int]));
            j = j + 1;
            assert(bodyv.subrange(0, j as int) == bodyv.subrange(0, j - 1).push(bodyv[j - 1]));
        }
        assert(bodyv.subrange(0, body@.len() as int) == bodyv);
        r
    } else if n > 0 && s[0] == '.' && (n == 1 || s[1] == '/') {
        let mut r: Vec<Vec<char>> = Vec::new();
        let mut m: Vec<char> = Vec::new();
        m.push('.');
        r.push(m);
        let mut j: usize = 0;
        while j < body.len()
            invariant
                j <= body@.len(),
                bodyv == body@.map_values(|v: Vec<char>| v@),
                r@.map_values(|v: Vec<char>| v@) == seq![dot()] + bodyv.subrange(0, j as int),
            decreases body@.len() - j,
        {
            let ghost prev = r@.map_values(|v: Vec<char>| v@);
            let mut copy: Vec<char> = Vec::new();
            push_all(&mut copy, &body[j]);
            r.push(copy);
            assert(r@.map_values(|v: Vec<char>| v@) =~= prev.push(bodyv[j as int]));
            j = j + 1;
            assert(bodyv.subrange(0, j as int) == bodyv.subrange(0, j - 1).push(bodyv[j - 1]));
        }
        assert(bodyv.subrange(0, body@.len() as int) == bodyv);
        r
    } else {
        body
    }
}

fn is_normal_exec(g: &Vec<char>) -> (r: bool)
    ensures
        r == is_normal(g@),
{
    let root = g.len() == 1 && g[0] == '/';
    let d = g.len() == 1 && g[0] == '.';
    let dd = g.len() == 2 && g[0] == '.' && g[1] == '.';
    proof {
        if g@ == root_mark() {
            assert(g@[0] == '/');
        }
        if g@ == dot() {
            assert(g@[0] == '.');
        }
        if g@ == dot_dot() {
            assert(g@[0] == '.' && g@[1] == '.');
        }
        if root {
            assert(g@ == root_mark());
        }
        if d {
            assert(g@ == dot());
        }
        if dd {
            assert(g@ == dot_dot());
        }
    }
    !root && !d && !dd
}

/// `Path::file_name` of `s`.
pub fn file_name_chars(s: &Vec<char>) -> (r: Option<Vec<char>>)
    ensures
        match r {
            Some(v) => file_name_spec(s@) == Some(v@),
            None => file_name_spec(s@) is None,
        },
{
    let c = comps_exec(s);
    let ghost cv = c@.map_values(|v: Vec<char>| v@);
    if c.len() > 0 && is_normal_exec(&c[c.len() - 1]) {
        let mut out: Vec<char> = Vec::new();
        push_all(&mut out, &c[c.len() - 1]);
        assert(cv.last() == c@.last()@);
        Some(out)
    } else {
        proof {
            if c@.len() > 0 {
                assert(cv.last() == c@.last()@);
            }
        }
        None
    }
}

/// `Path::file_name` of a path string.
pub fn file_name(path: &str) -> (r: Option<String>)
    ensures
        match r {
            Some(v) => file_name_spec(path@) == Some(v@),
            None => file_name_spec(path@) is None,
        },
{
    let s = chars_of(path);
    match file_name_chars(&s) {
        Some(v) => Some(string_of(&v)),
        None => None,
    }
}

fn last_dot_exec(name: &Vec<char>) -> (r: Option<usize>)
    ensures
        match r {
            Some(i) => last_dot(name@) == Some(i as int) && i < name@.len(),
            None => last_dot(name@) is None,
        },
{
    let mut j = name.len();
    assert(name@.subrange(0, name@.len() as int) == name@);
    while j > 0
        invariant
            j <= name@.len(),
            last_dot(name@) == last_dot(name@.subrange(0, j as int)),
        decreases j,
    {
        assert(name@.subrange(0, j as int).drop_last() == name@.subrange(0, j - 1));
        if name[j - 1] == '.' {
            return Some(j - 1);
        }
        j = j - 1;
    }
    None
}

/// `Path::extension` of a file name.
pub fn name_extension_exec(name: &Vec<char>) -> (r: Option<Vec<char>>)
    ensures
        match r {
            Some(v) => name_extension(name@) == Some(v@),
            None => name_extension(name@) is None,
        },
{
    proof {
        assert(name@.subrange(0, name@.len() as int) == name@);
    }
    let n = name.len();
    match last_dot_exec(name) {
        Some(i) => {
            if i > 0 {
                Some(slice_chars(name, i + 1, n))
            } else {
                None
            }
        },
        None => None,
    }
}

/// `Path::file_stem` of a file name.
pub fn name_stem_exec(name: &Vec<char>) -> (r: Vec<char>)
    ensures
        r@ == name_stem(name@),
{
    proof {
        assert(name@.subrange(0, name@.len() as int) == name@);
    }
    match last_dot_exec(name) {
        Some(i) => {
            if i > 0 {
                slice_chars(name, 0, i)
            } else {
                slice_chars(name, 0, name.len())
            }
        },
        None => slice_chars(name, 0, name.len()),
    }
}

fn comps_prefix_exec(a: &Vec<Vec<char>>, b: &Vec<Vec<char>>) -> (r: bool)
    ensures
        r == comps_prefix(a@.map_values(|v: Vec<char>| v@), b@.map_values(|v: Vec<char>| v@)),
{
    let ghost av = a@.map_values(|v: Vec<char>| v@);
    let ghost bv = b@.map_values(|v: Vec<char>| v@);
    if a.len() > b.len() {
        return false;
    }
    let mut i: usize = 0;
    while i < a.len()
        invariant
            a@.len() <= b@.len(),
            i <= a@.len(),
            av == a@.map_values(|v: Vec<char>| v@),
            bv == b@.map_values(|v: Vec<char>| v@),
            forall|j: int| 0 <= j < i ==> av[j] == bv[j],
        decreases a@.len() - i,
    {
        if !chars_eq(&a[i], &b[i]) {
            assert(bv.subrange(0, av.len() as int)[i as int] == bv[i as int]);
            return false;
        }
        i = i + 1;
    }
    assert(bv.subrange(0, av.len() as int) == av);
    true
}

/// `Path::starts_with`.
pub fn starts_with(path: &str, base: &str) -> (r: bool)
    ensures
        r == starts_with_spec(path@, base@),
{
    let p = chars_of(path);
    let b = chars_of(base);
    let cp = comps_exec(&p);
    let cb = comps_exec(&b);
    comps_prefix_exec(&cb, &cp)
}

fn join_comps_exec(c: &Vec<Vec<char>>, lo: usize) -> (r: Vec<char>)
    requires
        lo <= c@.len(),
    ensures
        r@ == join_comps(c@.map_values(|v: Vec<char>| v@).subrange(lo as int, c@.len() as int)),
{
    let ghost cv = c@.map_values(|v: Vec<char>| v@);
    let mut out: Vec<char> = Vec::new();
    let mut i = lo;
    assert(cv.subrange(lo as int, lo as int).len() == 0);
    while i < c.len()
        invariant
            lo <= i <= c@.len(),
            cv == c@.map_values(|v: Vec<char>| v@),
            out@ == join_comps(cv.subrange(lo as int, i as int)),
        decreases c@.len() - i,
    {
        let ghost sub = cv.subrange(lo as int, i + 1);
        assert(sub.drop_last() == cv.subrange(lo as int, i as int));
        assert(sub.last() == c@[i as int]@);
        if i > lo {
            out.push('/');
        } else {
            assert(sub.len() == 1);
        }
        push_all(&mut out, &c[i]);
        i = i + 1;
    }
    out
}

/// `Path::strip_prefix`, the remainder written with single slashes.
pub fn strip_prefix(path: &str, base: &str) -> (r: Option<String>)
    ensures
        match r {
            Some(v) => strip_prefix_spec(path@, base@) == Some(v@),
            None => strip_prefix_spec(path@, base@) is None,
        },
{
    let p = chars_of(path);
    let b = chars_of(base);
    let cp = comps_exec(&p);
    let cb = comps_exec(&b);
    if comps_prefix_exec(&cb, &cp) {
        let rest = join_comps_exec(&cp, cb.len());
        Some(string_of(&rest))
    } else {
        None
    }
}

/// `Path::join`.
pub fn join_chars(base: &Vec<char>, tail: &Vec<char>) -> (r: Vec<char>)
    ensures
        r@ == join_spec(base@, tail@),
{
    if tail.len() > 0 && tail[0] == '/' {
        let mut out: Vec<char> = Vec::new();
        push_all(&mut out, tail);
        return out;
    }
    let mut out: Vec<char> = Vec::new();
    push_all(&mut out, base);
    if !(base.len() == 0 || base[base.len() - 1] == '/') {
        out.push('/');
    }
    push_all(&mut out, tail);
    out
}

/// `Path::join` on strings.
pub fn join(base: &str, tail: &str) -> (r: String)
    ensures
        r@ == join_spec(base@, tail@),
{
    let b = chars_of(base);
    let t = chars_of(tail);
    let j = join_chars(&b, &t);
    string_of(&j)
}

/// Equality of paths as `PathBuf`'s `==` sees it.
pub fn same_path(a: &str, b: &str) -> (r: bool)
    ensures
        r == same_path_spec(a@, b@),
{
    let av = chars_of(a);
    let bv = chars_of(b);
    let ca = comps_exec(&av);
    let cb = comps_exec(&bv);
    if ca.len() != cb.len() {
        return false;
    }
    let r = comps_prefix_exec(&ca, &cb);
    proof {
        let x = ca@.map_values(|v: Vec<char>| v@);
        let y = cb@.map_values(|v: Vec<char>| v@);
        assert(y.subrange(0, x.len() as int) == y);
    }
    r
}

/// A component list written out: `/` for the root, the rest joined by
/// single slashes.
pub open spec fn render(c: Seq<Seq<char>>) -> Seq<char> {
    if c.len() > 0 && c[0] == root_mark() {
        seq!['/'] + join_comps(c.skip(1))
    } else {
        join_comps(c)
    }
}

/// A file name with its extension replaced by `ext` (removed when `ext`
/// is empty).
pub open spec fn renamed_ext(name: Seq<char>, ext: Seq<char>) -> Seq<char> {
    if ext.len() > 0 {
        name_stem(name) + seq!['.'] + ext
    } else {
        name_stem(name)
    }
}

/// `Path::with_extension`: the path with its file name's extension
/// replaced, written from its components; unchanged when it has no file
/// name.
pub open spec fn with_extension_spec(p: Seq<char>, ext: Seq<char>) -> Seq<char> {
    match file_name_spec(p) {
        None => p,
        Some(name) => render(comps(p).drop_last().push(renamed_ext(name, ext))),
    }
}

/// `Path::with_extension` on strings.
pub fn with_extension(path: &str, ext: &str) -> (r: String)
    ensures
        r@ == with_extension_spec(path@, ext@),
{
    let p = chars_of(path);
    let c = comps_exec(&p);
    let ghost cv = c@.map_values(|v: Vec<char>| v@);
    match file_name_chars(&p) {
        None => string_of(&p),
        Some(name) => {
            let mut newname = name_stem_exec(&name);
            let e = chars_of(ext);
            if e.len() > 0 {
                newname.push('.');
                push_all(&mut newname, &e);
            }
            let mut parts: Vec<Vec<char>> = Vec::new();
            let k = c.len() - 1;
            let mut i: usize = 0;
            while i < k
                invariant
                    k + 1 == c@.len(),
                    cv == c@.map_values(|v: Vec<char>| v@),
                    i <= k,
                    parts@.map_values(|v: Vec<char>| v@) == cv.take(i as int),
                decreases k - i,
            {
                let mut copy: Vec<char> = Vec::new();
                push_all(&mut copy, &c[i]);
                let ghost before = parts@.map_values(|v: Vec<char>| v@);
                parts.push(copy);
                assert(parts@.map_values(|v: Vec<char>| v@) =~= before.push(cv[i as int]));
                assert(cv.take(i + 1) == cv.take(i as int).push(cv[i as int]));
                i = i + 1;
            }
            let ghost nn = newname@;
            assert(nn == renamed_ext(name@, ext@));
            parts.push(newname);
            let ghost pv = parts@.map_values(|v: Vec<char>| v@);
            assert(pv =~= cv.drop_last().push(nn));
            let rooted = parts.len() > 0 && parts[0].len() == 1 && parts[0][0] == '/';
            assert(rooted == (pv.len() > 0 && pv[0] == root_mark())) by {
                if pv.len() > 0 && pv[0] == root_mark() {
                    assert(pv[0][0] == '/');
                }
                if rooted {
                    assert(pv[0] =~= root_mark());
                }
            }
            if rooted {
                let mut out: Vec<char> = Vec::new();
                out.push('/');
                let rest = join_comps_exec(&parts, 1);
                push_all(&mut out, &rest);
                assert(pv.subrange(1, pv.len() as int) == pv.skip(1));
                assert(out@ =~= seq!['/'] + join_comps(pv.skip(1)));
                string_of(&out)
            } else {
                let all = join_comps_exec(&parts, 0);
                assert(pv.subrange(0, pv.len() as int) == pv);
                string_of(&all)
            }
        },
    }
}

/// `Path::parent`: the path without its last component, written from
/// its components; `None` for the root alone or the empty path.
pub open spec fn parent_spec(p: Seq<char>) -> Option<Seq<char>> {
    let c = comps(p);
    if c.len() == 0 || (c.len() == 1 && c[0] == root_mark()) {
        None
    } else {
        Some(render(c.drop_last()))
    }
}

pub fn parent(path: &str) -> (r: Option<String>)
    ensures
        crate::matcher::opt_view(r) == parent_spec(path@),
{
    let p = chars_of(path);
    let c = comps_exec(&p);
    let ghost cv = c@.map_values(|v: Vec<char>| v@);
    if c.len() == 0 {
        return None;
    }
    let root0 = c[0].len() == 1 && c[0][0] == '/';
    assert(root0 == (cv[0] == root_mark())) by {
        if cv[0] == root_mark() {
            assert(cv[0][0] == '/');
        }
        if root0 {
            assert(cv[0] =~= root_mark());
        }
    }
    if c.len() == 1 && root0 {
        return None;
    }
    let k = c.len() - 1;
    if root0 {
        let mut out: Vec<char> = Vec::new();
        out.push('/');
        if k > 1 {
            let mut parts: Vec<Vec<char>> = Vec::new();
            let mut i: usize = 1;
            while i < k
                invariant
                    1 <= i <= k,
                    k + 1 == c@.len(),
                    cv == c@.map_values(|v: Vec<char>| v@),
                    parts@.map_values(|v: Vec<char>| v@) == cv.subrange(1, i as int),
                decreases k - i,
            {
                let mut copy: Vec<char> = Vec::new();
                push_all(&mut copy, &c[i]);
                let ghost before = parts@.map_values(|v: Vec<char>| v@);
                parts.push(copy);
                assert(parts@.map_values(|v: Vec<char>| v@) =~= before.push(cv[i as int]));
                assert(cv.subrange(1, i + 1) == cv.subrange(1, i as int).push(cv[i as int]));
                i = i + 1;
            }
            let rest = join_comps_exec(&parts, 0);
            let ghost pv = parts@.map_values(|v: Vec<char>| v@);
            assert(pv.subrange(0, pv.len() as int) == pv);
            assert(cv.drop_last().skip(1) == cv.subrange(1, k as int));
            push_all(&mut out, &rest);
        } else {
            assert(cv.drop_last().skip(1) =~= Seq::<Seq<char>>::empty());
        }
        assert(out@ =~= seq!['/'] + join_comps(cv.drop_last().skip(1)));
        Some(string_of(&out))
    } else {
        let rest = join_comps_exec(&c, 0);
        let mut parts: Vec<Vec<char>> = Vec::new();
        let mut i: usize = 0;
        while i < k
            invariant
                i <= k,
                k + 1 == c@.len(),
                cv == c@.map_values(|v: Vec<char>| v@),
                parts@.map_values(|v: Vec<char>| v@) == cv.take(i as int),
            decreases k - i,
        {
            let mut copy: Vec<char> = Vec::new();
            push_all(&mut copy, &c[i]);
            let ghost before = parts@.map_values(|v: Vec<char>| v@);
            parts.push(copy);
            assert(parts@.map_values(|v: Vec<char>| v@) =~= before.push(cv[i as int]));
            assert(cv.take(i + 1) == cv.take(i as int).push(cv[i as int]));
            i = i + 1;
        }
        let all = join_comps_exec(&parts, 0);
        let ghost pv = parts@.map_values(|v: Vec<char>| v@);
        assert(pv.subrange(0, pv.len() as int) == pv);
        assert(pv == cv.drop_last());
        Some(string_of(&all))
    }
}

/// Splitting at slashes across a slash: the pieces of each side.
pub proof fn lemma_split_concat(a: Seq<char>, b: Seq<char>)
    ensures
        split_slash(a + seq!['/'] + b) == split_slash(a) + split_slash(b),
    decreases b.len(),
{
    if b.len() == 0 {
        assert(a + seq!['/'] + b == a.push('/'));
        assert(a.push('/').drop_last() == a);
        assert(split_slash(a) + split_slash(b) =~= split_slash(a).push(seq![]));
    } else {
        let d = b.drop_last();
        lemma_split_concat(a, d);
        lemma_split_nonempty(d);
        let whole = a + seq!['/'] + b;
        assert(whole.drop_last() == a + seq!['/'] + d);
        assert(whole.last() == b.last());
        let x = split_slash(a);
        let y = split_slash(d);
        if b.last() == '/' {
            assert((x + y).push(seq![]) =~= x + y.push(seq![]));
        } else {
            assert((x + y).update((x + y).len() - 1, (x + y).last().push(b.last())) =~= x + y.update(
                y.len() - 1,
                y.last().push(b.last()),
            ));
        }
    }
}

/// The components of `base` joined with a relative `tail` (one that
/// does not start with `/` or a `.` component): those of `base`, then
/// those of `tail`.
pub proof fn lemma_join_comps(base: Seq<char>, tail: Seq<char>)
    requires
        base.len() > 0,
        base[0] == '/',
        tail.len() == 0 || tail[0] != '/',
        !leading_cur_dir(tail),
    ensures
        comps(join_spec(base, tail)) == comps(base) + comps(tail),
{
    let j = join_spec(base, tail);
    let a = if base.last() == '/' {
        base.drop_last()
    } else {
        base
    };
    assert(j == a + seq!['/'] + tail);
    lemma_split_concat(a, tail);
    Seq::filter_distributes_over_add(split_slash(a), split_slash(tail), |g: Seq<char>| body_seg(g));
    assert(j[0] == '/');
    if base.last() == '/' {
        lemma_split_concat(a, seq![]);
        assert(a + seq!['/'] + seq![] == base);
        Seq::filter_distributes_over_add(split_slash(a), split_slash(seq![]), |g: Seq<char>| body_seg(g));
        reveal_with_fuel(Seq::<_>::filter, 2);
        assert(split_slash(Seq::<char>::empty()) == seq![Seq::<char>::empty()]);
        assert(body_filter(split_slash(Seq::<char>::empty())) =~= Seq::<Seq<char>>::empty());
    }
    assert(seq![root_mark()] + (body_filter(split_slash(a)) + body_filter(split_slash(tail))) =~= (seq![root_mark()]
        + body_filter(split_slash(a))) + body_filter(split_slash(tail)));
    if base.last() != '/' {
        assert(comps(base) == seq![root_mark()] + body_filter(split_slash(a)));
    }
}

proof fn lemma_split_no_slash(n: Seq<char>)
    requires
        forall|i: int| 0 <= i < n.len() ==> n[i] != '/',
    ensures
        split_slash(n) == seq![n],
    decreases n.len(),
{
    if n.len() > 0 {
        let d = n.drop_last();
        assert forall|i: int| 0 <= i < d.len() implies d[i] != '/' by {
            assert(d[i] == n[i]);
        }
        lemma_split_no_slash(d);
        assert(n.last() == n[n.len() - 1]);
        assert(d.push(n.last()) == n);
        assert(seq![d].update(0, d.push(n.last())) =~= seq![n]);
    } else {
        assert(n =~= Seq::<char>::empty());
    }
}

/// Only the last component names a file: joining any directory with a
/// plain name (non-empty, no `/`, neither `.` nor `..`) gives a path whose
/// file name is that name, so `ParsedFile::from_path` of it is
/// `ParsedFile::from_filename` of the name. The root alone has no file
/// name.
pub proof fn law_file_name_of_join(d: Seq<char>, n: Seq<char>)
    requires
        n.len() > 0,
        forall|i: int| 0 <= i < n.len() ==> n[i] != '/',
        n != dot(),
        n != dot_dot(),
    ensures
        file_name_spec(join_spec(d, n)) == Some(n),
        file_name_spec(root_mark()) is None,
{
    let p = |g: Seq<char>| body_seg(g);
    lemma_split_no_slash(n);
    Seq::<Seq<char>>::empty().lemma_filter_push(n, p);
    assert(Seq::<Seq<char>>::empty().push(n) == seq![n]);
    assert(Seq::<Seq<char>>::empty().filter(p) =~= Seq::<Seq<char>>::empty()) by {
        reveal_with_fuel(Seq::<_>::filter, 1);
    }
    assert(body_filter(split_slash(n)) == seq![n]);
    let j = join_spec(d, n);
    assert(n[0] != '/');
    if d.len() == 0 {
        assert(j == n);
        if n[0] == '.' {
            assert(n.len() != 1) by {
                if n.len() == 1 {
                    assert(n == dot());
                }
            }
            assert(n[1] != '/');
        }
        assert(comps(j) == seq![n]);
    } else {
        let a = if d.last() == '/' {
            d.drop_last()
        } else {
            d
        };
        assert(j == a + seq!['/'] + n);
        lemma_split_concat(a, n);
        Seq::filter_distributes_over_add(split_slash(a), split_slash(n), p);
        let body = body_filter(split_slash(j));
        assert(body == body_filter(split_slash(a)) + seq![n]);
        assert(body.last() == n);
        assert(comps(j).last() == n);
        assert(comps(j).len() > 0);
    }
    assert(is_normal(n)) by {
        if n == root_mark() {
            assert(n[0] == '/');
        }
    }
    lemma_root_has_no_file_name();
}

proof fn lemma_root_has_no_file_name()
    ensures
        file_name_spec(root_mark()) is None,
{
    let p = |g: Seq<char>| body_seg(g);
    let e = Seq::<char>::empty();
    assert(root_mark().drop_last() =~= e);
    assert(split_slash(e) == seq![e]);
    assert(split_slash(root_mark()) =~= seq![e].push(e));
    assert(seq![e] == Seq::<Seq<char>>::empty().push(e));
    Seq::<Seq<char>>::empty().lemma_filter_push(e, p);
    seq![e].lemma_filter_push(e, p);
    assert(Seq::<Seq<char>>::empty().filter(p) =~= Seq::<Seq<char>>::empty()) by {
        reveal_with_fuel(Seq::<_>::filter, 1);
    }
    assert(body_filter(split_slash(root_mark())) =~= Seq::<Seq<char>>::empty());
    assert(comps(root_mark()) =~= seq![root_mark()]);
}

} // verus!
