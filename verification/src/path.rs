//! Unix paths as byte strings, with the component structure that `std::path`
//! gives them: a leading `/` is the root, a leading `.` is the current
//! directory, and empty or `.` pieces elsewhere are ignored.
use vstd::prelude::*;
use crate::text::{views, split_on, split_bytes, copy_range, extend_range, bytes_eq};

verus! {

/// The root component.
pub open spec fn root_comp() -> Seq<u8> {
    seq![0x2fu8]
}

/// The current-directory component.
pub open spec fn cur_dir_comp() -> Seq<u8> {
    seq![0x2eu8]
}

/// Whether a piece between separators counts as a component in the body of a path.
pub open spec fn is_body_comp(p: Seq<u8>) -> bool {
    p.len() > 0 && p != cur_dir_comp()
}

/// The pieces of `f` that count as components.
pub open spec fn keep_comps(f: Seq<Seq<u8>>) -> Seq<Seq<u8>>
    decreases f.len(),
{
    if f.len() == 0 {
        seq![]
    } else {
        let rest = keep_comps(f.drop_last());
        if is_body_comp(f.last()) {
            rest.push(f.last())
        } else {
            rest
        }
    }
}

/// The body components of `s`: its pieces between `/` that are neither empty nor `.`.
pub open spec fn body_comps(s: Seq<u8>) -> Seq<Seq<u8>> {
    keep_comps(split_on(s, 0x2fu8))
}

/// Whether `s` starts with a current-directory component (`.` alone or `./`).
pub open spec fn has_cur_dir(s: Seq<u8>) -> bool {
    (s.len() == 1 && s[0] == 0x2eu8) || (s.len() >= 2 && s[0] == 0x2eu8 && s[1] == 0x2fu8)
}

/// Whether `s` is an absolute path.
pub open spec fn has_root(s: Seq<u8>) -> bool {
    s.len() > 0 && s[0] == 0x2fu8
}

/// The components of a path, as `Path::components` lists them. `Path` values
/// are equal exactly when their components are equal.
pub open spec fn components(s: Seq<u8>) -> Seq<Seq<u8>> {
    if has_root(s) {
        seq![root_comp()] + body_comps(s)
    } else if has_cur_dir(s) {
        seq![cur_dir_comp()] + body_comps(s)
    } else {
        body_comps(s)
    }
}

/// Components joined by `/`.
pub open spec fn join_slash(c: Seq<Seq<u8>>) -> Seq<u8>
    decreases c.len(),
{
    if c.len() == 0 {
        seq![]
    } else if c.len() == 1 {
        c[0]
    } else {
        join_slash(c.drop_last()) + seq![0x2fu8] + c.last()
    }
}

/// The plain spelling of a component list: the root as a leading `/`, the other
/// components joined by `/`.
pub open spec fn render(c: Seq<Seq<u8>>) -> Seq<u8> {
    if c.len() > 0 && c[0] == root_comp() {
        seq![0x2fu8] + join_slash(c.drop_first())
    } else {
        join_slash(c)
    }
}

/// What `PathBuf::push` makes of `base` and a relative `path`: `path` appended
/// after a `/` unless `base` is empty or already ends with one. An absolute
/// `path` replaces `base`.
pub open spec fn spec_join(base: Seq<u8>, path: Seq<u8>) -> Seq<u8> {
    if has_root(path) {
        path
    } else if base.len() > 0 && base.last() != 0x2fu8 {
        base + seq![0x2fu8] + path
    } else {
        base + path
    }
}

/// The body components of `s`, computed.
pub fn body_components(s: &[u8]) -> (r: Vec<Vec<u8>>)
    ensures
        views(r@) == body_comps(s@),
{
    let pieces = split_bytes(s, 0x2f);
    let mut out: Vec<Vec<u8>> = Vec::new();
    let mut i: usize = 0;
    while i < pieces.len()
        invariant
            i <= pieces@.len(),
            views(pieces@) == split_on(s@, 0x2fu8),
            views(out@) == keep_comps(views(pieces@).take(i as int)),
        decreases pieces@.len() - i,
    {
        let p = &pieces[i];
        let ghost before = views(out@);
        proof {
            assert(views(pieces@).take(i + 1).drop_last() =~= views(pieces@).take(i as int));
            assert(views(pieces@).take(i + 1).last() == p@);
        }
        if p.len() > 0 && !(p.len() == 1 && p[0] == 0x2e) {
            proof {
                assert(p@ != cur_dir_comp() ==> is_body_comp(p@));
                if p@ == cur_dir_comp() {
                    assert(p@.len() == 1 && p@[0] == 0x2e);
                }
            }
            out.push(copy_range(p.as_slice(), 0, p.len()));
            proof {
                assert(p@.subrange(0, p@.len() as int) =~= p@);
                assert(views(out@) =~= before.push(p@));
            }
        } else {
            proof {
                if p@.len() > 0 {
                    assert(p@ =~= cur_dir_comp());
                }
            }
        }
        i = i + 1;
    }
    proof {
        assert(views(pieces@).take(pieces@.len() as int) =~= views(pieces@));
    }
    out
}

/// The components of `s`, computed.
pub fn path_components(s: &[u8]) -> (r: Vec<Vec<u8>>)
    ensures
        views(r@) == components(s@),
{
    let body = body_components(s);
    let mut out: Vec<Vec<u8>> = Vec::new();
    if s.len() > 0 && s[0] == 0x2f {
        let mut c: Vec<u8> = Vec::new();
        c.push(0x2f);
        out.push(c);
        proof {
            assert(views(out@) =~= seq![c@]);
            assert(c@ =~= root_comp());
        }
    } else if (s.len() == 1 && s[0] == 0x2e) || (s.len() >= 2 && s[0] == 0x2e && s[1] == 0x2f) {
        let mut c: Vec<u8> = Vec::new();
        c.push(0x2e);
        out.push(c);
        proof {
            assert(views(out@) =~= seq![c@]);
            assert(c@ =~= cur_dir_comp());
        }
    }
    let ghost head = views(out@);
    proof {
        if has_root(s@) {
            assert(head =~= seq![root_comp()]);
        } else if has_cur_dir(s@) {
            assert(head =~= seq![cur_dir_comp()]);
        } else {
            assert(head =~= Seq::<Seq<u8>>::empty());
        }
    }
    let mut i: usize = 0;
    while i < body.len()
        invariant
            i <= body@.len(),
            views(out@) == head + views(body@).take(i as int),
        decreases body@.len() - i,
    {
        let ghost before = views(out@);
        let piece = copy_range(body[i].as_slice(), 0, body[i].len());
        proof {
            assert(piece@ =~= body@[i as int]@);
        }
        out.push(piece);
        proof {
            assert(views(out@) =~= before.push(body@[i as int]@));
            assert(views(body@).take(i + 1) =~= views(body@).take(i as int).push(body@[i as int]@));
        }
        i = i + 1;
    }
    proof {
        assert(views(body@).take(body@.len() as int) =~= views(body@));
        assert(views(out@) =~= components(s@));
    }
    out
}

/// The plain spelling of a component list, computed.
pub fn render_components(c: &Vec<Vec<u8>>) -> (r: Vec<u8>)
    ensures
        r@ == render(views(c@)),
{
    let ghost v = views(c@);
    let mut out: Vec<u8> = Vec::new();
    let mut start: usize = 0;
    if c.len() > 0 && c[0].len() == 1 && c[0][0] == 0x2f {
        out.push(0x2f);
        start = 1;
        proof {
            assert(v[0] =~= root_comp());
        }
    }
    let ghost prefix = out@;
    let ghost body = v.subrange(start as int, v.len() as int);
    proof {
        if start == 1 {
            assert(body =~= v.drop_first());
            assert(prefix =~= seq![0x2fu8]);
        } else {
            assert(body =~= v);
            assert(prefix =~= Seq::<u8>::empty());
            if v.len() > 0 && v[0] == root_comp() {
                assert(c@[0]@.len() == 1 && c@[0]@[0] == 0x2f);
            }
            assert(Seq::<u8>::empty() + join_slash(v) =~= join_slash(v));
        }
        assert(render(v) == prefix + join_slash(body));
    }
    let mut i: usize = start;
    while i < c.len()
        invariant
            start <= i <= c@.len(),
            v == views(c@),
            body == v.subrange(start as int, v.len() as int),
            out@ == prefix + join_slash(body.take(i - start)),
        decreases c@.len() - i,
    {
        if i > start {
            out.push(0x2f);
        }
        let ghost mid = out@;
        extend_range(&mut out, c[i].as_slice(), 0, c[i].len());
        proof {
            let t = body.take(i + 1 - start);
            assert(t.drop_last() =~= body.take(i - start));
            assert(t.last() == v[i as int]);
            assert(c@[i as int]@.subrange(0, c@[i as int]@.len() as int) =~= v[i as int]);
            if i > start {
                assert(join_slash(t) == join_slash(body.take(i - start)) + seq![0x2fu8] + v[i as int]);
            } else {
                assert(body.take(0) =~= Seq::<Seq<u8>>::empty());
                assert(join_slash(t) == v[i as int]);
            }
        }
        i = i + 1;
    }
    proof {
        assert(body.take(c@.len() - start) =~= body);
    }
    out
}

/// Components joined by `/`, computed.
pub fn join_slash_components(c: &Vec<Vec<u8>>) -> (r: Vec<u8>)
    ensures
        r@ == join_slash(views(c@)),
{
    let ghost v = views(c@);
    let mut out: Vec<u8> = Vec::new();
    let mut i: usize = 0;
    while i < c.len()
        invariant
            i <= c@.len(),
            v == views(c@),
            out@ == join_slash(v.take(i as int)),
        decreases c@.len() - i,
    {
        if i > 0 {
            out.push(0x2f);
        }
        extend_range(&mut out, c[i].as_slice(), 0, c[i].len());
        proof {
            let t = v.take(i + 1);
            assert(t.drop_last() =~= v.take(i as int));
            assert(t.last() == v[i as int]);
            assert(c@[i as int]@.subrange(0, c@[i as int]@.len() as int) =~= v[i as int]);
            if i == 0 {
                assert(v.take(0) =~= Seq::<Seq<u8>>::empty());
            }
        }
        i = i + 1;
    }
    proof {
        assert(v.take(c@.len() as int) =~= v);
    }
    out
}

/// The canonical spelling of a path: its components rendered.
pub fn canonical(s: &[u8]) -> (r: Vec<u8>)
    ensures
        r@ == render(components(s@)),
{
    let c = path_components(s);
    render_components(&c)
}

/// `PathBuf::join` on byte paths.
pub fn join(base: &[u8], path: &[u8]) -> (r: Vec<u8>)
    ensures
        r@ == spec_join(base@, path@),
{
    if path.len() > 0 && path[0] == 0x2f {
        return copy_range(path, 0, path.len());
    }
    let mut out = copy_range(base, 0, base.len());
    if base.len() > 0 && base[base.len() - 1] != 0x2f {
        out.push(0x2f);
    }
    extend_range(&mut out, path, 0, path.len());
    proof {
        assert(base@.subrange(0, base@.len() as int) =~= base@);
        assert(path@.subrange(0, path@.len() as int) =~= path@);
    }
    out
}

/// Whether two component lists are equal, computed.
pub fn components_eq(a: &Vec<Vec<u8>>, b: &Vec<Vec<u8>>) -> (r: bool)
    ensures
        r == (views(a@) == views(b@)),
{
    if a.len() != b.len() {
        proof {
            assert(views(a@).len() != views(b@).len());
        }
        return false;
    }
    let mut i: usize = 0;
    while i < a.len()
        invariant
            a@.len() == b@.len(),
            i <= a@.len(),
            forall|j: int| 0 <= j < i ==> views(a@)[j] == views(b@)[j],
        decreases a@.len() - i,
    {
        if !bytes_eq(a[i].as_slice(), b[i].as_slice()) {
            proof {
                assert(views(a@)[i as int] != views(b@)[i as int]);
            }
            return false;
        }
        i = i + 1;
    }
    proof {
        assert(views(a@) =~= views(b@));
    }
    true
}

/// `Path` equality: whether two paths have the same components.
pub fn path_eq(a: &[u8], b: &[u8]) -> (r: bool)
    ensures
        r == (components(a@) == components(b@)),
{
    let ca = path_components(a);
    let cb = path_components(b);
    components_eq(&ca, &cb)
}

/// `Path::strip_prefix`: `Some` when the components of `base` begin those of `p`,
/// with the remaining components spelled plainly.
pub open spec fn spec_strip_prefix(p: Seq<u8>, base: Seq<u8>) -> Option<Seq<u8>> {
    let cp = components(p);
    let cb = components(base);
    if cb.len() <= cp.len() && cp.take(cb.len() as int) == cb {
        Some(render(cp.skip(cb.len() as int)))
    } else {
        None
    }
}

/// `Path::strip_prefix` on byte paths.
pub fn strip_prefix(p: &[u8], base: &[u8]) -> (r: Option<Vec<u8>>)
    ensures
        opt_bytes(r) == spec_strip_prefix(p@, base@),
{
    let cp = path_components(p);
    let cb = path_components(base);
    let ghost vp = views(cp@);
    let ghost vb = views(cb@);
    if cb.len() > cp.len() {
        return None;
    }
    let mut i: usize = 0;
    while i < cb.len()
        invariant
            cb@.len() <= cp@.len(),
            vp == views(cp@),
            vb == views(cb@),
            vp == components(p@),
            vb == components(base@),
            i <= cb@.len(),
            forall|j: int| 0 <= j < i ==> vp[j] == vb[j],
        decreases cb@.len() - i,
    {
        if !bytes_eq(cp[i].as_slice(), cb[i].as_slice()) {
            proof {
                assert(vp.take(vb.len() as int)[i as int] != vb[i as int]);
                assert(vp.take(vb.len() as int) != vb);
            }
            return None;
        }
        i = i + 1;
    }
    proof {
        assert(vp.take(vb.len() as int) =~= vb);
    }
    let mut rest: Vec<Vec<u8>> = Vec::new();
    let mut k: usize = cb.len();
    while k < cp.len()
        invariant
            cb@.len() <= k <= cp@.len(),
            vp == views(cp@),
            vb == views(cb@),
            views(rest@) == vp.subrange(cb@.len() as int, k as int),
        decreases cp@.len() - k,
    {
        let piece = copy_range(cp[k].as_slice(), 0, cp[k].len());
        let ghost before = views(rest@);
        proof {
            assert(piece@ =~= vp[k as int]);
        }
        rest.push(piece);
        proof {
            assert(views(rest@) =~= before.push(piece@));
            assert(vp.subrange(cb@.len() as int, k + 1) =~= vp.subrange(cb@.len() as int, k as int).push(vp[k as int]));
        }
        k = k + 1;
    }
    proof {
        assert(vp.subrange(cb@.len() as int, cp@.len() as int) =~= vp.skip(vb.len() as int));
    }
    Some(render_components(&rest))
}

/// The contents of an optional byte vector.
pub open spec fn opt_bytes(o: Option<Vec<u8>>) -> Option<Seq<u8>> {
    match o {
        Some(v) => Some(v@),
        None => None,
    }
}

/// The number of components that `Path::parent` cannot remove: the root, if any.
pub open spec fn fixed_comps(c: Seq<Seq<u8>>) -> int {
    if c.len() > 0 && c[0] == root_comp() {
        1
    } else {
        0
    }
}

/// The components of the `j`-th path that `Path::ancestors` yields (the path itself
/// for `j == 0`, then its parent, and so on, for `j <= c.len() - fixed_comps(c)`).
pub open spec fn ancestor_comps(c: Seq<Seq<u8>>, j: int) -> Seq<Seq<u8>> {
    c.take(c.len() - j)
}

/// The paths from `base` up to the first ancestor equal to `root` (both included),
/// as `Path::ancestors` yields them: `base` itself, then each parent spelled
/// plainly. `None` when no ancestor of `base` equals `root`.
pub fn ancestors_up_to(base: &[u8], root: &[u8]) -> (r: Option<Vec<Vec<u8>>>)
    ensures
        ({
            let c = components(base@);
            let cr = components(root@);
            match r {
                None => forall|j: int|
                    0 <= j <= c.len() - fixed_comps(c) ==> #[trigger] ancestor_comps(c, j) != cr,
                Some(v) => {
                    &&& 1 <= v@.len() <= c.len() - fixed_comps(c) + 1
                    &&& ancestor_comps(c, v@.len() - 1) == cr
                    &&& forall|j: int| 0 <= j < v@.len() - 1 ==> #[trigger] ancestor_comps(c, j) != cr
                    &&& views(v@)[0] == base@
                    &&& forall|j: int| 1 <= j < v@.len() ==> #[trigger] views(v@)[j] == render(ancestor_comps(c, j))
                },
            }
        }),
{
    let mut comps = path_components(base);
    let cr = path_components(root);
    let ghost c = views(comps@);
    let n = comps.len();
    let stop: usize = if n > 0 && comps[0].len() == 1 && comps[0][0] == 0x2f { 1 } else { 0 };
    proof {
        if c.len() > 0 && c[0] == root_comp() {
            assert(comps@[0]@.len() == 1 && comps@[0]@[0] == 0x2f);
        }
        if stop == 1 {
            assert(c[0] =~= root_comp());
        }
        assert(stop == fixed_comps(c));
    }
    let mut out: Vec<Vec<u8>> = Vec::new();
    out.push(copy_range(base, 0, base.len()));
    proof {
        assert(base@.subrange(0, base@.len() as int) =~= base@);
    }
    let mut j: usize = 0;
    loop
        invariant
            c == components(base@),
            views(cr@) == components(root@),
            n == c.len(),
            stop == fixed_comps(c),
            stop <= n,
            j <= n - stop,
            views(comps@) == ancestor_comps(c, j as int),
            out@.len() == j + 1,
            views(out@)[0] == base@,
            forall|t: int| 1 <= t <= j ==> #[trigger] views(out@)[t] == render(ancestor_comps(c, t)),
            forall|t: int| 0 <= t < j ==> #[trigger] ancestor_comps(c, t) != views(cr@),
        decreases n - j,
    {
        if components_eq(&comps, &cr) {
            return Some(out);
        }
        if j == n - stop {
            proof {
                assert forall|t: int| 0 <= t <= c.len() - fixed_comps(c) implies #[trigger] ancestor_comps(c, t)
                    != views(cr@) by {
                    if t == j {
                    }
                }
            }
            return None;
        }
        let ghost before = views(out@);
        let ghost prev = views(comps@);
        comps.pop();
        proof {
            assert(views(comps@) =~= prev.drop_last());
            assert(ancestor_comps(c, j + 1) =~= prev.drop_last());
        }
        let parent = render_components(&comps);
        out.push(parent);
        proof {
            assert(views(out@) =~= before.push(parent@));
        }
        j = j + 1;
    }
}

/// The final component of a path when it is a plain name (`Path::file_name`): the
/// last body component, unless there is none (the path is empty, the root or `.`)
/// or it is `..`.
pub open spec fn spec_file_name(s: Seq<u8>) -> Option<Seq<u8>> {
    let b = body_comps(s);
    if b.len() == 0 || b.last() == seq![0x2eu8, 0x2eu8] {
        None
    } else {
        Some(b.last())
    }
}

/// The final component of `s`, when it is a plain name.
pub fn file_name(s: &[u8]) -> (r: Option<Vec<u8>>)
    ensures
        opt_bytes(r) == spec_file_name(s@),
{
    let mut body = body_components(s);
    let n = body.len();
    if n == 0 {
        return None;
    }
    let ghost b = views(body@);
    let last = body.pop().unwrap();
    assert(last@ == b.last());
    if last.len() == 2 && last[0] == 0x2e && last[1] == 0x2e {
        assert(last@ =~= seq![0x2eu8, 0x2eu8]);
        None
    } else {
        proof {
            if last@ == seq![0x2eu8, 0x2eu8] {
                assert(last@.len() == 2 && last@[0] == 0x2e && last@[1] == 0x2e);
            }
        }
        Some(last)
    }
}

} // verus!
