//! Unix paths, taken lexically: the bytes between the slashes, and nothing
//! that the file system would have to be asked.

use vstd::prelude::*;

verus! {

/// The byte that separates a path's segments.
pub const SLASH: u8 = 47;

/// The byte that the two special segments are made of.
pub const DOT: u8 = 46;

/// A path, where there is one, by its bytes.
pub open spec fn maybe(p: Option<Vec<u8>>) -> Option<Seq<u8>> {
    match p {
        None => None,
        Some(v) => Some(v@),
    }
}

/// The contents of each byte string in a list.
pub open spec fn deep(v: Seq<Vec<u8>>) -> Seq<Seq<u8>> {
    v.map_values(|x: Vec<u8>| x@)
}

/// `deep` commutes with `push`.
pub broadcast proof fn lemma_deep_push(v: Seq<Vec<u8>>, x: Vec<u8>)
    ensures
        #[trigger] deep(v.push(x)) == deep(v).push(x@),
{
    assert(deep(v.push(x)) =~= deep(v).push(x@));
}

/// What stands between the slashes of `s`, empty segments included.
pub open spec fn segments(s: Seq<u8>) -> Seq<Seq<u8>>
    decreases s.len(),
{
    if s.len() == 0 {
        seq![Seq::empty()]
    } else {
        let before = segments(s.drop_last());
        if s.last() == SLASH {
            before.push(Seq::empty())
        } else {
            before.drop_last().push(before.last().push(s.last()))
        }
    }
}

/// The segment that stands for the directory itself.
pub open spec fn dot() -> Seq<u8> {
    seq![DOT]
}

/// The segment that stands for the directory above.
pub open spec fn dot_dot() -> Seq<u8> {
    seq![DOT, DOT]
}

/// The path starts at the root.
pub open spec fn rooted(s: Seq<u8>) -> bool {
    s.len() > 0 && s[0] == SLASH
}

/// The segments that say something: neither empty nor a dot.
pub open spec fn telling(segs: Seq<Seq<u8>>) -> Seq<Seq<u8>>
    decreases segs.len(),
{
    if segs.len() == 0 {
        Seq::empty()
    } else {
        let before = telling(segs.drop_last());
        if segs.last().len() == 0 || segs.last() == dot() {
            before
        } else {
            before.push(segs.last())
        }
    }
}

/// The path's components: the root as a slash, or a leading dot as a dot,
/// then the telling segments. Paths with the same components are the same
/// path.
pub open spec fn components(s: Seq<u8>) -> Seq<Seq<u8>> {
    let head = if rooted(s) {
        seq![seq![SLASH]]
    } else if segments(s)[0] == dot() {
        seq![dot()]
    } else {
        Seq::empty()
    };
    head + telling(segments(s))
}

/// The segments left when every `..` has taken its predecessor away.
pub open spec fn cleaned(segs: Seq<Seq<u8>>) -> Seq<Seq<u8>>
    decreases segs.len(),
{
    if segs.len() == 0 {
        Seq::empty()
    } else {
        let before = cleaned(segs.drop_last());
        if segs.last().len() == 0 || segs.last() == dot() {
            before
        } else if segs.last() == dot_dot() {
            if before.len() > 0 {
                before.drop_last()
            } else {
                before
            }
        } else {
            before.push(segs.last())
        }
    }
}

/// Names with slashes between them.
pub open spec fn slashed(names: Seq<Seq<u8>>) -> Seq<u8>
    decreases names.len(),
{
    if names.len() == 0 {
        Seq::empty()
    } else if names.len() == 1 {
        names[0]
    } else {
        slashed(names.drop_last()).push(SLASH) + names.last()
    }
}

/// The path that leads through `names`, from the root or from nowhere.
pub open spec fn through(from_root: bool, names: Seq<Seq<u8>>) -> Seq<u8> {
    if from_root {
        seq![SLASH] + slashed(names)
    } else {
        slashed(names)
    }
}

/// `p` seen from the directory `base`: `p` itself where it starts at the
/// root, else `base`, a slash unless `base` is empty or ends in one, and `p`.
pub open spec fn joined(base: Seq<u8>, p: Seq<u8>) -> Seq<u8> {
    if rooted(p) {
        p
    } else if base.len() == 0 || base.last() == SLASH {
        base + p
    } else {
        base.push(SLASH) + p
    }
}

/// The last component, where it is a name.
pub open spec fn base_name(s: Seq<u8>) -> Option<Seq<u8>> {
    let parts = telling(segments(s));
    if parts.len() == 0 || parts.last() == dot_dot() {
        None
    } else {
        Some(parts.last())
    }
}

/// Whether two byte strings are equal.
pub fn same_bytes(a: &[u8], b: &[u8]) -> (r: bool)
    ensures
        r == (a@ == b@),
{
    if a.len() != b.len() {
        return false;
    }
    let mut i: usize = 0;
    while i < a.len()
        invariant
            i <= a@.len(),
            a@.len() == b@.len(),
            forall|j: int| 0 <= j < i ==> a@[j] == b@[j],
        decreases a@.len() - i,
    {
        if a[i] != b[i] {
            return false;
        }
        i += 1;
    }
    assert(a@ =~= b@);
    true
}

/// A copy of `s`.
pub fn bytes_of(s: &[u8]) -> (r: Vec<u8>)
    ensures
        r@ == s@,
{
    let mut out: Vec<u8> = Vec::new();
    out.extend_from_slice(s);
    assert(out@ =~= s@);
    out
}

/// Whether the path starts at the root.
pub fn is_absolute(s: &[u8]) -> (r: bool)
    ensures
        r == rooted(s@),
{
    s.len() > 0 && s[0] == SLASH
}

/// Whether the segment is empty or a dot.
fn says_nothing(seg: &[u8]) -> (r: bool)
    ensures
        r == (seg@.len() == 0 || seg@ == dot()),
{
    let r = seg.len() == 0 || (seg.len() == 1 && seg[0] == DOT);
    proof {
        if seg@.len() == 1 && seg@[0] == DOT {
            assert(seg@ =~= dot());
        }
    }
    r
}

/// Whether the segment is `..`.
fn is_dot_dot(seg: &[u8]) -> (r: bool)
    ensures
        r == (seg@ == dot_dot()),
{
    let r = seg.len() == 2 && seg[0] == DOT && seg[1] == DOT;
    proof {
        if seg@.len() == 2 && seg@[0] == DOT && seg@[1] == DOT {
            assert(seg@ =~= dot_dot());
        }
    }
    r
}

/// Splits `s` at its slashes.
pub fn split(s: &[u8]) -> (r: Vec<Vec<u8>>)
    ensures
        deep(r@) == segments(s@),
{
    broadcast use lemma_deep_push;

    let mut done: Vec<Vec<u8>> = Vec::new();
    let mut cur: Vec<u8> = Vec::new();
    let mut i: usize = 0;
    assert(deep(done@).push(cur@) =~= segments(s@.take(0)));
    while i < s.len()
        invariant
            i <= s@.len(),
            deep(done@).push(cur@) == segments(s@.take(i as int)),
        decreases s@.len() - i,
    {
        let ghost before = deep(done@).push(cur@);
        proof {
            assert(s@.take(i + 1).drop_last() =~= s@.take(i as int));
            assert(s@.take(i + 1).last() == s@[i as int]);
            assert(before.drop_last() =~= deep(done@));
        }
        if s[i] == SLASH {
            done.push(cur);
            cur = Vec::new();
            assert(cur@ =~= Seq::empty());
        } else {
            cur.push(s[i]);
        }
        i += 1;
    }
    assert(s@.take(i as int) =~= s@);
    done.push(cur);
    done
}

/// Joins `p` to the directory `base`.
pub fn join(base: &[u8], p: &[u8]) -> (r: Vec<u8>)
    ensures
        r@ == joined(base@, p@),
{
    if is_absolute(p) {
        return bytes_of(p);
    }
    let mut out = bytes_of(base);
    if base.len() > 0 && base[base.len() - 1] != SLASH {
        out.push(SLASH);
    }
    out.extend_from_slice(p);
    assert(out@ =~= joined(base@, p@));
    out
}

/// Takes every `..` and its predecessor out of `segs`.
fn clean_segments(segs: &Vec<Vec<u8>>) -> (r: Vec<Vec<u8>>)
    ensures
        deep(r@) == cleaned(deep(segs@)),
{
    broadcast use lemma_deep_push;

    let mut out: Vec<Vec<u8>> = Vec::new();
    let mut i: usize = 0;
    assert(deep(out@) =~= cleaned(deep(segs@).take(0)));
    while i < segs.len()
        invariant
            i <= segs@.len(),
            deep(out@) == cleaned(deep(segs@).take(i as int)),
        decreases segs@.len() - i,
    {
        let ghost before = out@;
        let seg = &segs[i];
        proof {
            assert(deep(segs@).take(i + 1).drop_last() =~= deep(segs@).take(i as int));
            assert(deep(segs@).take(i + 1).last() == seg@);
        }
        if says_nothing(seg.as_slice()) {
        } else if is_dot_dot(seg.as_slice()) {
            let _ = out.pop();
            proof {
                if before.len() > 0 {
                    assert(deep(out@) =~= deep(before).drop_last());
                }
            }
        } else {
            let name = bytes_of(seg.as_slice());
            out.push(name);
        }
        i += 1;
    }
    assert(deep(segs@).take(i as int) =~= deep(segs@));
    out
}

/// Writes the path that leads through `names`.
fn lead_through(from_root: bool, names: &Vec<Vec<u8>>) -> (r: Vec<u8>)
    ensures
        r@ == through(from_root, deep(names@)),
{
    let mut out: Vec<u8> = Vec::new();
    if from_root {
        out.push(SLASH);
    }
    let ghost head = out@;
    let mut i: usize = 0;
    assert(out@ =~= head + slashed(deep(names@).take(0)));
    while i < names.len()
        invariant
            i <= names@.len(),
            out@ == head + slashed(deep(names@).take(i as int)),
        decreases names@.len() - i,
    {
        let ghost before = out@;
        proof {
            assert(deep(names@).take(i + 1).drop_last() =~= deep(names@).take(i as int));
            assert(deep(names@).take(i + 1).last() == names@[i as int]@);
        }
        if i > 0 {
            out.push(SLASH);
        }
        out.extend_from_slice(names[i].as_slice());
        proof {
            if i == 0 {
                assert(slashed(deep(names@).take(0)) =~= Seq::empty());
                assert(out@ =~= head + names@[0]@);
            } else {
                assert(out@ =~= head + (slashed(deep(names@).take(i as int)).push(SLASH)
                    + names@[i as int]@));
            }
        }
        i += 1;
    }
    assert(deep(names@).take(i as int) =~= deep(names@));
    assert(out@ =~= through(from_root, deep(names@)));
    out
}

/// The path with every `.` and `..` resolved by its text alone.
pub open spec fn clean_path(s: Seq<u8>) -> Seq<u8> {
    through(rooted(s), cleaned(segments(s)))
}

/// Resolves `.` and `..` by text alone; symlinks are left alone.
pub fn clean(s: &[u8]) -> (r: Vec<u8>)
    ensures
        r@ == clean_path(s@),
{
    let segs = split(s);
    let names = clean_segments(&segs);
    lead_through(is_absolute(s), &names)
}

/// The segments of `segs` that say something.
fn telling_segments(segs: &Vec<Vec<u8>>) -> (r: Vec<Vec<u8>>)
    ensures
        deep(r@) == telling(deep(segs@)),
{
    broadcast use lemma_deep_push;

    let mut out: Vec<Vec<u8>> = Vec::new();
    let mut i: usize = 0;
    assert(deep(out@) =~= telling(deep(segs@).take(0)));
    while i < segs.len()
        invariant
            i <= segs@.len(),
            deep(out@) == telling(deep(segs@).take(i as int)),
        decreases segs@.len() - i,
    {
        let seg = &segs[i];
        proof {
            assert(deep(segs@).take(i + 1).drop_last() =~= deep(segs@).take(i as int));
            assert(deep(segs@).take(i + 1).last() == seg@);
        }
        if !says_nothing(seg.as_slice()) {
            let name = bytes_of(seg.as_slice());
            out.push(name);
        }
        i += 1;
    }
    assert(deep(segs@).take(i as int) =~= deep(segs@));
    out
}

/// The last component, where it is a name.
pub fn file_name(s: &[u8]) -> (r: Option<Vec<u8>>)
    ensures
        maybe(r) == base_name(s@),
{
    let segs = split(s);
    let mut parts = telling_segments(&segs);
    let ghost all = parts@;
    match parts.pop() {
        None => None,
        Some(last) => {
            assert(deep(all).last() == last@);
            if is_dot_dot(last.as_slice()) {
                None
            } else {
                Some(last)
            }
        },
    }
}

/// There is always a first segment.
pub proof fn lemma_segments_nonempty(s: Seq<u8>)
    ensures
        segments(s).len() > 0,
    decreases s.len(),
{
    if s.len() > 0 {
        lemma_segments_nonempty(s.drop_last());
    }
}

/// Splits a path into its components.
pub fn components_of(s: &[u8]) -> (r: Vec<Vec<u8>>)
    ensures
        deep(r@) == components(s@),
{
    broadcast use lemma_deep_push;

    proof {
        lemma_segments_nonempty(s@);
    }
    let segs = split(s);
    let mut out: Vec<Vec<u8>> = Vec::new();
    let ghost nothing = deep(out@);
    assert(nothing =~= Seq::empty());
    assert(deep(segs@)[0] == segs@[0]@);
    if is_absolute(s) {
        let mut root: Vec<u8> = Vec::new();
        root.push(SLASH);
        assert(root@ =~= seq![SLASH]);
        out.push(root);
        assert(deep(out@) =~= seq![seq![SLASH]]);
    } else if segs[0].len() == 1 && segs[0][0] == DOT {
        let mut here: Vec<u8> = Vec::new();
        here.push(DOT);
        assert(here@ =~= dot());
        assert(segs@[0]@ =~= dot());
        out.push(here);
        assert(deep(out@) =~= seq![dot()]);
    }
    let ghost head = deep(out@);
    let parts = telling_segments(&segs);
    let mut i: usize = 0;
    assert(deep(out@) =~= head + deep(parts@).take(0));
    while i < parts.len()
        invariant
            i <= parts@.len(),
            deep(out@) == head + deep(parts@).take(i as int),
        decreases parts@.len() - i,
    {
        let name = bytes_of(parts[i].as_slice());
        out.push(name);
        proof {
            assert(deep(parts@).take(i + 1) =~= deep(parts@).take(i as int).push(parts@[i as int]@));
            assert((head + deep(parts@).take(i as int)).push(name@) =~= head + deep(parts@).take(
                i + 1,
            ));
        }
        i += 1;
    }
    assert(deep(parts@).take(i as int) =~= deep(parts@));
    out
}

/// `home` leads to `s` or to a directory above it.
pub open spec fn under(s: Seq<u8>, home: Seq<u8>) -> bool {
    crate::text::starts_with(components(s), components(home))
}

/// Whether the components of `home` are the first of those of `s`.
pub fn starts_with(s: &[u8], home: &[u8]) -> (r: bool)
    ensures
        r == under(s@, home@),
{
    let a = components_of(s);
    let b = components_of(home);
    if b.len() > a.len() {
        return false;
    }
    let mut i: usize = 0;
    while i < b.len()
        invariant
            i <= b@.len() <= a@.len(),
            forall|j: int| 0 <= j < i ==> deep(a@)[j] == deep(b@)[j],
            deep(a@) == components(s@),
            deep(b@) == components(home@),
        decreases b@.len() - i,
    {
        if !same_bytes(a[i].as_slice(), b[i].as_slice()) {
            assert(components(s@).subrange(0, b@.len() as int)[i as int] == a@[i as int]@);
            assert(components(home@)[i as int] == b@[i as int]@);
            return false;
        }
        i += 1;
    }
    assert(components(s@).subrange(0, b@.len() as int) =~= components(home@));
    true
}

/// The two name the same path.
pub open spec fn path_eq(a: Seq<u8>, b: Seq<u8>) -> bool {
    components(a) == components(b)
}

/// Whether two paths have the same components.
pub fn same_path(a: &[u8], b: &[u8]) -> (r: bool)
    ensures
        r == path_eq(a@, b@),
{
    let x = components_of(a);
    let y = components_of(b);
    if x.len() != y.len() {
        assert(deep(x@).len() != deep(y@).len());
        return false;
    }
    let mut i: usize = 0;
    while i < x.len()
        invariant
            i <= x@.len() == y@.len(),
            forall|j: int| 0 <= j < i ==> deep(x@)[j] == deep(y@)[j],
            deep(x@) == components(a@),
            deep(y@) == components(b@),
        decreases x@.len() - i,
    {
        if !same_bytes(x[i].as_slice(), y[i].as_slice()) {
            assert(deep(x@)[i as int] != deep(y@)[i as int]);
            return false;
        }
        i += 1;
    }
    assert(components(a@) =~= components(b@));
    true
}

/// `s` without the slashes and `.` segments it ends with; a lone root stays.
pub open spec fn without_tail(s: Seq<u8>) -> Seq<u8>
    decreases s.len(),
{
    let n = s.len() as int;
    if n >= 2 && s[n - 1] == SLASH {
        without_tail(s.take(n - 1))
    } else if n >= 2 && s[n - 1] == DOT && s[n - 2] == SLASH {
        without_tail(s.take(n - 1))
    } else {
        s
    }
}

/// `s` without the slashes and `.` segments it starts with.
pub open spec fn without_lead(s: Seq<u8>) -> Seq<u8>
    decreases s.len(),
{
    if s.len() > 0 && (s[0] == SLASH || (s[0] == DOT && (s.len() == 1 || s[1] == SLASH))) {
        without_lead(s.skip(1))
    } else {
        s
    }
}

/// The position behind the last slash.
pub open spec fn last_start(s: Seq<u8>) -> int
    decreases s.len(),
{
    if s.len() == 0 {
        0
    } else if s.last() == SLASH {
        s.len() as int
    } else {
        last_start(s.drop_last())
    }
}

/// The path without its last component; nothing for the root and for the
/// empty path, which have none.
pub open spec fn parent_of(s: Seq<u8>) -> Option<Seq<u8>> {
    let t = without_tail(s);
    if t.len() == 0 || t == seq![SLASH] {
        None
    } else {
        Some(without_tail(t.take(last_start(t))))
    }
}

/// How much of `s` is left without the slashes and `.` segments at its end.
fn tail_start(s: &[u8]) -> (r: usize)
    ensures
        r <= s@.len(),
        s@.take(r as int) == without_tail(s@),
{
    let mut n: usize = s.len();
    assert(s@.take(n as int) =~= s@);
    while n >= 2 && (s[n - 1] == SLASH || (s[n - 1] == DOT && s[n - 2] == SLASH))
        invariant
            n <= s@.len(),
            without_tail(s@.take(n as int)) == without_tail(s@),
        ensures
            n <= s@.len(),
            s@.take(n as int) == without_tail(s@),
        decreases n,
    {
        assert(s@.take(n as int).take(n - 1) =~= s@.take(n - 1));
        n -= 1;
    }
    n
}

/// `s` without the slashes and `.` segments at either end.
pub fn trim_segments(s: &[u8]) -> (r: Vec<u8>)
    ensures
        r@ == without_tail(without_lead(s@)),
{
    let n: usize = s.len();
    let mut i: usize = 0;
    assert(s@.skip(0) =~= s@);
    while i < n && (s[i] == SLASH || (s[i] == DOT && (n - i == 1 || s[i + 1] == SLASH)))
        invariant
            i <= n == s@.len(),
            without_lead(s@.skip(i as int)) == without_lead(s@),
        ensures
            i <= n,
            s@.skip(i as int) == without_lead(s@),
        decreases n - i,
    {
        assert(s@.skip(i as int).skip(1) =~= s@.skip(i + 1));
        i += 1;
    }
    let rest = vstd::slice::slice_subrange(s, i, n);
    assert(rest@ =~= s@.skip(i as int));
    let end = tail_start(rest);
    let out = bytes_of(vstd::slice::slice_subrange(rest, 0, end));
    assert(out@ =~= rest@.take(end as int));
    out
}

/// The path without its last component.
pub fn parent(s: &[u8]) -> (r: Option<Vec<u8>>)
    ensures
        maybe(r) == parent_of(s@),
{
    let end = tail_start(s);
    if end == 0 {
        assert(s@.take(0) =~= Seq::empty());
        return None;
    }
    if end == 1 && s[0] == SLASH {
        assert(s@.take(1) =~= seq![SLASH]);
        return None;
    }
    let ghost t = s@.take(end as int);
    proof {
        if t == seq![SLASH] {
            assert(t.len() == 1 && t[0] == SLASH);
        }
    }
    let mut k: usize = end;
    assert(t.take(end as int) =~= t);
    while k > 0 && s[k - 1] != SLASH
        invariant
            k <= end <= s@.len(),
            t == s@.take(end as int),
            last_start(t.take(k as int)) == last_start(t),
        ensures
            k <= end,
            k == last_start(t),
        decreases k,
    {
        assert(t.take(k as int).drop_last() =~= t.take(k - 1));
        assert(t.take(k as int).last() == s@[k - 1]);
        k -= 1;
    }
    let head = vstd::slice::slice_subrange(s, 0, k);
    assert(head@ =~= t.take(k as int));
    let cut = tail_start(head);
    let out = bytes_of(vstd::slice::slice_subrange(head, 0, cut));
    assert(out@ =~= head@.take(cut as int));
    Some(out)
}

/// `name` in each of the directories.
pub open spec fn in_each(dirs: Seq<Seq<u8>>, name: Seq<u8>) -> Seq<Seq<u8>> {
    dirs.map_values(|d: Seq<u8>| joined(d, name))
}

/// `name` in each of the directories, in their order.
pub fn join_each(dirs: &[Vec<u8>], name: &[u8]) -> (r: Vec<Vec<u8>>)
    ensures
        deep(r@) == in_each(deep(dirs@), name@),
{
    broadcast use lemma_deep_push;

    let mut out: Vec<Vec<u8>> = Vec::new();
    let mut i: usize = 0;
    assert(deep(out@) =~= in_each(deep(dirs@), name@).take(0));
    while i < dirs.len()
        invariant
            i <= dirs@.len(),
            deep(out@) == in_each(deep(dirs@), name@).take(i as int),
        decreases dirs@.len() - i,
    {
        out.push(join(dirs[i].as_slice(), name));
        proof {
            let all = in_each(deep(dirs@), name@);
            assert(all.take(i + 1) =~= all.take(i as int).push(all[i as int]));
            assert(all[i as int] == joined(dirs@[i as int]@, name@));
        }
        i += 1;
    }
    assert(in_each(deep(dirs@), name@).take(i as int) =~= in_each(deep(dirs@), name@));
    out
}

/// The first of the candidates for which `ok` holds.
pub open spec fn first_where(candidates: Seq<Seq<u8>>, ok: Seq<bool>) -> Option<Seq<u8>>
    decreases candidates.len(),
{
    if candidates.len() == 0 {
        None
    } else if ok[0] {
        Some(candidates[0])
    } else {
        first_where(candidates.skip(1), ok.skip(1))
    }
}

/// The first of the candidates for which `ok` holds, in their order.
pub fn first_of(candidates: &[Vec<u8>], ok: &[bool]) -> (r: Option<Vec<u8>>)
    requires
        ok@.len() == candidates@.len(),
    ensures
        maybe(r) == first_where(deep(candidates@), ok@),
{
    let mut i: usize = 0;
    assert(deep(candidates@).skip(0) =~= deep(candidates@));
    assert(ok@.skip(0) =~= ok@);
    while i < candidates.len()
        invariant
            i <= candidates@.len() == ok@.len(),
            first_where(deep(candidates@), ok@) == first_where(
                deep(candidates@).skip(i as int),
                ok@.skip(i as int),
            ),
        decreases candidates@.len() - i,
    {
        if ok[i] {
            assert(deep(candidates@).skip(i as int)[0] == candidates@[i as int]@);
            return Some(bytes_of(candidates[i].as_slice()));
        }
        assert(deep(candidates@).skip(i as int).skip(1) =~= deep(candidates@).skip(i + 1));
        assert(ok@.skip(i as int).skip(1) =~= ok@.skip(i + 1));
        i += 1;
    }
    None
}

/// What was found is one of the candidates, it is acceptable, and none before
/// it is; nothing is found only where none is acceptable.
pub proof fn law_first_where(candidates: Seq<Seq<u8>>, ok: Seq<bool>)
    requires
        ok.len() == candidates.len(),
    ensures
        match first_where(candidates, ok) {
            Some(p) => exists|i: int|
                0 <= i < candidates.len() && ok[i] && candidates[i] == p && (forall|j: int|
                    0 <= j < i ==> !ok[j]),
            None => forall|i: int| 0 <= i < ok.len() ==> !ok[i],
        },
    decreases candidates.len(),
{
    if candidates.len() > 0 && !ok[0] {
        law_first_where(candidates.skip(1), ok.skip(1));
        match first_where(candidates, ok) {
            Some(p) => {
                let k = choose|i: int|
                    0 <= i < candidates.skip(1).len() && ok.skip(1)[i] && candidates.skip(1)[i] == p
                        && (forall|j: int| 0 <= j < i ==> !ok.skip(1)[j]);
                assert(ok[k + 1] && candidates[k + 1] == p);
                assert forall|j: int| 0 <= j < k + 1 implies !ok[j] by {
                    if j > 0 {
                        assert(ok.skip(1)[j - 1] == ok[j]);
                    }
                }
            },
            None => {
                assert forall|i: int| 0 <= i < ok.len() implies !ok[i] by {
                    if i > 0 {
                        assert(ok.skip(1)[i - 1] == ok[i]);
                    }
                }
            },
        }
    }
}

/// No slash stands in `s`.
pub open spec fn slash_free(s: Seq<u8>) -> bool {
    forall|i: int| 0 <= i < s.len() ==> s[i] != SLASH
}

/// A segment that names an entry of its directory: not empty, no slash in
/// it, and neither `.` nor `..`.
pub open spec fn plain_name(s: Seq<u8>) -> bool {
    s.len() > 0 && slash_free(s) && s != dot() && s != dot_dot()
}

/// Every segment of the list names an entry of its directory.
pub open spec fn plain_names(names: Seq<Seq<u8>>) -> bool {
    forall|i: int| 0 <= i < names.len() ==> plain_name(#[trigger] names[i])
}

/// No slash is left between the slashes.
pub proof fn lemma_segments_slash_free(s: Seq<u8>)
    ensures
        forall|i: int| 0 <= i < segments(s).len() ==> slash_free(#[trigger] segments(s)[i]),
    decreases s.len(),
{
    lemma_segments_nonempty(s);
    if s.len() > 0 {
        lemma_segments_slash_free(s.drop_last());
        lemma_segments_nonempty(s.drop_last());
    }
}

/// Cleaning slash-free segments leaves names.
pub proof fn lemma_cleaned_plain(segs: Seq<Seq<u8>>)
    requires
        forall|i: int| 0 <= i < segs.len() ==> slash_free(#[trigger] segs[i]),
    ensures
        plain_names(cleaned(segs)),
    decreases segs.len(),
{
    if segs.len() > 0 {
        assert forall|i: int| 0 <= i < segs.drop_last().len() implies slash_free(
            #[trigger] segs.drop_last()[i],
        ) by {
            assert(segs.drop_last()[i] == segs[i]);
        }
        lemma_cleaned_plain(segs.drop_last());
    }
}

/// A slash and a slash-free text add one segment.
proof fn lemma_segments_append(a: Seq<u8>, b: Seq<u8>)
    requires
        slash_free(b),
    ensures
        segments(a.push(SLASH) + b) == segments(a).push(b),
    decreases b.len(),
{
    let s = a.push(SLASH) + b;
    if b.len() == 0 {
        assert(s =~= a.push(SLASH));
        assert(s.drop_last() =~= a);
        assert(b =~= Seq::empty());
    } else {
        assert(s.drop_last() =~= a.push(SLASH) + b.drop_last());
        assert(s.last() == b.last());
        assert forall|i: int| 0 <= i < b.drop_last().len() implies b.drop_last()[i] != SLASH by {
            assert(b.drop_last()[i] == b[i]);
        }
        lemma_segments_append(a, b.drop_last());
        let before = segments(a).push(b.drop_last());
        assert(before.drop_last() =~= segments(a));
        assert(b.drop_last().push(b.last()) =~= b);
    }
}

/// A slash-free text is one segment.
proof fn lemma_segments_single(b: Seq<u8>)
    requires
        slash_free(b),
    ensures
        segments(b) == seq![b],
    decreases b.len(),
{
    if b.len() == 0 {
        assert(b =~= Seq::empty());
    } else {
        assert forall|i: int| 0 <= i < b.drop_last().len() implies b.drop_last()[i] != SLASH by {
            assert(b.drop_last()[i] == b[i]);
        }
        lemma_segments_single(b.drop_last());
        assert(b.drop_last().push(b.last()) =~= b);
        assert(seq![b.drop_last()].drop_last().push(b) =~= seq![b]);
    }
}

/// Splitting undoes joining names with slashes.
proof fn lemma_segments_slashed(names: Seq<Seq<u8>>)
    requires
        names.len() > 0,
        plain_names(names),
    ensures
        segments(slashed(names)) == names,
    decreases names.len(),
{
    assert(plain_name(names[0]));
    assert(plain_name(names.last()));
    if names.len() == 1 {
        lemma_segments_single(names[0]);
        assert(seq![names[0]] =~= names);
    } else {
        let init = names.drop_last();
        assert forall|i: int| 0 <= i < init.len() implies plain_name(#[trigger] init[i]) by {
            assert(init[i] == names[i]);
        }
        lemma_segments_slashed(init);
        lemma_segments_append(slashed(init), names.last());
        assert(init.push(names.last()) =~= names);
    }
}

/// A leading slash puts one empty segment in front.
proof fn lemma_segments_rooted(t: Seq<u8>)
    ensures
        segments(seq![SLASH] + t) == seq![Seq::<u8>::empty()] + segments(t),
    decreases t.len(),
{
    let s = seq![SLASH] + t;
    lemma_segments_nonempty(t);
    if t.len() == 0 {
        assert(s.drop_last() =~= Seq::empty());
        assert(s.last() == SLASH);
        assert(segments(Seq::<u8>::empty()) == seq![Seq::<u8>::empty()]);
        assert(t =~= Seq::empty());
        assert(segments(s) =~= seq![Seq::<u8>::empty()] + segments(t));
    } else {
        assert(s.drop_last() =~= seq![SLASH] + t.drop_last());
        assert(s.last() == t.last());
        lemma_segments_rooted(t.drop_last());
        lemma_segments_nonempty(t.drop_last());
        assert(segments(s) =~= seq![Seq::<u8>::empty()] + segments(t));
    }
}

/// Cleaning changes nothing about names, behind an empty segment or not.
proof fn lemma_cleaned_names(names: Seq<Seq<u8>>)
    requires
        plain_names(names),
    ensures
        cleaned(names) == names,
        cleaned(seq![Seq::<u8>::empty()] + names) == names,
    decreases names.len(),
{
    let led = seq![Seq::<u8>::empty()] + names;
    if names.len() == 0 {
        assert(led.drop_last() =~= Seq::empty());
        assert(cleaned(led.drop_last()) =~= names);
        assert(cleaned(names) =~= names);
    } else {
        let init = names.drop_last();
        assert(plain_name(names.last()));
        assert forall|i: int| 0 <= i < init.len() implies plain_name(#[trigger] init[i]) by {
            assert(init[i] == names[i]);
        }
        lemma_cleaned_names(init);
        assert(led.drop_last() =~= seq![Seq::<u8>::empty()] + init);
        assert(led.last() == names.last());
        assert(init.push(names.last()) =~= names);
    }
}

/// A cleaned path keeps its start, and leads through names only: no empty
/// segment, no `.` and no `..` is left in it.
pub proof fn law_clean_path_plain(s: Seq<u8>)
    ensures
        rooted(clean_path(s)) == rooted(s),
        plain_names(cleaned(segments(s))),
        cleaned(segments(s)).len() > 0 ==> segments(clean_path(s)) == (if rooted(s) {
            seq![Seq::<u8>::empty()] + cleaned(segments(s))
        } else {
            cleaned(segments(s))
        }),
{
    let names = cleaned(segments(s));
    lemma_segments_slash_free(s);
    lemma_cleaned_plain(segments(s));
    if names.len() > 0 {
        lemma_segments_slashed(names);
        lemma_segments_rooted(slashed(names));
        if !rooted(s) {
            lemma_segments_nonempty(slashed(names));
            lemma_slashed_start(names);
        }
    }
}

/// Names with slashes between them start with the first name.
proof fn lemma_slashed_start(names: Seq<Seq<u8>>)
    requires
        names.len() > 0,
        names[0].len() > 0,
    ensures
        slashed(names).len() > 0,
        slashed(names)[0] == names[0][0],
        plain_name(names[0]) ==> !rooted(slashed(names)),
    decreases names.len(),
{
    if names.len() > 1 {
        lemma_slashed_start(names.drop_last());
    }
}

/// Cleaning a clean path changes nothing.
pub proof fn law_clean_path_idempotent(s: Seq<u8>)
    ensures
        clean_path(clean_path(s)) == clean_path(s),
{
    let names = cleaned(segments(s));
    law_clean_path_plain(s);
    lemma_cleaned_names(names);
    if names.len() == 0 {
        if rooted(s) {
            lemma_segments_rooted(Seq::empty());
            assert(clean_path(s) =~= seq![SLASH] + Seq::<u8>::empty());
            assert(segments(Seq::<u8>::empty()) =~= seq![Seq::<u8>::empty()]);
            lemma_cleaned_names(Seq::empty());
            let two = seq![Seq::<u8>::empty()] + seq![Seq::<u8>::empty()];
            assert(two.drop_last() =~= seq![Seq::<u8>::empty()] + Seq::<Seq<u8>>::empty());
            assert(cleaned(segments(clean_path(s))) =~= names);
        } else {
            assert(clean_path(s) =~= Seq::empty());
            assert(segments(Seq::<u8>::empty()) =~= seq![Seq::<u8>::empty()] + Seq::<
                Seq<u8>,
            >::empty());
            lemma_cleaned_names(Seq::empty());
            assert(cleaned(segments(clean_path(s))) =~= names);
        }
    }
}

/// The telling segments of slash-free segments are names or `..`.
proof fn lemma_telling_plain(segs: Seq<Seq<u8>>)
    requires
        forall|i: int| 0 <= i < segs.len() ==> slash_free(#[trigger] segs[i]),
    ensures
        forall|i: int|
            0 <= i < telling(segs).len() ==> (#[trigger] telling(segs)[i] == dot_dot() || plain_name(
                telling(segs)[i],
            )),
    decreases segs.len(),
{
    if segs.len() > 0 {
        assert forall|i: int| 0 <= i < segs.drop_last().len() implies slash_free(
            #[trigger] segs.drop_last()[i],
        ) by {
            assert(segs.drop_last()[i] == segs[i]);
        }
        lemma_telling_plain(segs.drop_last());
        assert(slash_free(segs[segs.len() - 1]));
        let before = telling(segs.drop_last());
        assert forall|i: int| 0 <= i < telling(segs).len() implies (#[trigger] telling(segs)[i]
            == dot_dot() || plain_name(telling(segs)[i])) by {
            if i < before.len() {
                assert(telling(segs)[i] == before[i]);
            }
        }
    }
}

/// A path's base name never leads anywhere but to an entry of one directory:
/// it holds no slash and is neither `.` nor `..`.
pub proof fn law_base_name_plain(s: Seq<u8>)
    ensures
        base_name(s) matches Some(name) ==> plain_name(name),
{
    lemma_segments_slash_free(s);
    lemma_telling_plain(segments(s));
}

/// The name at the end of a path is its last component, whatever directory
/// it stands in and whether or not a slash follows it.
pub proof fn law_base_name(dir: Seq<u8>, name: Seq<u8>)
    requires
        plain_name(name),
    ensures
        base_name(name) == Some(name),
        base_name(dir.push(SLASH) + name) == Some(name),
        base_name((dir.push(SLASH) + name).push(SLASH)) == Some(name),
{
    lemma_segments_single(name);
    assert(seq![name].drop_last() =~= Seq::empty());
    lemma_segments_append(dir, name);
    let s = dir.push(SLASH) + name;
    let segs = segments(s);
    assert(segs.drop_last() =~= segments(dir));
    let t = s.push(SLASH);
    assert(t.drop_last() =~= s);
    assert(segments(t) =~= segs.push(Seq::empty()));
    assert(segs.push(Seq::empty()).drop_last() =~= segs);
    assert(telling(segments(t)) == telling(segs));
}

/// The root, and a path that ends in `..`, have no name.
pub proof fn law_no_base_name(s: Seq<u8>)
    ensures
        base_name(seq![SLASH]) is None,
        base_name(Seq::empty()) is None,
        base_name(s.push(SLASH) + seq![DOT, DOT]) is None,
{
    let up = seq![DOT, DOT];
    lemma_segments_append(s, up);
    assert(segments(s.push(SLASH) + up).drop_last() =~= segments(s));
    let none = Seq::<u8>::empty();
    let empty = Seq::<Seq<u8>>::empty();
    assert(segments(none) =~= empty.push(none));
    assert(empty.push(none).drop_last() =~= empty);
    assert(telling(empty) =~= empty);
    assert(telling(segments(none)) =~= empty);
    let root = seq![SLASH];
    assert(root.drop_last() =~= none);
    assert(segments(root) =~= segments(none).push(none));
    assert(segments(none).push(none).drop_last() =~= segments(none));
    assert(telling(segments(root)) == telling(segments(none)));
}

/// A path that starts at the root is the same from everywhere; any other
/// leads through the directory it is seen from, by the name it has there.
pub proof fn law_joined(base: Seq<u8>, name: Seq<u8>)
    ensures
        rooted(name) ==> joined(base, name) == name,
        !rooted(name) ==> crate::text::starts_with(joined(base, name), base),
        plain_name(name) ==> base_name(joined(base, name)) == Some(name),
        rooted(base) ==> rooted(joined(base, name)),
        !rooted(name) && base.len() > 0 && base.last() != SLASH ==> joined(base, name) == base
            + seq![SLASH] + name,
{
    if !rooted(name) {
        if base.len() == 0 || base.last() == SLASH {
            crate::text::lemma_prefixed(base, name);
        } else {
            crate::text::lemma_prefixed(base, seq![SLASH] + name);
            assert(base.push(SLASH) + name =~= base + (seq![SLASH] + name));
            assert(base.push(SLASH) + name =~= base + seq![SLASH] + name);
        }
    }
    if plain_name(name) {
        assert(!rooted(name));
        if base.len() == 0 {
            assert(base + name =~= name);
            law_base_name(base, name);
        } else if base.last() == SLASH {
            law_base_name(base.drop_last(), name);
            assert(base.drop_last().push(SLASH) =~= base);
        } else {
            law_base_name(base, name);
        }
    }
}

proof fn lemma_clean_behind(s: Seq<u8>, seg: Seq<u8>)
    requires
        s.len() > 0,
        slash_free(seg),
    ensures
        rooted(s.push(SLASH) + seg) == rooted(s),
        segments(s.push(SLASH) + seg) == segments(s).push(seg),
        segments(s).push(seg).drop_last() == segments(s),
{
    lemma_segments_append(s, seg);
    assert((s.push(SLASH) + seg)[0] == s[0]);
    assert(segments(s).push(seg).drop_last() =~= segments(s));
}

/// `.` and an empty segment lead nowhere, `..` leads back out of the
/// directory that was last entered, and at the top it leads nowhere.
pub proof fn law_dots(s: Seq<u8>, name: Seq<u8>)
    requires
        s.len() > 0,
        plain_name(name),
    ensures
        clean_path(s.push(SLASH)) == clean_path(s),
        clean_path(s.push(SLASH) + seq![DOT]) == clean_path(s),
        clean_path((s.push(SLASH) + name).push(SLASH) + seq![DOT, DOT]) == clean_path(s),
        clean_path(seq![SLASH, DOT, DOT]) == seq![SLASH],
{
    lemma_clean_behind(s, Seq::empty());
    assert(s.push(SLASH) + Seq::<u8>::empty() =~= s.push(SLASH));
    lemma_clean_behind(s, seq![DOT]);
    lemma_clean_behind(s, name);
    let inner = s.push(SLASH) + name;
    lemma_clean_behind(inner, seq![DOT, DOT]);
    let before = cleaned(segments(s));
    assert(cleaned(segments(inner)) == before.push(name));
    assert(before.push(name).drop_last() =~= before);
    let top = seq![SLASH, DOT, DOT];
    let none = Seq::<u8>::empty();
    let empty = Seq::<Seq<u8>>::empty();
    lemma_segments_append(none, seq![DOT, DOT]);
    assert(top =~= none.push(SLASH) + seq![DOT, DOT]);
    assert(segments(none) =~= empty.push(none));
    assert(empty.push(none).drop_last() =~= empty);
    assert(cleaned(empty) =~= empty);
    assert(cleaned(segments(none)) =~= empty);
    assert(segments(top).drop_last() =~= segments(none));
    assert(cleaned(segments(top)) =~= empty);
    assert(clean_path(top) =~= seq![SLASH]);
}

/// A name behind a path stands behind it when it is cleaned.
pub proof fn law_clean_keeps_names(s: Seq<u8>, name: Seq<u8>)
    requires
        s.len() > 0,
        plain_name(name),
        cleaned(segments(s)).len() > 0,
    ensures
        clean_path(s.push(SLASH) + name) == clean_path(s).push(SLASH) + name,
{
    lemma_clean_behind(s, name);
    let before = cleaned(segments(s));
    assert(before.push(name).drop_last() =~= before);
    if rooted(s) {
        assert(seq![SLASH] + (slashed(before).push(SLASH) + name) =~= (seq![SLASH] + slashed(
            before,
        )).push(SLASH) + name);
    }
}

/// The directory of an entry is the path without the entry's name.
pub proof fn law_parent(dir: Seq<u8>, name: Seq<u8>)
    requires
        plain_name(name),
        dir.len() > 0,
        dir.last() != SLASH,
        dir.last() != DOT,
    ensures
        parent_of(dir.push(SLASH) + name) == Some(dir),
        parent_of(seq![SLASH] + name) == Some(seq![SLASH]),
        parent_of(name) == Some(Seq::<u8>::empty()),
        parent_of(seq![SLASH]) is None,
{
    lemma_parent_front(dir.push(SLASH), name);
    let t = dir.push(SLASH);
    assert(t.take(t.len() - 1) =~= dir);
    assert(without_tail(t) == without_tail(dir));
    lemma_parent_front(seq![SLASH], name);
    let none = Seq::<u8>::empty();
    lemma_parent_front(none, name);
    assert(none + name =~= name);
}

/// A name at the end of a path keeps its tail, and the rest is what stands
/// in front of it.
proof fn lemma_parent_front(front: Seq<u8>, name: Seq<u8>)
    requires
        plain_name(name),
        front.len() == 0 || front.last() == SLASH,
    ensures
        parent_of(front + name) == Some(without_tail(front)),
{
    let s = front + name;
    let n = s.len() as int;
    assert(s[n - 1] == name.last());
    if n >= 2 && s[n - 1] == DOT && s[n - 2] == SLASH {
        if name.len() == 1 {
            assert(name =~= dot());
        } else {
            assert(s[n - 2] == name[name.len() - 2]);
        }
    }
    assert(without_tail(s) == s);
    lemma_last_start(front, name);
    assert(s.take(front.len() as int) =~= front);
    assert(s != seq![SLASH]) by {
        if s =~= seq![SLASH] {
            assert(s[n - 1] == SLASH);
        }
    }
}

proof fn lemma_last_start(front: Seq<u8>, name: Seq<u8>)
    requires
        slash_free(name),
        front.len() == 0 || front.last() == SLASH,
    ensures
        last_start(front + name) == front.len(),
    decreases name.len(),
{
    let s = front + name;
    if name.len() == 0 {
        assert(s =~= front);
    } else {
        assert(s.last() == name.last());
        assert(s.drop_last() =~= front + name.drop_last());
        lemma_last_start(front, name.drop_last());
    }
}

/// Paths are the same where the same names lead to them from the same place,
/// and a path lies under a directory whose names it begins with.
pub proof fn law_same_path(a: Seq<Seq<u8>>, b: Seq<Seq<u8>>)
    requires
        plain_names(a),
        plain_names(b),
    ensures
        path_eq(through(true, a), through(true, b)) <==> a == b,
        under(through(true, a + b), through(true, a)),
        under(through(true, b), through(true, a)) ==> a.len() <= b.len() && b.take(a.len() as int) == a,
        path_eq(through(true, a), through(true, a).push(SLASH)),
{
    lemma_components_through(a);
    lemma_components_through(b);
    assert(plain_names(a + b)) by {
        assert forall|i: int| 0 <= i < (a + b).len() implies plain_name(#[trigger] (a + b)[i]) by {
            if i < a.len() {
                assert(plain_name(a[i]));
            } else {
                assert(plain_name(b[i - a.len()]));
            }
        }
    }
    lemma_components_through(a + b);
    let root = seq![seq![SLASH]];
    assert((root + a).skip(1) =~= a);
    assert((root + b).skip(1) =~= b);
    assert(root + (a + b) =~= (root + a) + b);
    crate::text::lemma_prefixed(root + a, b);
    if under(through(true, b), through(true, a)) {
        crate::text::lemma_prefix_apart(root + b, root + a);
        assert forall|i: int| 0 <= i < a.len() implies b[i] == a[i] by {
            assert((root + b)[i + 1] == (root + a)[i + 1]);
        }
        assert(b.take(a.len() as int) =~= a);
    }
    let s = through(true, a);
    let t = s.push(SLASH);
    assert(t.drop_last() =~= s);
    assert(segments(t) =~= segments(s).push(Seq::empty()));
    assert(segments(s).push(Seq::empty()).drop_last() =~= segments(s));
}

proof fn lemma_components_through(names: Seq<Seq<u8>>)
    requires
        plain_names(names),
    ensures
        components(through(true, names)) == seq![seq![SLASH]] + names,
{
    let s = through(true, names);
    lemma_segments_rooted(slashed(names));
    let led = seq![Seq::<u8>::empty()];
    if names.len() > 0 {
        lemma_segments_slashed(names);
        lemma_telling_names(names);
    } else {
        let none = Seq::<u8>::empty();
        let empty = Seq::<Seq<u8>>::empty();
        assert(segments(none) =~= empty.push(none));
        assert((led + segments(none)).drop_last() =~= empty.push(none));
        assert(empty.push(none).drop_last() =~= empty);
        assert(telling(empty) =~= empty);
        assert(telling(empty.push(none)) =~= empty);
        assert(telling(segments(s)) =~= names);
    }
}

proof fn lemma_telling_names(names: Seq<Seq<u8>>)
    requires
        plain_names(names),
    ensures
        telling(seq![Seq::<u8>::empty()] + names) == names,
    decreases names.len(),
{
    let led = seq![Seq::<u8>::empty()] + names;
    if names.len() == 0 {
        let empty = Seq::<Seq<u8>>::empty();
        assert(led.drop_last() =~= empty);
        assert(telling(empty) =~= empty);
        assert(telling(led) =~= names);
    } else {
        let init = names.drop_last();
        assert(led.drop_last() =~= seq![Seq::<u8>::empty()] + init);
        assert forall|i: int| 0 <= i < init.len() implies plain_name(#[trigger] init[i]) by {
            assert(init[i] == names[i]);
        }
        lemma_telling_names(init);
        assert(plain_name(names.last()));
        assert(led.last() == names.last());
        assert(telling(led) =~= names);
    }
}

/// The root is the root, with a `.` behind it or without.
pub proof fn lemma_root_dot()
    ensures
        clean_path(seq![SLASH, DOT]) == clean_path(seq![SLASH]),
{
    let none = Seq::<u8>::empty();
    let root = seq![SLASH];
    lemma_segments_append(none, seq![DOT]);
    lemma_segments_append(none, none);
    assert(seq![SLASH, DOT] =~= none.push(SLASH) + seq![DOT]);
    assert(root =~= none.push(SLASH) + none);
    assert(segments(none).push(seq![DOT]).drop_last() =~= segments(none));
    assert(segments(none).push(none).drop_last() =~= segments(none));
}

/// A candidate stands in each directory, in their order, under the name that
/// is looked for.
pub proof fn law_in_each(dirs: Seq<Seq<u8>>, name: Seq<u8>, i: int)
    requires
        0 <= i < dirs.len(),
        plain_name(name),
    ensures
        in_each(dirs, name).len() == dirs.len(),
        base_name(in_each(dirs, name)[i]) == Some(name),
        crate::text::starts_with(in_each(dirs, name)[i], dirs[i]),
        dirs[i].len() > 0 && dirs[i].last() != SLASH ==> in_each(dirs, name)[i] == dirs[i] + seq![
            SLASH,
        ] + name,
{
    law_joined(dirs[i], name);
    assert(!rooted(name));
}

/// A name is its own clean path, at the root as in any other place.
pub proof fn law_clean_name(name: Seq<u8>)
    requires
        plain_name(name),
    ensures
        clean_path(name) == name,
        clean_path(seq![SLASH] + name) == seq![SLASH] + name,
{
    let one = seq![name];
    lemma_segments_single(name);
    lemma_segments_rooted(name);
    lemma_cleaned_names(one);
    assert(!rooted(name));
}

}
