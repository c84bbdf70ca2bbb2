//! Unix path text as bytes: components, equality, parents.
//!
//! A path is compared by its components. Repeated separators, a trailing
//! separator and `.` components after the first position carry no meaning.
use vstd::prelude::*;

verus! {

/// The separator byte `/`.
pub const SLASH: u8 = 47;

/// The byte `.`.
pub const DOT: u8 = 46;

/// The component that stands for the root directory.
pub open spec fn root() -> Seq<u8> {
    seq![SLASH]
}

/// The component `.`.
pub open spec fn current() -> Seq<u8> {
    seq![DOT]
}

/// The component `..`.
pub open spec fn up() -> Seq<u8> {
    seq![DOT, DOT]
}

/// `s` cut at every separator; never empty.
pub open spec fn segments(s: Seq<u8>) -> Seq<Seq<u8>>
    decreases s.len(),
{
    if s.len() == 0 {
        seq![Seq::<u8>::empty()]
    } else {
        let front = segments(s.drop_last());
        if s.last() == SLASH {
            front.push(Seq::<u8>::empty())
        } else {
            front.update(front.len() - 1, front.last().push(s.last()))
        }
    }
}

/// A segment that names something: neither empty nor `.`.
pub open spec fn is_name(seg: Seq<u8>) -> bool {
    seg.len() > 0 && seg != current()
}

/// The segments that name something, in order.
pub open spec fn kept(segs: Seq<Seq<u8>>) -> Seq<Seq<u8>>
    decreases segs.len(),
{
    if segs.len() == 0 {
        Seq::empty()
    } else if is_name(segs.last()) {
        kept(segs.drop_last()).push(segs.last())
    } else {
        kept(segs.drop_last())
    }
}

/// The component before the first name: the root of an absolute path, or the
/// `.` that a relative path starts with.
pub open spec fn lead(p: Seq<u8>) -> Seq<Seq<u8>> {
    if is_absolute(p) {
        seq![root()]
    } else if p.len() > 0 && p[0] == DOT && (p.len() == 1 || p[1] == SLASH) {
        seq![current()]
    } else {
        Seq::empty()
    }
}

/// A path that starts at the root.
pub open spec fn is_absolute(p: Seq<u8>) -> bool {
    p.len() > 0 && p[0] == SLASH
}

/// The components of a path. Two paths are the same path when these are equal.
pub open spec fn components(p: Seq<u8>) -> Seq<Seq<u8>> {
    lead(p) + kept(segments(p))
}

/// Absolute, with neither `.` nor `..` between separators.
pub open spec fn is_canonical(p: Seq<u8>) -> bool {
    is_absolute(p) && !segments(p).contains(current()) && !segments(p).contains(up())
}

/// `p` without the trailing bytes that add no component.
pub open spec fn trimmed(p: Seq<u8>) -> Seq<u8>
    decreases p.len(),
{
    if p.len() > 0 && components(p.drop_last()) == components(p) {
        trimmed(p.drop_last())
    } else {
        p
    }
}

/// The path without its last component; `None` for the root and for the
/// empty path.
pub open spec fn parent(p: Seq<u8>) -> Option<Seq<u8>> {
    let cs = components(p);
    if cs.len() == 0 || cs.last() == root() {
        None
    } else {
        let t = trimmed(p);
        Some(trimmed(t.take(t.len() - cs.last().len())))
    }
}

/// The components `x` hold the components `y`: the same path, or `x` is a
/// nonempty proper prefix.
pub open spec fn is_ancestor_or_equal(x: Seq<Seq<u8>>, y: Seq<Seq<u8>>) -> bool {
    x == y || (0 < x.len() < y.len() && y.take(x.len() as int) == x)
}

/// The contents of a vector of byte vectors.
pub open spec fn views(v: Seq<Vec<u8>>) -> Seq<Seq<u8>> {
    Seq::new(v.len(), |i: int| v[i]@)
}

/// Cutting gives at least one segment.
pub proof fn lemma_segments_nonempty(s: Seq<u8>)
    ensures
        segments(s).len() > 0,
    decreases s.len(),
{
    if s.len() > 0 {
        lemma_segments_nonempty(s.drop_last());
    }
}

/// A segment holds no separator.
pub proof fn lemma_segments_clean(s: Seq<u8>)
    ensures
        forall|i: int, j: int|
            0 <= i < segments(s).len() && 0 <= j < segments(s)[i].len() ==> #[trigger] segments(
                s,
            )[i][j] != SLASH,
    decreases s.len(),
{
    lemma_segments_nonempty(s);
    if s.len() > 0 {
        lemma_segments_clean(s.drop_last());
        lemma_segments_nonempty(s.drop_last());
        let front = segments(s.drop_last());
        assert forall|i: int, j: int|
            0 <= i < segments(s).len() && 0 <= j < segments(s)[i].len() implies #[trigger] segments(
            s,
        )[i][j] != SLASH by {
            if i < front.len() && j < front[i].len() {
                assert(front[i][j] != SLASH);
            }
        }
    }
}

/// The names among two runs of segments are the names of each in turn.
pub proof fn lemma_kept_last(segs: Seq<Seq<u8>>, last: Seq<u8>)
    ensures
        kept(segs.push(last)) == if is_name(last) {
            kept(segs).push(last)
        } else {
            kept(segs)
        },
{
    assert(segs.push(last).drop_last() =~= segs);
}

/// Whether two byte strings are equal.
pub fn bytes_eq(a: &[u8], b: &[u8]) -> (r: bool)
    ensures
        r == (a@ == b@),
{
    if a.len() != b.len() {
        return false;
    }
    let mut i: usize = 0;
    while i < a.len()
        invariant
            a.len() == b.len(),
            0 <= i <= a.len(),
            forall|j: int| 0 <= j < i ==> a@[j] == b@[j],
        decreases a.len() - i,
    {
        if a[i] != b[i] {
            return false;
        }
        i += 1;
    }
    assert(a@ =~= b@);
    true
}

/// Whether a segment is `.` or `..`.
fn is_dots(seg: &Vec<u8>) -> (r: bool)
    ensures
        r == (seg@ == current() || seg@ == up()),
{
    let r = (seg.len() == 1 && seg[0] == DOT) || (seg.len() == 2 && seg[0] == DOT && seg[1]
        == DOT);
    proof {
        assert(current().len() == 1 && current()[0] == DOT);
        assert(up().len() == 2 && up()[0] == DOT && up()[1] == DOT);
        if r {
            assert(seg@ =~= current() || seg@ =~= up());
        }
    }
    r
}

/// Whether a path is canonical.
pub fn check_canonical(p: &[u8]) -> (r: bool)
    ensures
        r == is_canonical(p@),
{
    if p.len() == 0 || p[0] != SLASH {
        return false;
    }
    let mut dots = false;
    let mut cur: Vec<u8> = Vec::new();
    let mut i: usize = 0;
    assert(p@.take(0) =~= Seq::<u8>::empty());
    while i < p.len()
        invariant
            0 <= i <= p.len(),
            cur@ == segments(p@.take(i as int)).last(),
            dots == has_dots(segments(p@.take(i as int)).drop_last()),
        decreases p.len() - i,
    {
        let ghost before = segments(p@.take(i as int));
        proof {
            lemma_segments_nonempty(p@.take(i as int));
            assert(p@.take(i as int + 1).drop_last() =~= p@.take(i as int));
        }
        if p[i] == SLASH {
            proof {
                assert(before.push(Seq::<u8>::empty()).drop_last() =~= before);
                lemma_has_dots_last(before);
            }
            if is_dots(&cur) {
                dots = true;
            }
            cur = Vec::new();
        } else {
            cur.push(p[i]);
            assert(before.update(before.len() - 1, cur@).drop_last() =~= before.drop_last());
        }
        i += 1;
    }
    proof {
        assert(p@.take(i as int) =~= p@);
        lemma_segments_nonempty(p@);
        lemma_has_dots_last(segments(p@));
    }
    !dots && !is_dots(&cur)
}

/// A segment is `.` or `..`.
pub open spec fn has_dots(segs: Seq<Seq<u8>>) -> bool {
    segs.contains(current()) || segs.contains(up())
}

/// The last segment, or one before it.
proof fn lemma_has_dots_last(segs: Seq<Seq<u8>>)
    requires
        segs.len() > 0,
    ensures
        has_dots(segs) == (has_dots(segs.drop_last()) || segs.last() == current() || segs.last()
            == up()),
{
    let front = segs.drop_last();
    assert forall|x: Seq<u8>| segs.contains(x) == (front.contains(x) || segs.last() == x) by {
        if segs.contains(x) {
            let i = choose|i: int| 0 <= i < segs.len() && segs[i] == x;
            if i < front.len() {
                assert(front[i] == x);
            }
        }
        if front.contains(x) {
            let i = choose|i: int| 0 <= i < front.len() && front[i] == x;
            assert(segs[i] == x);
        }
        if segs.last() == x {
            assert(segs[segs.len() - 1] == x);
        }
    }
}

/// The components of a path.
pub fn split_components(p: &[u8]) -> (r: Vec<Vec<u8>>)
    ensures
        views(r@) == components(p@),
{
    let mut out: Vec<Vec<u8>> = Vec::new();
    if p.len() > 0 && p[0] == SLASH {
        let mut first: Vec<u8> = Vec::new();
        first.push(SLASH);
        out.push(first);
        assert(out@[0]@ =~= root());
    } else if p.len() > 0 && p[0] == DOT && (p.len() == 1 || p[1] == SLASH) {
        let mut first: Vec<u8> = Vec::new();
        first.push(DOT);
        out.push(first);
        assert(out@[0]@ =~= current());
    }
    assert(views(out@) =~= lead(p@));
    let mut cur: Vec<u8> = Vec::new();
    let mut i: usize = 0;
    assert(p@.take(0) =~= Seq::<u8>::empty());
    assert(segments(p@.take(0)).drop_last() =~= Seq::<Seq<u8>>::empty());
    assert(views(out@) =~= lead(p@) + kept(segments(p@.take(0)).drop_last()));
    while i < p.len()
        invariant
            0 <= i <= p.len(),
            views(out@) == lead(p@) + kept(segments(p@.take(i as int)).drop_last()),
            cur@ == segments(p@.take(i as int)).last(),
        decreases p.len() - i,
    {
        let ghost before = segments(p@.take(i as int));
        let ghost out0 = out@;
        proof {
            lemma_segments_nonempty(p@.take(i as int));
            assert(p@.take(i as int + 1).drop_last() =~= p@.take(i as int));
        }
        if p[i] == SLASH {
            let whole = cur;
            cur = Vec::new();
            assert(before.push(Seq::<u8>::empty()).drop_last() =~= before);
            assert(before =~= before.drop_last().push(whole@));
            proof {
                lemma_kept_last(before.drop_last(), whole@);
            }
            if whole.len() > 0 && !(whole.len() == 1 && whole[0] == DOT) {
                assert(whole@ != current()) by {
                    if whole@ == current() {
                        assert(whole@.len() == 1 && whole@[0] == DOT);
                    }
                }
                out.push(whole);
                assert(views(out@) =~= views(out0).push(whole@));
                assert(views(out@) =~= lead(p@) + kept(before));
            } else {
                assert(whole.len() == 1 ==> whole@ =~= current());
            }
        } else {
            cur.push(p[i]);
            assert(before.update(before.len() - 1, cur@).drop_last() =~= before.drop_last());
        }
        i += 1;
    }
    assert(p@.take(i as int) =~= p@);
    let ghost all = segments(p@);
    let ghost out1 = out@;
    proof {
        lemma_segments_nonempty(p@);
        assert(all =~= all.drop_last().push(cur@));
        lemma_kept_last(all.drop_last(), cur@);
    }
    if cur.len() > 0 && !(cur.len() == 1 && cur[0] == DOT) {
        assert(cur@ != current()) by {
            if cur@ == current() {
                assert(cur@.len() == 1 && cur@[0] == DOT);
            }
        }
        let ghost c = cur@;
        out.push(cur);
        assert(views(out@) =~= views(out1).push(c));
        assert(views(out@) =~= components(p@));
    } else {
        assert(cur.len() == 1 ==> cur@ =~= current());
    }
    out
}

/// Pushing a separator or a lone `.` segment adds no component; what
/// [`trimmed`] drops is exactly that.
proof fn lemma_redundant_last(p: Seq<u8>)
    requires
        p.len() > 0,
    ensures
        (components(p.drop_last()) == components(p)) == ((p.last() == SLASH && p.len() > 1) || (
        p.len() > 1 && p.last() == DOT && p[p.len() - 2] == SLASH)),
{
    let q = p.drop_last();
    let sq = segments(q);
    let sp = segments(p);
    lemma_segments_nonempty(q);
    lemma_segments_clean(q);
    assert(sq =~= sq.drop_last().push(sq.last()));
    lemma_kept_last(sq.drop_last(), sq.last());
    if p.len() == 1 {
        assert(q =~= Seq::<u8>::empty());
        assert(sq =~= seq![Seq::<u8>::empty()]);
        assert(kept(sq) =~= Seq::<Seq<u8>>::empty()) by {
            assert(sq.drop_last() =~= Seq::<Seq<u8>>::empty());
        }
        assert(components(q) =~= Seq::<Seq<u8>>::empty());
        if p.last() == SLASH {
            assert(components(p).len() > 0);
        } else {
            assert(sp =~= seq![seq![p.last()]]);
            assert(sp.last().len() == 1);
            assert(sp =~= Seq::<Seq<u8>>::empty().push(sp.last()));
            lemma_kept_last(Seq::<Seq<u8>>::empty(), sp.last());
            if p.last() == DOT {
                assert(lead(p).len() == 1);
            } else {
                assert(sp.last()[0] == p.last());
                assert(sp.last() != current());
            }
            assert(components(p).len() > 0);
        }
    } else if p.last() == SLASH {
        assert(q[0] == p[0]);
        assert(sp =~= sq.push(Seq::<u8>::empty()));
        lemma_kept_last(sq, Seq::<u8>::empty());
        assert(lead(p) =~= lead(q));
    } else {
        assert(q[0] == p[0]);
        assert(sp =~= sq.drop_last().push(sq.last().push(p.last())));
        lemma_kept_last(sq.drop_last(), sq.last().push(p.last()));
        lemma_last_segment(q);
        if p.last() == DOT && p[p.len() - 2] == SLASH {
            assert(q.last() == SLASH);
            assert(sq.last() =~= Seq::<u8>::empty());
            assert(sq.last().push(p.last()) =~= current());
            if p.len() == 2 {
                assert(p[0] == SLASH);
            }
            assert(lead(p) =~= lead(q));
            assert(components(p) == components(q));
        } else {
            let grown = sq.last().push(p.last());
            assert(grown.len() == sq.last().len() + 1);
            if sq.last().len() == 0 {
                assert(q.last() == SLASH);
                assert(grown[0] == p.last());
                assert(grown != current());
                assert(kept(sp) == kept(sq).push(grown));
                assert(lead(p) =~= lead(q));
                assert(components(p).len() == components(q).len() + 1);
            } else if is_name(sq.last()) {
                assert(grown.len() >= 2);
                assert(is_name(grown));
                assert(kept(sq).last() == sq.last());
                assert(kept(sp).last() == grown);
                assert(components(q).last() == sq.last());
                assert(components(p).last() == grown);
                assert(components(p) != components(q));
            } else {
                assert(sq.last() == current());
                assert(grown.len() == 2);
                assert(is_name(grown));
                assert(components(p).last() == grown);
                if components(q).len() > 0 && components(p) == components(q) {
                    // Only the name itself could supply a component of two bytes,
                    // and there is one name more than before.
                    assert(lead(p).len() <= lead(q).len());
                    if lead(p) == lead(q) {
                        assert(components(p).len() == components(q).len() + 1);
                    } else {
                        assert(lead(q) =~= seq![current()]);
                        assert(lead(p) =~= Seq::<Seq<u8>>::empty());
                        assert(q.len() == 1);
                        lemma_single_byte(q);
                        assert(components(q).last() == current());
                    }
                    assert(false);
                }
            }
        }
    }
}

/// The last segment is a suffix of the text, and is preceded by a separator
/// unless it is the whole text.
proof fn lemma_last_segment(s: Seq<u8>)
    ensures
        segments(s).last().len() <= s.len(),
        s.skip(s.len() - segments(s).last().len()) == segments(s).last(),
        segments(s).last().len() < s.len() ==> s[s.len() - segments(s).last().len() - 1] == SLASH,
        segments(s).last().len() == s.len() ==> segments(s).len() == 1,
    decreases s.len(),
{
    lemma_segments_nonempty(s);
    if s.len() == 0 {
        assert(s.skip(0) =~= segments(s).last());
    } else {
        let q = s.drop_last();
        lemma_last_segment(q);
        lemma_segments_nonempty(q);
        if s.last() == SLASH {
            assert(s.skip(s.len() as int) =~= Seq::<u8>::empty());
        } else {
            let l = segments(q).last();
            assert(segments(s).last() == l.push(s.last()));
            let m = l.len() + 1;
            assert(s.skip(s.len() - m) =~= l.push(s.last())) by {
                assert(q.skip(q.len() - l.len()) == l);
                assert forall|i: int| 0 <= i < m implies s.skip(s.len() - m)[i] == l.push(s.last())[i] by {
                    if i < l.len() {
                        assert(q.skip(q.len() - l.len())[i] == q[q.len() - l.len() + i]);
                    }
                }
            }
        }
    }
}

proof fn lemma_single_byte(q: Seq<u8>)
    requires
        q.len() == 1,
        q[0] == DOT,
    ensures
        components(q) == seq![current()],
{
    assert(q.drop_last() =~= Seq::<u8>::empty());
    lemma_segments_nonempty(q);
    assert(segments(q) =~= seq![current()]) by {
        assert(segments(q.drop_last()) =~= seq![Seq::<u8>::empty()]);
        assert(Seq::<u8>::empty().push(DOT) =~= current());
    }
    assert(segments(q) =~= Seq::<Seq<u8>>::empty().push(current()));
    lemma_kept_last(Seq::<Seq<u8>>::empty(), current());
    assert(components(q) =~= seq![current()]);
}

/// The empty path has no component.
pub proof fn lemma_empty_path()
    ensures
        components(Seq::<u8>::empty()) == Seq::<Seq<u8>>::empty(),
{
    let e = Seq::<u8>::empty();
    assert(segments(e) =~= Seq::<Seq<u8>>::empty().push(e));
    lemma_kept_last(Seq::<Seq<u8>>::empty(), e);
    assert(components(e) =~= Seq::<Seq<u8>>::empty());
}

/// Trimming keeps the components.
pub proof fn lemma_trimmed(p: Seq<u8>)
    ensures
        components(trimmed(p)) == components(p),
        trimmed(p).len() <= p.len(),
        trimmed(p) == p.take(trimmed(p).len() as int),
    decreases p.len(),
{
    if p.len() > 0 && components(p.drop_last()) == components(p) {
        lemma_trimmed(p.drop_last());
        assert(p.drop_last().take(trimmed(p).len() as int) =~= p.take(trimmed(p).len() as int));
    } else {
        assert(p.take(p.len() as int) =~= p);
    }
}

proof fn lemma_trimmed_is_tight(p: Seq<u8>)
    ensures
        trimmed(p).len() > 0 ==> components(trimmed(p).drop_last()) != components(trimmed(p)),
    decreases p.len(),
{
    if p.len() > 0 && components(p.drop_last()) == components(p) {
        lemma_trimmed_is_tight(p.drop_last());
    }
}

/// Cutting the last `m` bytes of the last segment leaves the other segments.
proof fn lemma_cut_last_segment(s: Seq<u8>, m: int)
    requires
        0 <= m <= segments(s).last().len(),
    ensures
        m <= s.len(),
        segments(s.take(s.len() - m)) == segments(s).drop_last().push(
            segments(s).last().take(segments(s).last().len() - m),
        ),
    decreases m,
{
    lemma_segments_nonempty(s);
    lemma_last_segment(s);
    let l = segments(s).last();
    if m == 0 {
        assert(s.take(s.len() as int) =~= s);
        assert(l.take(l.len() as int) =~= l);
        assert(segments(s) =~= segments(s).drop_last().push(l));
    } else {
        let q = s.drop_last();
        lemma_segments_nonempty(q);
        assert(s.last() != SLASH);
        let lq = segments(q).last();
        assert(l == lq.push(s.last()));
        lemma_cut_last_segment(q, m - 1);
        assert(q.take(q.len() - (m - 1)) =~= s.take(s.len() - m));
        assert(segments(s).drop_last() =~= segments(q).drop_last());
        assert(lq.take(lq.len() - (m - 1)) =~= l.take(l.len() - m));
    }
}

/// The parent's components are the path's components without the last, and
/// the parent is shorter.
pub proof fn lemma_parent(p: Seq<u8>)
    ensures
        parent(p) is None <==> (components(p).len() == 0 || components(p).last() == root()),
        parent(p) matches Some(q) ==> components(q) == components(p).drop_last() && q.len()
            < p.len() && q == p.take(q.len() as int),
{
    let cs = components(p);
    if cs.len() > 0 && cs.last() != root() {
        let t = trimmed(p);
        lemma_trimmed(p);
        lemma_trimmed_is_tight(p);
        lemma_tight_last(t);
        let n = cs.last().len() as int;
        let u = t.take(t.len() - n);
        lemma_trimmed(u);
        assert(trimmed(u) =~= p.take(trimmed(u).len() as int));
    }
}

proof fn lemma_tight_last(t: Seq<u8>)
    requires
        t.len() > 0 ==> components(t.drop_last()) != components(t),
        components(t).len() > 0,
        components(t).last() != root(),
    ensures
        0 < components(t).last().len() <= t.len(),
        components(t.take(t.len() - components(t).last().len())) == components(t).drop_last(),
{
    let cs = components(t);
    let sg = segments(t);
    lemma_segments_nonempty(t);
    if t.len() == 0 {
        assert(t =~= Seq::<u8>::empty());
        lemma_empty_path();
        assert(false);
    }
    lemma_redundant_last(t);
    lemma_last_segment(t);
    assert(sg =~= sg.drop_last().push(sg.last()));
    lemma_kept_last(sg.drop_last(), sg.last());
    if t.last() == SLASH {
        assert(t.len() == 1);
        assert(t.drop_last() =~= Seq::<u8>::empty());
        assert(sg =~= seq![Seq::<u8>::empty(), Seq::<u8>::empty()]);
        assert(sg.drop_last() =~= Seq::<Seq<u8>>::empty().push(Seq::<u8>::empty()));
        lemma_kept_last(Seq::<Seq<u8>>::empty(), Seq::<u8>::empty());
        assert(kept(sg) =~= Seq::<Seq<u8>>::empty());
        assert(components(t).last() == root());
        assert(false);
    }
    assert(sg.last().len() > 0);
    if is_name(sg.last()) {
        let n = sg.last().len() as int;
        assert(cs.last() == sg.last());
        lemma_cut_last_segment(t, n);
        let u = t.take(t.len() - n);
        assert(sg.last().take(0) =~= Seq::<u8>::empty());
        lemma_kept_last(sg.drop_last(), Seq::<u8>::empty());
        assert(kept(segments(u)) == kept(sg.drop_last()));
        assert(lead(u) =~= lead(t)) by {
            if u.len() > 0 {
                assert(u.last() == SLASH);
                assert(u[0] == t[0]);
                if u.len() == 1 {
                    assert(t[0] == SLASH);
                } else {
                    assert(u[1] == t[1]);
                }
            } else {
                assert(n == t.len());
                assert(t =~= sg.last()) by {
                    assert(t.skip(0) =~= t);
                }
                lemma_segments_clean(t);
                assert(sg[sg.len() - 1][0] != SLASH);
                if t[0] == DOT && t.len() == 1 {
                    assert(t =~= current());
                }
                if t.len() > 1 {
                    assert(sg[sg.len() - 1][1] != SLASH);
                }
            }
        }
        assert(components(u) =~= cs.drop_last());
    } else {
        assert(sg.last() == current());
        assert(t.last() == DOT) by {
            assert(t.skip(t.len() - 1)[0] == t[t.len() - 1]);
        }
        if t.len() > 1 {
            assert(t[t.len() - 2] == SLASH);
            assert(false);
        }
        lemma_single_byte(t);
        assert(t.take(0) =~= Seq::<u8>::empty());
        lemma_empty_path();
        assert(cs.drop_last() =~= Seq::<Seq<u8>>::empty());
    }
}

/// The root path has the root component alone.
pub proof fn lemma_root_path()
    ensures
        components(seq![SLASH]) == seq![root()],
{
    let p: Seq<u8> = seq![SLASH];
    let e = Seq::<u8>::empty();
    assert(p.drop_last() =~= e);
    assert(segments(e) =~= Seq::<Seq<u8>>::empty().push(e));
    assert(segments(p) =~= Seq::<Seq<u8>>::empty().push(e).push(e));
    lemma_kept_last(Seq::<Seq<u8>>::empty(), e);
    lemma_kept_last(Seq::<Seq<u8>>::empty().push(e), e);
    assert(components(p) =~= seq![root()]);
}

/// A path has no component exactly when it is the empty text.
pub proof fn lemma_no_components(p: Seq<u8>)
    ensures
        components(p).len() == 0 <==> p.len() == 0,
    decreases p.len(),
{
    if p.len() == 0 {
        assert(p =~= Seq::<u8>::empty());
        lemma_empty_path();
    } else {
        lemma_redundant_last(p);
        lemma_no_components(p.drop_last());
        if components(p).len() == 0 {
            if components(p.drop_last()) == components(p) {
                assert(false);
            }
            if p.len() == 1 {
                assert(p.drop_last() =~= Seq::<u8>::empty());
                lemma_empty_path();
                assert(components(p) =~= Seq::<Seq<u8>>::empty());
            } else {
                lemma_grow_components(p);
            }
            assert(false);
        }
    }
}

/// A byte more never leaves fewer components.
proof fn lemma_grow_components(p: Seq<u8>)
    requires
        p.len() > 1,
    ensures
        components(p).len() >= components(p.drop_last()).len(),
{
    let q = p.drop_last();
    let sq = segments(q);
    lemma_segments_nonempty(q);
    lemma_last_segment(q);
    assert(q[0] == p[0]);
    assert(sq =~= sq.drop_last().push(sq.last()));
    lemma_kept_last(sq.drop_last(), sq.last());
    if p.last() == SLASH {
        lemma_kept_last(sq, Seq::<u8>::empty());
    } else {
        let grown = sq.last().push(p.last());
        assert(segments(p) =~= sq.drop_last().push(grown));
        lemma_kept_last(sq.drop_last(), grown);
        if is_name(sq.last()) {
            assert(grown.len() >= 2);
        }
        if lead(p) != lead(q) {
            assert(q.len() == 1 && q[0] == DOT);
            lemma_single_byte(q);
            assert(sq.last().len() == 1) by {
                if sq.last().len() == 0 {
                    assert(q[q.len() - 1] == SLASH);
                }
            }
            assert(grown.len() == 2);
        }
    }
}

/// Components of an absolute path start with the root and hold it nowhere else.
pub proof fn lemma_absolute(p: Seq<u8>)
    ensures
        is_absolute(p) <==> components(p).len() > 0 && components(p)[0] == root(),
        forall|i: int| 0 < i < components(p).len() ==> #[trigger] components(p)[i] != root(),
{
    lemma_kept_clean(segments(p));
    lemma_segments_clean(p);
    assert forall|i: int| 0 <= i < kept(segments(p)).len() implies kept(segments(p))[i] != root() by {
        let k = kept(segments(p))[i];
        assert(segments(p).contains(k));
        let j = choose|j: int| 0 <= j < segments(p).len() && segments(p)[j] == k;
        if k == root() {
            assert(segments(p)[j][0] == SLASH);
        }
    }
    if is_absolute(p) {
        assert(components(p)[0] == root());
    } else if components(p).len() > 0 {
        if lead(p).len() == 0 {
            assert(components(p)[0] == kept(segments(p))[0]);
        } else {
            assert(components(p)[0] == current());
            assert(current()[0] != root()[0]);
        }
    }
}

proof fn lemma_kept_clean(segs: Seq<Seq<u8>>)
    ensures
        forall|i: int|
            0 <= i < kept(segs).len() ==> is_name(#[trigger] kept(segs)[i]) && segs.contains(
                kept(segs)[i],
            ),
    decreases segs.len(),
{
    if segs.len() > 0 {
        lemma_kept_clean(segs.drop_last());
        assert forall|i: int| 0 <= i < kept(segs).len() implies is_name(#[trigger] kept(segs)[i])
            && segs.contains(kept(segs)[i]) by {
            if i < kept(segs.drop_last()).len() {
                let k = kept(segs.drop_last())[i];
                assert(segs.drop_last().contains(k));
                let j = choose|j: int| 0 <= j < segs.drop_last().len() && segs.drop_last()[j] == k;
                assert(segs[j] == k);
            } else {
                assert(segs[segs.len() - 1] == segs.last());
            }
        }
    }
}

/// Whether two lists of byte strings are equal.
pub fn list_eq(a: &Vec<Vec<u8>>, b: &Vec<Vec<u8>>) -> (r: bool)
    ensures
        r == (views(a@) == views(b@)),
{
    if a.len() != b.len() {
        assert(views(a@).len() != views(b@).len());
        return false;
    }
    let mut i: usize = 0;
    while i < a.len()
        invariant
            a.len() == b.len(),
            0 <= i <= a.len(),
            forall|j: int| 0 <= j < i ==> views(a@)[j] == views(b@)[j],
        decreases a.len() - i,
    {
        if !bytes_eq(a[i].as_slice(), b[i].as_slice()) {
            assert(views(a@)[i as int] != views(b@)[i as int]);
            return false;
        }
        i += 1;
    }
    assert(views(a@) =~= views(b@));
    true
}

/// Whether two paths are the same path.
pub fn same_path(a: &[u8], b: &[u8]) -> (r: bool)
    ensures
        r == (components(a@) == components(b@)),
{
    let x = split_components(a);
    let y = split_components(b);
    list_eq(&x, &y)
}

/// Whether the path is `/`.
pub fn is_root(p: &[u8]) -> (r: bool)
    ensures
        r == (components(p@) == seq![root()]),
{
    let x = split_components(p);
    let r = x.len() == 1 && x[0].len() == 1 && x[0][0] == SLASH;
    proof {
        if r {
            assert(x[0]@ =~= root());
            assert(views(x@) =~= seq![root()]);
        } else if views(x@) == seq![root()] {
            assert(views(x@).len() == 1);
            assert(views(x@)[0] == x[0]@);
            assert(x[0]@ == root());
            assert(false);
        }
    }
    r
}

/// The length of the path without its redundant tail.
fn trimmed_len(p: &[u8], len: usize) -> (r: usize)
    requires
        len <= p@.len(),
    ensures
        r <= len,
        p@.take(r as int) == trimmed(p@.take(len as int)),
{
    let mut n: usize = len;
    while n > 0
        invariant
            n <= len <= p@.len(),
            trimmed(p@.take(n as int)) == trimmed(p@.take(len as int)),
        ensures
            n <= len,
            p@.take(n as int) == trimmed(p@.take(len as int)),
        decreases n,
    {
        let ghost q = p@.take(n as int);
        proof {
            lemma_redundant_last(q);
            assert(q.last() == p@[n - 1]);
            assert(n > 1 ==> q[q.len() - 2] == p@[n - 2]);
            assert(q.drop_last() =~= p@.take(n - 1));
        }
        let redundant = n > 1 && (p[n - 1] == SLASH || (p[n - 1] == DOT && p[n - 2] == SLASH));
        if !redundant {
            break;
        }
        n -= 1;
    }
    n
}

/// The path without its last component.
pub fn parent_of(p: &[u8]) -> (r: Option<Vec<u8>>)
    ensures
        r is Some <==> parent(p@) is Some,
        r matches Some(q) ==> Some(q@) == parent(p@),
{
    let cs = split_components(p);
    let count: usize = cs.len();
    if count == 0 {
        return None;
    }
    let last_len: usize = cs[count - 1].len();
    assert(views(cs@).last() == cs@[count - 1]@);
    if last_len == 1 && cs[count - 1][0] == SLASH {
        assert(cs@[count - 1]@ =~= root());
        return None;
    }
    assert(cs@[count - 1]@ != root()) by {
        if cs@[count - 1]@ == root() {
            assert(cs@[count - 1]@.len() == 1 && cs@[count - 1]@[0] == SLASH);
        }
    }
    let end: usize = trimmed_len(p, p.len());
    assert(p@.take(p.len() as int) =~= p@);
    let ghost t = trimmed(p@);
    proof {
        lemma_trimmed(p@);
        lemma_trimmed_is_tight(p@);
        lemma_tight_last(t);
    }
    let cut: usize = end - last_len;
    assert(t.take(cut as int) =~= p@.take(cut as int));
    let keep: usize = trimmed_len(p, cut);
    let out = vstd::slice::slice_to_vec(vstd::slice::slice_subrange(p, 0, keep));
    assert(out@ =~= p@.take(keep as int));
    Some(out)
}

/// Each name behind a separator.
pub open spec fn body(names: Seq<Seq<u8>>) -> Seq<u8>
    decreases names.len(),
{
    if names.len() == 0 {
        Seq::empty()
    } else {
        body(names.drop_last()) + seq![SLASH] + names.last()
    }
}

/// The shortest text of an absolute path.
pub open spec fn spelling(cs: Seq<Seq<u8>>) -> Seq<u8> {
    if cs.len() <= 1 {
        root()
    } else {
        body(cs.skip(1))
    }
}

/// An absolute path without doubled or trailing separators and without `.`.
pub open spec fn is_tidy(p: Seq<u8>) -> bool {
    is_absolute(p) && p == spelling(components(p))
}

/// Names that a path can hold.
pub open spec fn are_names(names: Seq<Seq<u8>>) -> bool {
    forall|i: int|
        0 <= i < names.len() ==> is_name(#[trigger] names[i]) && !names[i].contains(SLASH)
}

/// What stands behind the last separator is the last segment.
proof fn lemma_segments_behind(x: Seq<u8>, n: Seq<u8>)
    requires
        !n.contains(SLASH),
    ensures
        segments(x + seq![SLASH] + n) == segments(x).push(n),
    decreases n.len(),
{
    let s = x + seq![SLASH] + n;
    if n.len() == 0 {
        assert(s.drop_last() =~= x);
        assert(n =~= Seq::empty());
    } else {
        let d = n.drop_last();
        assert forall|c: u8| d.contains(c) implies n.contains(c) by {
            let i = choose|i: int| 0 <= i < d.len() && d[i] == c;
            assert(n[i] == c);
        }
        lemma_segments_behind(x, d);
        assert(s.drop_last() =~= x + seq![SLASH] + d);
        assert(n.contains(n[n.len() - 1]));
        assert(s.last() == n.last());
        let front = segments(x).push(d);
        assert(d.push(n.last()) =~= n);
        assert(front.update(front.len() - 1, front.last().push(n.last())) =~= segments(x).push(n));
    }
}

/// The names of a body are its segments that name something.
proof fn lemma_body(names: Seq<Seq<u8>>)
    requires
        are_names(names),
    ensures
        kept(segments(body(names))) == names,
        names.len() > 0 ==> is_absolute(body(names)),
    decreases names.len(),
{
    if names.len() == 0 {
        lemma_empty_path();
        assert(kept(segments(body(names))) =~= names);
    } else {
        let d = names.drop_last();
        let n = names.last();
        assert forall|i: int| 0 <= i < d.len() implies is_name(#[trigger] d[i])
            && !d[i].contains(SLASH) by {
            assert(d[i] == names[i]);
        }
        lemma_body(d);
        assert(names[names.len() - 1] == n);
        lemma_segments_behind(body(d), n);
        lemma_kept_last(segments(body(d)), n);
        assert(d.push(n) =~= names);
        if d.len() == 0 {
            assert(body(names)[0] == SLASH);
        } else {
            assert(body(names)[0] == body(d)[0]);
        }
    }
}

/// A body is as short as it can be, and a separator behind it adds nothing.
proof fn lemma_body_is_tight(names: Seq<Seq<u8>>)
    requires
        are_names(names),
        names.len() > 0,
    ensures
        components(body(names)) == seq![root()] + names,
        components(body(names).drop_last()) != components(body(names)),
        components(body(names) + seq![SLASH]) == components(body(names)),
        trimmed(body(names)) == body(names),
        trimmed(body(names) + seq![SLASH]) == body(names),
{
    lemma_body(names);
    let b = body(names);
    let d = names.drop_last();
    let n = names.last();
    assert(names[names.len() - 1] == n);
    assert forall|i: int| 0 <= i < d.len() implies is_name(#[trigger] d[i])
        && !d[i].contains(SLASH) by {
        assert(d[i] == names[i]);
    }
    lemma_body(d);
    let m = n.drop_last();
    assert(!m.contains(SLASH)) by {
        if m.contains(SLASH) {
            let i = choose|i: int| 0 <= i < m.len() && m[i] == SLASH;
            assert(n[i] == SLASH);
            assert(n.contains(SLASH));
        }
    }
    lemma_segments_behind(body(d), m);
    lemma_kept_last(segments(body(d)), m);
    assert(b.drop_last() =~= body(d) + seq![SLASH] + m);
    let short = kept(segments(b.drop_last()));
    assert(short != names) by {
        if is_name(m) {
            assert(short.last() == m);
            assert(m.len() < n.len());
        } else {
            assert(short.len() < names.len());
        }
    }
    assert(is_absolute(b.drop_last())) by {
        if d.len() == 0 {
            assert(b.drop_last()[0] == SLASH);
        } else {
            assert(b.drop_last()[0] == body(d)[0]);
        }
    }
    let x = components(b.drop_last());
    let y = components(b);
    assert(y.skip(1) =~= names);
    assert(x.skip(1) =~= short);
    let e = Seq::<u8>::empty();
    lemma_segments_behind(b, e);
    lemma_kept_last(segments(b), e);
    assert(b + seq![SLASH] + e =~= b + seq![SLASH]);
    assert((b + seq![SLASH]).drop_last() =~= b);
    assert(is_absolute(b + seq![SLASH]));
    assert(trimmed(b) == b);
    assert(trimmed(b + seq![SLASH]) == trimmed((b + seq![SLASH]).drop_last()));
}

/// The components of an absolute path: the root, then names.
proof fn lemma_names(p: Seq<u8>)
    requires
        is_absolute(p),
    ensures
        components(p).len() > 0,
        components(p)[0] == root(),
        are_names(components(p).skip(1)),
        components(p).skip(1) == kept(segments(p)),
{
    assert(components(p).skip(1) =~= kept(segments(p)));
    lemma_segments_clean(p);
    lemma_kept_names(segments(p));
}

proof fn lemma_kept_names(segs: Seq<Seq<u8>>)
    requires
        forall|i: int| 0 <= i < segs.len() ==> !(#[trigger] segs[i]).contains(SLASH),
    ensures
        are_names(kept(segs)),
    decreases segs.len(),
{
    if segs.len() > 0 {
        let d = segs.drop_last();
        assert forall|i: int| 0 <= i < d.len() implies !(#[trigger] d[i]).contains(SLASH) by {
            assert(d[i] == segs[i]);
        }
        lemma_kept_names(d);
        assert(segs[segs.len() - 1] == segs.last());
    }
}

/// The parent of a tidy path is tidy.
pub proof fn lemma_tidy_parent(p: Seq<u8>)
    requires
        is_tidy(p),
    ensures
        parent(p) matches Some(q) ==> is_tidy(q),
{
    lemma_names(p);
    let cs = components(p);
    let names = cs.skip(1);
    if names.len() > 0 {
        assert(cs.last() == names.last());
        lemma_body_is_tight(names);
        let d = names.drop_last();
        let n = names.last();
        assert(names[names.len() - 1] == n);
        assert(n != root()) by {
            if n == root() {
                assert(n[0] == SLASH);
                assert(n.contains(SLASH));
            }
        }
        let u = p.take(p.len() - n.len());
        assert(u =~= body(d) + seq![SLASH]);
        assert forall|i: int| 0 <= i < d.len() implies is_name(#[trigger] d[i])
            && !d[i].contains(SLASH) by {
            assert(d[i] == names[i]);
        }
        if d.len() > 0 {
            lemma_body_is_tight(d);
            lemma_body(d);
            assert((seq![root()] + d).skip(1) =~= d);
        } else {
            assert(u =~= root());
            lemma_root_path();
            lemma_empty_path();
            assert(root().drop_last() =~= Seq::empty());
        }
    } else {
        assert(cs.last() == root());
    }
}

/// A tidy path is determined by its components.
pub proof fn lemma_tidy_unique(p: Seq<u8>, q: Seq<u8>)
    requires
        is_tidy(p),
        is_tidy(q),
        components(p) == components(q),
    ensures
        p == q,
{
}

/// A directory holds itself and everything below it, however deep, and
/// nothing else: a path holds another exactly when it is a start of it.
pub proof fn directories_hold_what_is_below(x: Seq<Seq<u8>>, y: Seq<Seq<u8>>, more: Seq<Seq<u8>>)
    ensures
        x.len() > 0 ==> is_ancestor_or_equal(x, x + more),
        x.len() > 0 ==> (is_ancestor_or_equal(x, y) <==> x.len() <= y.len() && forall|i: int|
            0 <= i < x.len() ==> #[trigger] x[i] == y[i]),
{
    if x.len() > 0 {
        assert((x + more).take(x.len() as int) =~= x);
        if more.len() == 0 {
            assert(x + more =~= x);
        }
        if is_ancestor_or_equal(x, y) {
            assert forall|i: int| 0 <= i < x.len() implies #[trigger] x[i] == y[i] by {
                if x != y {
                    assert(y.take(x.len() as int)[i] == y[i]);
                }
            }
        }
        if x.len() <= y.len() && (forall|i: int| 0 <= i < x.len() ==> #[trigger] x[i] == y[i]) {
            assert(y.take(x.len() as int) =~= x);
            if x.len() == y.len() {
                assert(x =~= y);
            }
        }
    }
}

/// A name behind an absolute path adds one component; nothing, and a single
/// dot, add none.
pub proof fn names_add_components(p: Seq<u8>, n: Seq<u8>)
    requires
        p.len() > 0,
        p[0] == 0x2f,
        !n.contains(0x2f),
    ensures
        n.len() > 0 && n != seq![0x2eu8] ==> components(p + seq![0x2fu8] + n) == components(
            p,
        ).push(n),
        n.len() == 0 || n == seq![0x2eu8] ==> components(p + seq![0x2fu8] + n) == components(p),
        components(seq![0x2fu8]) == seq![seq![0x2fu8]],
{
    let q = p + seq![SLASH] + n;
    assert(q[0] == p[0]);
    lemma_segments_behind(p, n);
    lemma_kept_last(segments(p), n);
    assert(seq![root()] + kept(segments(p)).push(n) =~= (seq![root()] + kept(segments(p))).push(
        n,
    ));
    lemma_root_path();
}

/// A path of names reads as the root and these names.
pub proof fn names_make_a_path(names: Seq<Seq<u8>>)
    requires
        are_names(names),
        names.len() > 0,
    ensures
        components(body(names)) == seq![seq![0x2fu8]] + names,
        body(names)[0] == 0x2f,
{
    lemma_body(names);
}

/// A path is canonical when it starts at the root and no part of it between
/// slashes is one dot or two.
pub proof fn canonical_paths_have_no_dots(p: Seq<u8>, n: Seq<u8>)
    requires
        !n.contains(0x2f),
    ensures
        is_canonical(p) ==> p.len() > 0 && p[0] == 0x2f,
        is_canonical(p) && n != seq![0x2eu8] && n != seq![0x2eu8, 0x2eu8] ==> is_canonical(
            p + seq![0x2fu8] + n,
        ),
        !is_canonical(p + seq![0x2fu8] + seq![0x2eu8]),
        !is_canonical(p + seq![0x2fu8] + seq![0x2eu8, 0x2eu8]),
        !is_canonical(p + seq![0x2fu8] + seq![0x2eu8, 0x2eu8] + seq![0x2fu8] + n),
        !is_canonical(p + seq![0x2fu8] + seq![0x2eu8] + seq![0x2fu8] + n),
        is_canonical(seq![0x2fu8]),
{
    let one = seq![0x2eu8];
    let two = seq![0x2eu8, 0x2eu8];
    assert(!one.contains(0x2f));
    assert(!two.contains(0x2f));
    let s = p + seq![SLASH] + n;
    lemma_segments_behind(p, n);
    lemma_has_dots_last(segments(p).push(n));
    assert(segments(p).push(n).drop_last() =~= segments(p));
    if is_canonical(p) {
        assert(s[0] == p[0]);
    }
    lemma_segments_behind(p, one);
    lemma_segments_behind(p, two);
    let (a, b) = (p + seq![SLASH] + one, p + seq![SLASH] + two);
    assert(segments(a)[segments(p).len() as int] == one);
    assert(segments(b)[segments(p).len() as int] == two);
    assert(segments(a).contains(current()));
    assert(segments(b).contains(up()));
    lemma_segments_behind(a, n);
    lemma_segments_behind(b, n);
    assert(segments(a + seq![SLASH] + n)[segments(p).len() as int] == one);
    assert(segments(b + seq![SLASH] + n)[segments(p).len() as int] == two);
    assert(segments(a + seq![SLASH] + n).contains(current()));
    assert(segments(b + seq![SLASH] + n).contains(up()));
    let none = Seq::<u8>::empty();
    lemma_segments_behind(none, none);
    assert(none + seq![SLASH] + none =~= seq![0x2fu8]);
    assert(segments(none) =~= seq![none]);
    assert(segments(seq![0x2fu8]) =~= seq![none, none]);
    assert(one.len() == 1 && two.len() == 2);
}

} // verus!
