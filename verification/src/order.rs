//! Byte-wise order of texts, and sorting by it.
use vstd::multiset::*;
use vstd::prelude::*;
use vstd::seq_lib::*;

verus! {

/// `a` comes before `b` in byte-wise lexicographic order.
pub open spec fn before(a: Seq<u8>, b: Seq<u8>) -> bool
    decreases a.len(),
{
    if b.len() == 0 {
        false
    } else if a.len() == 0 {
        true
    } else if a[0] != b[0] {
        a[0] < b[0]
    } else {
        before(a.skip(1), b.skip(1))
    }
}

/// A record with a key of bytes.
pub trait Keyed: Sized {
    /// The key.
    spec fn key(&self) -> Seq<u8>;

    /// The key.
    fn get_key(&self) -> (r: &[u8])
        ensures
            r@ == self.key(),
    ;
}

/// No key comes before an earlier one.
pub open spec fn in_order<T: Keyed>(s: Seq<T>) -> bool {
    forall|i: int, j: int|
        0 <= i < j < s.len() ==> !before((#[trigger] s[j]).key(), (#[trigger] s[i]).key())
}

/// `s` in order.
pub open spec fn is_arrangement<T: Keyed>(s: Seq<T>, of: Seq<T>) -> bool {
    in_order(s) && s.to_multiset() == of.to_multiset()
}

/// The order is irreflexive.
pub proof fn lemma_before_irreflexive(a: Seq<u8>)
    ensures
        !before(a, a),
    decreases a.len(),
{
    if a.len() > 0 {
        lemma_before_irreflexive(a.skip(1));
    }
}

/// The order is transitive.
pub proof fn lemma_before_transitive(a: Seq<u8>, b: Seq<u8>, c: Seq<u8>)
    requires
        before(a, b),
        before(b, c),
    ensures
        before(a, c),
    decreases a.len(),
{
    if a.len() > 0 && b.len() > 0 && c.len() > 0 && a[0] == b[0] && b[0] == c[0] {
        lemma_before_transitive(a.skip(1), b.skip(1), c.skip(1));
    }
}

/// Of two different texts one comes before the other.
pub proof fn lemma_before_total(a: Seq<u8>, b: Seq<u8>)
    ensures
        a == b || before(a, b) || before(b, a),
        !(before(a, b) && before(b, a)),
    decreases a.len(),
{
    if a.len() == 0 || b.len() == 0 {
        if a.len() == 0 && b.len() == 0 {
            assert(a =~= b);
        }
    } else if a[0] == b[0] {
        lemma_before_total(a.skip(1), b.skip(1));
        if a.skip(1) == b.skip(1) {
            assert(a =~= seq![a[0]] + a.skip(1));
            assert(b =~= seq![b[0]] + b.skip(1));
        }
    }
}

/// Not coming before is transitive.
pub proof fn lemma_not_before_transitive(a: Seq<u8>, b: Seq<u8>, c: Seq<u8>)
    requires
        !before(b, a),
        !before(c, b),
    ensures
        !before(c, a),
{
    lemma_before_total(a, b);
    lemma_before_total(b, c);
    lemma_before_total(c, a);
    if before(c, a) {
        if a == b {
        } else if b == c {
        } else {
            lemma_before_transitive(a, b, c);
        }
    }
}

/// Whether `a` comes before `b`.
pub fn is_before(a: &[u8], b: &[u8]) -> (r: bool)
    ensures
        r == before(a@, b@),
{
    let mut i: usize = 0;
    assert(a@.skip(0) =~= a@);
    assert(b@.skip(0) =~= b@);
    while i < a.len() && i < b.len()
        invariant
            0 <= i <= a.len(),
            i <= b.len(),
            before(a@, b@) == before(a@.skip(i as int), b@.skip(i as int)),
        decreases a.len() - i,
    {
        if a[i] != b[i] {
            return a[i] < b[i];
        }
        proof {
            assert(a@.skip(i as int).skip(1) =~= a@.skip(i as int + 1));
            assert(b@.skip(i as int).skip(1) =~= b@.skip(i as int + 1));
        }
        i += 1;
    }
    i < b.len()
}

/// Sorts by key.
pub fn sort_by_key<T: Keyed>(v: Vec<T>) -> (out: Vec<T>)
    ensures
        is_arrangement(out@, v@),
{
    let ghost all = v@;
    let mut rest: Vec<T> = v;
    let mut out: Vec<T> = Vec::new();
    proof {
        assert(out@.to_multiset().len() == 0) by {
            to_multiset_len(out@);
        }
        assert(out@.to_multiset() =~= Multiset::<T>::empty()) by {
            assert forall|x: T| out@.to_multiset().count(x) == 0 by {
                to_multiset_contains(out@, x);
            }
        }
        assert(rest@.to_multiset().add(out@.to_multiset()) =~= all.to_multiset());
    }
    while rest.len() > 0
        invariant
            in_order(out@),
            rest@.to_multiset().add(out@.to_multiset()) == all.to_multiset(),
        decreases rest.len(),
    {
        let ghost rest0 = rest@;
        let ghost out0 = out@;
        match rest.pop() {
            Some(x) => {
                let mut p: usize = 0;
                while p < out.len() && is_before(out[p].get_key(), x.get_key())
                    invariant
                        0 <= p <= out.len(),
                        out@ == out0,
                        in_order(out@),
                        forall|j: int| 0 <= j < p ==> before((#[trigger] out@[j]).key(), x.key()),
                    decreases out.len() - p,
                {
                    p += 1;
                }
                let ghost k = x.key();
                let ghost g = x;
                out.insert(p, x);
                proof {
                    assert(out@ =~= out0.insert(p as int, g));
                    to_multiset_insert(out0, p as int, g);
                    assert(rest0 =~= rest@.push(g));
                    to_multiset_build(rest@, g);
                    assert(rest@.to_multiset().add(out@.to_multiset()) =~= all.to_multiset());
                    assert forall|i: int, j: int| 0 <= i < j < out@.len() implies !before(
                        (#[trigger] out@[j]).key(),
                        (#[trigger] out@[i]).key(),
                    ) by {
                        if i < p && j < p {
                            assert(out@[i] == out0[i] && out@[j] == out0[j]);
                        } else if i > p {
                            assert(out@[i] == out0[i - 1] && out@[j] == out0[j - 1]);
                        } else if i < p && j == p {
                            assert(out@[i] == out0[i]);
                            lemma_before_total(out0[i].key(), k);
                        } else if i < p {
                            assert(out@[i] == out0[i] && out@[j] == out0[j - 1]);
                        } else {
                            assert(out@[j] == out0[j - 1]);
                            if j - 1 > p {
                                assert(!before(out0[j - 1].key(), out0[p as int].key()));
                                lemma_not_before_transitive(k, out0[p as int].key(), out0[j - 1].key());
                            }
                            lemma_before_total(k, out0[p as int].key());
                            assert(!before(out0[p as int].key(), k));
                        }
                    }
                }
            },
            None => {},
        }
    }
    proof {
        assert(rest@ =~= Seq::<T>::empty());
        assert(rest@.to_multiset() =~= Multiset::<T>::empty()) by {
            assert forall|x: T| rest@.to_multiset().count(x) == 0 by {
                to_multiset_contains(rest@, x);
            }
        }
        assert(out@.to_multiset() =~= all.to_multiset());
    }
    out
}

/// Lists in order without a key twice that hold the same keys and records are
/// the same list.
pub proof fn lemma_arrangement_unique<T: Keyed>(a: Seq<T>, b: Seq<T>)
    requires
        in_order(a),
        in_order(b),
        a.to_multiset() == b.to_multiset(),
        forall|i: int, j: int|
            0 <= i < a.len() && 0 <= j < a.len() && (#[trigger] a[i]).key() == (
            #[trigger] a[j]).key() ==> i == j,
    ensures
        a == b,
    decreases a.len(),
{
    to_multiset_len(a);
    to_multiset_len(b);
    if a.len() == 0 {
        assert(a =~= b);
    } else {
        let x = a.last();
        assert(a.contains(x));
        to_multiset_contains(a, x);
        to_multiset_contains(b, x);
        let k = choose|k: int| 0 <= k < b.len() && b[k] == x;
        let y = b.last();
        assert(b.contains(y));
        to_multiset_contains(b, y);
        to_multiset_contains(a, y);
        let j = choose|j: int| 0 <= j < a.len() && a[j] == y;
        if j < a.len() - 1 {
            assert(!before(x.key(), y.key()));
            if k < b.len() - 1 {
                assert(!before(b[b.len() - 1].key(), b[k].key()));
            }
            lemma_before_total(x.key(), y.key());
            assert(a[j].key() == a[a.len() - 1].key());
            assert(false);
        }
        assert(x == y);
        let p = a.drop_last();
        let q = b.drop_last();
        assert(a =~= p.push(x));
        assert(b =~= q.push(x));
        to_multiset_build(p, x);
        to_multiset_build(q, x);
        assert(p.to_multiset() =~= q.to_multiset()) by {
            assert forall|z: T| p.to_multiset().count(z) == q.to_multiset().count(z) by {
                assert(p.to_multiset().insert(x).count(z) == q.to_multiset().insert(x).count(z));
            }
        }
        assert(in_order(p)) by {
            assert forall|i: int, j: int| 0 <= i < j < p.len() implies !before(
                (#[trigger] p[j]).key(),
                (#[trigger] p[i]).key(),
            ) by {
                assert(!before(a[j].key(), a[i].key()));
            }
        }
        assert(in_order(q)) by {
            assert forall|i: int, j: int| 0 <= i < j < q.len() implies !before(
                (#[trigger] q[j]).key(),
                (#[trigger] q[i]).key(),
            ) by {
                assert(!before(b[j].key(), b[i].key()));
            }
        }
        assert forall|i: int, j: int|
            0 <= i < p.len() && 0 <= j < p.len() && (#[trigger] p[i]).key() == (
            #[trigger] p[j]).key() implies i == j by {
            assert(a[i].key() == a[j].key());
        }
        lemma_arrangement_unique(p, q);
    }
}

/// Each key comes before the next.
pub open spec fn ascending_by<A>(t: Seq<A>, key: spec_fn(A) -> Seq<u8>) -> bool {
    forall|i: int, j: int|
        0 <= i < j < t.len() ==> before(key(#[trigger] t[i]), key(#[trigger] t[j]))
}

/// The same items, however often and in whatever order.
pub open spec fn same_items<A>(a: Seq<A>, b: Seq<A>) -> bool {
    forall|x: A|
        #![trigger a.contains(x)]
        #![trigger b.contains(x)]
        a.contains(x) <==> b.contains(x)
}

/// No key twice.
pub open spec fn distinct_by<A>(s: Seq<A>, key: spec_fn(A) -> Seq<u8>) -> bool {
    forall|i: int, j: int|
        0 <= i < s.len() && 0 <= j < s.len() && key(#[trigger] s[i]) == key(#[trigger] s[j]) ==> i
            == j
}

/// `t` holds the items of `s`, keys ascending.
pub open spec fn is_arranged<A>(t: Seq<A>, s: Seq<A>, key: spec_fn(A) -> Seq<u8>) -> bool {
    ascending_by(t, key) && same_items(t, s)
}

/// The items of `s`, keys ascending.
pub open spec fn arranged<A>(s: Seq<A>, key: spec_fn(A) -> Seq<u8>) -> Seq<A> {
    choose|t: Seq<A>| is_arranged(t, s, key)
}

/// Ascending lists of the same items are the same list.
pub proof fn lemma_ascending_unique<A>(a: Seq<A>, b: Seq<A>, key: spec_fn(A) -> Seq<u8>)
    requires
        ascending_by(a, key),
        ascending_by(b, key),
        same_items(a, b),
    ensures
        a == b,
    decreases a.len(),
{
    if a.len() == 0 {
        if b.len() > 0 {
            assert(b.contains(b[0]));
        }
        assert(a =~= b);
    } else {
        let x = a.last();
        assert(a.contains(x));
        let k = choose|k: int| 0 <= k < b.len() && b[k] == x;
        let y = b.last();
        assert(b.contains(y));
        let j = choose|j: int| 0 <= j < a.len() && a[j] == y;
        lemma_before_total(key(x), key(y));
        if j < a.len() - 1 {
            assert(before(key(a[j]), key(a[a.len() - 1])));
            if k < b.len() - 1 {
                assert(before(key(b[k]), key(b[b.len() - 1])));
            }
            lemma_before_irreflexive(key(x));
            assert(false);
        }
        assert(x == y);
        let p = a.drop_last();
        let q = b.drop_last();
        assert forall|z: A| p.contains(z) implies #[trigger] q.contains(z) by {
            lemma_front_moves(a, b, key, z);
        }
        assert forall|z: A| q.contains(z) implies #[trigger] p.contains(z) by {
            lemma_front_moves(b, a, key, z);
        }
        assert(ascending_by(p, key)) by {
            assert forall|i: int, j: int| 0 <= i < j < p.len() implies before(
                key(#[trigger] p[i]),
                key(#[trigger] p[j]),
            ) by {
                assert(before(key(a[i]), key(a[j])));
            }
        }
        assert(ascending_by(q, key)) by {
            assert forall|i: int, j: int| 0 <= i < j < q.len() implies before(
                key(#[trigger] q[i]),
                key(#[trigger] q[j]),
            ) by {
                assert(before(key(b[i]), key(b[j])));
            }
        }
        lemma_ascending_unique(p, q, key);
        assert(a =~= p.push(x));
        assert(b =~= q.push(x));
    }
}

proof fn lemma_front_moves<A>(a: Seq<A>, b: Seq<A>, key: spec_fn(A) -> Seq<u8>, z: A)
    requires
        ascending_by(a, key),
        same_items(a, b),
        a.len() > 0,
        b.len() > 0,
        a.last() == b.last(),
        a.drop_last().contains(z),
    ensures
        b.drop_last().contains(z),
{
    let i = choose|i: int| 0 <= i < a.drop_last().len() && a.drop_last()[i] == z;
    assert(a[i] == z);
    assert(a.contains(z));
    assert(before(key(a[i]), key(a[a.len() - 1])));
    lemma_before_irreflexive(key(z));
    let k = choose|k: int| 0 <= k < b.len() && b[k] == z;
    assert(k < b.len() - 1);
    assert(b.drop_last()[k] == z);
}

proof fn lemma_insert<A>(t: Seq<A>, x: A, key: spec_fn(A) -> Seq<u8>) -> (u: Seq<A>)
    requires
        ascending_by(t, key),
        forall|i: int| 0 <= i < t.len() ==> key(#[trigger] t[i]) != key(x),
    ensures
        ascending_by(u, key),
        same_items(u, t.push(x)),
    decreases t.len(),
{
    if t.len() == 0 || before(key(t.last()), key(x)) {
        let u = t.push(x);
        assert forall|i: int, j: int| 0 <= i < j < u.len() implies before(
            key(#[trigger] u[i]),
            key(#[trigger] u[j]),
        ) by {
            if j < t.len() {
                assert(before(key(t[i]), key(t[j])));
            } else if i < t.len() - 1 {
                assert(before(key(t[i]), key(t[t.len() - 1])));
                lemma_before_transitive(key(t[i]), key(t.last()), key(x));
            }
        }
        u
    } else {
        let f = t.drop_last();
        let y = t.last();
        assert(ascending_by(f, key)) by {
            assert forall|i: int, j: int| 0 <= i < j < f.len() implies before(
                key(#[trigger] f[i]),
                key(#[trigger] f[j]),
            ) by {
                assert(before(key(t[i]), key(t[j])));
            }
        }
        assert forall|i: int| 0 <= i < f.len() implies key(#[trigger] f[i]) != key(x) by {
            assert(key(t[i]) != key(x));
        }
        let v = lemma_insert(f, x, key);
        let u = v.push(y);
        assert(key(t[t.len() - 1]) != key(x));
        lemma_before_total(key(y), key(x));
        assert forall|i: int| 0 <= i < v.len() implies before(key(#[trigger] v[i]), key(y)) by {
            assert(v.contains(v[i]));
            assert(f.push(x).contains(v[i]));
            let k = choose|k: int| 0 <= k < f.push(x).len() && f.push(x)[k] == v[i];
            if k < f.len() {
                assert(before(key(t[k]), key(t[t.len() - 1])));
            }
        }
        assert forall|i: int, j: int| 0 <= i < j < u.len() implies before(
            key(#[trigger] u[i]),
            key(#[trigger] u[j]),
        ) by {
            if j < v.len() {
                assert(before(key(v[i]), key(v[j])));
            }
        }
        assert forall|z: A| u.contains(z) implies #[trigger] t.push(x).contains(z) by {
            let k = choose|k: int| 0 <= k < u.len() && u[k] == z;
            if k < v.len() {
                assert(v.contains(z));
                let m = choose|m: int| 0 <= m < f.push(x).len() && f.push(x)[m] == z;
                if m < f.len() {
                    assert(t.push(x)[m] == z);
                } else {
                    assert(t.push(x)[t.len() as int] == z);
                }
            } else {
                assert(t.push(x)[t.len() - 1] == z);
            }
        }
        assert forall|z: A| t.push(x).contains(z) implies #[trigger] u.contains(z) by {
            let k = choose|k: int| 0 <= k < t.push(x).len() && t.push(x)[k] == z;
            if k == t.len() - 1 {
                assert(u[v.len() as int] == z);
            } else {
                if k < t.len() {
                    assert(f.push(x)[k] == z);
                } else {
                    assert(f.push(x)[f.len() as int] == z);
                }
                assert(f.push(x).contains(z));
                assert(v.contains(z));
                let m = choose|m: int| 0 <= m < v.len() && v[m] == z;
                assert(u[m] == z);
            }
        }
        u
    }
}

/// Items without a key twice can be arranged.
pub proof fn lemma_arranged<A>(s: Seq<A>, key: spec_fn(A) -> Seq<u8>)
    requires
        distinct_by(s, key),
    ensures
        is_arranged(arranged(s, key), s, key),
    decreases s.len(),
{
    if s.len() == 0 {
        assert(is_arranged(s, s, key));
    } else {
        let f = s.drop_last();
        assert forall|i: int, j: int|
            0 <= i < f.len() && 0 <= j < f.len() && key(#[trigger] f[i]) == key(
                #[trigger] f[j],
            ) implies i == j by {
            assert(key(s[i]) == key(s[j]));
        }
        lemma_arranged(f, key);
        let t = arranged(f, key);
        assert forall|i: int| 0 <= i < t.len() implies key(#[trigger] t[i]) != key(s.last()) by {
            assert(t.contains(t[i]));
            assert(f.contains(t[i]));
            let k = choose|k: int| 0 <= k < f.len() && f[k] == t[i];
            if key(s[k]) == key(s[s.len() - 1]) {
                assert(false);
            }
        }
        let u = lemma_insert(t, s.last(), key);
        assert forall|z: A| u.contains(z) <==> #[trigger] s.contains(z) by {
            if u.contains(z) {
                assert(t.push(s.last()).contains(z));
                let k = choose|k: int|
                    0 <= k < t.push(s.last()).len() && t.push(s.last())[k] == z;
                if k < t.len() {
                    assert(t.contains(z));
                    assert(f.contains(z));
                    let m = choose|m: int| 0 <= m < f.len() && f[m] == z;
                    assert(s[m] == z);
                }
            }
            if s.contains(z) {
                let k = choose|k: int| 0 <= k < s.len() && s[k] == z;
                if k < f.len() {
                    assert(f[k] == z);
                    assert(f.contains(z));
                    assert(t.contains(z));
                    let m = choose|m: int| 0 <= m < t.len() && t[m] == z;
                    assert(t.push(s.last())[m] == z);
                } else {
                    assert(t.push(s.last())[t.len() as int] == z);
                }
                assert(t.push(s.last()).contains(z));
            }
        }
        assert(same_items(u, s)) by {
            assert forall|z: A|
                #![trigger u.contains(z)]
                #![trigger s.contains(z)]
                u.contains(z) <==> s.contains(z) by {}
        }
        assert(is_arranged(u, s, key));
    }
}

/// What is arranged depends on the items only.
pub proof fn lemma_arranged_same<A>(a: Seq<A>, b: Seq<A>, key: spec_fn(A) -> Seq<u8>)
    requires
        distinct_by(a, key),
        distinct_by(b, key),
        same_items(a, b),
    ensures
        arranged(a, key) == arranged(b, key),
{
    lemma_arranged(a, key);
    lemma_arranged(b, key);
    let x = arranged(a, key);
    let y = arranged(b, key);
    assert forall|z: A|
        #![trigger x.contains(z)]
        #![trigger y.contains(z)]
        x.contains(z) <==> y.contains(z) by {
        assert(a.contains(z) <==> b.contains(z));
    }
    lemma_ascending_unique(x, y, key);
}

/// Sorting records without a key twice arranges what they say.
pub proof fn lemma_sorted<T: Keyed, A>(
    out: Seq<T>,
    v: Seq<T>,
    says: spec_fn(T) -> A,
    key: spec_fn(A) -> Seq<u8>,
)
    requires
        is_arrangement(out, v),
        forall|x: T| key(#[trigger] says(x)) == x.key(),
        distinct_by(v.map_values(says), key),
    ensures
        out.map_values(says) == arranged(v.map_values(says), key),
{
    let a = out.map_values(says);
    let b = v.map_values(says);
    assert(v.no_duplicates()) by {
        assert forall|i: int, j: int| 0 <= i < v.len() && 0 <= j < v.len() && i != j implies v[i]
            != v[j] by {
            if v[i] == v[j] {
                assert(key(b[i]) == key(b[j]));
            }
        }
    }
    v.lemma_multiset_has_no_duplicates();
    out.lemma_multiset_has_no_duplicates_conv();
    assert forall|x: A|
        #![trigger a.contains(x)]
        #![trigger b.contains(x)]
        a.contains(x) <==> b.contains(x) by {
        if a.contains(x) {
            let i = choose|i: int| 0 <= i < a.len() && a[i] == x;
            assert(out.contains(out[i]));
            to_multiset_contains(out, out[i]);
            to_multiset_contains(v, out[i]);
            let k = choose|k: int| 0 <= k < v.len() && v[k] == out[i];
            assert(b[k] == x);
        }
        if b.contains(x) {
            let i = choose|i: int| 0 <= i < b.len() && b[i] == x;
            assert(v.contains(v[i]));
            to_multiset_contains(v, v[i]);
            to_multiset_contains(out, v[i]);
            let k = choose|k: int| 0 <= k < out.len() && out[k] == v[i];
            assert(a[k] == x);
        }
    }
    assert forall|i: int, j: int| 0 <= i < j < a.len() implies before(
        key(#[trigger] a[i]),
        key(#[trigger] a[j]),
    ) by {
        assert(!before(out[j].key(), out[i].key()));
        lemma_before_total(out[i].key(), out[j].key());
        if out[i].key() == out[j].key() {
            assert(out.contains(out[i]));
            assert(out.contains(out[j]));
            to_multiset_contains(out, out[i]);
            to_multiset_contains(out, out[j]);
            to_multiset_contains(v, out[i]);
            to_multiset_contains(v, out[j]);
            let k = choose|k: int| 0 <= k < v.len() && v[k] == out[i];
            let m = choose|m: int| 0 <= m < v.len() && v[m] == out[j];
            assert(key(b[k]) == key(b[m]));
            assert(out[i] == out[j]);
        }
        assert(key(says(out[i])) == out[i].key());
        assert(key(says(out[j])) == out[j].key());
    }
    lemma_arranged(b, key);
    let c = arranged(b, key);
    assert forall|x: A|
        #![trigger a.contains(x)]
        #![trigger c.contains(x)]
        a.contains(x) <==> c.contains(x) by {
        assert(a.contains(x) <==> b.contains(x));
    }
    lemma_ascending_unique(a, c, key);
}

/// One text comes before another when it is smaller at the first place where
/// they differ, or when it is a start of the other.
pub proof fn before_is_lexicographic(a: Seq<u8>, b: Seq<u8>, k: int)
    requires
        0 <= k <= a.len(),
        k <= b.len(),
        a.take(k) == b.take(k),
    ensures
        k < a.len() && k < b.len() && a[k] < b[k] ==> before(a, b) && !before(b, a),
        k == a.len() && k < b.len() ==> before(a, b) && !before(b, a),
        k == a.len() && k == b.len() ==> !before(a, b),
    decreases k,
{
    if k > 0 {
        let (c, d) = (a.skip(1), b.skip(1));
        assert(a.take(k)[0] == a[0] && b.take(k)[0] == b[0]);
        assert(c.take(k - 1) =~= a.take(k).skip(1));
        assert(d.take(k - 1) =~= b.take(k).skip(1));
        before_is_lexicographic(c, d, k - 1);
    }
}

/// What is arranged holds the same items as often, and no key comes before an
/// earlier one.
pub proof fn arrangements_ascend<T: Keyed>(s: Seq<T>, of: Seq<T>)
    requires
        is_arrangement(s, of),
    ensures
        s.to_multiset() == of.to_multiset(),
        forall|i: int, j: int|
            0 <= i < j < s.len() ==> (#[trigger] s[i]).key() == (#[trigger] s[j]).key() || before(
                s[i].key(),
                s[j].key(),
            ),
{
    assert forall|i: int, j: int| 0 <= i < j < s.len() implies (#[trigger] s[i]).key() == (
    #[trigger] s[j]).key() || before(s[i].key(), s[j].key()) by {
        assert(!before(s[j].key(), s[i].key()));
        lemma_before_total(s[i].key(), s[j].key());
    }
}

} // verus!
