//! Lists of texts, and sorting them.
use crate::order;
use crate::order::{sort_by_key, Keyed};
use vstd::multiset::*;
use vstd::prelude::*;
use vstd::seq_lib::*;
use vstd::utf8::*;

verus! {

impl Keyed for String {
    open spec fn key(&self) -> Seq<u8> {
        encode_utf8(self@)
    }

    fn get_key(&self) -> &[u8] {
        self.as_str().as_bytes()
    }
}

/// What a list of strings says.
pub open spec fn texts(v: Seq<String>) -> Seq<Seq<char>> {
    v.map_values(|s: String| s@)
}

/// No text comes before an earlier one.
pub open spec fn ascend(t: Seq<Seq<char>>) -> bool {
    forall|i: int, j: int|
        0 <= i < j < t.len() ==> !order::before(
            encode_utf8(#[trigger] t[j]),
            encode_utf8(#[trigger] t[i]),
        )
}

/// `t` holds the texts of `s`, each as often, in order.
pub open spec fn is_sorted(t: Seq<Seq<char>>, s: Seq<Seq<char>>) -> bool {
    ascend(t) && t.to_multiset() == s.to_multiset()
}

/// The texts of `s` in order.
pub open spec fn sorted(s: Seq<Seq<char>>) -> Seq<Seq<char>> {
    choose|t: Seq<Seq<char>>| is_sorted(t, s)
}

proof fn lemma_remove_from<A>(s: Seq<A>, i: int)
    requires
        0 <= i < s.len(),
    ensures
        s.remove(i).to_multiset() == s.to_multiset().remove(s[i]),
        s.contains(s[i]),
{
    broadcast use group_to_multiset_ensures;

}

/// A list that holds the same items as often as another has its length and its
/// items.
proof fn lemma_same_multiset<A>(a: Seq<A>, b: Seq<A>, i: int)
    requires
        a.to_multiset() == b.to_multiset(),
        0 <= i < a.len(),
    ensures
        a.len() == b.len(),
        b.contains(a[i]),
{
    broadcast use group_to_multiset_ensures;

    to_multiset_len(a);
    to_multiset_len(b);
    assert(a.contains(a[i]));
    assert(a.to_multiset().count(a[i]) > 0);
    assert(b.to_multiset().count(a[i]) > 0);
}

/// Mapping the items of two lists that hold the same gives the same.
proof fn lemma_map_multiset<A, B>(a: Seq<A>, b: Seq<A>, f: spec_fn(A) -> B)
    requires
        a.to_multiset() == b.to_multiset(),
    ensures
        a.map_values(f).to_multiset() == b.map_values(f).to_multiset(),
    decreases a.len(),
{
    broadcast use group_to_multiset_ensures;

    if a.len() == 0 {
        to_multiset_len(a);
        to_multiset_len(b);
        assert(a.map_values(f) =~= b.map_values(f));
    } else {
        lemma_same_multiset(a, b, 0);
        let j = choose|j: int| 0 <= j < b.len() && b[j] == a[0];
        lemma_remove_from(a, 0);
        lemma_remove_from(b, j);
        lemma_map_multiset(a.remove(0), b.remove(j), f);
        let fa = a.map_values(f);
        let fb = b.map_values(f);
        assert(a.remove(0).map_values(f) =~= fa.remove(0));
        assert(b.remove(j).map_values(f) =~= fb.remove(j));
        lemma_remove_from(fa, 0);
        lemma_remove_from(fb, j);
        assert(fa[0] == fb[j]);
        assert(fa.to_multiset().count(fa[0]) > 0);
        assert(fb.to_multiset().count(fa[0]) > 0);
        assert(fa.to_multiset() =~= fa.to_multiset().remove(fa[0]).insert(fa[0]));
        assert(fb.to_multiset() =~= fb.to_multiset().remove(fa[0]).insert(fa[0]));
    }
}

/// Lists in order that hold the same texts are the same list.
pub proof fn lemma_sorted_unique(a: Seq<Seq<char>>, b: Seq<Seq<char>>)
    requires
        ascend(a),
        ascend(b),
        a.to_multiset() == b.to_multiset(),
    ensures
        a == b,
    decreases a.len(),
{
    broadcast use group_to_multiset_ensures;

    if a.len() == 0 {
        to_multiset_len(a);
        to_multiset_len(b);
        assert(a =~= b);
    } else {
        lemma_same_multiset(a, b, 0);
        lemma_same_multiset(b, a, 0);
        let j = choose|j: int| 0 <= j < b.len() && b[j] == a[0];
        let i = choose|i: int| 0 <= i < a.len() && a[i] == b[0];
        let x = encode_utf8(a[0]);
        let y = encode_utf8(b[0]);
        order::lemma_before_irreflexive(x);
        assert(!order::before(x, y));
        assert(!order::before(y, x));
        order::lemma_before_total(x, y);
        encode_utf8_decode_utf8(a[0]);
        encode_utf8_decode_utf8(b[0]);
        assert(a[0] == b[0]);
        lemma_remove_from(a, 0);
        lemma_remove_from(b, 0);
        lemma_sorted_unique(a.remove(0), b.remove(0));
        assert(a =~= seq![a[0]] + a.remove(0));
        assert(b =~= seq![b[0]] + b.remove(0));
    }
}

/// Sorts texts byte-wise.
pub fn sort_texts(v: Vec<String>) -> (r: Vec<String>)
    ensures
        is_sorted(texts(r@), texts(v@)),
        texts(r@) == sorted(texts(v@)),
{
    let ghost all = v@;
    let r = sort_by_key(v);
    proof {
        lemma_map_multiset(r@, all, |s: String| s@);
        let t = texts(r@);
        assert forall|i: int, j: int| 0 <= i < j < t.len() implies !order::before(
            encode_utf8(#[trigger] t[j]),
            encode_utf8(#[trigger] t[i]),
        ) by {
            assert(t[i] == r@[i]@ && t[j] == r@[j]@);
            assert(!order::before(r@[j].key(), r@[i].key()));
        }
        assert(is_sorted(t, texts(all)));
        lemma_sorted_unique(t, sorted(texts(all)));
    }
    r
}

/// Texts in order hold what was to be sorted, each as often, by their bytes.
pub proof fn sorted_texts_ascend(t: Seq<Seq<char>>, s: Seq<Seq<char>>)
    requires
        is_sorted(t, s),
    ensures
        t.to_multiset() == s.to_multiset(),
        forall|i: int, j: int|
            0 <= i < j < t.len() ==> #[trigger] t[i] == #[trigger] t[j] || order::before(
                encode_utf8(t[i]),
                encode_utf8(t[j]),
            ),
{
    assert forall|i: int, j: int| 0 <= i < j < t.len() implies #[trigger] t[i] == #[trigger] t[j]
        || order::before(encode_utf8(t[i]), encode_utf8(t[j])) by {
        order::lemma_before_total(encode_utf8(t[i]), encode_utf8(t[j]));
        encode_utf8_decode_utf8(t[i]);
        encode_utf8_decode_utf8(t[j]);
    }
}

/// A list of strings says each of them, in its place.
pub proof fn lists_say_their_strings(v: Seq<String>, i: int)
    requires
        0 <= i < v.len(),
    ensures
        texts(v).len() == v.len(),
        texts(v)[i] == v[i]@,
{
}

} // verus!
