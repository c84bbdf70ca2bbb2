//! Sorting of samples.
use vstd::multiset::*;
use vstd::prelude::*;
use vstd::seq_lib::*;

verus! {

/// No number is below an earlier one.
pub open spec fn ascends(s: Seq<u64>) -> bool {
    forall|i: int, j: int| 0 <= i < j < s.len() ==> s[i] <= s[j]
}

/// `t` holds the numbers of `s`, each as often, in order.
pub open spec fn is_sorted(t: Seq<u64>, s: Seq<u64>) -> bool {
    ascends(t) && t.to_multiset() == s.to_multiset()
}

/// The numbers of `s` in order.
pub open spec fn sorted(s: Seq<u64>) -> Seq<u64> {
    choose|t: Seq<u64>| is_sorted(t, s)
}

/// Numbers in order that are the same numbers are the same list.
pub proof fn lemma_sorted_unique(a: Seq<u64>, b: Seq<u64>)
    requires
        ascends(a),
        ascends(b),
        a.to_multiset() == b.to_multiset(),
    ensures
        a == b,
    decreases a.len(),
{
    broadcast use group_to_multiset_ensures;

    to_multiset_len(a);
    to_multiset_len(b);
    if a.len() == 0 {
        assert(a =~= b);
    } else {
        assert(a.contains(a[0]));
        assert(b.contains(b[0]));
        assert(b.to_multiset().count(a[0]) > 0);
        assert(a.to_multiset().count(b[0]) > 0);
        let j = choose|j: int| 0 <= j < b.len() && b[j] == a[0];
        let i = choose|i: int| 0 <= i < a.len() && a[i] == b[0];
        assert(a[0] == b[0]);
        assert(a.remove(0).to_multiset() =~= b.remove(0).to_multiset());
        lemma_sorted_unique(a.remove(0), b.remove(0));
        assert(a =~= seq![a[0]] + a.remove(0));
        assert(b =~= seq![b[0]] + b.remove(0));
    }
}

/// Numbers can be put in order.
pub proof fn lemma_sorted(s: Seq<u64>)
    ensures
        is_sorted(sorted(s), s),
{
    let below = |a: u64, b: u64| a <= b;
    s.lemma_sort_by_ensures(below);
    let t = s.sort_by(below);
    assert forall|i: int, j: int| 0 <= i < j < t.len() implies t[i] <= t[j] by {
        assert(below(t[i], t[j]));
    }
    assert(is_sorted(t, s));
}

/// Two lists in order, in one list in order.
fn merge(a: &Vec<u64>, b: &Vec<u64>) -> (r: Vec<u64>)
    requires
        ascends(a@),
        ascends(b@),
    ensures
        is_sorted(r@, a@ + b@),
{
    let mut out: Vec<u64> = Vec::new();
    let mut i: usize = 0;
    let mut j: usize = 0;
    proof {
        assert(a@.take(0) + b@.take(0) =~= Seq::empty());
        assert(out@ =~= Seq::empty());
    }
    while i < a.len() || j < b.len()
        invariant
            ascends(a@),
            ascends(b@),
            ascends(out@),
            0 <= i <= a.len(),
            0 <= j <= b.len(),
            out@.to_multiset() == (a@.take(i as int) + b@.take(j as int)).to_multiset(),
            forall|k: int, m: int| 0 <= k < out@.len() && i <= m < a.len() ==> out@[k] <= a@[m],
            forall|k: int, m: int| 0 <= k < out@.len() && j <= m < b.len() ==> out@[k] <= b@[m],
        decreases (a.len() - i) + (b.len() - j),
    {
        broadcast use group_to_multiset_ensures;

        let ghost before = out@;
        let ghost taken = a@.take(i as int) + b@.take(j as int);
        if j >= b.len() || (i < a.len() && a[i] <= b[j]) {
            out.push(a[i]);
            proof {
                let x = a@[i as int];
                assert(out@ =~= before.push(x));
                assert(a@.take(i as int + 1) + b@.take(j as int) =~= taken.insert(i as int, x));
                to_multiset_insert(taken, i as int, x);
            }
            i += 1;
        } else {
            out.push(b[j]);
            proof {
                let x = b@[j as int];
                assert(out@ =~= before.push(x));
                assert(a@.take(i as int) + b@.take(j as int + 1) =~= taken.push(x));
            }
            j += 1;
        }
    }
    proof {
        assert(a@.take(i as int) =~= a@);
        assert(b@.take(j as int) =~= b@);
    }
    out
}

fn sort_between(v: &Vec<u64>, from: usize, to: usize) -> (r: Vec<u64>)
    requires
        from <= to <= v@.len(),
    ensures
        is_sorted(r@, v@.subrange(from as int, to as int)),
    decreases to - from,
{
    let ghost whole = v@.subrange(from as int, to as int);
    if to - from <= 1 {
        let mut out: Vec<u64> = Vec::new();
        if from < to {
            out.push(v[from]);
        }
        assert(out@ =~= whole);
        return out;
    }
    let mid: usize = from + (to - from) / 2;
    let a = sort_between(v, from, mid);
    let b = sort_between(v, mid, to);
    let out = merge(&a, &b);
    proof {
        let x = v@.subrange(from as int, mid as int);
        let y = v@.subrange(mid as int, to as int);
        lemma_multiset_commutative(x, y);
        lemma_multiset_commutative(a@, b@);
        assert(x + y =~= whole);
    }
    out
}

/// Sorts numbers.
pub fn sort_numbers(v: &Vec<u64>) -> (r: Vec<u64>)
    ensures
        is_sorted(r@, v@),
        r@ == sorted(v@),
        r@.len() == v@.len(),
{
    let r = sort_between(v, 0, v.len());
    proof {
        assert(v@.subrange(0, v@.len() as int) =~= v@);
        lemma_sorted_unique(r@, sorted(v@));
        to_multiset_len(r@);
        to_multiset_len(v@);
    }
    r
}

} // verus!
