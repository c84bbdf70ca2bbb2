//! Sorting of small copyable records by rank, and repeated keys.
use vstd::multiset::*;
use vstd::prelude::*;
use vstd::seq_lib::*;

verus! {

/// A record with a key and a rank that orders first by key.
pub trait Ranked: Copy {
    /// The key that must be unique.
    spec fn key(&self) -> u32;

    /// The place in the order.
    spec fn rank(&self) -> u64;

    /// Ranks order first by key.
    proof fn rank_by_key(&self, other: &Self)
        ensures
            self.rank() <= other.rank() ==> self.key() <= other.key(),
            self.key() < other.key() ==> self.rank() < other.rank(),
    ;

    /// The key.
    fn get_key(&self) -> (r: u32)
        ensures
            r == self.key(),
    ;

    /// The rank.
    fn get_rank(&self) -> (r: u64)
        ensures
            r == self.rank(),
    ;
}

/// The keys of records, in order.
pub open spec fn keys<T: Ranked>(s: Seq<T>) -> Seq<u32> {
    Seq::new(s.len(), |i: int| s[i].key())
}

/// How often each key occurs.
pub open spec fn key_bag<T: Ranked>(s: Seq<T>) -> Multiset<u32> {
    keys(s).to_multiset()
}

/// Ranks never fall.
pub open spec fn ranked<T: Ranked>(s: Seq<T>) -> bool {
    forall|i: int, j: int| 0 <= i <= j < s.len() ==> (#[trigger] s[i]).rank() <= (#[trigger] s[j]).rank()
}

/// Keys strictly rise.
pub open spec fn ascending<T: Ranked>(s: Seq<T>) -> bool {
    forall|i: int, j: int| 0 <= i < j < s.len() ==> (#[trigger] s[i]).key() < (#[trigger] s[j]).key()
}

/// `n` occurs more than once.
pub open spec fn repeated(ks: Multiset<u32>, n: u32) -> bool {
    ks.count(n) > 1
}

/// Some key occurs more than once.
pub open spec fn has_repeat(ks: Multiset<u32>) -> bool {
    exists|n: u32| repeated(ks, n)
}

/// `n` is the least key that occurs more than once.
pub open spec fn is_least_repeat(ks: Multiset<u32>, n: u32) -> bool {
    repeated(ks, n) && forall|m: u32| repeated(ks, m) ==> n <= m
}

/// The least key that occurs more than once.
pub open spec fn least_repeat(ks: Multiset<u32>) -> u32 {
    choose|n: u32| is_least_repeat(ks, n)
}

/// Sorts by rank; the records stay the same.
pub fn sort_by_rank<T: Ranked>(v: &Vec<T>) -> (out: Vec<T>)
    ensures
        ranked(out@),
        out@.to_multiset() == v@.to_multiset(),
        key_bag(out@) == key_bag(v@),
{
    let mut out: Vec<T> = Vec::new();
    let mut i: usize = 0;
    proof {
        assert(v@.take(0) =~= out@);
    }
    while i < v.len()
        invariant
            0 <= i <= v.len(),
            ranked(out@),
            out@.len() == i,
            out@.to_multiset() == v@.take(i as int).to_multiset(),
            keys(out@).to_multiset() == keys(v@.take(i as int)).to_multiset(),
        decreases v.len() - i,
    {
        let x = v[i];
        let r: u64 = x.get_rank();
        let mut p: usize = out.len();
        while p > 0
            invariant
                0 <= p <= out.len(),
                ranked(out@),
                r == x.rank(),
                forall|j: int| p <= j < out@.len() ==> r < (#[trigger] out@[j]).rank(),
            ensures
                0 <= p <= out.len(),
                forall|j: int| p <= j < out@.len() ==> r < (#[trigger] out@[j]).rank(),
                forall|j: int| 0 <= j < p ==> (#[trigger] out@[j]).rank() <= r,
            decreases p,
        {
            if out[p - 1].get_rank() <= r {
                assert forall|j: int| 0 <= j < p implies (#[trigger] out@[j]).rank() <= r by {
                    assert(out@[j].rank() <= out@[p - 1].rank());
                }
                break;
            }
            p -= 1;
        }
        let ghost before = out@;
        out.insert(p, x);
        proof {
            assert(out@ =~= before.insert(p as int, x));
            to_multiset_insert(before, p as int, x);
            assert(keys(out@) =~= keys(before).insert(p as int, x.key()));
            to_multiset_insert(keys(before), p as int, x.key());
            assert(v@.take(i as int + 1) =~= v@.take(i as int).push(x));
            to_multiset_build(v@.take(i as int), x);
            assert(keys(v@.take(i as int + 1)) =~= keys(v@.take(i as int)).push(x.key()));
            to_multiset_build(keys(v@.take(i as int)), x.key());
        }
        i += 1;
    }
    proof {
        assert(v@.take(i as int) =~= v@);
    }
    out
}

/// The first key that two neighbours share.
pub fn find_repeat<T: Ranked>(v: &Vec<T>) -> (r: Option<u32>)
    requires
        ranked(v@),
    ensures
        match r {
            Some(n) => has_repeat(key_bag(v@)) && n == least_repeat(key_bag(v@)),
            None => !has_repeat(key_bag(v@)) && ascending(v@),
        },
{
    let mut i: usize = 1;
    while i < v.len()
        invariant
            1 <= i,
            v.len() > 0 ==> i <= v.len(),
            ranked(v@),
            forall|a: int, b: int|
                0 <= a < b < i && b < v@.len() ==> (#[trigger] v@[a]).key() < (#[trigger] v@[b]).key(),
        decreases v.len() - i,
    {
        let k: u32 = v[i - 1].get_key();
        if k == v[i].get_key() {
            proof {
                lemma_least_repeat(v@, i as int);
            }
            return Some(k);
        }
        proof {
            v@[i - 1].rank_by_key(&v@[i as int]);
        }
        i += 1;
    }
    proof {
        lemma_ascending_unique(v@);
    }
    None
}

/// Keys without duplicates have no repeat.
pub proof fn lemma_unique_no_repeat(ks: Seq<u32>)
    requires
        ks.no_duplicates(),
    ensures
        !has_repeat(ks.to_multiset()),
{
    ks.lemma_multiset_has_no_duplicates();
    assert forall|n: u32| !repeated(ks.to_multiset(), n) by {
        if repeated(ks.to_multiset(), n) {
            assert(ks.to_multiset().contains(n));
        }
    }
}

/// Of two records in ascending order the later has the greater key.
pub proof fn lemma_ascending_pair<T: Ranked>(s: Seq<T>, i: int, j: int)
    requires
        ascending(s),
        0 <= i < j < s.len(),
    ensures
        s[i].key() < s[j].key(),
{
}

/// With strictly rising keys no key occurs twice.
pub proof fn lemma_ascending_unique<T: Ranked>(s: Seq<T>)
    requires
        ascending(s),
    ensures
        !has_repeat(key_bag(s)),
{
    let ks = keys(s);
    assert(ks.no_duplicates()) by {
        assert forall|i: int, j: int| 0 <= i < ks.len() && 0 <= j < ks.len() && i != j implies ks[i]
            != ks[j] by {
            assert(s[i].key() == ks[i] && s[j].key() == ks[j]);
        }
    }
    lemma_unique_no_repeat(ks);
}

proof fn lemma_least_repeat<T: Ranked>(s: Seq<T>, i: int)
    requires
        ranked(s),
        0 < i < s.len(),
        s[i - 1].key() == s[i].key(),
        forall|a: int, b: int|
            0 <= a < b < i ==> (#[trigger] s[a]).key() < (#[trigger] s[b]).key(),
    ensures
        has_repeat(key_bag(s)),
        least_repeat(key_bag(s)) == s[i].key(),
{
    let ks = keys(s);
    let n = s[i].key();
    let head = s.take(i);
    let kh = keys(head);
    let kt = ks.skip(i);
    assert(ks =~= kh + kt);
    lemma_multiset_commutative(kh, kt);
    assert(ascending(head));
    lemma_ascending_unique(head);
    assert(kh.contains(n)) by {
        assert(kh[i - 1] == n);
    }
    assert(kt.contains(n)) by {
        assert(kt[0] == n);
    }
    to_multiset_contains(kh, n);
    to_multiset_contains(kt, n);
    assert(repeated(ks.to_multiset(), n));
    assert forall|m: u32| repeated(ks.to_multiset(), m) implies n <= m by {
        if m < n {
            assert(!kt.contains(m)) by {
                assert forall|j: int| 0 <= j < kt.len() implies kt[j] != m by {
                    s[i].rank_by_key(&s[i + j]);
                    assert(kt[j] == s[i + j].key());
                }
            }
            to_multiset_contains(kt, m);
            assert(!repeated(kh.to_multiset(), m));
        }
    }
    assert(is_least_repeat(ks.to_multiset(), n));
    let c = least_repeat(ks.to_multiset());
    assert(is_least_repeat(ks.to_multiset(), c));
}

/// A key occurs more than once exactly when two records have it.
pub proof fn repeats_are_two_records<T: Ranked>(s: Seq<T>)
    ensures
        has_repeat(key_bag(s)) <==> exists|i: int, j: int|
            0 <= i < j < s.len() && (#[trigger] s[i]).key() == (#[trigger] s[j]).key(),
{
    let k = keys(s);
    if has_repeat(key_bag(s)) {
        let n = choose|n: u32| repeated(key_bag(s), n);
        let (i, j) = lemma_two_places(k, n);
        assert(s[i].key() == s[j].key());
    }
    if exists|i: int, j: int|
        0 <= i < j < s.len() && (#[trigger] s[i]).key() == (#[trigger] s[j]).key() {
        let (i, j) = choose|i: int, j: int|
            0 <= i < j < s.len() && (#[trigger] s[i]).key() == (#[trigger] s[j]).key();
        lemma_counted_twice(k, i, j);
        assert(repeated(key_bag(s), k[i]));
    }
}

proof fn lemma_two_places(k: Seq<u32>, n: u32) -> (r: (int, int))
    requires
        k.to_multiset().count(n) > 1,
    ensures
        0 <= r.0 < r.1 < k.len(),
        k[r.0] == n,
        k[r.1] == n,
    decreases k.len(),
{
    broadcast use group_to_multiset_ensures;

    if k.len() == 0 {
        to_multiset_len(k);
        assert(k.to_multiset().count(n) == 0);
        (0, 0)
    } else {
        let front = k.drop_last();
        to_multiset_build(front, k.last());
        assert(front.push(k.last()) =~= k);
        if k.last() == n {
            assert(front.to_multiset().count(n) > 0);
            assert(front.contains(n));
            let i = choose|i: int| 0 <= i < front.len() && front[i] == n;
            (i, k.len() - 1)
        } else {
            let r = lemma_two_places(front, n);
            r
        }
    }
}

proof fn lemma_counted_twice(k: Seq<u32>, i: int, j: int)
    requires
        0 <= i < j < k.len(),
        k[i] == k[j],
    ensures
        k.to_multiset().count(k[i]) > 1,
    decreases k.len(),
{
    broadcast use group_to_multiset_ensures;

    let front = k.drop_last();
    to_multiset_build(front, k.last());
    assert(front.push(k.last()) =~= k);
    if j == k.len() - 1 {
        assert(front[i] == k[i]);
        assert(front.contains(k[i]));
        assert(front.to_multiset().count(k[i]) > 0);
    } else {
        lemma_counted_twice(front, i, j);
    }
}

} // verus!
