//! Snapshot-scoped path and authority intern table.
use super::CapsError;
use crate::path;
use crate::text;
use vstd::prelude::*;

verus! {

/// Snapshot-scoped intern id of a canonical path.
#[derive(Clone, Copy, PartialEq, Eq, Structural, PartialOrd, Ord, Hash, Debug)]
pub struct PathId(u32);

impl View for PathId {
    type V = u32;

    closed spec fn view(&self) -> u32 {
        self.0
    }
}

impl PathId {
    /// Raw intern id.
    #[must_use]
    pub fn as_u32(self) -> (r: u32)
        ensures
            r == self@,
    {
        self.0
    }
}

/// The path id with this number.
pub closed spec fn path_id(n: u32) -> PathId {
    PathId(n)
}

/// [`path_id`] gives the id with that number.
pub proof fn lemma_path_id(n: u32)
    ensures
        path_id(n)@ == n,
{
}

/// A path id is its number.
pub proof fn lemma_path_id_ext(a: PathId, b: PathId)
    requires
        a@ == b@,
    ensures
        a == b,
{
}

/// Snapshot-scoped intern id of a `host:port` authority.
#[derive(Clone, Copy, PartialEq, Eq, Structural, PartialOrd, Ord, Hash, Debug)]
pub struct AuthorityId(u32);

impl View for AuthorityId {
    type V = u32;

    closed spec fn view(&self) -> u32 {
        self.0
    }
}

impl AuthorityId {
    /// Raw intern id.
    #[must_use]
    pub fn as_u32(self) -> (r: u32)
        ensures
            r == self@,
    {
        self.0
    }
}

/// The authority id with this number.
pub closed spec fn authority_id(n: u32) -> AuthorityId {
    AuthorityId(n)
}

/// [`authority_id`] gives the id with that number.
pub proof fn lemma_authority_id(n: u32)
    ensures
        authority_id(n)@ == n,
{
}

/// An authority id is its number.
pub proof fn lemma_authority_id_ext(a: AuthorityId, b: AuthorityId)
    requires
        a@ == b@,
    ensures
        a == b,
{
}

#[derive(Debug)]
struct PathEntry {
    path: Vec<u8>,
    /// Ancestors from immediate parent up to root (does not include self).
    parent_chain: Vec<PathId>,
}

/// Snapshot-scoped intern table.
///
/// Prefix containment is precomputed: the table stores each path's parent
/// chain as ids, so containment is an id comparison.
#[derive(Debug)]
pub struct Interner {
    paths: Vec<PathEntry>,
    authorities: Vec<String>,
}

/// What an [`Interner`] holds: the paths and the authorities, each at the
/// index that is its id.
pub ghost struct InternTable {
    pub paths: Seq<Seq<u8>>,
    pub authorities: Seq<Seq<char>>,
}

/// The number of ids that 32 bits can tell apart.
pub open spec fn id_space() -> nat {
    0x1_0000_0000
}

/// The path at index `i` is the path `p`.
pub open spec fn names_path(paths: Seq<Seq<u8>>, i: int, p: Seq<u8>) -> bool {
    0 <= i < paths.len() && path::components(paths[i]) == path::components(p)
}

/// Some entry is the path `p`.
pub open spec fn has_path(paths: Seq<Seq<u8>>, p: Seq<u8>) -> bool {
    exists|i: int| names_path(paths, i, p)
}

/// The table after `p` has been interned: `p` at the end, and before it those
/// of its ancestors that were missing, the shortest first.
pub open spec fn with_path(paths: Seq<Seq<u8>>, p: Seq<u8>) -> Seq<Seq<u8>>
    decreases p.len(),
{
    if has_path(paths, p) {
        paths
    } else {
        match path::parent(p) {
            Some(q) => {
                proof {
                    path::lemma_parent(p);
                }
                if q.len() == 0 {
                    paths.push(p)
                } else {
                    with_path(paths, q).push(p)
                }
            },
            None => paths.push(p),
        }
    }
}

/// The table after `a` has been interned.
pub open spec fn with_authority(authorities: Seq<Seq<char>>, a: Seq<char>) -> Seq<Seq<char>> {
    if authorities.contains(a) {
        authorities
    } else {
        authorities.push(a)
    }
}

/// The table after each of `ps` has been interned in turn.
pub open spec fn with_paths(paths: Seq<Seq<u8>>, ps: Seq<Seq<u8>>) -> Seq<Seq<u8>>
    decreases ps.len(),
{
    if ps.len() == 0 {
        paths
    } else {
        with_path(with_paths(paths, ps.drop_last()), ps.last())
    }
}

/// The table after each of `names` has been interned in turn.
pub open spec fn with_authorities(
    authorities: Seq<Seq<char>>,
    names: Seq<Seq<char>>,
) -> Seq<Seq<char>>
    decreases names.len(),
{
    if names.len() == 0 {
        authorities
    } else {
        with_authority(with_authorities(authorities, names.drop_last()), names.last())
    }
}

/// The id of the path `p`.
pub open spec fn path_index(paths: Seq<Seq<u8>>, p: Seq<u8>) -> u32 {
    choose|i: u32| names_path(paths, i as int, p)
}

/// The id of the authority `a`.
pub open spec fn authority_index(authorities: Seq<Seq<char>>, a: Seq<char>) -> u32 {
    choose|i: u32| i < authorities.len() && #[trigger] authorities[i as int] == a
}

/// No path twice, no authority twice.
pub open spec fn distinct(t: InternTable) -> bool {
    &&& forall|i: int, j: int|
        0 <= i < t.paths.len() && 0 <= j < t.paths.len() && path::components(#[trigger] t.paths[i])
            == path::components(#[trigger] t.paths[j]) ==> i == j
    &&& forall|i: int, j: int|
        0 <= i < t.authorities.len() && 0 <= j < t.authorities.len() && (#[trigger] t.authorities[i])
            == (#[trigger] t.authorities[j]) ==> i == j
}

/// `chain` lists the ids of all proper nonempty prefixes of `p`, the longest
/// first.
pub open spec fn is_chain(paths: Seq<Seq<u8>>, chain: Seq<PathId>, p: Seq<u8>) -> bool {
    let cs = path::components(p);
    &&& chain.len() == if cs.len() == 0 {
        0
    } else {
        cs.len() - 1
    }
    &&& forall|k: int|
        0 <= k < chain.len() ==> (#[trigger] chain[k])@ < paths.len() && path::components(
            paths[chain[k]@ as int],
        ) == cs.take(cs.len() - 1 - k)
}

/// The path with components `y` lies in the directory with components `x`:
/// `/` holds everything.
pub open spec fn holds(x: Seq<Seq<u8>>, y: Seq<Seq<u8>>) -> bool {
    x == seq![path::root()] || path::is_ancestor_or_equal(x, y)
}

impl View for Interner {
    type V = InternTable;

    closed spec fn view(&self) -> InternTable {
        InternTable {
            paths: Seq::new(self.paths@.len(), |i: int| self.paths@[i].path@),
            authorities: Seq::new(self.authorities@.len(), |i: int| self.authorities@[i]@),
        }
    }
}

impl InternTable {
    /// The table with nothing in it.
    pub open spec fn nothing() -> InternTable {
        InternTable { paths: Seq::empty(), authorities: Seq::empty() }
    }

    /// Neither a path nor an authority.
    pub open spec fn is_empty(self) -> bool {
        self.paths.len() == 0 && self.authorities.len() == 0
    }

    /// The same path under every path id and the same authority under every
    /// authority id.
    pub open spec fn same(self, other: InternTable) -> bool {
        &&& self.paths.len() == other.paths.len()
        &&& forall|i: int|
            0 <= i < self.paths.len() ==> path::components(#[trigger] self.paths[i])
                == path::components(other.paths[i])
        &&& self.authorities == other.authorities
    }

    /// Every nonempty prefix of a path in the table is in the table.
    pub open spec fn closed_upward(self) -> bool {
        forall|i: int, n: int|
            0 <= i < self.paths.len() && 0 < n < path::components(self.paths[i]).len()
                ==> exists|j: int|
                0 <= j < self.paths.len() && path::components(#[trigger] self.paths[j])
                    == #[trigger] path::components(self.paths[i]).take(n)
    }
}

impl Interner {
    /// Ids are unique and fit in 32 bits, and the parent chains are right.
    pub closed spec fn wf(&self) -> bool {
        &&& distinct(self@)
        &&& self@.paths.len() <= id_space()
        &&& self@.authorities.len() <= id_space()
        &&& forall|i: int|
            0 <= i < self.paths@.len() ==> is_chain(
                self@.paths,
                (#[trigger] self.paths@[i]).parent_chain@,
                self.paths@[i].path@,
            )
    }

    /// What [`Interner::wf`] says of the table.
    pub proof fn lemma_wf(&self)
        requires
            self.wf(),
        ensures
            distinct(self@),
            self@.paths.len() <= id_space(),
            self@.authorities.len() <= id_space(),
            self@.closed_upward(),
    {
        let t = self@;
        assert forall|i: int, n: int|
            0 <= i < t.paths.len() && 0 < n < path::components(t.paths[i]).len() implies exists|
            j: int,
        |
            0 <= j < t.paths.len() && path::components(#[trigger] t.paths[j])
                == #[trigger] path::components(t.paths[i]).take(n) by {
            let chain = self.paths@[i].parent_chain@;
            let cs = path::components(t.paths[i]);
            assert(is_chain(t.paths, chain, self.paths@[i].path@));
            let k = cs.len() - 1 - n;
            assert(chain[k]@ < t.paths.len());
            assert(path::components(t.paths[chain[k]@ as int]) == cs.take(n));
        }
    }

    /// Empty table.
    #[must_use]
    pub fn empty() -> (r: Interner)
        ensures
            r.wf(),
            r@ == InternTable::nothing(),
    {
        let r = Interner { paths: Vec::new(), authorities: Vec::new() };
        assert(r@.paths =~= Seq::<Seq<u8>>::empty());
        assert(r@.authorities =~= Seq::<Seq<char>>::empty());
        r
    }

    /// Empty table.
    #[must_use]
    pub fn new() -> (r: Interner)
        ensures
            r.wf(),
            r@ == InternTable::nothing(),
    {
        Self::empty()
    }

    /// True when nothing has been interned.
    #[must_use]
    pub fn is_empty(&self) -> (r: bool)
        ensures
            r == self@.is_empty(),
    {
        self.paths.len() == 0 && self.authorities.len() == 0
    }

    /// True when both tables hold the same paths and authorities under the
    /// same ids.
    #[must_use]
    pub fn same_snapshot(&self, other: &Interner) -> (r: bool)
        ensures
            r == self@.same(other@),
    {
        if self.paths.len() != other.paths.len() || self.authorities.len()
            != other.authorities.len() {
            assert(self@.authorities.len() == self.authorities@.len());
            assert(other@.authorities.len() == other.authorities@.len());
            return false;
        }
        let mut i: usize = 0;
        while i < self.paths.len()
            invariant
                0 <= i <= self.paths.len(),
                self.paths.len() == other.paths.len(),
                forall|j: int|
                    0 <= j < i ==> path::components(#[trigger] self@.paths[j]) == path::components(
                        other@.paths[j],
                    ),
            decreases self.paths.len() - i,
        {
            if !path::same_path(self.paths[i].path.as_slice(), other.paths[i].path.as_slice()) {
                assert(path::components(self@.paths[i as int]) != path::components(
                    other@.paths[i as int],
                ));
                return false;
            }
            i += 1;
        }
        let mut k: usize = 0;
        while k < self.authorities.len()
            invariant
                0 <= k <= self.authorities.len(),
                self.authorities.len() == other.authorities.len(),
                forall|j: int| 0 <= j < k ==> self@.authorities[j] == other@.authorities[j],
            decreases self.authorities.len() - k,
        {
            if !text::str_eq(self.authorities[k].as_str(), other.authorities[k].as_str()) {
                assert(self@.authorities[k as int] != other@.authorities[k as int]);
                return false;
            }
            k += 1;
        }
        assert(self@.authorities =~= other@.authorities);
        true
    }

    /// Intern a canonical path, growing the table. The parent chain is
    /// recorded here. Paths must already be absolute and free of `..` / `.`
    /// components; callers that accept untrusted strings should use
    /// [`validate_canonical_path`] first.
    pub fn intern_path(&mut self, p: &[u8]) -> (r: PathId)
        requires
            old(self).wf(),
            with_path(old(self)@.paths, p@).len() <= id_space(),
        ensures
            final(self).wf(),
            final(self)@.paths == with_path(old(self)@.paths, p@),
            final(self)@.authorities == old(self)@.authorities,
            names_path(final(self)@.paths, r@ as int, p@),
        decreases p.len(),
    {
        match self.get_path(p) {
            Some(id) => {
                return id;
            },
            None => {},
        }
        let ghost start = self@;
        let ghost cs = path::components(p@);
        proof {
            path::lemma_parent(p@);
            path::lemma_absolute(p@);
        }
        let parent_chain: Vec<PathId> = match path::parent_of(p) {
            Some(parent) => {
                if parent.len() > 0 {
                    proof {
                        lemma_with_path_len(self@.paths, parent@);
                    }
                    let parent_id = self.intern_path(parent.as_slice());
                    let mut chain: Vec<PathId> = Vec::new();
                    chain.push(parent_id);
                    let up: &[PathId] = self.parent_chain(parent_id);
                    chain.extend_from_slice(up);
                    proof {
                        let pcs = path::components(parent@);
                        assert(pcs == cs.drop_last());
                        path::lemma_no_components(parent@);
                        assert(chain@ =~= seq![parent_id] + up@);
                        assert forall|k: int| 0 <= k < chain@.len() implies (#[trigger] chain@[k])@
                            < self@.paths.len() && path::components(
                            self@.paths[chain@[k]@ as int],
                        ) == cs.take(cs.len() - 1 - k) by {
                            if k == 0 {
                                assert(cs.drop_last() =~= cs.take(cs.len() - 1));
                            } else {
                                assert(chain@[k] == up@[k - 1]);
                                assert(pcs.take(pcs.len() - 1 - (k - 1)) =~= cs.take(
                                    cs.len() - 1 - k,
                                ));
                            }
                        }
                    }
                    chain
                } else {
                    proof {
                        assert(parent@ =~= Seq::<u8>::empty());
                        path::lemma_empty_path();
                    }
                    Vec::new()
                }
            },
            None => {
                proof {
                    if cs.len() > 0 {
                        assert(cs[cs.len() - 1] == path::root());
                        assert(cs.len() == 1);
                    }
                }
                Vec::new()
            },
        };
        assert(is_chain(self@.paths, parent_chain@, p@));
        let ghost mid = self@;
        let ghost entries = self.paths@;
        proof {
            assert(mid.paths.push(p@) == with_path(start.paths, p@));
            assert(!has_path(mid.paths, p@)) by {
                if has_path(mid.paths, p@) {
                    let i = choose|i: int| names_path(mid.paths, i, p@);
                    lemma_with_path_shape(start.paths, p@);
                    if i < start.paths.len() {
                        assert(mid.paths[i] == start.paths[i]);
                        assert(names_path(start.paths, i, p@));
                    } else {
                        assert(with_path(start.paths, p@)[i] == mid.paths[i]);
                        assert(path::components(mid.paths[i]).len() < cs.len());
                    }
                }
            }
        }
        let id = PathId(self.paths.len() as u32);
        let entry = PathEntry { path: vstd::slice::slice_to_vec(p), parent_chain };
        self.paths.push(entry);
        proof {
            assert(self@.paths =~= mid.paths.push(p@));
            assert(self@.authorities =~= mid.authorities);
            assert forall|i: int| 0 <= i < self.paths@.len() implies is_chain(
                self@.paths,
                (#[trigger] self.paths@[i]).parent_chain@,
                self.paths@[i].path@,
            ) by {
                if i < entries.len() {
                    assert(self.paths@[i] == entries[i]);
                    assert(is_chain(mid.paths, entries[i].parent_chain@, entries[i].path@));
                }
            }
            assert(distinct(self@)) by {
                assert forall|i: int, j: int|
                    0 <= i < self@.paths.len() && 0 <= j < self@.paths.len() && path::components(
                        #[trigger] self@.paths[i],
                    ) == path::components(#[trigger] self@.paths[j]) implies i == j by {
                    if i < mid.paths.len() && j < mid.paths.len() {
                        assert(self@.paths[i] == mid.paths[i] && self@.paths[j] == mid.paths[j]);
                    } else if i < mid.paths.len() {
                        assert(names_path(mid.paths, i, p@));
                    } else if j < mid.paths.len() {
                        assert(names_path(mid.paths, j, p@));
                    }
                }
            }
        }
        id
    }

    /// Intern a lowercase `host:port` with explicit port, growing the table.
    pub fn intern_authority(&mut self, authority: &str) -> (r: AuthorityId)
        requires
            old(self).wf(),
            with_authority(old(self)@.authorities, authority@).len() <= id_space(),
        ensures
            final(self).wf(),
            final(self)@.paths == old(self)@.paths,
            final(self)@.authorities == with_authority(old(self)@.authorities, authority@),
            r@ < final(self)@.authorities.len(),
            final(self)@.authorities[r@ as int] == authority@,
    {
        match self.get_authority(authority) {
            Some(id) => {
                return id;
            },
            None => {},
        }
        let ghost before = self@;
        let ghost entries = self.paths@;
        let id = AuthorityId(self.authorities.len() as u32);
        self.authorities.push(authority.to_owned());
        proof {
            assert(self@.authorities =~= before.authorities.push(authority@));
            assert(self@.paths =~= before.paths);
            assert forall|i: int, j: int|
                0 <= i < self@.authorities.len() && 0 <= j < self@.authorities.len() && (
                #[trigger] self@.authorities[i]) == (#[trigger] self@.authorities[j]) implies i
                == j by {
                if i < before.authorities.len() && j < before.authorities.len() {
                    assert(before.authorities[i] == before.authorities[j]);
                } else if i < before.authorities.len() {
                    assert(before.authorities[i] == authority@);
                } else if j < before.authorities.len() {
                    assert(before.authorities[j] == authority@);
                }
            }
        }
        id
    }

    /// How many paths the table would hold with `p` interned.
    fn paths_with(&self, p: &[u8]) -> (r: u128)
        requires
            self.wf(),
        ensures
            r == with_path(self@.paths, p@).len(),
        decreases p.len(),
    {
        if self.get_path(p).is_some() {
            return self.paths.len() as u128;
        }
        proof {
            path::lemma_parent(p@);
        }
        match path::parent_of(p) {
            Some(parent) => {
                if parent.len() > 0 {
                    proof {
                        lemma_with_path_bound(self@.paths, parent@);
                    }
                    return self.paths_with(parent.as_slice()) + 1;
                }
            },
            None => {},
        }
        self.paths.len() as u128 + 1
    }

    /// Whether the ids still fit with `p` interned.
    pub(crate) fn admits_path(&self, p: &[u8]) -> (r: bool)
        requires
            self.wf(),
        ensures
            r == (with_path(self@.paths, p@).len() <= id_space()),
    {
        self.paths_with(p) <= 0x1_0000_0000
    }

    /// Whether the ids still fit with `authority` interned.
    pub(crate) fn admits_authority(&self, authority: &str) -> (r: bool)
        requires
            self.wf(),
        ensures
            r == (with_authority(self@.authorities, authority@).len() <= id_space()),
    {
        self.get_authority(authority).is_some() || (self.authorities.len() as u64) < 0x1_0000_0000
    }

    /// Lookup only. `None` if the path was never interned in this snapshot.
    #[must_use]
    pub fn get_path(&self, p: &[u8]) -> (r: Option<PathId>)
        requires
            self.wf(),
        ensures
            match r {
                Some(id) => names_path(self@.paths, id@ as int, p@),
                None => !has_path(self@.paths, p@),
            },
    {
        let mut i: usize = 0;
        while i < self.paths.len()
            invariant
                self.wf(),
                0 <= i <= self.paths.len(),
                forall|j: int| 0 <= j < i ==> !names_path(self@.paths, j, p@),
            decreases self.paths.len() - i,
        {
            if path::same_path(self.paths[i].path.as_slice(), p) {
                assert(self@.paths[i as int] == self.paths@[i as int].path@);
                return Some(PathId(i as u32));
            }
            i += 1;
        }
        None
    }

    /// Lookup only. `None` if the authority was never interned in this snapshot.
    #[must_use]
    pub fn get_authority(&self, authority: &str) -> (r: Option<AuthorityId>)
        requires
            self.wf(),
        ensures
            match r {
                Some(id) => id@ < self@.authorities.len() && self@.authorities[id@ as int]
                    == authority@,
                None => !self@.authorities.contains(authority@),
            },
    {
        let mut i: usize = 0;
        while i < self.authorities.len()
            invariant
                self.wf(),
                0 <= i <= self.authorities.len(),
                forall|j: int| 0 <= j < i ==> self@.authorities[j] != authority@,
            decreases self.authorities.len() - i,
        {
            if text::str_eq(self.authorities[i].as_str(), authority) {
                return Some(AuthorityId(i as u32));
            }
            i += 1;
        }
        None
    }

    /// Whether an id is one of this table's.
    pub(crate) fn knows_path(&self, id: PathId) -> (r: bool)
        ensures
            r == (id@ < self@.paths.len()),
    {
        (id.0 as usize) < self.paths.len()
    }

    /// Whether an id is one of this table's.
    pub(crate) fn knows_authority(&self, id: AuthorityId) -> (r: bool)
        ensures
            r == (id@ < self@.authorities.len()),
    {
        (id.0 as usize) < self.authorities.len()
    }

    /// Resolve an id back to the canonical path.
    #[must_use]
    pub fn path(&self, id: PathId) -> (r: &[u8])
        requires
            id@ < self@.paths.len(),
        ensures
            r@ == self@.paths[id@ as int],
    {
        self.paths[id.0 as usize].path.as_slice()
    }

    /// Resolve an id back to the authority string.
    #[must_use]
    pub fn authority(&self, id: AuthorityId) -> (r: &str)
        requires
            id@ < self@.authorities.len(),
        ensures
            r@ == self@.authorities[id@ as int],
    {
        self.authorities[id.0 as usize].as_str()
    }

    /// Precomputed parent chain of `id` as intern ids.
    #[must_use]
    pub fn parent_chain(&self, id: PathId) -> (r: &[PathId])
        requires
            self.wf(),
            id@ < self@.paths.len(),
        ensures
            is_chain(self@.paths, r@, self@.paths[id@ as int]),
    {
        let r = self.paths[id.0 as usize].parent_chain.as_slice();
        assert(is_chain(
            self@.paths,
            self.paths@[id@ as int].parent_chain@,
            self.paths@[id@ as int].path@,
        ));
        r
    }

    /// True if `ancestor` is an ancestor-or-equal of `descendant`.
    /// `/a/b` does not contain `/a/bc`. `/` contains everything.
    #[must_use]
    pub fn is_prefix(&self, ancestor: PathId, descendant: PathId) -> (r: bool)
        requires
            self.wf(),
            ancestor@ < self@.paths.len(),
            descendant@ < self@.paths.len(),
        ensures
            r == holds(
                path::components(self@.paths[ancestor@ as int]),
                path::components(self@.paths[descendant@ as int]),
            ),
    {
        if ancestor == descendant {
            return true;
        }
        if path::is_root(self.path(ancestor)) {
            return true;
        }
        let chain = self.parent_chain(descendant);
        let ghost x = path::components(self@.paths[ancestor@ as int]);
        let ghost y = path::components(self@.paths[descendant@ as int]);
        let mut i: usize = 0;
        while i < chain.len()
            invariant
                self.wf(),
                0 <= i <= chain.len(),
                ancestor@ < self@.paths.len(),
                descendant@ < self@.paths.len(),
                x == path::components(self@.paths[ancestor@ as int]),
                y == path::components(self@.paths[descendant@ as int]),
                is_chain(self@.paths, chain@, self@.paths[descendant@ as int]),
                forall|j: int| 0 <= j < i ==> (#[trigger] chain@[j])@ != ancestor@,
            decreases chain.len() - i,
        {
            if chain[i] == ancestor {
                assert(x == y.take(y.len() - 1 - i));
                return true;
            }
            i += 1;
        }
        proof {
            if path::is_ancestor_or_equal(x, y) {
                if x == y {
                    assert(ancestor@ == descendant@);
                    assert(false);
                }
                let k = y.len() - 1 - x.len();
                assert(chain@[k]@ < self@.paths.len());
                assert(path::components(self@.paths[chain@[k]@ as int]) == x);
                assert(chain@[k]@ == ancestor@);
            }
        }
        false
    }
}

impl Default for Interner {
    fn default() -> (r: Interner)
        ensures
            r.wf(),
            r@ == InternTable::nothing(),
    {
        Interner::new()
    }
}

impl Clone for Interner {
    fn clone(&self) -> (r: Interner)
        ensures
            r@ == self@,
            r.wf() == self.wf(),
    {
        let mut paths: Vec<PathEntry> = Vec::new();
        let mut i: usize = 0;
        while i < self.paths.len()
            invariant
                0 <= i <= self.paths.len(),
                paths@.len() == i,
                forall|j: int|
                    0 <= j < i ==> (#[trigger] paths@[j]).path@ == self.paths@[j].path@
                        && paths@[j].parent_chain@ == self.paths@[j].parent_chain@,
            decreases self.paths.len() - i,
        {
            let e = &self.paths[i];
            paths.push(
                PathEntry {
                    path: vstd::slice::slice_to_vec(e.path.as_slice()),
                    parent_chain: vstd::slice::slice_to_vec(e.parent_chain.as_slice()),
                },
            );
            i += 1;
        }
        let mut authorities: Vec<String> = Vec::new();
        let mut k: usize = 0;
        while k < self.authorities.len()
            invariant
                0 <= k <= self.authorities.len(),
                authorities@.len() == k,
                forall|j: int| 0 <= j < k ==> (#[trigger] authorities@[j])@ == self.authorities@[j]@,
            decreases self.authorities.len() - k,
        {
            authorities.push(self.authorities[k].clone());
            k += 1;
        }
        let r = Interner { paths, authorities };
        proof {
            assert(r@.paths =~= self@.paths);
            assert(r@.authorities =~= self@.authorities);
            if self.wf() {
                assert forall|i: int| 0 <= i < r.paths@.len() implies is_chain(
                    r@.paths,
                    (#[trigger] r.paths@[i]).parent_chain@,
                    r.paths@[i].path@,
                ) by {
                    assert(is_chain(
                        self@.paths,
                        self.paths@[i].parent_chain@,
                        self.paths@[i].path@,
                    ));
                }
            }
            if r.wf() {
                assert forall|i: int| 0 <= i < self.paths@.len() implies is_chain(
                    self@.paths,
                    (#[trigger] self.paths@[i]).parent_chain@,
                    self.paths@[i].path@,
                ) by {
                    assert(is_chain(r@.paths, r.paths@[i].parent_chain@, r.paths@[i].path@));
                }
            }
        }
        r
    }
}

/// Interning keeps what is there, and adds only the path and shorter ones.
pub proof fn lemma_with_path_shape(paths: Seq<Seq<u8>>, p: Seq<u8>)
    ensures
        with_path(paths, p).len() >= paths.len(),
        with_path(paths, p).take(paths.len() as int) == paths,
        has_path(with_path(paths, p), p),
        forall|i: int|
            paths.len() <= i < with_path(paths, p).len() ==> path::components(
                #[trigger] with_path(paths, p)[i],
            ).len() <= path::components(p).len(),
        forall|i: int|
            paths.len() <= i < with_path(paths, p).len() - 1 ==> path::components(
                #[trigger] with_path(paths, p)[i],
            ).len() < path::components(p).len(),
    decreases p.len(),
{
    let out = with_path(paths, p);
    if has_path(paths, p) {
        assert(out.take(paths.len() as int) =~= paths);
    } else {
        path::lemma_parent(p);
        match path::parent(p) {
            Some(q) => {
                if q.len() > 0 {
                    lemma_with_path_shape(paths, q);
                    let mid = with_path(paths, q);
                    assert(mid.push(p).take(paths.len() as int) =~= mid.take(paths.len() as int));
                    assert forall|i: int| paths.len() <= i < out.len() - 1 implies path::components(
                        #[trigger] out[i],
                    ).len() < path::components(p).len() by {
                        assert(out[i] == mid[i]);
                    }
                } else {
                    assert(out.take(paths.len() as int) =~= paths);
                }
            },
            None => {
                assert(out.take(paths.len() as int) =~= paths);
            },
        }
        assert(names_path(out, out.len() - 1, p));
    }
}

/// Interning several paths keeps what is there and has each of them.
pub proof fn lemma_with_paths(paths: Seq<Seq<u8>>, ps: Seq<Seq<u8>>)
    ensures
        with_paths(paths, ps).len() >= paths.len(),
        with_paths(paths, ps).take(paths.len() as int) == paths,
        forall|i: int| 0 <= i < ps.len() ==> has_path(with_paths(paths, ps), #[trigger] ps[i]),
    decreases ps.len(),
{
    let out = with_paths(paths, ps);
    if ps.len() == 0 {
        assert(out.take(paths.len() as int) =~= paths);
    } else {
        let mid = with_paths(paths, ps.drop_last());
        lemma_with_paths(paths, ps.drop_last());
        lemma_with_path_shape(mid, ps.last());
        assert(out.take(paths.len() as int) =~= out.take(mid.len() as int).take(paths.len() as int));
        assert forall|i: int| 0 <= i < ps.len() implies has_path(out, #[trigger] ps[i]) by {
            if i < ps.len() - 1 {
                assert(has_path(mid, ps.drop_last()[i]));
                let k = choose|k: int| names_path(mid, k, ps[i]);
                assert(out.take(mid.len() as int)[k] == out[k]);
                assert(names_path(out, k, ps[i]));
            }
        }
    }
}

/// Interning several authorities keeps what is there and has each of them.
pub proof fn lemma_with_authorities(authorities: Seq<Seq<char>>, names: Seq<Seq<char>>)
    ensures
        with_authorities(authorities, names).len() >= authorities.len(),
        with_authorities(authorities, names).take(authorities.len() as int) == authorities,
        forall|i: int|
            0 <= i < names.len() ==> with_authorities(authorities, names).contains(
                #[trigger] names[i],
            ),
    decreases names.len(),
{
    let out = with_authorities(authorities, names);
    if names.len() == 0 {
        assert(out.take(authorities.len() as int) =~= authorities);
    } else {
        let mid = with_authorities(authorities, names.drop_last());
        lemma_with_authorities(authorities, names.drop_last());
        lemma_with_authority(mid, names.last());
        assert(out.take(authorities.len() as int) =~= out.take(mid.len() as int).take(
            authorities.len() as int,
        ));
        assert forall|i: int| 0 <= i < names.len() implies out.contains(#[trigger] names[i]) by {
            if i < names.len() - 1 {
                assert(mid.contains(names.drop_last()[i]));
                let k = choose|k: int| 0 <= k < mid.len() && mid[k] == names[i];
                assert(out.take(mid.len() as int)[k] == out[k]);
                assert(out[k] == names[i]);
            }
        }
    }
}

/// With each path once, an id that names a path is the path's id.
pub proof fn lemma_path_index(t: InternTable, i: u32, p: Seq<u8>)
    requires
        distinct(t),
        names_path(t.paths, i as int, p),
    ensures
        path_index(t.paths, p) == i,
{
    let k = path_index(t.paths, p);
    assert(names_path(t.paths, k as int, p));
    assert(path::components(t.paths[k as int]) == path::components(t.paths[i as int]));
}

/// With each path once and ids of 32 bits, an interned path's id names it.
pub proof fn lemma_has_path_index(t: InternTable, p: Seq<u8>)
    requires
        t.paths.len() <= id_space(),
        has_path(t.paths, p),
    ensures
        names_path(t.paths, path_index(t.paths, p) as int, p),
{
    let k = choose|k: int| names_path(t.paths, k, p);
    assert(names_path(t.paths, (k as u32) as int, p));
}

/// With each authority once, an id that names it is its id.
pub proof fn lemma_authority_index(t: InternTable, i: u32)
    requires
        distinct(t),
        i < t.authorities.len(),
    ensures
        authority_index(t.authorities, t.authorities[i as int]) == i,
{
    let k = authority_index(t.authorities, t.authorities[i as int]);
    assert(t.authorities[k as int] == t.authorities[i as int]);
}

/// An interned authority's id names it.
pub proof fn lemma_has_authority_index(t: InternTable, a: Seq<char>)
    requires
        t.authorities.len() <= id_space(),
        t.authorities.contains(a),
    ensures
        authority_index(t.authorities, a) < t.authorities.len(),
        t.authorities[authority_index(t.authorities, a) as int] == a,
{
    let k = choose|k: int| 0 <= k < t.authorities.len() && t.authorities[k] == a;
    let i = k as u32;
    assert(t.authorities[i as int] == a);
}

/// Paths without repeats, and with every path all of its nonempty prefixes.
pub open spec fn sound_paths(paths: Seq<Seq<u8>>) -> bool {
    &&& forall|i: int, j: int|
        0 <= i < paths.len() && 0 <= j < paths.len() && path::components(#[trigger] paths[i])
            == path::components(#[trigger] paths[j]) ==> i == j
    &&& forall|i: int|
        0 <= i < paths.len() && path::components(#[trigger] paths[i]).len() > 1 ==> exists|j: int|
            0 <= j < paths.len() && path::components(#[trigger] paths[j]) == path::components(
                paths[i],
            ).drop_last()
}

/// Interning keeps a list of paths sound.
pub proof fn lemma_with_path_sound(paths: Seq<Seq<u8>>, p: Seq<u8>)
    requires
        sound_paths(paths),
    ensures
        sound_paths(with_path(paths, p)),
    decreases p.len(),
{
    if !has_path(paths, p) {
        path::lemma_parent(p);
        path::lemma_absolute(p);
        lemma_with_path_shape(paths, p);
        let out = with_path(paths, p);
        let cs = path::components(p);
        let mid = match path::parent(p) {
            Some(q) => if q.len() == 0 {
                paths
            } else {
                with_path(paths, q)
            },
            None => paths,
        };
        match path::parent(p) {
            Some(q) => {
                if q.len() > 0 {
                    lemma_with_path_sound(paths, q);
                    lemma_with_path_shape(paths, q);
                } else {
                    path::lemma_no_components(q);
                }
            },
            None => {},
        }
        assert(out == mid.push(p));
        assert(!has_path(mid, p)) by {
            if has_path(mid, p) {
                let i = choose|i: int| names_path(mid, i, p);
                if i < paths.len() {
                    assert(mid.take(paths.len() as int)[i] == mid[i]) by {
                        assert(out.take(paths.len() as int)[i] == out[i]);
                    }
                    assert(names_path(paths, i, p));
                } else {
                    assert(out[i] == mid[i]);
                }
            }
        }
        assert forall|i: int, j: int|
            0 <= i < out.len() && 0 <= j < out.len() && path::components(#[trigger] out[i])
                == path::components(#[trigger] out[j]) implies i == j by {
            if i < mid.len() && j < mid.len() {
                assert(out[i] == mid[i] && out[j] == mid[j]);
            } else if i < mid.len() {
                assert(names_path(mid, i, p));
            } else if j < mid.len() {
                assert(names_path(mid, j, p));
            }
        }
        assert forall|i: int|
            0 <= i < out.len() && path::components(#[trigger] out[i]).len() > 1 implies exists|
            j: int,
        |
            0 <= j < out.len() && path::components(#[trigger] out[j]) == path::components(
                out[i],
            ).drop_last() by {
            if i < mid.len() {
                assert(out[i] == mid[i]);
                let j = choose|j: int|
                    0 <= j < mid.len() && path::components(#[trigger] mid[j]) == path::components(
                        mid[i],
                    ).drop_last();
                assert(out[j] == mid[j]);
            } else {
                if path::parent(p) is None {
                    assert(cs[cs.len() - 1] == path::root());
                }
                let q = path::parent(p)->0;
                path::lemma_no_components(q);
                assert(has_path(mid, q));
                let j = choose|j: int| names_path(mid, j, q);
                assert(out[j] == mid[j]);
            }
        }
    }
}

/// Interning several paths keeps a list of paths sound.
pub proof fn lemma_with_paths_sound(paths: Seq<Seq<u8>>, ps: Seq<Seq<u8>>)
    requires
        sound_paths(paths),
    ensures
        sound_paths(with_paths(paths, ps)),
    decreases ps.len(),
{
    if ps.len() > 0 {
        lemma_with_paths_sound(paths, ps.drop_last());
        lemma_with_path_sound(with_paths(paths, ps.drop_last()), ps.last());
    }
}

/// Interning several authorities repeats none.
pub proof fn lemma_with_authorities_sound(authorities: Seq<Seq<char>>, names: Seq<Seq<char>>)
    requires
        authorities.no_duplicates(),
    ensures
        with_authorities(authorities, names).no_duplicates(),
    decreases names.len(),
{
    if names.len() > 0 {
        lemma_with_authorities_sound(authorities, names.drop_last());
    }
}

/// A table of sound paths and single authorities is distinct and closed.
pub proof fn lemma_sound(t: InternTable)
    requires
        sound_paths(t.paths),
        t.authorities.no_duplicates(),
    ensures
        distinct(t),
        t.closed_upward(),
{
    assert forall|i: int, n: int|
        0 <= i < t.paths.len() && 0 < n < path::components(t.paths[i]).len() implies exists|j: int|
        0 <= j < t.paths.len() && path::components(#[trigger] t.paths[j])
            == #[trigger] path::components(t.paths[i]).take(n) by {
        lemma_prefix_present(t.paths, i, n);
    }
}

proof fn lemma_prefix_present(paths: Seq<Seq<u8>>, i: int, n: int)
    requires
        sound_paths(paths),
        0 <= i < paths.len(),
        0 < n <= path::components(paths[i]).len(),
    ensures
        exists|j: int|
            0 <= j < paths.len() && path::components(#[trigger] paths[j]) == path::components(
                paths[i],
            ).take(n),
    decreases path::components(paths[i]).len(),
{
    let cs = path::components(paths[i]);
    if n == cs.len() {
        assert(cs.take(n) =~= cs);
    } else {
        let j = choose|j: int|
            0 <= j < paths.len() && path::components(#[trigger] paths[j]) == cs.drop_last();
        lemma_prefix_present(paths, j, n);
        assert(cs.drop_last().take(n) =~= cs.take(n));
    }
}

proof fn lemma_with_path_len(paths: Seq<Seq<u8>>, p: Seq<u8>)
    ensures
        with_path(paths, p).len() >= paths.len(),
{
    lemma_with_path_shape(paths, p);
}

/// Each byte of a path ends at most one component.
proof fn lemma_with_path_bound(paths: Seq<Seq<u8>>, p: Seq<u8>)
    ensures
        with_path(paths, p).len() <= paths.len() + p.len() + 1,
    decreases p.len(),
{
    if !has_path(paths, p) {
        path::lemma_parent(p);
        match path::parent(p) {
            Some(q) => {
                if q.len() > 0 {
                    lemma_with_path_bound(paths, q);
                }
            },
            None => {},
        }
    }
}

/// Interning an authority keeps what is there and has the authority.
pub proof fn lemma_with_authority(authorities: Seq<Seq<char>>, a: Seq<char>)
    ensures
        with_authority(authorities, a).len() >= authorities.len(),
        with_authority(authorities, a).take(authorities.len() as int) == authorities,
        with_authority(authorities, a).contains(a),
{
    let out = with_authority(authorities, a);
    assert(out.take(authorities.len() as int) =~= authorities);
    if !authorities.contains(a) {
        assert(out[authorities.len() as int] == a);
    }
}

/// Reject relative paths and `..` / `.` components. No I/O.
pub fn validate_canonical_path(p: &[u8]) -> (r: Result<(), CapsError>)
    ensures
        r is Ok <==> path::is_canonical(p@),
        r matches Err(e) ==> e@ == super::error::CapsFault::NonCanonicalPath(p@),
{
    if path::check_canonical(p) {
        Ok(())
    } else {
        Err(CapsError::NonCanonicalPath(vstd::slice::slice_to_vec(p)))
    }
}

/// An ASCII digit.
pub open spec fn is_digit(c: char) -> bool {
    '0' <= c && c <= '9'
}

/// Lowercase `host:port` with an explicit decimal port: after the last colon
/// stand digits, at least one, and something stands before it.
pub open spec fn is_authority(a: Seq<char>) -> bool {
    &&& forall|i: int| 0 <= i < a.len() ==> !('A' <= #[trigger] a[i] && a[i] <= 'Z')
    &&& exists|k: int|
        0 < k < a.len() - 1 && #[trigger] a[k] == ':' && forall|j: int|
            k < j < a.len() ==> is_digit(#[trigger] a[j])
}

/// Reject authorities that are not lowercase `host:port` with an explicit port.
pub fn validate_authority(authority: &str) -> (r: Result<(), CapsError>)
    ensures
        r is Ok <==> is_authority(authority@),
        r matches Err(e) ==> e@ == super::error::CapsFault::NotInterned(authority@),
{
    let a = text::chars_of(authority);
    let mut i: usize = 0;
    while i < a.len()
        invariant
            a@ == authority@,
            0 <= i <= a.len(),
            forall|j: int| 0 <= j < i ==> !('A' <= #[trigger] a@[j] && a@[j] <= 'Z'),
        decreases a.len() - i,
    {
        if 'A' <= a[i] && a[i] <= 'Z' {
            return Err(CapsError::NotInterned(authority.to_owned()));
        }
        i += 1;
    }
    let mut k: usize = a.len();
    while k > 0
        invariant
            a@ == authority@,
            0 <= k <= a.len(),
            forall|j: int| k <= j < a@.len() ==> is_digit(#[trigger] a@[j]),
        ensures
            0 <= k <= a.len(),
            forall|j: int| k <= j < a@.len() ==> is_digit(#[trigger] a@[j]),
            k > 0 ==> !is_digit(a@[k - 1]),
        decreases k,
    {
        let c = a[k - 1];
        if !('0' <= c && c <= '9') {
            break;
        }
        k -= 1;
    }
    if k < 2 || k == a.len() || a[k - 1] != ':' {
        proof {
            if is_authority(authority@) {
                let w = choose|w: int|
                    0 < w < a@.len() - 1 && #[trigger] a@[w] == ':' && forall|j: int|
                        w < j < a@.len() ==> is_digit(#[trigger] a@[j]);
                if k > 0 && w < k - 1 {
                    assert(is_digit(a@[k - 1]));
                }
                if w >= k {
                    assert(is_digit(a@[w]));
                }
                assert(false);
            }
        }
        return Err(CapsError::NotInterned(authority.to_owned()));
    }
    assert(a@[k - 1] == ':');
    Ok(())
}

/// An authority is a lowercase host, a colon and a port in digits.
pub proof fn authorities_are_host_and_port(host: Seq<char>, port: Seq<char>)
    requires
        forall|i: int| 0 <= i < port.len() ==> '0' <= #[trigger] port[i] <= '9',
    ensures
        is_authority(host + seq![':'] + port) <==> host.len() > 0 && port.len() > 0 && forall|i: int|
            0 <= i < host.len() ==> !('A' <= #[trigger] host[i] <= 'Z'),
{
    let a = host + seq![':'] + port;
    let n = host.len() as int;
    assert(a[n] == ':');
    assert forall|j: int| n < j < a.len() implies is_digit(#[trigger] a[j]) by {
        assert(a[j] == port[j - n - 1]);
    }
    if host.len() > 0 && port.len() > 0 && (forall|i: int|
        0 <= i < host.len() ==> !('A' <= #[trigger] host[i] <= 'Z')) {
        assert forall|i: int| 0 <= i < a.len() implies !('A' <= #[trigger] a[i] && a[i]
            <= 'Z') by {
            if i < n {
                assert(a[i] == host[i]);
            } else if i > n {
                assert(is_digit(a[i]));
            }
        }
        assert(0 < n < a.len() - 1 && a[n] == ':');
        assert(is_authority(a));
    }
    if is_authority(a) {
        let k = choose|k: int|
            0 < k < a.len() - 1 && #[trigger] a[k] == ':' && forall|j: int|
                k < j < a.len() ==> is_digit(#[trigger] a[j]);
        if k < n {
            assert(is_digit(a[n]));
        }
        if k > n {
            assert(is_digit(a[k]));
        }
        assert forall|i: int| 0 <= i < host.len() implies !('A' <= #[trigger] host[i] <= 'Z') by {
            assert(a[i] == host[i]);
        }
    }
}

/// A text without a colon is no authority.
pub proof fn authorities_have_a_colon(a: Seq<char>)
    requires
        !a.contains(':'),
    ensures
        !is_authority(a),
{
    if is_authority(a) {
        let k = choose|k: int|
            0 < k < a.len() - 1 && #[trigger] a[k] == ':' && forall|j: int|
                k < j < a.len() ==> is_digit(#[trigger] a[j]);
        assert(a.contains(a[k]));
    }
}

/// Interning keeps every id that was given out, gives the path an id, and
/// changes nothing the second time.
pub proof fn interning_keeps_ids(paths: Seq<Seq<u8>>, p: Seq<u8>)
    ensures
        ({
            let out = with_path(paths, p);
            &&& out.len() >= paths.len()
            &&& forall|i: int| 0 <= i < paths.len() ==> #[trigger] out[i] == paths[i]
            &&& exists|i: int|
                0 <= i < out.len() && path::components(#[trigger] out[i]) == path::components(p)
            &&& with_path(out, p) == out
        }),
{
    lemma_with_path_shape(paths, p);
    let out = with_path(paths, p);
    assert forall|i: int| 0 <= i < paths.len() implies #[trigger] out[i] == paths[i] by {
        assert(out.take(paths.len() as int)[i] == out[i]);
    }
    let k = choose|k: int| names_path(out, k, p);
    assert(path::components(out[k]) == path::components(p));
}

/// Interning an authority keeps every id that was given out and gives the
/// authority one, at the end if it had none.
pub proof fn interning_keeps_authority_ids(names: Seq<Seq<char>>, a: Seq<char>)
    ensures
        ({
            let out = with_authority(names, a);
            &&& out.take(names.len() as int) == names
            &&& out.contains(a)
            &&& names.contains(a) ==> out == names
            &&& !names.contains(a) ==> out.len() == names.len() + 1
            &&& with_authority(out, a) == out
        }),
{
    let out = with_authority(names, a);
    assert(out.take(names.len() as int) =~= names);
    if !names.contains(a) {
        assert(out[names.len() as int] == a);
    }
}

/// The root holds every path, and any other directory what is below it.
pub proof fn the_root_holds_everything(y: Seq<Seq<u8>>, x: Seq<Seq<u8>>)
    ensures
        holds(seq![seq![0x2fu8]], y),
        x != seq![seq![0x2fu8]] ==> (holds(x, y) <==> path::is_ancestor_or_equal(x, y)),
{
}

} // verus!
