//! Lattice operations on [`CapabilitySet`]: subset, attenuation, meet.
use super::capability::{list_interfaces, GrantSet};
use super::interner::InternTable;
use super::sort;
use super::sort::Ranked;
use super::{
    AuthorityId, CapabilitySet, CapsError, DirGrant, FileGrant, FileMode, HostGrant, Interface,
    Interner, PathId,
};
use crate::path;
use crate::text;
use vstd::prelude::*;
use vstd::seq_lib::*;

verus! {

/// One of the two sets has no table, so ids are compared as they are.
pub open spec fn by_id(a: GrantSet, b: GrantSet) -> bool {
    a.table.is_empty() || b.table.is_empty()
}

/// Path `x` of `a` is path `y` of `b`.
pub open spec fn same_path(a: GrantSet, x: u32, b: GrantSet, y: u32) -> bool {
    if by_id(a, b) {
        x == y
    } else {
        a.components(x) == b.components(y)
    }
}

/// Authority `x` of `a` is authority `y` of `b`.
pub open spec fn same_authority(a: GrantSet, x: u32, b: GrantSet, y: u32) -> bool {
    if by_id(a, b) {
        x == y
    } else {
        a.authority(x) == b.authority(y)
    }
}

/// Directory `y` of `b` is an ancestor-or-equal of path `x` of `a`. Between
/// different tables `/` holds every path, relative ones too.
pub open spec fn dir_holds(b: GrantSet, y: u32, a: GrantSet, x: u32) -> bool {
    if by_id(a, b) {
        x == y
    } else if a.table.same(b.table) {
        path::is_ancestor_or_equal(b.components(y), a.components(x))
    } else {
        super::interner::holds(b.components(y), a.components(x))
    }
}

/// Some directory of `b` holds path `x` of `a` with at least this mode.
pub open spec fn dir_covered(a: GrantSet, x: u32, mode: FileMode, b: GrantSet) -> bool {
    exists|j: int|
        0 <= j < b.dirs.len() && dir_holds(b, (#[trigger] b.dirs[j]).spec_root(), a, x)
            && mode.within(b.dirs[j].spec_mode())
}

/// Some file of `b` is path `x` of `a` with at least this mode.
pub open spec fn file_matched(a: GrantSet, x: u32, mode: FileMode, b: GrantSet) -> bool {
    exists|j: int|
        0 <= j < b.files.len() && same_path(a, x, b, (#[trigger] b.files[j]).spec_path())
            && mode.within(b.files[j].spec_mode())
}

/// Some host of `b` is authority `x` of `a` with at least these methods.
pub open spec fn host_covered(a: GrantSet, x: u32, methods: u8, b: GrantSet) -> bool {
    exists|j: int|
        0 <= j < b.hosts.len() && same_authority(a, x, b, (#[trigger] b.hosts[j]).spec_authority())
            && super::grants::mask_within(methods, b.hosts[j].spec_methods())
}

/// Every file of `a` is matched by a file or held by a directory of `b`.
pub open spec fn files_within(a: GrantSet, b: GrantSet) -> bool {
    forall|i: int|
        0 <= i < a.files.len() ==> file_matched(
            a,
            (#[trigger] a.files[i]).spec_path(),
            a.files[i].spec_mode(),
            b,
        ) || dir_covered(a, a.files[i].spec_path(), a.files[i].spec_mode(), b)
}

/// Every directory of `a` is held by a directory of `b`.
pub open spec fn dirs_within(a: GrantSet, b: GrantSet) -> bool {
    forall|i: int|
        0 <= i < a.dirs.len() ==> dir_covered(
            a,
            (#[trigger] a.dirs[i]).spec_root(),
            a.dirs[i].spec_mode(),
            b,
        )
}

/// Every host of `a` is covered by a host of `b`.
pub open spec fn hosts_within(a: GrantSet, b: GrantSet) -> bool {
    forall|i: int|
        0 <= i < a.hosts.len() ==> host_covered(
            a,
            (#[trigger] a.hosts[i]).spec_authority(),
            a.hosts[i].spec_methods(),
            b,
        )
}

/// `a` grants nothing that `b` does not.
pub open spec fn subset(a: GrantSet, b: GrantSet) -> bool {
    &&& a.bits & !b.bits == 0
    &&& files_within(a, b)
    &&& dirs_within(a, b)
    &&& hosts_within(a, b)
}

/// The ids of both sets can be resolved wherever they are compared as paths.
pub open spec fn comparable(a: GrantSet, b: GrantSet) -> bool {
    by_id(a, b) || (a.resolves() && b.resolves())
}

impl CapabilitySet {
    /// True if `self` grants nothing that `other` does not.
    ///
    /// - `self.interfaces & !other.interfaces == 0`
    /// - every file is covered either by the same file in `other` with a mode
    ///   at least as great, or by a directory in `other` that is an ancestor
    /// - every directory is covered by an ancestor-or-equal directory
    /// - every host has a match in `other` whose methods include its own
    #[must_use]
    pub fn is_subset_of(&self, other: &CapabilitySet) -> (r: bool)
        requires
            self.wf(),
            other.wf(),
            self@.bits & !other@.bits == 0 ==> comparable(self@, other@),
        ensures
            r == subset(self@, other@),
    {
        if self.interfaces_bits() & !other.interfaces_bits() != 0 {
            return false;
        }
        files_subset(self, other) && dirs_subset(self, other) && hosts_subset(self, other)
    }

    /// Returns `requested` if and only if `requested.is_subset_of(parent)`.
    /// This is the entire authority-side delegation policy.
    pub fn attenuate(parent: &CapabilitySet, requested: &CapabilitySet) -> (r: Result<
        CapabilitySet,
        CapsError,
    >)
        requires
            parent.wf(),
            requested.wf(),
            requested@.bits & !parent@.bits == 0 ==> comparable(requested@, parent@),
        ensures
            match r {
                Ok(set) => subset(requested@, parent@) && set@ == requested@ && set.wf(),
                Err(e) => !subset(requested@, parent@) && e@
                    == super::error::CapsFault::Escalation("requested set exceeds parent"@),
            },
    {
        if requested.is_subset_of(parent) {
            Ok(requested.clone())
        } else {
            Err(CapsError::Escalation("requested set exceeds parent".to_owned()))
        }
    }
}

fn same_ids(a: &CapabilitySet, b: &CapabilitySet) -> (r: bool)
    requires
        a.wf(),
        b.wf(),
    ensures
        r == (!by_id(a@, b@) && a@.table.same(b@.table)),
{
    !a.interner().is_empty() && !b.interner().is_empty() && a.interner().same_snapshot(b.interner())
}

fn files_subset(this: &CapabilitySet, other: &CapabilitySet) -> (r: bool)
    requires
        this.wf(),
        other.wf(),
        comparable(this@, other@),
    ensures
        r == files_within(this@, other@),
{
    if same_ids(this, other) {
        files_subset_merge(this, other)
    } else {
        let files = this.files();
        let mut i: usize = 0;
        while i < files.len()
            invariant
                this.wf(),
                other.wf(),
                comparable(this@, other@),
                by_id(this@, other@) || !this@.table.same(other@.table),
                files@ == this@.files,
                0 <= i <= files.len(),
                forall|k: int|
                    0 <= k < i ==> file_matched(
                        this@,
                        (#[trigger] this@.files[k]).spec_path(),
                        this@.files[k].spec_mode(),
                        other@,
                    ) || dir_covered(
                        this@,
                        this@.files[k].spec_path(),
                        this@.files[k].spec_mode(),
                        other@,
                    ),
            decreases files.len() - i,
        {
            assert(files@[i as int] == this@.files[i as int]);
            if !file_covered_scan(this, files[i], other) {
                return false;
            }
            i += 1;
        }
        true
    }
}

/// A walk of two sorted lists, for sets that share a table.
fn files_subset_merge(this: &CapabilitySet, other: &CapabilitySet) -> (r: bool)
    requires
        this.wf(),
        other.wf(),
        comparable(this@, other@),
        !by_id(this@, other@),
        this@.table.same(other@.table),
    ensures
        r == files_within(this@, other@),
{
    let mine = this.files();
    let theirs = other.files();
    let mut i: usize = 0;
    let mut j: usize = 0;
    proof {
        this.lemma_wf();
        other.lemma_wf();
    }
    while i < mine.len()
        invariant
            this.wf(),
            other.wf(),
            this@.ordered(),
            other@.ordered(),
            super::interner::distinct(this@.table),
            this@.resolves(),
            other@.resolves(),
            !by_id(this@, other@),
            this@.table.same(other@.table),
            mine@ == this@.files,
            theirs@ == other@.files,
            0 <= i <= mine.len(),
            0 <= j <= theirs.len(),
            forall|m: int, k: int|
                0 <= m < j && i <= k < mine@.len() ==> (#[trigger] theirs@[m]).spec_path() < (
                #[trigger] mine@[k]).spec_path(),
            forall|k: int|
                0 <= k < i ==> file_matched(
                    this@,
                    (#[trigger] this@.files[k]).spec_path(),
                    this@.files[k].spec_mode(),
                    other@,
                ) || dir_covered(
                    this@,
                    this@.files[k].spec_path(),
                    this@.files[k].spec_mode(),
                    other@,
                ),
        decreases mine.len() - i,
    {
        let f = mine[i];
        assert(f == this@.files[i as int]);
        let id: u32 = f.path().as_u32();
        while j < theirs.len() && theirs[j].path().as_u32() < id
            invariant
                0 <= j <= theirs.len(),
                i < mine@.len(),
                mine@ == this@.files,
                this@.ordered(),
                id == mine@[i as int].spec_path(),
                forall|m: int, k: int|
                    0 <= m < j && i <= k < mine@.len() ==> (#[trigger] theirs@[m]).spec_path() < (
                    #[trigger] mine@[k]).spec_path(),
            decreases theirs.len() - j,
        {
            assert forall|k: int| i <= k < mine@.len() implies theirs@[j as int].spec_path() < (
            #[trigger] mine@[k]).spec_path() by {
                if k > i {
                    assert(mine@[i as int].key() < mine@[k].key());
                }
            }
            j += 1;
        }
        let exact = j < theirs.len() && theirs[j].path().as_u32() == id && f.mode().is_within(
            theirs[j].mode(),
        );
        proof {
            let x = f.spec_path();
            if exact {
                let g = other@.files[j as int];
                lemma_same_table_path(this@, x, other@, g.spec_path());
                assert(file_matched(this@, x, f.spec_mode(), other@));
            } else if file_matched(this@, x, f.spec_mode(), other@) {
                let m = choose|m: int|
                    0 <= m < other@.files.len() && same_path(
                        this@,
                        x,
                        other@,
                        (#[trigger] other@.files[m]).spec_path(),
                    ) && f.spec_mode().within(other@.files[m].spec_mode());
                let g = other@.files[m];
                assert(theirs@[m] == g);
                lemma_same_table_path(this@, x, other@, g.spec_path());
                assert(g.spec_path() == x);
                assert(m >= j);
                if m > j {
                    assert(theirs@[j as int].key() < theirs@[m].key());
                }
                assert(false);
            }
        }
        if !exact && !dir_covers_id(this, other, f.path(), f.mode()) {
            return false;
        }
        i += 1;
        proof {
            assert forall|m: int, k: int| 0 <= m < j && i <= k < mine@.len() implies (
            #[trigger] theirs@[m]).spec_path() < (#[trigger] mine@[k]).spec_path() by {
                assert(i - 1 <= k);
            }
        }
    }
    true
}

/// With a shared table, path equality is id equality.
proof fn lemma_same_table_path(a: GrantSet, x: u32, b: GrantSet, y: u32)
    requires
        a.table.same(b.table),
        super::interner::distinct(a.table),
        x < a.table.paths.len(),
        y < b.table.paths.len(),
    ensures
        (a.components(x) == b.components(y)) == (x == y),
        a.components(y) == b.components(y),
{
    assert(path::components(a.table.paths[y as int]) == path::components(b.table.paths[y as int]));
    if a.components(x) == b.components(y) {
        assert(path::components(a.table.paths[x as int]) == path::components(
            a.table.paths[y as int],
        ));
    }
}

fn file_covered_scan(this: &CapabilitySet, file: FileGrant, other: &CapabilitySet) -> (r: bool)
    requires
        this.wf(),
        other.wf(),
        comparable(this@, other@),
        by_id(this@, other@) || !this@.table.same(other@.table),
        by_id(this@, other@) || file.spec_path() < this@.table.paths.len(),
    ensures
        r == (file_matched(this@, file.spec_path(), file.spec_mode(), other@) || dir_covered(
            this@,
            file.spec_path(),
            file.spec_mode(),
            other@,
        )),
{
    let files = other.files();
    let mut j: usize = 0;
    while j < files.len()
        invariant
            this.wf(),
            other.wf(),
            comparable(this@, other@),
            by_id(this@, other@) || file.spec_path() < this@.table.paths.len(),
            files@ == other@.files,
            0 <= j <= files.len(),
            forall|k: int|
                0 <= k < j ==> !(same_path(
                    this@,
                    file.spec_path(),
                    other@,
                    (#[trigger] other@.files[k]).spec_path(),
                ) && file.spec_mode().within(other@.files[k].spec_mode())),
        decreases files.len() - j,
    {
        let of = files[j];
        assert(of == other@.files[j as int]);
        if path_eq(this, file.path(), other, of.path()) && file.mode().is_within(of.mode()) {
            return true;
        }
        j += 1;
    }
    dir_covers_scan(this, file.path(), file.mode(), other)
}

fn dir_covers_scan(this: &CapabilitySet, id: PathId, mode: FileMode, other: &CapabilitySet) -> (r:
    bool)
    requires
        this.wf(),
        other.wf(),
        comparable(this@, other@),
        by_id(this@, other@) || !this@.table.same(other@.table),
        by_id(this@, other@) || id@ < this@.table.paths.len(),
    ensures
        r == dir_covered(this@, id@, mode, other@),
{
    let dirs = other.dirs();
    let mut j: usize = 0;
    while j < dirs.len()
        invariant
            this.wf(),
            other.wf(),
            comparable(this@, other@),
            by_id(this@, other@) || !this@.table.same(other@.table),
            by_id(this@, other@) || id@ < this@.table.paths.len(),
            dirs@ == other@.dirs,
            0 <= j <= dirs.len(),
            forall|k: int|
                0 <= k < j ==> !(dir_holds(
                    other@,
                    (#[trigger] other@.dirs[k]).spec_root(),
                    this@,
                    id@,
                ) && mode.within(other@.dirs[k].spec_mode())),
        decreases dirs.len() - j,
    {
        let od = dirs[j];
        assert(od == other@.dirs[j as int]);
        if prefix_cross(other, od.root(), this, id) && mode.is_within(od.mode()) {
            return true;
        }
        j += 1;
    }
    false
}

fn dirs_subset(this: &CapabilitySet, other: &CapabilitySet) -> (r: bool)
    requires
        this.wf(),
        other.wf(),
        comparable(this@, other@),
    ensures
        r == dirs_within(this@, other@),
{
    let shared = same_ids(this, other);
    let dirs = this.dirs();
    let mut i: usize = 0;
    while i < dirs.len()
        invariant
            this.wf(),
            other.wf(),
            comparable(this@, other@),
            shared == (!by_id(this@, other@) && this@.table.same(other@.table)),
            dirs@ == this@.dirs,
            0 <= i <= dirs.len(),
            forall|k: int|
                0 <= k < i ==> dir_covered(
                    this@,
                    (#[trigger] this@.dirs[k]).spec_root(),
                    this@.dirs[k].spec_mode(),
                    other@,
                ),
        decreases dirs.len() - i,
    {
        let d = dirs[i];
        assert(d == this@.dirs[i as int]);
        let covered = if shared {
            dir_covers_id(this, other, d.root(), d.mode())
        } else {
            dir_covers_scan(this, d.root(), d.mode(), other)
        };
        if !covered {
            return false;
        }
        i += 1;
    }
    true
}

fn hosts_subset(this: &CapabilitySet, other: &CapabilitySet) -> (r: bool)
    requires
        this.wf(),
        other.wf(),
        comparable(this@, other@),
    ensures
        r == hosts_within(this@, other@),
{
    if same_ids(this, other) {
        hosts_subset_merge(this, other)
    } else {
        let hosts = this.hosts();
        let mut i: usize = 0;
        while i < hosts.len()
            invariant
                this.wf(),
                other.wf(),
                comparable(this@, other@),
                hosts@ == this@.hosts,
                0 <= i <= hosts.len(),
                forall|k: int|
                    0 <= k < i ==> host_covered(
                        this@,
                        (#[trigger] this@.hosts[k]).spec_authority(),
                        this@.hosts[k].spec_methods(),
                        other@,
                    ),
            decreases hosts.len() - i,
        {
            let h = hosts[i];
            assert(h == this@.hosts[i as int]);
            if !host_covered_scan(this, h, other) {
                return false;
            }
            i += 1;
        }
        true
    }
}

fn host_covered_scan(this: &CapabilitySet, h: HostGrant, other: &CapabilitySet) -> (r: bool)
    requires
        this.wf(),
        other.wf(),
        comparable(this@, other@),
        by_id(this@, other@) || h.spec_authority() < this@.table.authorities.len(),
    ensures
        r == host_covered(this@, h.spec_authority(), h.spec_methods(), other@),
{
    let theirs = other.hosts();
    let mut j: usize = 0;
    while j < theirs.len()
        invariant
            this.wf(),
            other.wf(),
            comparable(this@, other@),
            by_id(this@, other@) || h.spec_authority() < this@.table.authorities.len(),
            theirs@ == other@.hosts,
            0 <= j <= theirs.len(),
            forall|k: int|
                0 <= k < j ==> !(same_authority(
                    this@,
                    h.spec_authority(),
                    other@,
                    (#[trigger] other@.hosts[k]).spec_authority(),
                ) && super::grants::mask_within(h.spec_methods(), other@.hosts[k].spec_methods())),
        decreases theirs.len() - j,
    {
        let oh = theirs[j];
        assert(oh == other@.hosts[j as int]);
        if auth_eq(this, h.authority(), other, oh.authority()) && h.methods().is_subset_of(
            oh.methods(),
        ) {
            return true;
        }
        j += 1;
    }
    false
}

/// A walk of two sorted lists, for sets that share a table.
fn hosts_subset_merge(this: &CapabilitySet, other: &CapabilitySet) -> (r: bool)
    requires
        this.wf(),
        other.wf(),
        comparable(this@, other@),
        !by_id(this@, other@),
        this@.table.same(other@.table),
    ensures
        r == hosts_within(this@, other@),
{
    let mine = this.hosts();
    let theirs = other.hosts();
    let mut i: usize = 0;
    let mut j: usize = 0;
    proof {
        this.lemma_wf();
        other.lemma_wf();
    }
    while i < mine.len()
        invariant
            this@.ordered(),
            other@.ordered(),
            super::interner::distinct(this@.table),
            this@.resolves(),
            other@.resolves(),
            !by_id(this@, other@),
            this@.table.same(other@.table),
            mine@ == this@.hosts,
            theirs@ == other@.hosts,
            0 <= i <= mine.len(),
            0 <= j <= theirs.len(),
            forall|m: int, k: int|
                0 <= m < j && i <= k < mine@.len() ==> (#[trigger] theirs@[m]).spec_authority() < (
                #[trigger] mine@[k]).spec_authority(),
            forall|k: int|
                0 <= k < i ==> host_covered(
                    this@,
                    (#[trigger] this@.hosts[k]).spec_authority(),
                    this@.hosts[k].spec_methods(),
                    other@,
                ),
        decreases mine.len() - i,
    {
        let h = mine[i];
        assert(h == this@.hosts[i as int]);
        let id: u32 = h.authority().as_u32();
        while j < theirs.len() && theirs[j].authority().as_u32() < id
            invariant
                0 <= j <= theirs.len(),
                i < mine@.len(),
                mine@ == this@.hosts,
                this@.ordered(),
                id == mine@[i as int].spec_authority(),
                forall|m: int, k: int|
                    0 <= m < j && i <= k < mine@.len() ==> (#[trigger] theirs@[m]).spec_authority()
                        < (#[trigger] mine@[k]).spec_authority(),
            decreases theirs.len() - j,
        {
            assert forall|k: int| i <= k < mine@.len() implies theirs@[j as int].spec_authority()
                < (#[trigger] mine@[k]).spec_authority() by {
                if k > i {
                    assert(mine@[i as int].key() < mine@[k].key());
                }
            }
            j += 1;
        }
        let exact = j < theirs.len() && theirs[j].authority().as_u32() == id
            && h.methods().is_subset_of(theirs[j].methods());
        proof {
            let x = h.spec_authority();
            if exact {
                let g = other@.hosts[j as int];
                assert(same_authority(this@, x, other@, g.spec_authority()));
                assert(host_covered(this@, x, h.spec_methods(), other@));
            } else if host_covered(this@, x, h.spec_methods(), other@) {
                let m = choose|m: int|
                    0 <= m < other@.hosts.len() && same_authority(
                        this@,
                        x,
                        other@,
                        (#[trigger] other@.hosts[m]).spec_authority(),
                    ) && super::grants::mask_within(
                        h.spec_methods(),
                        other@.hosts[m].spec_methods(),
                    );
                let g = other@.hosts[m];
                assert(theirs@[m] == g);
                assert(this@.table.authorities[x as int]
                    == this@.table.authorities[g.spec_authority() as int]);
                assert(g.spec_authority() == x);
                assert(m >= j);
                if m > j {
                    assert(theirs@[j as int].key() < theirs@[m].key());
                }
                assert(false);
            }
        }
        if !exact {
            return false;
        }
        i += 1;
        proof {
            assert forall|m: int, k: int| 0 <= m < j && i <= k < mine@.len() implies (
            #[trigger] theirs@[m]).spec_authority() < (#[trigger] mine@[k]).spec_authority() by {
                assert(i - 1 <= k);
            }
        }
    }
    true
}

/// Whether `other` has a directory that is an ancestor-or-equal of
/// `descendant` with mode `>=`, by id along the parent chain.
fn dir_covers_id(
    this: &CapabilitySet,
    other: &CapabilitySet,
    descendant: PathId,
    mode: FileMode,
) -> (r: bool)
    requires
        this.wf(),
        other.wf(),
        this@.resolves(),
        other@.resolves(),
        !by_id(this@, other@),
        this@.table.same(other@.table),
        descendant@ < this@.table.paths.len(),
    ensures
        r == dir_covered(this@, descendant@, mode, other@),
{
    let dirs = other.dirs();
    proof {
        this.lemma_wf();
        other.lemma_wf();
    }
    let ghost t = this@.table;
    let ghost y = this@.components(descendant@);
    if grant_covers(dirs, descendant, mode) {
        proof {
            let j = choose|j: int|
                0 <= j < dirs@.len() && (#[trigger] dirs@[j]).spec_root() == descendant@
                    && mode.within(dirs@[j].spec_mode());
            lemma_same_table_path(this@, descendant@, other@, other@.dirs[j].spec_root());
        }
        return true;
    }
    let chain = this.interner().parent_chain(descendant);
    let mut i: usize = 0;
    while i < chain.len()
        invariant
            0 <= i <= chain.len(),
            dirs@ == other@.dirs,
            sort::ascending(dirs@),
            this@.resolves(),
            other@.resolves(),
            !by_id(this@, other@),
            this@.table.same(other@.table),
            super::interner::distinct(this@.table),
            descendant@ < this@.table.paths.len(),
            y == this@.components(descendant@),
            super::interner::is_chain(
                this@.table.paths,
                chain@,
                this@.table.paths[descendant@ as int],
            ),
            forall|k: int, j: int|
                0 <= k < i && 0 <= j < dirs@.len() ==> !((#[trigger] dirs@[j]).spec_root() == (
                #[trigger] chain@[k])@ && mode.within(dirs@[j].spec_mode())),
        decreases chain.len() - i,
    {
        let anc = chain[i];
        if grant_covers(dirs, anc, mode) {
            proof {
                let j = choose|j: int|
                    0 <= j < dirs@.len() && (#[trigger] dirs@[j]).spec_root() == anc@
                        && mode.within(dirs@[j].spec_mode());
                lemma_same_table_path(this@, anc@, other@, other@.dirs[j].spec_root());
                assert(other@.components(other@.dirs[j].spec_root()) == y.take(y.len() - 1 - i));
            }
            return true;
        }
        i += 1;
    }
    proof {
        if dir_covered(this@, descendant@, mode, other@) {
            let j = choose|j: int|
                0 <= j < other@.dirs.len() && dir_holds(
                    other@,
                    (#[trigger] other@.dirs[j]).spec_root(),
                    this@,
                    descendant@,
                ) && mode.within(other@.dirs[j].spec_mode());
            let root = other@.dirs[j].spec_root();
            assert(dirs@[j].spec_root() == root);
            let x = other@.components(root);
            lemma_same_table_path(this@, descendant@, other@, root);
            if x != y {
                let k = y.len() - 1 - x.len();
                assert(chain@[k]@ < this@.table.paths.len());
                lemma_same_table_path(this@, chain@[k]@, other@, root);
                assert(this@.components(chain@[k]@) == x);
            }
            assert(false);
        }
    }
    false
}

/// Whether the sorted `dirs` holds exactly this root with mode `>=`.
fn grant_covers(dirs: &[DirGrant], root: PathId, mode: FileMode) -> (r: bool)
    requires
        sort::ascending(dirs@),
    ensures
        r == exists|j: int|
            0 <= j < dirs@.len() && (#[trigger] dirs@[j]).spec_root() == root@ && mode.within(
                dirs@[j].spec_mode(),
            ),
{
    let id: u32 = root.as_u32();
    let mut lo: usize = 0;
    let mut hi: usize = dirs.len();
    while lo < hi
        invariant
            0 <= lo <= hi <= dirs.len(),
            sort::ascending(dirs@),
            forall|j: int| 0 <= j < lo ==> (#[trigger] dirs@[j]).spec_root() < id,
            forall|j: int| hi <= j < dirs@.len() ==> (#[trigger] dirs@[j]).spec_root() > id,
            id == root@,
        decreases hi - lo,
    {
        let mid: usize = lo + (hi - lo) / 2;
        let k: u32 = dirs[mid].root().as_u32();
        if k == id {
            proof {
                assert forall|j: int|
                    0 <= j < dirs@.len() && (#[trigger] dirs@[j]).spec_root() == id implies j
                    == mid by {
                    if j < mid {
                        assert(dirs@[j].key() < dirs@[mid as int].key());
                    } else if j > mid {
                        assert(dirs@[mid as int].key() < dirs@[j].key());
                    }
                }
            }
            return mode.is_within(dirs[mid].mode());
        } else if k < id {
            proof {
                assert forall|j: int| 0 <= j < mid + 1 implies (#[trigger] dirs@[j]).spec_root()
                    < id by {
                    if j < mid {
                        assert(dirs@[j].key() < dirs@[mid as int].key());
                    }
                }
            }
            lo = mid + 1;
        } else {
            proof {
                assert forall|j: int| mid <= j < dirs@.len() implies (#[trigger] dirs@[j]).spec_root()
                    > id by {
                    if j > mid {
                        assert(dirs@[mid as int].key() < dirs@[j].key());
                    }
                }
            }
            hi = mid;
        }
    }
    false
}

fn path_eq(a: &CapabilitySet, pa: PathId, b: &CapabilitySet, pb: PathId) -> (r: bool)
    requires
        a.wf(),
        b.wf(),
        by_id(a@, b@) || (pa@ < a@.table.paths.len() && pb@ < b@.table.paths.len()),
    ensures
        r == same_path(a@, pa@, b@, pb@),
{
    if a.interner().is_empty() || b.interner().is_empty() {
        return pa.as_u32() == pb.as_u32();
    }
    path::same_path(a.interner().path(pa), b.interner().path(pb))
}

fn auth_eq(a: &CapabilitySet, pa: AuthorityId, b: &CapabilitySet, pb: AuthorityId) -> (r: bool)
    requires
        a.wf(),
        b.wf(),
        by_id(a@, b@) || (pa@ < a@.table.authorities.len() && pb@ < b@.table.authorities.len()),
    ensures
        r == same_authority(a@, pa@, b@, pb@),
{
    if a.interner().is_empty() || b.interner().is_empty() {
        return pa.as_u32() == pb.as_u32();
    }
    text::str_eq(a.interner().authority(pa), b.interner().authority(pb))
}

/// Whether a directory of one set holds a path of a set with another table.
fn prefix_cross(
    anc_set: &CapabilitySet,
    anc: PathId,
    desc_set: &CapabilitySet,
    desc: PathId,
) -> (r: bool)
    requires
        anc_set.wf(),
        desc_set.wf(),
        by_id(desc_set@, anc_set@) || !desc_set@.table.same(anc_set@.table),
        by_id(desc_set@, anc_set@) || (anc@ < anc_set@.table.paths.len() && desc@
            < desc_set@.table.paths.len()),
    ensures
        r == dir_holds(anc_set@, anc@, desc_set@, desc@),
{
    if anc_set.interner().is_empty() || desc_set.interner().is_empty() {
        return anc.as_u32() == desc.as_u32();
    }
    match anc_set.interner().get_path(desc_set.interner().path(desc)) {
        Some(d) => {
            return anc_set.interner().is_prefix(anc, d);
        },
        None => {},
    }
    match desc_set.interner().get_path(anc_set.interner().path(anc)) {
        Some(a) => {
            return desc_set.interner().is_prefix(a, desc);
        },
        None => {},
    }
    proof {
        desc_set.lemma_wf();
        let x = anc_set@.components(anc@);
        let y = desc_set@.components(desc@);
        if path::is_ancestor_or_equal(x, y) {
            if x == y {
                assert(super::interner::names_path(
                    anc_set@.table.paths,
                    anc@ as int,
                    desc_set@.table.paths[desc@ as int],
                ));
            } else {
                let n = x.len() as int;
                assert(y.take(n) == x);
                let j = choose|j: int|
                    0 <= j < desc_set@.table.paths.len() && path::components(
                        #[trigger] desc_set@.table.paths[j],
                    ) == path::components(desc_set@.table.paths[desc@ as int]).take(n);
                assert(super::interner::names_path(
                    desc_set@.table.paths,
                    j,
                    anc_set@.table.paths[anc@ as int],
                ));
            }
            assert(false);
        }
    }
    path::is_root(anc_set.interner().path(anc))
}

/// `t` with the paths and authorities that `s` grants.
pub open spec fn with_grants(t: InternTable, s: GrantSet) -> InternTable {
    if s.table.is_empty() {
        t
    } else {
        InternTable {
            paths: super::interner::with_paths(
                super::interner::with_paths(t.paths, s.file_paths()),
                s.dir_paths(),
            ),
            authorities: super::interner::with_authorities(t.authorities, s.host_names()),
        }
    }
}

/// The table that a meet is made in: one set's table with what both grant.
pub open spec fn merged_table(a: GrantSet, b: GrantSet) -> InternTable {
    let base = if a.table.is_empty() {
        b.table
    } else {
        a.table
    };
    with_grants(with_grants(base, a), b)
}

/// The id in `t` of the path that `s` knows as `id`.
pub open spec fn remap(t: InternTable, s: GrantSet, id: u32) -> u32 {
    if t.is_empty() || s.table.is_empty() {
        id
    } else {
        super::interner::path_index(t.paths, s.table.paths[id as int])
    }
}

/// The id in `t` of the authority that `s` knows as `id`.
pub open spec fn remap_name(t: InternTable, s: GrantSet, id: u32) -> u32 {
    if t.is_empty() || s.table.is_empty() {
        id
    } else {
        super::interner::authority_index(t.authorities, s.table.authorities[id as int])
    }
}

/// Directory `n` of `t` is an ancestor-or-equal of path `p` of `t`.
pub open spec fn covers_id(t: InternTable, n: u32, p: u32) -> bool {
    if t.is_empty() {
        n == p
    } else {
        super::interner::holds(
            path::components(t.paths[n as int]),
            path::components(t.paths[p as int]),
        )
    }
}

/// `s` grants path `p` of `t` with mode `m` as a file.
pub open spec fn file_grants(t: InternTable, s: GrantSet, p: u32, m: FileMode) -> bool {
    exists|i: int|
        0 <= i < s.files.len() && remap(t, s, (#[trigger] s.files[i]).spec_path()) == p
            && s.files[i].spec_mode() == m
}

/// `s` grants path `p` of `t` with mode `m` through a directory.
pub open spec fn dir_grants(t: InternTable, s: GrantSet, p: u32, m: FileMode) -> bool {
    exists|i: int|
        0 <= i < s.dirs.len() && covers_id(t, remap(t, s, (#[trigger] s.dirs[i]).spec_root()), p)
            && s.dirs[i].spec_mode() == m
}

/// `m` is the greatest mode with which `s` grants path `p` of `t`.
pub open spec fn best_mode(t: InternTable, s: GrantSet, p: u32, m: FileMode) -> bool {
    &&& file_grants(t, s, p, m) || dir_grants(t, s, p, m)
    &&& forall|n: FileMode|
        file_grants(t, s, p, n) || dir_grants(t, s, p, n) ==> #[trigger] n.within(m)
}

/// `s` names path `p` of `t` as a file.
pub open spec fn names_file(t: InternTable, s: GrantSet, p: u32) -> bool {
    exists|i: int| 0 <= i < s.files.len() && remap(t, s, (#[trigger] s.files[i]).spec_path()) == p
}

/// The file grant `(p, m)` belongs to the meet: one set names the file, both
/// cover it, and `m` is the lesser of what they permit.
pub open spec fn meet_file(t: InternTable, a: GrantSet, b: GrantSet, p: u32, m: FileMode) -> bool {
    &&& names_file(t, a, p) || names_file(t, b, p)
    &&& exists|x: FileMode, y: FileMode|
        #[trigger] best_mode(t, a, p, x) && #[trigger] best_mode(t, b, p, y) && m == x.lesser(y)
}

/// The more specific of two roots when one holds the other.
pub open spec fn narrower(t: InternTable, x: u32, y: u32) -> Option<u32> {
    if covers_id(t, y, x) {
        Some(x)
    } else if covers_id(t, x, y) {
        Some(y)
    } else {
        None
    }
}

/// Directories `i` of `a` and `j` of `b` meet in root `n` with mode `m`.
pub open spec fn dirs_meet(
    t: InternTable,
    a: GrantSet,
    i: int,
    b: GrantSet,
    j: int,
    n: u32,
    m: FileMode,
) -> bool {
    &&& 0 <= i < a.dirs.len()
    &&& 0 <= j < b.dirs.len()
    &&& narrower(t, remap(t, a, a.dirs[i].spec_root()), remap(t, b, b.dirs[j].spec_root()))
        == Some(n)
    &&& m == a.dirs[i].spec_mode().lesser(b.dirs[j].spec_mode())
}

/// Some pair of directories meets in root `n` with mode `m`.
pub open spec fn meet_pair(t: InternTable, a: GrantSet, b: GrantSet, n: u32, m: FileMode) -> bool {
    exists|i: int, j: int| dirs_meet(t, a, i, b, j, n, m)
}

/// The directory grant `(n, m)` belongs to the meet: some pair meets in it,
/// and no pair meets there with a greater mode.
pub open spec fn meet_dir(t: InternTable, a: GrantSet, b: GrantSet, n: u32, m: FileMode) -> bool {
    &&& meet_pair(t, a, b, n, m)
    &&& forall|k: FileMode| meet_pair(t, a, b, n, k) ==> #[trigger] k.within(m)
}

/// Hosts `i` of `a` and `j` of `b` are authority `n` of `t` and share the
/// methods `m`.
pub open spec fn hosts_meet(
    t: InternTable,
    a: GrantSet,
    i: int,
    b: GrantSet,
    j: int,
    n: u32,
    m: u8,
) -> bool {
    &&& 0 <= i < a.hosts.len()
    &&& 0 <= j < b.hosts.len()
    &&& remap_name(t, a, a.hosts[i].spec_authority()) == n
    &&& remap_name(t, b, b.hosts[j].spec_authority()) == n
    &&& m == a.hosts[i].spec_methods() & b.hosts[j].spec_methods()
    &&& m != 0
}

/// The host grant `(n, m)` belongs to the meet: both sets grant the authority
/// and share at least one method.
pub open spec fn meet_host(t: InternTable, a: GrantSet, b: GrantSet, n: u32, m: u8) -> bool {
    exists|i: int, j: int| hosts_meet(t, a, i, b, j, n, m)
}

/// `r` is the meet of `a` and `b`.
pub open spec fn is_meet(a: GrantSet, b: GrantSet, r: GrantSet) -> bool {
    let t = merged_table(a, b);
    let fs = super::capability::bit_set(a.bits & b.bits, Interface::Filesystem);
    let http = super::capability::bit_set(a.bits & b.bits, Interface::HttpOutbound);
    &&& r.table == t
    &&& r.bits == a.bits & b.bits
    &&& forall|p: u32, m: FileMode|
        #[trigger] r.files.contains(FileGrant::of(p, m)) <==> fs && meet_file(t, a, b, p, m)
    &&& forall|n: u32, m: FileMode|
        #[trigger] r.dirs.contains(DirGrant::of(n, m)) <==> fs && meet_dir(t, a, b, n, m)
    &&& forall|n: u32, m: u8|
        #[trigger] r.hosts.contains(HostGrant::of(n, m)) <==> http && meet_host(t, a, b, n, m)
}

/// Every id of `s` that is resolved when `s` is met is an id of a table.
pub open spec fn meetable(s: GrantSet, other: GrantSet) -> bool {
    ||| s.table.is_empty() && other.table.is_empty()
    ||| s.table.is_empty() && (forall|i: int|
        0 <= i < s.files.len() ==> (#[trigger] s.files[i]).spec_path() < other.table.paths.len())
        && (forall|i: int|
        0 <= i < s.dirs.len() ==> (#[trigger] s.dirs[i]).spec_root() < other.table.paths.len())
    ||| !s.table.is_empty() && s.resolves()
}

impl CapabilitySet {
    /// Greatest lower bound.
    ///
    /// Meet of two directories is the more specific root when one contains
    /// the other, and absent otherwise. Meet of a file with a covering
    /// directory is the file with the lesser mode.
    #[must_use]
    pub fn meet(&self, other: &CapabilitySet) -> (r: CapabilitySet)
        requires
            self.wf(),
            other.wf(),
            meetable(self@, other@),
            meetable(other@, self@),
            merged_table(self@, other@).paths.len() <= super::interner::id_space(),
            merged_table(self@, other@).authorities.len() <= super::interner::id_space(),
        ensures
            r.wf(),
            is_meet(self@, other@, r@),
    {
        let bits: u64 = self.interfaces_bits() & other.interfaces_bits();
        let intern = merged_interner(self, other);
        let (files, dirs, hosts) = meet_grants(self, other, &intern, bits);
        proof {
            let x = self@.bits;
            let y = other@.bits;
            self.lemma_wf();
            assert(x & y < 32) by (bit_vector)
                requires
                    x < 32,
            ;
        }
        let r = finish(bits, files, dirs, hosts, intern);
        proof {
            assert forall|g: FileGrant| r@.files.contains(g) == files@.contains(g) by {
                to_multiset_contains(r@.files, g);
                to_multiset_contains(files@, g);
            }
            assert forall|g: DirGrant| r@.dirs.contains(g) == dirs@.contains(g) by {
                to_multiset_contains(r@.dirs, g);
                to_multiset_contains(dirs@, g);
            }
            assert forall|g: HostGrant| r@.hosts.contains(g) == hosts@.contains(g) by {
                to_multiset_contains(r@.hosts, g);
                to_multiset_contains(hosts@, g);
            }
            let t = merged_table(self@, other@);
            assert forall|p: u32, m: FileMode| #[trigger] r@.files.contains(FileGrant::of(p, m))
                <==> super::capability::bit_set(bits, Interface::Filesystem) && meet_file(
                t,
                self@,
                other@,
                p,
                m,
            ) by {
                assert(files@.contains(FileGrant::of(p, m)) == r@.files.contains(
                    FileGrant::of(p, m),
                ));
            }
            assert forall|p: u32, m: FileMode| #[trigger] r@.dirs.contains(DirGrant::of(p, m))
                <==> super::capability::bit_set(bits, Interface::Filesystem) && meet_dir(
                t,
                self@,
                other@,
                p,
                m,
            ) by {
                assert(dirs@.contains(DirGrant::of(p, m)) == r@.dirs.contains(DirGrant::of(p, m)));
            }
            assert forall|p: u32, m: u8| #[trigger] r@.hosts.contains(HostGrant::of(p, m))
                <==> super::capability::bit_set(bits, Interface::HttpOutbound) && meet_host(
                t,
                self@,
                other@,
                p,
                m,
            ) by {
                assert(hosts@.contains(HostGrant::of(p, m)) == r@.hosts.contains(
                    HostGrant::of(p, m),
                ));
            }
        }
        r
    }
}

/// No key twice.
spec fn keys_unique<T: Ranked>(s: Seq<T>) -> bool {
    sort::keys(s).no_duplicates()
}

proof fn lemma_keys_unique<T: Ranked>(s: Seq<T>)
    requires
        keys_unique(s),
    ensures
        !sort::has_repeat(sort::key_bag(s)),
{
    sort::lemma_unique_no_repeat(sort::keys(s));
}

fn finish(
    bits: u64,
    files: Vec<FileGrant>,
    dirs: Vec<DirGrant>,
    hosts: Vec<HostGrant>,
    intern: Interner,
) -> (r: CapabilitySet)
    requires
        bits < 32,
        intern.wf(),
        keys_unique(files@),
        keys_unique(dirs@),
        keys_unique(hosts@),
        super::capability::bit_set(bits, Interface::Filesystem) || (files@.len() == 0 && dirs@.len()
            == 0),
        super::capability::bit_set(bits, Interface::HttpOutbound) || hosts@.len() == 0,
    ensures
        r.wf(),
        r@.bits == bits,
        r@.files.to_multiset() == files@.to_multiset(),
        r@.dirs.to_multiset() == dirs@.to_multiset(),
        r@.hosts.to_multiset() == hosts@.to_multiset(),
        r@.table == intern@,
{
    let interfaces = list_interfaces(bits);
    proof {
        super::capability::interfaces_round_trip(bits);
        lemma_keys_unique(files@);
        lemma_keys_unique(dirs@);
        lemma_keys_unique(hosts@);
    }
    match CapabilitySet::new(interfaces.as_slice(), files, dirs, hosts) {
        Ok(set) => set.with_interner(intern),
        Err(_) => CapabilitySet::empty(),
    }
}

fn merged_interner(a: &CapabilitySet, b: &CapabilitySet) -> (r: Interner)
    requires
        a.wf(),
        b.wf(),
        meetable(a@, b@),
        meetable(b@, a@),
        merged_table(a@, b@).paths.len() <= super::interner::id_space(),
        merged_table(a@, b@).authorities.len() <= super::interner::id_space(),
    ensures
        r.wf(),
        r@ == merged_table(a@, b@),
{
    let mut intern = if a.interner().is_empty() {
        b.interner().clone()
    } else {
        a.interner().clone()
    };
    proof {
        lemma_with_grants(intern@, a@);
        lemma_with_grants(with_grants(intern@, a@), b@);
    }
    intern_grants_into(&mut intern, a);
    intern_grants_into(&mut intern, b);
    intern
}

/// Granting keeps what the table has and has what is granted.
proof fn lemma_with_grants(t: InternTable, s: GrantSet)
    ensures
        with_grants(t, s).paths.len() >= t.paths.len(),
        with_grants(t, s).paths.take(t.paths.len() as int) == t.paths,
        with_grants(t, s).authorities.len() >= t.authorities.len(),
        with_grants(t, s).authorities.take(t.authorities.len() as int) == t.authorities,
        !s.table.is_empty() ==> forall|i: int|
            0 <= i < s.files.len() ==> super::interner::has_path(
                with_grants(t, s).paths,
                s.table.paths[(#[trigger] s.files[i]).spec_path() as int],
            ),
        !s.table.is_empty() ==> forall|i: int|
            0 <= i < s.dirs.len() ==> super::interner::has_path(
                with_grants(t, s).paths,
                s.table.paths[(#[trigger] s.dirs[i]).spec_root() as int],
            ),
        !s.table.is_empty() ==> forall|i: int|
            0 <= i < s.hosts.len() ==> with_grants(t, s).authorities.contains(
                s.table.authorities[(#[trigger] s.hosts[i]).spec_authority() as int],
            ),
{
    if s.table.is_empty() {
        assert(t.paths.take(t.paths.len() as int) =~= t.paths);
        assert(t.authorities.take(t.authorities.len() as int) =~= t.authorities);
    } else {
        let mid = super::interner::with_paths(t.paths, s.file_paths());
        let out = with_grants(t, s);
        super::interner::lemma_with_paths(t.paths, s.file_paths());
        super::interner::lemma_with_paths(mid, s.dir_paths());
        super::interner::lemma_with_authorities(t.authorities, s.host_names());
        assert(out.paths.take(t.paths.len() as int) =~= out.paths.take(mid.len() as int).take(
            t.paths.len() as int,
        ));
        assert forall|i: int| 0 <= i < s.files.len() implies super::interner::has_path(
            out.paths,
            s.table.paths[(#[trigger] s.files[i]).spec_path() as int],
        ) by {
            let p = s.file_paths()[i];
            assert(super::interner::has_path(mid, p));
            lemma_has_path_extends(mid, out.paths, p);
        }
        assert forall|i: int| 0 <= i < s.dirs.len() implies super::interner::has_path(
            out.paths,
            s.table.paths[(#[trigger] s.dirs[i]).spec_root() as int],
        ) by {
            assert(super::interner::has_path(out.paths, s.dir_paths()[i]));
        }
        assert forall|i: int| 0 <= i < s.hosts.len() implies out.authorities.contains(
            s.table.authorities[(#[trigger] s.hosts[i]).spec_authority() as int],
        ) by {
            assert(out.authorities.contains(s.host_names()[i]));
        }
    }
}

proof fn lemma_has_path_extends(x: Seq<Seq<u8>>, y: Seq<Seq<u8>>, p: Seq<u8>)
    requires
        x.len() <= y.len(),
        y.take(x.len() as int) == x,
        super::interner::has_path(x, p),
    ensures
        super::interner::has_path(y, p),
{
    let k = choose|k: int| super::interner::names_path(x, k, p);
    assert(y.take(x.len() as int)[k] == y[k]);
    assert(super::interner::names_path(y, k, p));
}

/// In the merged table every granted path and authority has its id.
pub proof fn lemma_merged(a: GrantSet, b: GrantSet)
    requires
        meetable(a, b),
        meetable(b, a),
    ensures
        granted_in(merged_table(a, b), a),
        granted_in(merged_table(a, b), b),
        merged_table(a, b).is_empty() ==> a.table.is_empty() && b.table.is_empty(),
{
    let base = if a.table.is_empty() {
        b.table
    } else {
        a.table
    };
    let mid = with_grants(base, a);
    let t = merged_table(a, b);
    lemma_with_grants(base, a);
    lemma_with_grants(mid, b);
    if !a.table.is_empty() {
        assert forall|i: int| 0 <= i < a.files.len() implies super::interner::has_path(
            t.paths,
            a.table.paths[(#[trigger] a.files[i]).spec_path() as int],
        ) by {
            lemma_has_path_extends(
                mid.paths,
                t.paths,
                a.table.paths[a.files[i].spec_path() as int],
            );
        }
        assert forall|i: int| 0 <= i < a.dirs.len() implies super::interner::has_path(
            t.paths,
            a.table.paths[(#[trigger] a.dirs[i]).spec_root() as int],
        ) by {
            lemma_has_path_extends(mid.paths, t.paths, a.table.paths[a.dirs[i].spec_root() as int]);
        }
        assert forall|i: int| 0 <= i < a.hosts.len() implies t.authorities.contains(
            a.table.authorities[(#[trigger] a.hosts[i]).spec_authority() as int],
        ) by {
            let n = a.table.authorities[a.hosts[i].spec_authority() as int];
            assert(mid.authorities.contains(n));
            let k = choose|k: int| 0 <= k < mid.authorities.len() && mid.authorities[k] == n;
            assert(t.authorities.take(mid.authorities.len() as int)[k] == t.authorities[k]);
            assert(t.authorities[k] == n);
        }
    }
}

/// What `s` grants is in `t`, or ids stand as they are and are in range.
pub open spec fn granted_in(t: InternTable, s: GrantSet) -> bool {
    if s.table.is_empty() {
        t.is_empty() || ((forall|i: int|
            0 <= i < s.files.len() ==> (#[trigger] s.files[i]).spec_path() < t.paths.len()) && (
        forall|i: int|
            0 <= i < s.dirs.len() ==> (#[trigger] s.dirs[i]).spec_root() < t.paths.len()))
    } else {
        &&& s.resolves()
        &&& forall|i: int|
            0 <= i < s.files.len() ==> super::interner::has_path(
                t.paths,
                s.table.paths[(#[trigger] s.files[i]).spec_path() as int],
            )
        &&& forall|i: int|
            0 <= i < s.dirs.len() ==> super::interner::has_path(
                t.paths,
                s.table.paths[(#[trigger] s.dirs[i]).spec_root() as int],
            )
        &&& forall|i: int|
            0 <= i < s.hosts.len() ==> t.authorities.contains(
                s.table.authorities[(#[trigger] s.hosts[i]).spec_authority() as int],
            )
    }
}

fn intern_grants_into(intern: &mut Interner, set: &CapabilitySet)
    requires
        old(intern).wf(),
        set.wf(),
        set@.table.is_empty() || set@.resolves(),
        with_grants(old(intern)@, set@).paths.len() <= super::interner::id_space(),
        with_grants(old(intern)@, set@).authorities.len() <= super::interner::id_space(),
    ensures
        final(intern).wf(),
        final(intern)@ == with_grants(old(intern)@, set@),
{
    if set.interner().is_empty() {
        return;
    }
    let ghost t = intern@;
    let ghost fp = set@.file_paths();
    let ghost dp = set@.dir_paths();
    let ghost hn = set@.host_names();
    let ghost mid = super::interner::with_paths(t.paths, fp);
    proof {
        super::interner::lemma_with_paths(mid, dp);
    }
    let files = set.files();
    let mut i: usize = 0;
    assert(fp.take(0) =~= Seq::<Seq<u8>>::empty());
    while i < files.len()
        invariant
            set.wf(),
            set@.resolves(),
            intern.wf(),
            files@ == set@.files,
            fp == set@.file_paths(),
            0 <= i <= files.len(),
            intern@.paths == super::interner::with_paths(t.paths, fp.take(i as int)),
            intern@.authorities == t.authorities,
            super::interner::with_paths(t.paths, fp).len() <= super::interner::id_space(),
        decreases files.len() - i,
    {
        assert(files@[i as int] == set@.files[i as int]);
        proof {
            assert(fp.take(i as int + 1).drop_last() =~= fp.take(i as int));
            lemma_with_paths_monotone(t.paths, fp, i as int + 1);
        }
        intern.intern_path(set.interner().path(files[i].path()));
        i += 1;
    }
    assert(fp.take(i as int) =~= fp);
    let dirs = set.dirs();
    let mut i: usize = 0;
    assert(dp.take(0) =~= Seq::<Seq<u8>>::empty());
    while i < dirs.len()
        invariant
            set.wf(),
            set@.resolves(),
            intern.wf(),
            dirs@ == set@.dirs,
            dp == set@.dir_paths(),
            0 <= i <= dirs.len(),
            intern@.paths == super::interner::with_paths(mid, dp.take(i as int)),
            intern@.authorities == t.authorities,
            super::interner::with_paths(mid, dp).len() <= super::interner::id_space(),
        decreases dirs.len() - i,
    {
        assert(dirs@[i as int] == set@.dirs[i as int]);
        proof {
            assert(dp.take(i as int + 1).drop_last() =~= dp.take(i as int));
            lemma_with_paths_monotone(mid, dp, i as int + 1);
        }
        intern.intern_path(set.interner().path(dirs[i].root()));
        i += 1;
    }
    assert(dp.take(i as int) =~= dp);
    let hosts = set.hosts();
    let mut i: usize = 0;
    assert(hn.take(0) =~= Seq::<Seq<char>>::empty());
    while i < hosts.len()
        invariant
            set.wf(),
            set@.resolves(),
            intern.wf(),
            hosts@ == set@.hosts,
            hn == set@.host_names(),
            0 <= i <= hosts.len(),
            intern@.paths == super::interner::with_paths(mid, dp),
            intern@.authorities == super::interner::with_authorities(
                t.authorities,
                hn.take(i as int),
            ),
            super::interner::with_authorities(t.authorities, hn).len()
                <= super::interner::id_space(),
        decreases hosts.len() - i,
    {
        assert(hosts@[i as int] == set@.hosts[i as int]);
        proof {
            assert(hn.take(i as int + 1).drop_last() =~= hn.take(i as int));
            lemma_with_authorities_monotone(t.authorities, hn, i as int + 1);
        }
        intern.intern_authority(set.interner().authority(hosts[i].authority()));
        i += 1;
    }
    assert(hn.take(i as int) =~= hn);
}

/// A shorter list never leaves a longer table.
pub proof fn lemma_with_paths_monotone(paths: Seq<Seq<u8>>, ps: Seq<Seq<u8>>, n: int)
    requires
        0 <= n <= ps.len(),
    ensures
        super::interner::with_paths(paths, ps.take(n)).len() <= super::interner::with_paths(
            paths,
            ps,
        ).len(),
    decreases ps.len(),
{
    if n == ps.len() {
        assert(ps.take(n) =~= ps);
    } else {
        lemma_with_paths_monotone(paths, ps.drop_last(), n);
        assert(ps.drop_last().take(n) =~= ps.take(n));
        super::interner::lemma_with_path_shape(
            super::interner::with_paths(paths, ps.drop_last()),
            ps.last(),
        );
    }
}

/// A shorter list never leaves a longer table.
pub proof fn lemma_with_authorities_monotone(
    authorities: Seq<Seq<char>>,
    names: Seq<Seq<char>>,
    n: int,
)
    requires
        0 <= n <= names.len(),
    ensures
        super::interner::with_authorities(authorities, names.take(n)).len()
            <= super::interner::with_authorities(authorities, names).len(),
    decreases names.len(),
{
    if n == names.len() {
        assert(names.take(n) =~= names);
    } else {
        lemma_with_authorities_monotone(authorities, names.drop_last(), n);
        assert(names.drop_last().take(n) =~= names.take(n));
        super::interner::lemma_with_authority(
            super::interner::with_authorities(authorities, names.drop_last()),
            names.last(),
        );
    }
}

fn remap_path(intern: &Interner, set: &CapabilitySet, id: PathId) -> (r: PathId)
    requires
        intern.wf(),
        set.wf(),
        intern@.is_empty() || set@.table.is_empty() || (id@ < set@.table.paths.len()
            && super::interner::has_path(intern@.paths, set@.table.paths[id@ as int])),
    ensures
        r@ == remap(intern@, set@, id@),
        intern@.is_empty() || set@.table.is_empty() || r@ < intern@.paths.len(),
{
    if intern.is_empty() || set.interner().is_empty() {
        return id;
    }
    match intern.get_path(set.interner().path(id)) {
        Some(n) => {
            proof {
                intern.lemma_wf();
                super::interner::lemma_path_index(
                    intern@,
                    n@,
                    set@.table.paths[id@ as int],
                );
            }
            n
        },
        None => id,
    }
}

fn remap_authority(intern: &Interner, set: &CapabilitySet, id: AuthorityId) -> (r: AuthorityId)
    requires
        intern.wf(),
        set.wf(),
        intern@.is_empty() || set@.table.is_empty() || (id@ < set@.table.authorities.len()
            && intern@.authorities.contains(set@.table.authorities[id@ as int])),
    ensures
        r@ == remap_name(intern@, set@, id@),
{
    if intern.is_empty() || set.interner().is_empty() {
        return id;
    }
    match intern.get_authority(set.interner().authority(id)) {
        Some(n) => {
            proof {
                intern.lemma_wf();
                super::interner::lemma_authority_index(intern@, n@);
            }
            n
        },
        None => id,
    }
}

fn meet_grants(a: &CapabilitySet, b: &CapabilitySet, intern: &Interner, bits: u64) -> (r: (
    Vec<FileGrant>,
    Vec<DirGrant>,
    Vec<HostGrant>,
))
    requires
        a.wf(),
        b.wf(),
        intern.wf(),
        meetable(a@, b@),
        meetable(b@, a@),
        intern@ == merged_table(a@, b@),
    ensures
        keys_unique(r.0@),
        keys_unique(r.1@),
        keys_unique(r.2@),
        super::capability::bit_set(bits, Interface::Filesystem) || (r.0@.len() == 0 && r.1@.len()
            == 0),
        super::capability::bit_set(bits, Interface::HttpOutbound) || r.2@.len() == 0,
        forall|p: u32, m: FileMode|
            #[trigger] r.0@.contains(FileGrant::of(p, m)) <==> super::capability::bit_set(
                bits,
                Interface::Filesystem,
            ) && meet_file(intern@, a@, b@, p, m),
        forall|n: u32, m: FileMode|
            #[trigger] r.1@.contains(DirGrant::of(n, m)) <==> super::capability::bit_set(
                bits,
                Interface::Filesystem,
            ) && meet_dir(intern@, a@, b@, n, m),
        forall|n: u32, m: u8|
            #[trigger] r.2@.contains(HostGrant::of(n, m)) <==> super::capability::bit_set(
                bits,
                Interface::HttpOutbound,
            ) && meet_host(intern@, a@, b@, n, m),
{
    proof {
        lemma_merged(a@, b@);
    }
    let has_fs = bits & Interface::Filesystem.bit() != 0;
    let has_http = bits & Interface::HttpOutbound.bit() != 0;
    let files = if has_fs {
        meet_files(a, b, intern)
    } else {
        Vec::new()
    };
    let dirs = if has_fs {
        meet_dirs(a, b, intern)
    } else {
        Vec::new()
    };
    let hosts = if has_http {
        meet_hosts(a, b, intern)
    } else {
        Vec::new()
    };
    (files, dirs, hosts)
}

/// The greatest mode with which `set` grants `path`.
fn covering_file_mode(set: &CapabilitySet, intern: &Interner, path: PathId) -> (r: Option<FileMode>)
    requires
        set.wf(),
        intern.wf(),
        granted_in(intern@, set@),
        intern@.is_empty() || path@ < intern@.paths.len(),
    ensures
        match r {
            Some(m) => best_mode(intern@, set@, path@, m),
            None => forall|m: FileMode| !best_mode(intern@, set@, path@, m),
        },
{
    let ghost t = intern@;
    let ghost s = set@;
    let mut best: Option<FileMode> = None;
    let files = set.files();
    let mut i: usize = 0;
    while i < files.len()
        invariant
            set.wf(),
            intern.wf(),
            granted_in(intern@, set@),
            t == intern@,
            s == set@,
            files@ == s.files,
            0 <= i <= files.len(),
            best matches Some(m) ==> exists|k: int|
                0 <= k < i && remap(t, s, (#[trigger] s.files[k]).spec_path()) == path@
                    && s.files[k].spec_mode() == m,
            forall|k: int|
                0 <= k < i && remap(t, s, (#[trigger] s.files[k]).spec_path()) == path@ ==> (
                best matches Some(m) && s.files[k].spec_mode().within(m)),
        decreases files.len() - i,
    {
        let f = files[i];
        assert(f == s.files[i as int]);
        if remap_path(intern, set, f.path()).as_u32() == path.as_u32() {
            best = Some(max_mode(best, f.mode()));
        }
        i += 1;
    }
    proof {
        assert(best matches Some(m) ==> file_grants(t, s, path@, m));
    }
    let dirs = set.dirs();
    let mut i: usize = 0;
    while i < dirs.len()
        invariant
            set.wf(),
            intern.wf(),
            granted_in(intern@, set@),
            intern@.is_empty() || path@ < intern@.paths.len(),
            t == intern@,
            s == set@,
            dirs@ == s.dirs,
            0 <= i <= dirs.len(),
            best matches Some(m) ==> file_grants(t, s, path@, m) || exists|k: int|
                0 <= k < i && covers_id(t, remap(t, s, (#[trigger] s.dirs[k]).spec_root()), path@)
                    && s.dirs[k].spec_mode() == m,
            forall|k: int|
                0 <= k < s.files.len() && remap(t, s, (#[trigger] s.files[k]).spec_path()) == path@
                    ==> (best matches Some(m) && s.files[k].spec_mode().within(m)),
            forall|k: int|
                0 <= k < i && covers_id(t, remap(t, s, (#[trigger] s.dirs[k]).spec_root()), path@)
                    ==> (best matches Some(m) && s.dirs[k].spec_mode().within(m)),
        decreases dirs.len() - i,
    {
        let d = dirs[i];
        assert(d == s.dirs[i as int]);
        let root = remap_path(intern, set, d.root());
        if intern.is_empty() {
            if root.as_u32() == path.as_u32() {
                best = Some(max_mode(best, d.mode()));
            }
        } else if intern.is_prefix(root, path) {
            best = Some(max_mode(best, d.mode()));
        }
        i += 1;
    }
    proof {
        match best {
            Some(m) => {
                assert(file_grants(t, s, path@, m) || dir_grants(t, s, path@, m));
            },
            None => {
                assert forall|m: FileMode| !best_mode(t, s, path@, m) by {}
            },
        }
    }
    best
}

fn max_mode(cur: Option<FileMode>, m: FileMode) -> (r: FileMode)
    ensures
        r == match cur {
            Some(c) => c.greater(m),
            None => m,
        },
{
    match cur {
        Some(c) => c.max_with(m),
        None => m,
    }
}

/// The greatest mode is unique.
proof fn lemma_best_mode_unique(t: InternTable, s: GrantSet, p: u32, m: FileMode, n: FileMode)
    requires
        best_mode(t, s, p, m),
        best_mode(t, s, p, n),
    ensures
        m == n,
{
    assert(n.within(m));
    assert(m.within(n));
}

/// Position of the file grant with this path id.
fn find_file(v: &Vec<FileGrant>, id: u32) -> (r: Option<usize>)
    ensures
        match r {
            Some(i) => i < v@.len() && v@[i as int].spec_path() == id,
            None => forall|i: int| 0 <= i < v@.len() ==> (#[trigger] v@[i]).spec_path() != id,
        },
{
    let mut i: usize = 0;
    while i < v.len()
        invariant
            0 <= i <= v.len(),
            forall|k: int| 0 <= k < i ==> (#[trigger] v@[k]).spec_path() != id,
        decreases v.len() - i,
    {
        if v[i].path().as_u32() == id {
            return Some(i);
        }
        i += 1;
    }
    None
}

/// Position of the directory grant with this root id.
fn find_dir(v: &Vec<DirGrant>, id: u32) -> (r: Option<usize>)
    ensures
        match r {
            Some(i) => i < v@.len() && v@[i as int].spec_root() == id,
            None => forall|i: int| 0 <= i < v@.len() ==> (#[trigger] v@[i]).spec_root() != id,
        },
{
    let mut i: usize = 0;
    while i < v.len()
        invariant
            0 <= i <= v.len(),
            forall|k: int| 0 <= k < i ==> (#[trigger] v@[k]).spec_root() != id,
        decreases v.len() - i,
    {
        if v[i].root().as_u32() == id {
            return Some(i);
        }
        i += 1;
    }
    None
}

/// The first `n` files of `s` that belong to the meet are in `out`.
spec fn files_done(t: InternTable, a: GrantSet, b: GrantSet, s: GrantSet, n: int, out: Seq<FileGrant>)
    -> bool {
    forall|i: int, m: FileMode|
        0 <= i < n && meet_file(t, a, b, remap(t, s, (#[trigger] s.files[i]).spec_path()), m)
            ==> #[trigger] out.contains(FileGrant::of(remap(t, s, s.files[i].spec_path()), m))
}

/// Everything in `out` belongs to the meet.
spec fn files_sound(t: InternTable, a: GrantSet, b: GrantSet, out: Seq<FileGrant>) -> bool {
    forall|k: int|
        0 <= k < out.len() ==> meet_file(
            t,
            a,
            b,
            (#[trigger] out[k]).spec_path(),
            out[k].spec_mode(),
        )
}

/// Adds the files of `source` that belong to the meet.
fn add_met_files(
    a: &CapabilitySet,
    b: &CapabilitySet,
    source: &CapabilitySet,
    intern: &Interner,
    out: &mut Vec<FileGrant>,
)
    requires
        a.wf(),
        b.wf(),
        source.wf(),
        intern.wf(),
        source@ == a@ || source@ == b@,
        granted_in(intern@, a@),
        granted_in(intern@, b@),
        keys_unique(old(out)@),
        files_sound(intern@, a@, b@, old(out)@),
    ensures
        keys_unique(final(out)@),
        files_sound(intern@, a@, b@, final(out)@),
        files_done(intern@, a@, b@, source@, source@.files.len() as int, final(out)@),
        forall|g: FileGrant| #[trigger] old(out)@.contains(g) ==> final(out)@.contains(g),
{
    let ghost t = intern@;
    let ghost first = out@;
    let files = source.files();
    let mut i: usize = 0;
    while i < files.len()
        invariant
            a.wf(),
            b.wf(),
            source.wf(),
            intern.wf(),
            source@ == a@ || source@ == b@,
            granted_in(intern@, a@),
            granted_in(intern@, b@),
            t == intern@,
            files@ == source@.files,
            0 <= i <= files.len(),
            keys_unique(out@),
            files_sound(t, a@, b@, out@),
            files_done(t, a@, b@, source@, i as int, out@),
            forall|g: FileGrant| #[trigger] first.contains(g) ==> out@.contains(g),
        decreases files.len() - i,
    {
        let f = files[i];
        assert(f == source@.files[i as int]);
        let path = remap_path(intern, source, f.path());
        let ghost p = path@;
        let ghost before = out@;
        proof {
            assert(names_file(t, source@, p)) by {
                assert(remap(t, source@, source@.files[i as int].spec_path()) == p);
            }
        }
        match find_file(out, path.as_u32()) {
            Some(k) => {
                proof {
                    assert forall|m: FileMode| meet_file(t, a@, b@, p, m) implies #[trigger] out@.contains(
                        FileGrant::of(p, m),
                    ) by {
                        lemma_meet_file_unique(t, a@, b@, p, m, out@[k as int].spec_mode());
                        out@[k as int].lemma_of(p, m);
                        assert(out@[k as int] == FileGrant::of(p, m));
                    }
                }
            },
            None => {
                let ma = covering_file_mode(a, intern, path);
                let mb = covering_file_mode(b, intern, path);
                match (ma, mb) {
                    (Some(x), Some(y)) => {
                        let g = FileGrant::new(path, x.min_with(y));
                        proof {
                            assert(best_mode(t, a@, p, x) && best_mode(t, b@, p, y));
                            assert(meet_file(t, a@, b@, p, x.lesser(y)));
                        }
                        out.push(g);
                        proof {
                            lemma_push_key(before, g);
                            assert(out@[before.len() as int] == g);
                            assert forall|m: FileMode| meet_file(
                                t,
                                a@,
                                b@,
                                p,
                                m,
                            ) implies #[trigger] out@.contains(FileGrant::of(p, m)) by {
                                lemma_meet_file_unique(t, a@, b@, p, m, x.lesser(y));
                            }
                        }
                    },
                    _ => {
                        assert forall|m: FileMode| !meet_file(t, a@, b@, p, m) by {}
                    },
                }
            },
        }
        proof {
            assert forall|g: FileGrant| #[trigger] before.contains(g) implies out@.contains(g) by {
                let k = choose|k: int| 0 <= k < before.len() && before[k] == g;
                assert(out@[k] == g);
            }
            assert forall|k: int, m: FileMode|
                0 <= k < i + 1 && meet_file(
                    t,
                    a@,
                    b@,
                    remap(t, source@, (#[trigger] source@.files[k]).spec_path()),
                    m,
                ) implies #[trigger] out@.contains(
                FileGrant::of(remap(t, source@, source@.files[k].spec_path()), m),
            ) by {
                if k < i {
                    assert(before.contains(
                        FileGrant::of(remap(t, source@, source@.files[k].spec_path()), m),
                    ));
                }
            }
        }
        i += 1;
    }
}

proof fn lemma_push_key<T: Ranked>(s: Seq<T>, g: T)
    requires
        keys_unique(s),
        forall|i: int| 0 <= i < s.len() ==> (#[trigger] s[i]).key() != g.key(),
    ensures
        keys_unique(s.push(g)),
{
    let ks = sort::keys(s.push(g));
    assert forall|i: int, j: int| 0 <= i < ks.len() && 0 <= j < ks.len() && i != j implies ks[i]
        != ks[j] by {
        if i < s.len() {
            assert(ks[i] == sort::keys(s)[i]);
            assert(s[i].key() != g.key());
        }
        if j < s.len() {
            assert(ks[j] == sort::keys(s)[j]);
            assert(s[j].key() != g.key());
        }
    }
}

proof fn lemma_meet_file_unique(
    t: InternTable,
    a: GrantSet,
    b: GrantSet,
    p: u32,
    m: FileMode,
    n: FileMode,
)
    requires
        meet_file(t, a, b, p, m),
        meet_file(t, a, b, p, n),
    ensures
        m == n,
{
    let (x, y) = choose|x: FileMode, y: FileMode|
        #[trigger] best_mode(t, a, p, x) && #[trigger] best_mode(t, b, p, y) && m == x.lesser(y);
    let (u, v) = choose|x: FileMode, y: FileMode|
        #[trigger] best_mode(t, a, p, x) && #[trigger] best_mode(t, b, p, y) && n == x.lesser(y);
    lemma_best_mode_unique(t, a, p, x, u);
    lemma_best_mode_unique(t, b, p, y, v);
}

fn meet_files(a: &CapabilitySet, b: &CapabilitySet, intern: &Interner) -> (out: Vec<FileGrant>)
    requires
        a.wf(),
        b.wf(),
        intern.wf(),
        granted_in(intern@, a@),
        granted_in(intern@, b@),
    ensures
        keys_unique(out@),
        forall|p: u32, m: FileMode|
            #[trigger] out@.contains(FileGrant::of(p, m)) <==> meet_file(intern@, a@, b@, p, m),
{
    let mut out: Vec<FileGrant> = Vec::new();
    add_met_files(a, b, a, intern, &mut out);
    let ghost half = out@;
    add_met_files(a, b, b, intern, &mut out);
    proof {
        let t = intern@;
        assert forall|p: u32, m: FileMode| #[trigger] out@.contains(FileGrant::of(p, m))
            <==> meet_file(t, a@, b@, p, m) by {
            if out@.contains(FileGrant::of(p, m)) {
                let k = choose|k: int| 0 <= k < out@.len() && out@[k] == FileGrant::of(p, m);
                out@[k].lemma_of(p, m);
                assert(meet_file(t, a@, b@, out@[k].spec_path(), out@[k].spec_mode()));
            }
            if meet_file(t, a@, b@, p, m) {
                if names_file(t, a@, p) {
                    let i = choose|i: int|
                        0 <= i < a@.files.len() && remap(
                            t,
                            a@,
                            (#[trigger] a@.files[i]).spec_path(),
                        ) == p;
                    assert(half.contains(
                        FileGrant::of(remap(t, a@, a@.files[i].spec_path()), m),
                    ));
                } else {
                    let i = choose|i: int|
                        0 <= i < b@.files.len() && remap(
                            t,
                            b@,
                            (#[trigger] b@.files[i]).spec_path(),
                        ) == p;
                    assert(out@.contains(FileGrant::of(remap(t, b@, b@.files[i].spec_path()), m)));
                }
            }
        }
    }
    out
}

/// `out` holds, for each root that a pair among the first ones meets in, the
/// greatest mode of such pairs, and nothing else.
spec fn dirs_state(
    t: InternTable,
    a: GrantSet,
    b: GrantSet,
    i: int,
    j: int,
    out: Seq<DirGrant>,
) -> bool {
    &&& forall|k: int|
        0 <= k < out.len() ==> meet_pair(
            t,
            a,
            b,
            (#[trigger] out[k]).spec_root(),
            out[k].spec_mode(),
        )
    &&& forall|x: int, y: int, n: u32, m: FileMode|
        (x < i || (x == i && y < j)) && #[trigger] dirs_meet(t, a, x, b, y, n, m) ==> raised(
            out,
            n,
            m,
        )
}

/// Some grant in `out` has this root with at least this mode.
spec fn raised(out: Seq<DirGrant>, n: u32, m: FileMode) -> bool {
    exists|k: int|
        0 <= k < out.len() && (#[trigger] out[k]).spec_root() == n && m.within(out[k].spec_mode())
}

/// Adds a root, or raises the mode of the one that is there.
fn raise_dir(out: &mut Vec<DirGrant>, root: PathId, mode: FileMode)
    requires
        keys_unique(old(out)@),
    ensures
        keys_unique(final(out)@),
        raised(final(out)@, root@, mode),
        forall|n: u32, m: FileMode| #[trigger] raised(old(out)@, n, m) ==> raised(final(out)@, n, m),
        forall|k: int|
            0 <= k < final(out)@.len() ==> (#[trigger] final(out)@[k] == DirGrant::of(root@, mode))
                || old(out)@.contains(final(out)@[k]),
{
    let ghost before = out@;
    match find_dir(out, root.as_u32()) {
        Some(k) => {
            if !mode.is_within(out[k].mode()) {
                out.set(k, DirGrant::new(root, mode));
                proof {
                    assert(sort::keys(out@) =~= sort::keys(before));
                    assert forall|n: u32, m: FileMode| #[trigger] raised(before, n, m) implies raised(
                        out@,
                        n,
                        m,
                    ) by {
                        let x = choose|x: int|
                            0 <= x < before.len() && (#[trigger] before[x]).spec_root() == n
                                && m.within(before[x].spec_mode());
                        assert(out@[x].spec_root() == n);
                        assert(m.within(out@[x].spec_mode()));
                    }
                    assert(out@[k as int].spec_root() == root@);
                    assert forall|x: int| 0 <= x < out@.len() implies (#[trigger] out@[x]
                        == DirGrant::of(root@, mode)) || before.contains(out@[x]) by {
                        if x != k {
                            assert(before[x] == out@[x]);
                        }
                    }
                }
            }
        },
        None => {
            let g = DirGrant::new(root, mode);
            out.push(g);
            proof {
                lemma_push_key(before, g);
                assert forall|n: u32, m: FileMode| #[trigger] raised(before, n, m) implies raised(
                    out@,
                    n,
                    m,
                ) by {
                    let x = choose|x: int|
                        0 <= x < before.len() && (#[trigger] before[x]).spec_root() == n
                            && m.within(before[x].spec_mode());
                    assert(out@[x].spec_root() == n);
                }
                assert(out@[before.len() as int].spec_root() == root@);
                assert forall|x: int| 0 <= x < out@.len() implies (#[trigger] out@[x]
                    == DirGrant::of(root@, mode)) || before.contains(out@[x]) by {
                    if x < before.len() {
                        assert(before[x] == out@[x]);
                    }
                }
            }
        },
    }
}

/// The more specific of two roots when one holds the other.
fn narrower_root(intern: &Interner, ra: PathId, rb: PathId) -> (r: Option<PathId>)
    requires
        intern.wf(),
        intern@.is_empty() || (ra@ < intern@.paths.len() && rb@ < intern@.paths.len()),
    ensures
        match r {
            Some(n) => narrower(intern@, ra@, rb@) == Some(n@),
            None => narrower(intern@, ra@, rb@) is None,
        },
{
    if intern.is_empty() {
        if ra.as_u32() == rb.as_u32() {
            Some(ra)
        } else {
            None
        }
    } else if intern.is_prefix(rb, ra) {
        Some(ra)
    } else if intern.is_prefix(ra, rb) {
        Some(rb)
    } else {
        None
    }
}

fn meet_dirs(a: &CapabilitySet, b: &CapabilitySet, intern: &Interner) -> (out: Vec<DirGrant>)
    requires
        a.wf(),
        b.wf(),
        intern.wf(),
        granted_in(intern@, a@),
        granted_in(intern@, b@),
    ensures
        keys_unique(out@),
        forall|n: u32, m: FileMode|
            #[trigger] out@.contains(DirGrant::of(n, m)) <==> meet_dir(intern@, a@, b@, n, m),
{
    let ghost t = intern@;
    let mut out: Vec<DirGrant> = Vec::new();
    let mine = a.dirs();
    let theirs = b.dirs();
    let mut i: usize = 0;
    while i < mine.len()
        invariant
            a.wf(),
            b.wf(),
            intern.wf(),
            granted_in(intern@, a@),
            granted_in(intern@, b@),
            t == intern@,
            mine@ == a@.dirs,
            theirs@ == b@.dirs,
            0 <= i <= mine.len(),
            keys_unique(out@),
            dirs_state(t, a@, b@, i as int, 0, out@),
        decreases mine.len() - i,
    {
        let da = mine[i];
        assert(da == a@.dirs[i as int]);
        let ra = remap_path(intern, a, da.root());
        let mut j: usize = 0;
        while j < theirs.len()
            invariant
                a.wf(),
                b.wf(),
                intern.wf(),
                granted_in(intern@, a@),
                granted_in(intern@, b@),
                t == intern@,
                mine@ == a@.dirs,
                theirs@ == b@.dirs,
                0 <= i < mine.len(),
                0 <= j <= theirs.len(),
                da == a@.dirs[i as int],
                ra@ == remap(t, a@, da.spec_root()),
                t.is_empty() || ra@ < t.paths.len(),
                keys_unique(out@),
                dirs_state(t, a@, b@, i as int, j as int, out@),
            decreases theirs.len() - j,
        {
            let db = theirs[j];
            assert(db == b@.dirs[j as int]);
            let rb = remap_path(intern, b, db.root());
            let ghost before = out@;
            match narrower_root(intern, ra, rb) {
                Some(root) => {
                    let mode = da.mode().min_with(db.mode());
                    raise_dir(&mut out, root, mode);
                    proof {
                        assert(dirs_meet(t, a@, i as int, b@, j as int, root@, mode));
                        assert forall|k: int| 0 <= k < out@.len() implies meet_pair(
                            t,
                            a@,
                            b@,
                            (#[trigger] out@[k]).spec_root(),
                            out@[k].spec_mode(),
                        ) by {
                            out@[k].lemma_of(root@, mode);
                            if out@[k] != DirGrant::of(root@, mode) {
                                let x = choose|x: int| 0 <= x < before.len() && before[x] == out@[k];
                                assert(meet_pair(
                                    t,
                                    a@,
                                    b@,
                                    before[x].spec_root(),
                                    before[x].spec_mode(),
                                ));
                            }
                        }
                    }
                },
                None => {},
            }
            proof {
                assert forall|x: int, y: int, n: u32, m: FileMode|
                    (x < i || (x == i && y < j + 1)) && #[trigger] dirs_meet(
                        t,
                        a@,
                        x,
                        b@,
                        y,
                        n,
                        m,
                    ) implies raised(out@, n, m) by {
                    if x < i || y < j {
                        assert(raised(before, n, m));
                    }
                }
            }
            j += 1;
        }
        i += 1;
        proof {
            assert forall|x: int, y: int, n: u32, m: FileMode|
                (x < i || (x == i && y < 0)) && #[trigger] dirs_meet(
                    t,
                    a@,
                    x,
                    b@,
                    y,
                    n,
                    m,
                ) implies raised(out@, n, m) by {}
        }
    }
    proof {
        assert forall|n: u32, m: FileMode| #[trigger] out@.contains(DirGrant::of(n, m))
            <==> meet_dir(t, a@, b@, n, m) by {
            lemma_meet_dirs(t, a@, b@, out@, n, m);
        }
    }
    out
}

proof fn lemma_meet_dirs(
    t: InternTable,
    a: GrantSet,
    b: GrantSet,
    out: Seq<DirGrant>,
    n: u32,
    m: FileMode,
)
    requires
        keys_unique(out),
        dirs_state(t, a, b, a.dirs.len() as int, 0, out),
    ensures
        out.contains(DirGrant::of(n, m)) <==> meet_dir(t, a, b, n, m),
{
    let g = DirGrant::of(n, m);
    g.lemma_of(n, m);
    if out.contains(g) {
        let k = choose|k: int| 0 <= k < out.len() && out[k] == g;
        assert(meet_pair(t, a, b, out[k].spec_root(), out[k].spec_mode()));
        assert forall|q: FileMode| meet_pair(t, a, b, n, q) implies #[trigger] q.within(m) by {
            let (x, y) = choose|x: int, y: int| dirs_meet(t, a, x, b, y, n, q);
            assert(raised(out, n, q));
            let z = choose|z: int|
                0 <= z < out.len() && (#[trigger] out[z]).spec_root() == n && q.within(
                    out[z].spec_mode(),
                );
            if z != k {
                assert(sort::keys(out)[z] == sort::keys(out)[k]);
            }
        }
    }
    if meet_dir(t, a, b, n, m) {
        let (x, y) = choose|x: int, y: int| dirs_meet(t, a, x, b, y, n, m);
        assert(raised(out, n, m));
        let z = choose|z: int|
            0 <= z < out.len() && (#[trigger] out[z]).spec_root() == n && m.within(
                out[z].spec_mode(),
            );
        assert(meet_pair(t, a, b, out[z].spec_root(), out[z].spec_mode()));
        assert(out[z].spec_mode().within(m));
        out[z].lemma_of(n, m);
        assert(out[z] == g);
    }
}

/// One of the first pairs of hosts meets in `(n, m)`.
spec fn met_before(
    t: InternTable,
    a: GrantSet,
    b: GrantSet,
    i: int,
    j: int,
    n: u32,
    m: u8,
) -> bool {
    exists|x: int, y: int|
        (x < i || (x == i && y < j)) && #[trigger] hosts_meet(t, a, x, b, y, n, m)
}

/// What the first pairs of hosts meet in is in `out`, and nothing else.
spec fn hosts_state(
    t: InternTable,
    a: GrantSet,
    b: GrantSet,
    i: int,
    j: int,
    out: Seq<HostGrant>,
) -> bool {
    &&& forall|k: int|
        0 <= k < out.len() ==> met_before(
            t,
            a,
            b,
            i,
            j,
            (#[trigger] out[k]).spec_authority(),
            out[k].spec_methods(),
        )
    &&& forall|n: u32, m: u8|
        #[trigger] met_before(t, a, b, i, j, n, m) ==> out.contains(HostGrant::of(n, m))
}

/// Different authorities of a set stay different in the merged table.
proof fn lemma_remap_name_injective(t: InternTable, s: GrantSet, x: int, y: int)
    requires
        s.ordered(),
        super::interner::distinct(s.table),
        t.authorities.len() <= super::interner::id_space(),
        granted_in(t, s),
        0 <= x < s.hosts.len(),
        0 <= y < s.hosts.len(),
        remap_name(t, s, s.hosts[x].spec_authority()) == remap_name(
            t,
            s,
            s.hosts[y].spec_authority(),
        ),
    ensures
        x == y,
{
    let p = s.hosts[x].spec_authority();
    let q = s.hosts[y].spec_authority();
    if !(t.is_empty() || s.table.is_empty()) {
        super::interner::lemma_has_authority_index(t, s.table.authorities[p as int]);
        super::interner::lemma_has_authority_index(t, s.table.authorities[q as int]);
        assert(s.table.authorities[p as int] == s.table.authorities[q as int]);
    }
    assert(p == q);
    if x < y {
        assert(s.hosts[x].key() < s.hosts[y].key());
    } else if y < x {
        assert(s.hosts[y].key() < s.hosts[x].key());
    }
}

fn meet_hosts(a: &CapabilitySet, b: &CapabilitySet, intern: &Interner) -> (out: Vec<HostGrant>)
    requires
        a.wf(),
        b.wf(),
        intern.wf(),
        granted_in(intern@, a@),
        granted_in(intern@, b@),
    ensures
        keys_unique(out@),
        forall|n: u32, m: u8|
            #[trigger] out@.contains(HostGrant::of(n, m)) <==> meet_host(intern@, a@, b@, n, m),
{
    let ghost t = intern@;
    proof {
        a.lemma_wf();
        b.lemma_wf();
        intern.lemma_wf();
    }
    let mut out: Vec<HostGrant> = Vec::new();
    let mine = a.hosts();
    let theirs = b.hosts();
    let mut i: usize = 0;
    while i < mine.len()
        invariant
            a.wf(),
            b.wf(),
            a@.ordered(),
            b@.ordered(),
            super::interner::distinct(a@.table),
            super::interner::distinct(b@.table),
            intern.wf(),
            t.authorities.len() <= super::interner::id_space(),
            granted_in(intern@, a@),
            granted_in(intern@, b@),
            t == intern@,
            mine@ == a@.hosts,
            theirs@ == b@.hosts,
            0 <= i <= mine.len(),
            keys_unique(out@),
            hosts_state(t, a@, b@, i as int, 0, out@),
        decreases mine.len() - i,
    {
        let ha = mine[i];
        assert(ha == a@.hosts[i as int]);
        let aa = remap_authority(intern, a, ha.authority());
        let mut j: usize = 0;
        while j < theirs.len()
            invariant
                a.wf(),
                b.wf(),
                a@.ordered(),
                b@.ordered(),
                super::interner::distinct(a@.table),
                super::interner::distinct(b@.table),
                intern.wf(),
                t.authorities.len() <= super::interner::id_space(),
                granted_in(intern@, a@),
                granted_in(intern@, b@),
                t == intern@,
                mine@ == a@.hosts,
                theirs@ == b@.hosts,
                0 <= i < mine.len(),
                0 <= j <= theirs.len(),
                ha == a@.hosts[i as int],
                aa@ == remap_name(t, a@, ha.spec_authority()),
                keys_unique(out@),
                hosts_state(t, a@, b@, i as int, j as int, out@),
            decreases theirs.len() - j,
        {
            let hb = theirs[j];
            assert(hb == b@.hosts[j as int]);
            let ab = remap_authority(intern, b, hb.authority());
            let ghost before = out@;
            let methods = ha.methods().intersection(hb.methods());
            if aa.as_u32() == ab.as_u32() && methods.bits() != 0 {
                let g = HostGrant::new(aa, methods);
                proof {
                    assert(hosts_meet(t, a@, i as int, b@, j as int, aa@, methods@));
                    assert forall|k: int| 0 <= k < before.len() implies (#[trigger] before[k]).key()
                        != g.key() by {
                        let n = before[k].spec_authority();
                        let m = before[k].spec_methods();
                        assert(met_before(t, a@, b@, i as int, j as int, n, m));
                        let (x, y) = choose|x: int, y: int|
                            (x < i || (x == i && y < j)) && #[trigger] hosts_meet(
                                t,
                                a@,
                                x,
                                b@,
                                y,
                                n,
                                m,
                            );
                        if before[k].key() == g.key() {
                            lemma_remap_name_injective(t, a@, x, i as int);
                            lemma_remap_name_injective(t, b@, y, j as int);
                        }
                    }
                    lemma_push_key(before, g);
                }
                out.push(g);
            }
            proof {
                lemma_hosts_step(t, a@, b@, i as int, j as int, before, out@);
            }
            j += 1;
        }
        i += 1;
        proof {
            lemma_hosts_row(t, a@, b@, i as int - 1, j as int, out@);
        }
    }
    proof {
        assert forall|n: u32, m: u8| #[trigger] out@.contains(HostGrant::of(n, m)) <==> meet_host(
            t,
            a@,
            b@,
            n,
            m,
        ) by {
            if out@.contains(HostGrant::of(n, m)) {
                let k = choose|k: int| 0 <= k < out@.len() && out@[k] == HostGrant::of(n, m);
                out@[k].lemma_of(n, m);
                assert(met_before(t, a@, b@, i as int, 0, n, m));
            }
            if meet_host(t, a@, b@, n, m) {
                let (x, y) = choose|x: int, y: int| hosts_meet(t, a@, x, b@, y, n, m);
                assert(met_before(t, a@, b@, i as int, 0, n, m));
            }
        }
    }
    out
}

proof fn lemma_hosts_row(
    t: InternTable,
    a: GrantSet,
    b: GrantSet,
    i: int,
    j: int,
    out: Seq<HostGrant>,
)
    requires
        hosts_state(t, a, b, i, j, out),
        j == b.hosts.len(),
    ensures
        hosts_state(t, a, b, i + 1, 0, out),
{
    assert forall|n: u32, m: u8| #[trigger] met_before(t, a, b, i + 1, 0, n, m) == met_before(
        t,
        a,
        b,
        i,
        j,
        n,
        m,
    ) by {
        if met_before(t, a, b, i, j, n, m) {
            let (x, y) = choose|x: int, y: int|
                (x < i || (x == i && y < j)) && #[trigger] hosts_meet(t, a, x, b, y, n, m);
            assert(hosts_meet(t, a, x, b, y, n, m));
        }
        if met_before(t, a, b, i + 1, 0, n, m) {
            let (x, y) = choose|x: int, y: int|
                (x < i + 1 || (x == i + 1 && y < 0)) && #[trigger] hosts_meet(t, a, x, b, y, n, m);
            assert(hosts_meet(t, a, x, b, y, n, m));
        }
    }
    assert forall|k: int| 0 <= k < out.len() implies met_before(
        t,
        a,
        b,
        i + 1,
        0,
        (#[trigger] out[k]).spec_authority(),
        out[k].spec_methods(),
    ) by {}
}

proof fn lemma_hosts_step(
    t: InternTable,
    a: GrantSet,
    b: GrantSet,
    i: int,
    j: int,
    before: Seq<HostGrant>,
    out: Seq<HostGrant>,
)
    requires
        hosts_state(t, a, b, i, j, before),
        0 <= i < a.hosts.len(),
        0 <= j < b.hosts.len(),
        ({
            let n = remap_name(t, a, a.hosts[i].spec_authority());
            let m = a.hosts[i].spec_methods() & b.hosts[j].spec_methods();
            if n == remap_name(t, b, b.hosts[j].spec_authority()) && m != 0 {
                out == before.push(HostGrant::of(n, m))
            } else {
                out == before
            }
        }),
    ensures
        hosts_state(t, a, b, i, j + 1, out),
{
    let n0 = remap_name(t, a, a.hosts[i].spec_authority());
    let m0 = a.hosts[i].spec_methods() & b.hosts[j].spec_methods();
    assert forall|k: int| 0 <= k < out.len() implies met_before(
        t,
        a,
        b,
        i,
        j + 1,
        (#[trigger] out[k]).spec_authority(),
        out[k].spec_methods(),
    ) by {
        let n = out[k].spec_authority();
        let m = out[k].spec_methods();
        if k < before.len() {
            assert(out[k] == before[k]);
            let (x, y) = choose|x: int, y: int|
                (x < i || (x == i && y < j)) && #[trigger] hosts_meet(t, a, x, b, y, n, m);
            assert(hosts_meet(t, a, x, b, y, n, m));
        } else {
            out[k].lemma_of(n0, m0);
            assert(hosts_meet(t, a, i, b, j, n, m));
        }
    }
    assert forall|n: u32, m: u8| #[trigger] met_before(t, a, b, i, j + 1, n, m) implies out.contains(
        HostGrant::of(n, m),
    ) by {
        let (x, y) = choose|x: int, y: int|
            (x < i || (x == i && y < j + 1)) && #[trigger] hosts_meet(t, a, x, b, y, n, m);
        if x < i || y < j {
            assert(met_before(t, a, b, i, j, n, m));
            let k = choose|k: int| 0 <= k < before.len() && before[k] == HostGrant::of(n, m);
            assert(out[k] == HostGrant::of(n, m));
        } else {
            assert(out[before.len() as int] == HostGrant::of(n, m));
        }
    }
}

/// Where one of two sets has no names for its ids, the ids themselves are
/// compared: every grant of the one is a grant of the other under the same id,
/// with as much mode and as many methods.
pub proof fn sets_without_names_compare_ids(a: GrantSet, b: GrantSet)
    requires
        a.table.is_empty() || b.table.is_empty(),
        subset(a, b),
    ensures
        a.bits & !b.bits == 0,
        forall|i: int|
            0 <= i < a.files.len() ==> (exists|j: int|
                0 <= j < b.files.len() && (#[trigger] b.files[j]).spec_path() == (
                #[trigger] a.files[i]).spec_path() && !(a.files[i].spec_mode() is ReadWrite
                    && b.files[j].spec_mode() is Read)) || (exists|j: int|
                0 <= j < b.dirs.len() && (#[trigger] b.dirs[j]).spec_root()
                    == a.files[i].spec_path() && !(a.files[i].spec_mode() is ReadWrite
                    && b.dirs[j].spec_mode() is Read)),
        forall|i: int|
            0 <= i < a.dirs.len() ==> exists|j: int|
                0 <= j < b.dirs.len() && (#[trigger] b.dirs[j]).spec_root() == (
                #[trigger] a.dirs[i]).spec_root() && !(a.dirs[i].spec_mode() is ReadWrite
                    && b.dirs[j].spec_mode() is Read),
        forall|i: int| 0 <= i < a.hosts.len() ==> #[trigger] host_by_id(a.hosts[i], b),
{
    assert forall|i: int| 0 <= i < a.files.len() implies (exists|j: int|
        0 <= j < b.files.len() && (#[trigger] b.files[j]).spec_path() == (
        #[trigger] a.files[i]).spec_path() && !(a.files[i].spec_mode() is ReadWrite
            && b.files[j].spec_mode() is Read)) || (exists|j: int|
        0 <= j < b.dirs.len() && (#[trigger] b.dirs[j]).spec_root() == a.files[i].spec_path() && !(
        a.files[i].spec_mode() is ReadWrite && b.dirs[j].spec_mode() is Read)) by {
        let x = a.files[i].spec_path();
        let m = a.files[i].spec_mode();
        if file_matched(a, x, m, b) {
            let j = choose|j: int|
                0 <= j < b.files.len() && same_path(a, x, b, (#[trigger] b.files[j]).spec_path())
                    && m.within(b.files[j].spec_mode());
            assert(b.files[j].spec_path() == x);
        } else {
            let j = choose|j: int|
                0 <= j < b.dirs.len() && dir_holds(b, (#[trigger] b.dirs[j]).spec_root(), a, x)
                    && m.within(b.dirs[j].spec_mode());
            assert(b.dirs[j].spec_root() == x);
        }
    }
    assert forall|i: int| 0 <= i < a.dirs.len() implies exists|j: int|
        0 <= j < b.dirs.len() && (#[trigger] b.dirs[j]).spec_root() == (
        #[trigger] a.dirs[i]).spec_root() && !(a.dirs[i].spec_mode() is ReadWrite
            && b.dirs[j].spec_mode() is Read) by {
        let x = a.dirs[i].spec_root();
        let m = a.dirs[i].spec_mode();
        let j = choose|j: int|
            0 <= j < b.dirs.len() && dir_holds(b, (#[trigger] b.dirs[j]).spec_root(), a, x)
                && m.within(b.dirs[j].spec_mode());
        assert(b.dirs[j].spec_root() == x);
    }
    assert forall|i: int| 0 <= i < a.hosts.len() implies #[trigger] host_by_id(
        a.hosts[i],
        b,
    ) by {
        let x = a.hosts[i].spec_authority();
        let m = a.hosts[i].spec_methods();
        assert(host_covered(a, x, m, b));
        let j = choose|j: int|
            0 <= j < b.hosts.len() && same_authority(
                a,
                x,
                b,
                (#[trigger] b.hosts[j]).spec_authority(),
            ) && super::grants::mask_within(m, b.hosts[j].spec_methods());
        assert(b.hosts[j].spec_authority() == x);
    }
}

/// `b` grants the authority with the same id with at least these methods.
pub open spec fn host_by_id(g: HostGrant, b: GrantSet) -> bool {
    exists|j: int|
        0 <= j < b.hosts.len() && (#[trigger] b.hosts[j]).spec_authority() == g.spec_authority()
            && super::grants::mask_within(g.spec_methods(), b.hosts[j].spec_methods())
}

} // verus!
