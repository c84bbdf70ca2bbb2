//! What holds of capability sets as a whole: subset is a partial order with
//! the empty set at the bottom, and meet is its greatest lower bound.
use super::capability::{CapabilitySet, GrantSet};
use super::interner::InternTable;
use super::sort::Ranked;
use super::{DirGrant, FileGrant, FileMode, HostGrant, Interface};
use crate::path;
use vstd::prelude::*;

verus! {

/// A set whose ids all resolve to absolute paths and authorities of a sound
/// table, as every set from the wire is.
pub open spec fn settled(s: GrantSet) -> bool {
    &&& s.ordered()
    &&& s.resolves()
    &&& super::interner::distinct(s.table)
    &&& s.table.closed_upward()
    &&& s.table.paths.len() <= super::interner::id_space()
    &&& s.table.authorities.len() <= super::interner::id_space()
    &&& forall|i: int|
        0 <= i < s.files.len() ==> is_rooted(s.components((#[trigger] s.files[i]).spec_path()))
    &&& forall|i: int|
        0 <= i < s.dirs.len() ==> is_rooted(s.components((#[trigger] s.dirs[i]).spec_root()))
}

/// The components of an absolute path.
pub open spec fn is_rooted(cs: Seq<Seq<u8>>) -> bool {
    cs.len() > 0 && cs[0] == path::root()
}

/// Some directory of `s` holds the path `cs` with at least this mode.
pub open spec fn dirs_hold(s: GrantSet, cs: Seq<Seq<u8>>, m: FileMode) -> bool {
    exists|j: int|
        0 <= j < s.dirs.len() && super::interner::holds(
            s.components((#[trigger] s.dirs[j]).spec_root()),
            cs,
        ) && m.within(s.dirs[j].spec_mode())
}

/// Some file of `s` is the path `cs` with at least this mode.
pub open spec fn files_hold(s: GrantSet, cs: Seq<Seq<u8>>, m: FileMode) -> bool {
    exists|j: int|
        0 <= j < s.files.len() && s.components((#[trigger] s.files[j]).spec_path()) == cs
            && m.within(s.files[j].spec_mode())
}

/// Some host of `s` is the authority `name` with at least these methods.
pub open spec fn hosts_hold(s: GrantSet, name: Seq<char>, m: u8) -> bool {
    exists|j: int|
        0 <= j < s.hosts.len() && s.authority((#[trigger] s.hosts[j]).spec_authority()) == name
            && super::grants::mask_within(m, s.hosts[j].spec_methods())
}

/// `a` grants nothing that `b` does not, with ids resolved.
pub open spec fn within(a: GrantSet, b: GrantSet) -> bool {
    &&& a.bits & !b.bits == 0
    &&& forall|i: int|
        0 <= i < a.files.len() ==> files_hold(
            b,
            a.components((#[trigger] a.files[i]).spec_path()),
            a.files[i].spec_mode(),
        ) || dirs_hold(b, a.components(a.files[i].spec_path()), a.files[i].spec_mode())
    &&& forall|i: int|
        0 <= i < a.dirs.len() ==> dirs_hold(
            b,
            a.components((#[trigger] a.dirs[i]).spec_root()),
            a.dirs[i].spec_mode(),
        )
    &&& forall|i: int|
        0 <= i < a.hosts.len() ==> hosts_hold(
            b,
            a.authority((#[trigger] a.hosts[i]).spec_authority()),
            a.hosts[i].spec_methods(),
        )
}

/// For absolute paths, to be held is to be the same or below.
proof fn lemma_rooted_holds(x: Seq<Seq<u8>>, y: Seq<Seq<u8>>)
    requires
        is_rooted(y),
    ensures
        super::interner::holds(x, y) == path::is_ancestor_or_equal(x, y),
{
    if x == seq![path::root()] {
        if y.len() == 1 {
            assert(y =~= x);
        } else {
            assert(y.take(1) =~= x);
        }
    }
}

/// For settled sets the subset relation is a matter of resolved grants.
pub proof fn subset_is_within(a: GrantSet, b: GrantSet)
    requires
        settled(a),
        settled(b),
    ensures
        super::lattice::comparable(a, b),
        super::lattice::subset(a, b) == within(a, b),
{
    if super::lattice::by_id(a, b) {
        if a.table.is_empty() {
            assert(a.files.len() == 0) by {
                if a.files.len() > 0 {
                    assert(a.files[0].spec_path() < a.table.paths.len());
                }
            }
            assert(a.dirs.len() == 0) by {
                if a.dirs.len() > 0 {
                    assert(a.dirs[0].spec_root() < a.table.paths.len());
                }
            }
            assert(a.hosts.len() == 0) by {
                if a.hosts.len() > 0 {
                    assert(a.hosts[0].spec_authority() < a.table.authorities.len());
                }
            }
        } else {
            assert(b.files.len() == 0) by {
                if b.files.len() > 0 {
                    assert(b.files[0].spec_path() < b.table.paths.len());
                }
            }
            assert(b.dirs.len() == 0) by {
                if b.dirs.len() > 0 {
                    assert(b.dirs[0].spec_root() < b.table.paths.len());
                }
            }
            assert(b.hosts.len() == 0) by {
                if b.hosts.len() > 0 {
                    assert(b.hosts[0].spec_authority() < b.table.authorities.len());
                }
            }
            assert forall|i: int| 0 <= i < a.files.len() implies !super::lattice::file_matched(
                a,
                (#[trigger] a.files[i]).spec_path(),
                a.files[i].spec_mode(),
                b,
            ) by {}
        }
    } else {
        assert forall|i: int| 0 <= i < a.files.len() implies super::lattice::dir_covered(
            a,
            (#[trigger] a.files[i]).spec_path(),
            a.files[i].spec_mode(),
            b,
        ) == dirs_hold(b, a.components(a.files[i].spec_path()), a.files[i].spec_mode()) by {
            lemma_dir_covered(a, a.files[i].spec_path(), a.files[i].spec_mode(), b);
        }
        assert forall|i: int| 0 <= i < a.dirs.len() implies super::lattice::dir_covered(
            a,
            (#[trigger] a.dirs[i]).spec_root(),
            a.dirs[i].spec_mode(),
            b,
        ) == dirs_hold(b, a.components(a.dirs[i].spec_root()), a.dirs[i].spec_mode()) by {
            lemma_dir_covered(a, a.dirs[i].spec_root(), a.dirs[i].spec_mode(), b);
        }
        assert forall|i: int| 0 <= i < a.files.len() implies super::lattice::file_matched(
            a,
            (#[trigger] a.files[i]).spec_path(),
            a.files[i].spec_mode(),
            b,
        ) == files_hold(b, a.components(a.files[i].spec_path()), a.files[i].spec_mode()) by {
            let x = a.files[i].spec_path();
            let m = a.files[i].spec_mode();
            if super::lattice::file_matched(a, x, m, b) {
                let j = choose|j: int|
                    0 <= j < b.files.len() && super::lattice::same_path(
                        a,
                        x,
                        b,
                        (#[trigger] b.files[j]).spec_path(),
                    ) && m.within(b.files[j].spec_mode());
                assert(b.components(b.files[j].spec_path()) == a.components(x));
            }
            if files_hold(b, a.components(x), m) {
                let j = choose|j: int|
                    0 <= j < b.files.len() && b.components((#[trigger] b.files[j]).spec_path())
                        == a.components(x) && m.within(b.files[j].spec_mode());
                assert(super::lattice::same_path(a, x, b, b.files[j].spec_path()));
            }
        }
        assert forall|i: int| 0 <= i < a.hosts.len() implies super::lattice::host_covered(
            a,
            (#[trigger] a.hosts[i]).spec_authority(),
            a.hosts[i].spec_methods(),
            b,
        ) == hosts_hold(b, a.authority(a.hosts[i].spec_authority()), a.hosts[i].spec_methods()) by {
            let x = a.hosts[i].spec_authority();
            let m = a.hosts[i].spec_methods();
            if super::lattice::host_covered(a, x, m, b) {
                let j = choose|j: int|
                    0 <= j < b.hosts.len() && super::lattice::same_authority(
                        a,
                        x,
                        b,
                        (#[trigger] b.hosts[j]).spec_authority(),
                    ) && super::grants::mask_within(m, b.hosts[j].spec_methods());
                assert(b.authority(b.hosts[j].spec_authority()) == a.authority(x));
            }
            if hosts_hold(b, a.authority(x), m) {
                let j = choose|j: int|
                    0 <= j < b.hosts.len() && b.authority((#[trigger] b.hosts[j]).spec_authority())
                        == a.authority(x) && super::grants::mask_within(
                        m,
                        b.hosts[j].spec_methods(),
                    );
                assert(super::lattice::same_authority(a, x, b, b.hosts[j].spec_authority()));
            }
        }
    }
}

proof fn lemma_dir_covered(a: GrantSet, x: u32, m: FileMode, b: GrantSet)
    requires
        !super::lattice::by_id(a, b),
        is_rooted(a.components(x)),
    ensures
        super::lattice::dir_covered(a, x, m, b) == dirs_hold(b, a.components(x), m),
{
    if super::lattice::dir_covered(a, x, m, b) {
        let j = choose|j: int|
            0 <= j < b.dirs.len() && super::lattice::dir_holds(
                b,
                (#[trigger] b.dirs[j]).spec_root(),
                a,
                x,
            ) && m.within(b.dirs[j].spec_mode());
        lemma_rooted_holds(b.components(b.dirs[j].spec_root()), a.components(x));
        assert(super::interner::holds(
            b.components(b.dirs[j].spec_root()),
            a.components(x),
        ));
    }
    if dirs_hold(b, a.components(x), m) {
        let j = choose|j: int|
            0 <= j < b.dirs.len() && super::interner::holds(
                b.components((#[trigger] b.dirs[j]).spec_root()),
                a.components(x),
            ) && m.within(b.dirs[j].spec_mode());
        lemma_rooted_holds(b.components(b.dirs[j].spec_root()), a.components(x));
        assert(super::lattice::dir_holds(b, b.dirs[j].spec_root(), a, x));
    }
}

/// Every set is a subset of itself, whether or not its ids resolve.
pub proof fn subset_is_reflexive(a: GrantSet)
    ensures
        super::lattice::subset(a, a),
{
    let x = a.bits;
    assert(x & !x == 0) by (bit_vector);
    assert forall|i: int| 0 <= i < a.files.len() implies super::lattice::file_matched(
        a,
        (#[trigger] a.files[i]).spec_path(),
        a.files[i].spec_mode(),
        a,
    ) by {
        assert(super::lattice::same_path(a, a.files[i].spec_path(), a, a.files[i].spec_path()));
    }
    assert forall|i: int| 0 <= i < a.dirs.len() implies super::lattice::dir_covered(
        a,
        (#[trigger] a.dirs[i]).spec_root(),
        a.dirs[i].spec_mode(),
        a,
    ) by {
        assert(super::lattice::dir_holds(a, a.dirs[i].spec_root(), a, a.dirs[i].spec_root()));
    }
    assert forall|i: int| 0 <= i < a.hosts.len() implies super::lattice::host_covered(
        a,
        (#[trigger] a.hosts[i]).spec_authority(),
        a.hosts[i].spec_methods(),
        a,
    ) by {
        let m = a.hosts[i].spec_methods();
        assert(m & !m == 0) by (bit_vector);
        assert(super::lattice::same_authority(
            a,
            a.hosts[i].spec_authority(),
            a,
            a.hosts[i].spec_authority(),
        ));
    }
}

/// The empty set is a subset of every set.
pub proof fn empty_is_bottom(x: GrantSet)
    ensures
        super::lattice::comparable(CapabilitySet::nothing(), x),
        super::lattice::subset(CapabilitySet::nothing(), x),
{
    let b = x.bits;
    assert(0u64 & !b == 0) by (bit_vector);
}

/// Holding is transitive.
proof fn lemma_holds_transitive(x: Seq<Seq<u8>>, y: Seq<Seq<u8>>, z: Seq<Seq<u8>>)
    requires
        super::interner::holds(x, y),
        super::interner::holds(y, z),
    ensures
        super::interner::holds(x, z),
{
    let r = seq![path::root()];
    if x != r {
        if y == r {
            if x != y {
                assert(0 < x.len() < 1);
            }
        } else if x != y && y != z {
            assert(z.take(x.len() as int) =~= z.take(y.len() as int).take(x.len() as int));
        }
    }
}

/// Paths that hold each other are the same.
proof fn lemma_holds_antisymmetric(x: Seq<Seq<u8>>, y: Seq<Seq<u8>>)
    requires
        super::interner::holds(x, y),
        super::interner::holds(y, x),
    ensures
        x == y,
{
}

/// Paths that hold the same path are nested.
proof fn lemma_holds_nested(x: Seq<Seq<u8>>, y: Seq<Seq<u8>>, z: Seq<Seq<u8>>)
    requires
        super::interner::holds(x, z),
        super::interner::holds(y, z),
    ensures
        super::interner::holds(x, y) || super::interner::holds(y, x),
{
    let r = seq![path::root()];
    if x != r && y != r && x != z && y != z {
        if x.len() <= y.len() {
            assert(z.take(y.len() as int).take(x.len() as int) =~= z.take(x.len() as int));
            if x.len() == y.len() {
                assert(y.take(x.len() as int) =~= y);
            }
        } else {
            assert(z.take(x.len() as int).take(y.len() as int) =~= z.take(y.len() as int));
        }
    }
}

proof fn lemma_dirs_hold_transitive(b: GrantSet, c: GrantSet, cs: Seq<Seq<u8>>, m: FileMode)
    requires
        within(b, c),
        dirs_hold(b, cs, m),
    ensures
        dirs_hold(c, cs, m),
{
    let j = choose|j: int|
        0 <= j < b.dirs.len() && super::interner::holds(
            b.components((#[trigger] b.dirs[j]).spec_root()),
            cs,
        ) && m.within(b.dirs[j].spec_mode());
    let y = b.components(b.dirs[j].spec_root());
    assert(dirs_hold(c, y, b.dirs[j].spec_mode()));
    let k = choose|k: int|
        0 <= k < c.dirs.len() && super::interner::holds(
            c.components((#[trigger] c.dirs[k]).spec_root()),
            y,
        ) && b.dirs[j].spec_mode().within(c.dirs[k].spec_mode());
    lemma_holds_transitive(c.components(c.dirs[k].spec_root()), y, cs);
}

proof fn lemma_within_transitive(a: GrantSet, b: GrantSet, c: GrantSet)
    requires
        within(a, b),
        within(b, c),
    ensures
        within(a, c),
{
    let x = a.bits;
    let y = b.bits;
    let z = c.bits;
    assert(x & !z == 0) by (bit_vector)
        requires
            x & !y == 0,
            y & !z == 0,
    ;
    assert forall|i: int| 0 <= i < a.files.len() implies files_hold(
        c,
        a.components((#[trigger] a.files[i]).spec_path()),
        a.files[i].spec_mode(),
    ) || dirs_hold(c, a.components(a.files[i].spec_path()), a.files[i].spec_mode()) by {
        let cs = a.components(a.files[i].spec_path());
        let m = a.files[i].spec_mode();
        if files_hold(b, cs, m) {
            let j = choose|j: int|
                0 <= j < b.files.len() && b.components((#[trigger] b.files[j]).spec_path()) == cs
                    && m.within(b.files[j].spec_mode());
            let n = b.files[j].spec_mode();
            if files_hold(c, cs, n) {
                let k = choose|k: int|
                    0 <= k < c.files.len() && c.components((#[trigger] c.files[k]).spec_path())
                        == cs && n.within(c.files[k].spec_mode());
                assert(c.components(c.files[k].spec_path()) == cs);
            } else {
                let k = choose|k: int|
                    0 <= k < c.dirs.len() && super::interner::holds(
                        c.components((#[trigger] c.dirs[k]).spec_root()),
                        cs,
                    ) && n.within(c.dirs[k].spec_mode());
                assert(super::interner::holds(c.components(c.dirs[k].spec_root()), cs));
            }
        } else {
            lemma_dirs_hold_transitive(b, c, cs, m);
        }
    }
    assert forall|i: int| 0 <= i < a.dirs.len() implies dirs_hold(
        c,
        a.components((#[trigger] a.dirs[i]).spec_root()),
        a.dirs[i].spec_mode(),
    ) by {
        lemma_dirs_hold_transitive(
            b,
            c,
            a.components(a.dirs[i].spec_root()),
            a.dirs[i].spec_mode(),
        );
    }
    assert forall|i: int| 0 <= i < a.hosts.len() implies hosts_hold(
        c,
        a.authority((#[trigger] a.hosts[i]).spec_authority()),
        a.hosts[i].spec_methods(),
    ) by {
        let name = a.authority(a.hosts[i].spec_authority());
        let m = a.hosts[i].spec_methods();
        let j = choose|j: int|
            0 <= j < b.hosts.len() && b.authority((#[trigger] b.hosts[j]).spec_authority()) == name
                && super::grants::mask_within(m, b.hosts[j].spec_methods());
        let n = b.hosts[j].spec_methods();
        assert(hosts_hold(c, name, n));
        let k = choose|k: int|
            0 <= k < c.hosts.len() && c.authority((#[trigger] c.hosts[k]).spec_authority()) == name
                && super::grants::mask_within(n, c.hosts[k].spec_methods());
        let o = c.hosts[k].spec_methods();
        assert(m & !o == 0) by (bit_vector)
            requires
                m & !n == 0,
                n & !o == 0,
        ;
    }
}

/// Subset is transitive.
pub proof fn subset_is_transitive(a: GrantSet, b: GrantSet, c: GrantSet)
    requires
        settled(a),
        settled(b),
        settled(c),
        super::lattice::subset(a, b),
        super::lattice::subset(b, c),
    ensures
        super::lattice::subset(a, c),
{
    subset_is_within(a, b);
    subset_is_within(b, c);
    subset_is_within(a, c);
    lemma_within_transitive(a, b, c);
}

/// No grant is made redundant by a directory of the same set.
pub open spec fn irredundant(s: GrantSet) -> bool {
    &&& forall|i: int, j: int|
        0 <= i < s.dirs.len() && 0 <= j < s.dirs.len() && i != j ==> !(super::interner::holds(
            s.components((#[trigger] s.dirs[j]).spec_root()),
            s.components((#[trigger] s.dirs[i]).spec_root()),
        ) && s.dirs[i].spec_mode().within(s.dirs[j].spec_mode()))
    &&& forall|i: int, j: int|
        0 <= i < s.files.len() && 0 <= j < s.dirs.len() ==> !(super::interner::holds(
            s.components((#[trigger] s.dirs[j]).spec_root()),
            s.components((#[trigger] s.files[i]).spec_path()),
        ) && s.files[i].spec_mode().within(s.dirs[j].spec_mode()))
}

/// `s` has this file with this mode.
pub open spec fn has_file(s: GrantSet, cs: Seq<Seq<u8>>, m: FileMode) -> bool {
    exists|j: int|
        0 <= j < s.files.len() && s.components((#[trigger] s.files[j]).spec_path()) == cs
            && s.files[j].spec_mode() == m
}

/// `s` has this directory with this mode.
pub open spec fn has_dir(s: GrantSet, cs: Seq<Seq<u8>>, m: FileMode) -> bool {
    exists|j: int|
        0 <= j < s.dirs.len() && s.components((#[trigger] s.dirs[j]).spec_root()) == cs
            && s.dirs[j].spec_mode() == m
}

/// `s` has this authority with these methods.
pub open spec fn has_host(s: GrantSet, name: Seq<char>, m: u8) -> bool {
    exists|j: int|
        0 <= j < s.hosts.len() && s.authority((#[trigger] s.hosts[j]).spec_authority()) == name
            && s.hosts[j].spec_methods() == m
}

/// The same grants, in whatever order.
pub open spec fn equivalent(a: GrantSet, b: GrantSet) -> bool {
    &&& a.bits == b.bits
    &&& forall|cs: Seq<Seq<u8>>, m: FileMode| #[trigger] has_file(a, cs, m) == has_file(b, cs, m)
    &&& forall|cs: Seq<Seq<u8>>, m: FileMode| #[trigger] has_dir(a, cs, m) == has_dir(b, cs, m)
    &&& forall|name: Seq<char>, m: u8| #[trigger] has_host(a, name, m) == has_host(b, name, m)
}

/// Without redundant grants, the only directory at or above a directory of
/// its own set with its mode is itself.
proof fn lemma_same_dirs(a: GrantSet, b: GrantSet, i: int)
    requires
        irredundant(a),
        within(a, b),
        within(b, a),
        0 <= i < a.dirs.len(),
    ensures
        has_dir(b, a.components(a.dirs[i].spec_root()), a.dirs[i].spec_mode()),
{
    let x = a.components(a.dirs[i].spec_root());
    let m = a.dirs[i].spec_mode();
    assert(dirs_hold(b, x, m));
    let j = choose|j: int|
        0 <= j < b.dirs.len() && super::interner::holds(
            b.components((#[trigger] b.dirs[j]).spec_root()),
            x,
        ) && m.within(b.dirs[j].spec_mode());
    let y = b.components(b.dirs[j].spec_root());
    let n = b.dirs[j].spec_mode();
    assert(dirs_hold(a, y, n));
    let k = choose|k: int|
        0 <= k < a.dirs.len() && super::interner::holds(
            a.components((#[trigger] a.dirs[k]).spec_root()),
            y,
        ) && n.within(a.dirs[k].spec_mode());
    let z = a.components(a.dirs[k].spec_root());
    lemma_holds_transitive(z, y, x);
    if k != i {
        assert(super::interner::holds(
            a.components(a.dirs[k].spec_root()),
            a.components(a.dirs[i].spec_root()),
        ));
        assert(false);
    }
    lemma_holds_antisymmetric(x, y);
    assert(b.components(b.dirs[j].spec_root()) == x && b.dirs[j].spec_mode() == m);
}

proof fn lemma_same_files(a: GrantSet, b: GrantSet, i: int)
    requires
        settled(a),
        irredundant(a),
        irredundant(b),
        within(a, b),
        within(b, a),
        0 <= i < a.files.len(),
    ensures
        has_file(b, a.components(a.files[i].spec_path()), a.files[i].spec_mode()),
{
    let x = a.components(a.files[i].spec_path());
    let m = a.files[i].spec_mode();
    if !files_hold(b, x, m) {
        lemma_dirs_hold_transitive(b, a, x, m);
        let k = choose|k: int|
            0 <= k < a.dirs.len() && super::interner::holds(
                a.components((#[trigger] a.dirs[k]).spec_root()),
                x,
            ) && m.within(a.dirs[k].spec_mode());
        assert(super::interner::holds(
            a.components(a.dirs[k].spec_root()),
            a.components(a.files[i].spec_path()),
        ));
        assert(false);
    }
    let j = choose|j: int|
        0 <= j < b.files.len() && b.components((#[trigger] b.files[j]).spec_path()) == x
            && m.within(b.files[j].spec_mode());
    let n = b.files[j].spec_mode();
    if !files_hold(a, x, n) {
        assert(dirs_hold(a, x, n));
        lemma_dirs_hold_transitive(a, b, x, n);
        let k = choose|k: int|
            0 <= k < b.dirs.len() && super::interner::holds(
                b.components((#[trigger] b.dirs[k]).spec_root()),
                x,
            ) && n.within(b.dirs[k].spec_mode());
        assert(super::interner::holds(
            b.components(b.dirs[k].spec_root()),
            b.components(b.files[j].spec_path()),
        ));
        assert(false);
    }
    let k = choose|k: int|
        0 <= k < a.files.len() && a.components((#[trigger] a.files[k]).spec_path()) == x
            && n.within(a.files[k].spec_mode());
    assert(a.table.paths[a.files[k].spec_path() as int] == a.table.paths[a.files[k].spec_path() as int]);
    assert(path::components(a.table.paths[a.files[k].spec_path() as int]) == path::components(
        a.table.paths[a.files[i].spec_path() as int],
    ));
    assert(a.files[k].spec_path() == a.files[i].spec_path());
    if k < i {
        assert(a.files[k].key() < a.files[i].key());
    } else if i < k {
        assert(a.files[i].key() < a.files[k].key());
    }
    assert(b.components(b.files[j].spec_path()) == x && b.files[j].spec_mode() == m);
}

proof fn lemma_same_hosts(a: GrantSet, b: GrantSet, i: int)
    requires
        settled(a),
        within(a, b),
        within(b, a),
        0 <= i < a.hosts.len(),
    ensures
        has_host(b, a.authority(a.hosts[i].spec_authority()), a.hosts[i].spec_methods()),
{
    let name = a.authority(a.hosts[i].spec_authority());
    let m = a.hosts[i].spec_methods();
    assert(hosts_hold(b, name, m));
    let j = choose|j: int|
        0 <= j < b.hosts.len() && b.authority((#[trigger] b.hosts[j]).spec_authority()) == name
            && super::grants::mask_within(m, b.hosts[j].spec_methods());
    let n = b.hosts[j].spec_methods();
    assert(hosts_hold(a, name, n));
    let k = choose|k: int|
        0 <= k < a.hosts.len() && a.authority((#[trigger] a.hosts[k]).spec_authority()) == name
            && super::grants::mask_within(n, a.hosts[k].spec_methods());
    assert(a.table.authorities[a.hosts[k].spec_authority() as int]
        == a.table.authorities[a.hosts[i].spec_authority() as int]);
    if k < i {
        assert(a.hosts[k].key() < a.hosts[i].key());
    } else if i < k {
        assert(a.hosts[i].key() < a.hosts[k].key());
    }
    assert(m == n) by (bit_vector)
        requires
            m & !n == 0,
            n & !m == 0,
    ;
    assert(b.authority(b.hosts[j].spec_authority()) == name && b.hosts[j].spec_methods() == m);
}

proof fn lemma_equivalent_half(a: GrantSet, b: GrantSet)
    requires
        settled(a),
        irredundant(a),
        irredundant(b),
        within(a, b),
        within(b, a),
    ensures
        forall|cs: Seq<Seq<u8>>, m: FileMode| #[trigger] has_file(a, cs, m) ==> has_file(b, cs, m),
        forall|cs: Seq<Seq<u8>>, m: FileMode| #[trigger] has_dir(a, cs, m) ==> has_dir(b, cs, m),
        forall|name: Seq<char>, m: u8| #[trigger] has_host(a, name, m) ==> has_host(b, name, m),
{
    assert forall|cs: Seq<Seq<u8>>, m: FileMode| #[trigger] has_file(a, cs, m) implies has_file(
        b,
        cs,
        m,
    ) by {
        let j = choose|j: int|
            0 <= j < a.files.len() && a.components((#[trigger] a.files[j]).spec_path()) == cs
                && a.files[j].spec_mode() == m;
        lemma_same_files(a, b, j);
    }
    assert forall|cs: Seq<Seq<u8>>, m: FileMode| #[trigger] has_dir(a, cs, m) implies has_dir(
        b,
        cs,
        m,
    ) by {
        let j = choose|j: int|
            0 <= j < a.dirs.len() && a.components((#[trigger] a.dirs[j]).spec_root()) == cs
                && a.dirs[j].spec_mode() == m;
        lemma_same_dirs(a, b, j);
    }
    assert forall|name: Seq<char>, m: u8| #[trigger] has_host(a, name, m) implies has_host(
        b,
        name,
        m,
    ) by {
        let j = choose|j: int|
            0 <= j < a.hosts.len() && a.authority((#[trigger] a.hosts[j]).spec_authority()) == name
                && a.hosts[j].spec_methods() == m;
        lemma_same_hosts(a, b, j);
    }
}

/// Subset is antisymmetric: sets without redundant grants that are subsets of
/// each other hold the same grants. Sets over the same table are then equal
/// position by position.
pub proof fn subset_is_antisymmetric(a: GrantSet, b: GrantSet)
    requires
        settled(a),
        settled(b),
        irredundant(a),
        irredundant(b),
        super::lattice::subset(a, b),
        super::lattice::subset(b, a),
    ensures
        equivalent(a, b),
        a.table.same(b.table) ==> super::capability::same_grants(a, b),
{
    subset_is_within(a, b);
    subset_is_within(b, a);
    let x = a.bits;
    let y = b.bits;
    assert(x == y) by (bit_vector)
        requires
            x & !y == 0,
            y & !x == 0,
    ;
    lemma_equivalent_half(a, b);
    lemma_equivalent_half(b, a);
    if a.table.same(b.table) {
        lemma_equivalent_over_table(a, b);
    }
}

/// A list with rising keys is determined by its elements.
proof fn lemma_ascending_equal<T: Ranked>(a: Seq<T>, b: Seq<T>)
    requires
        super::sort::ascending(a),
        super::sort::ascending(b),
        forall|g: T| #[trigger] a.contains(g) == b.contains(g),
    ensures
        a == b,
    decreases a.len(),
{
    if a.len() == 0 {
        if b.len() > 0 {
            assert(b.contains(b[0]));
            assert(a.contains(b[0]));
        }
    } else {
        assert(a.contains(a.last()));
        assert(b.contains(a.last()));
        let k = choose|k: int| 0 <= k < b.len() && b[k] == a.last();
        assert(b.contains(b.last()));
        assert(a.contains(b.last()));
        let j = choose|j: int| 0 <= j < a.len() && a[j] == b.last();
        if k < b.len() - 1 {
            assert(b[k].key() < b[b.len() - 1].key());
            if j < a.len() - 1 {
                assert(a[j].key() < a[a.len() - 1].key());
            }
            assert(false);
        }
        assert(a.last() == b.last());
        let x = a.drop_last();
        let y = b.drop_last();
        assert forall|g: T| #[trigger] x.contains(g) == y.contains(g) by {
            if x.contains(g) {
                let i = choose|i: int| 0 <= i < x.len() && x[i] == g;
                assert(a[i] == g);
                assert(a.contains(g));
                assert(b.contains(g));
                let h = choose|h: int| 0 <= h < b.len() && b[h] == g;
                assert(a[i].key() < a[a.len() - 1].key());
                assert(h < b.len() - 1);
                assert(y[h] == g);
            }
            if y.contains(g) {
                let i = choose|i: int| 0 <= i < y.len() && y[i] == g;
                assert(b[i] == g);
                assert(b.contains(g));
                assert(a.contains(g));
                let h = choose|h: int| 0 <= h < a.len() && a[h] == g;
                assert(b[i].key() < b[b.len() - 1].key());
                assert(h < a.len() - 1);
                assert(x[h] == g);
            }
        }
        assert(super::sort::ascending(x)) by {
            assert forall|i: int, j: int| 0 <= i < j < x.len() implies (#[trigger] x[i]).key() < (
            #[trigger] x[j]).key() by {
                assert(a[i].key() < a[j].key());
            }
        }
        assert(super::sort::ascending(y)) by {
            assert forall|i: int, j: int| 0 <= i < j < y.len() implies (#[trigger] y[i]).key() < (
            #[trigger] y[j]).key() by {
                assert(b[i].key() < b[j].key());
            }
        }
        lemma_ascending_equal(x, y);
        assert(a =~= x.push(a.last()));
        assert(b =~= y.push(b.last()));
    }
}

proof fn lemma_table_files(a: GrantSet, b: GrantSet, i: int)
    requires
        settled(a),
        settled(b),
        a.table.same(b.table),
        forall|cs: Seq<Seq<u8>>, m: FileMode| #[trigger] has_file(a, cs, m) ==> has_file(b, cs, m),
        0 <= i < a.files.len(),
    ensures
        b.files.contains(a.files[i]),
{
    let f = a.files[i];
    let cs = a.components(f.spec_path());
    assert(has_file(a, cs, f.spec_mode()));
    assert(has_file(b, cs, f.spec_mode()));
    let j = choose|j: int|
        0 <= j < b.files.len() && b.components((#[trigger] b.files[j]).spec_path()) == cs
            && b.files[j].spec_mode() == f.spec_mode();
    let g = b.files[j];
    assert(path::components(a.table.paths[g.spec_path() as int]) == path::components(
        b.table.paths[g.spec_path() as int],
    ));
    assert(path::components(a.table.paths[g.spec_path() as int]) == path::components(
        a.table.paths[f.spec_path() as int],
    ));
    f.lemma_of(0, FileMode::Read);
    g.lemma_of(0, FileMode::Read);
    assert(b.files[j] == f);
}

proof fn lemma_table_dirs(a: GrantSet, b: GrantSet, i: int)
    requires
        settled(a),
        settled(b),
        a.table.same(b.table),
        forall|cs: Seq<Seq<u8>>, m: FileMode| #[trigger] has_dir(a, cs, m) ==> has_dir(b, cs, m),
        0 <= i < a.dirs.len(),
    ensures
        b.dirs.contains(a.dirs[i]),
{
    let f = a.dirs[i];
    let cs = a.components(f.spec_root());
    assert(has_dir(a, cs, f.spec_mode()));
    assert(has_dir(b, cs, f.spec_mode()));
    let j = choose|j: int|
        0 <= j < b.dirs.len() && b.components((#[trigger] b.dirs[j]).spec_root()) == cs
            && b.dirs[j].spec_mode() == f.spec_mode();
    let g = b.dirs[j];
    assert(path::components(a.table.paths[g.spec_root() as int]) == path::components(
        b.table.paths[g.spec_root() as int],
    ));
    assert(path::components(a.table.paths[g.spec_root() as int]) == path::components(
        a.table.paths[f.spec_root() as int],
    ));
    f.lemma_of(0, FileMode::Read);
    g.lemma_of(0, FileMode::Read);
    assert(b.dirs[j] == f);
}

proof fn lemma_table_hosts(a: GrantSet, b: GrantSet, i: int)
    requires
        settled(a),
        settled(b),
        a.table.same(b.table),
        forall|name: Seq<char>, m: u8| #[trigger] has_host(a, name, m) ==> has_host(b, name, m),
        0 <= i < a.hosts.len(),
    ensures
        b.hosts.contains(a.hosts[i]),
{
    let f = a.hosts[i];
    let name = a.authority(f.spec_authority());
    assert(has_host(a, name, f.spec_methods()));
    assert(has_host(b, name, f.spec_methods()));
    let j = choose|j: int|
        0 <= j < b.hosts.len() && b.authority((#[trigger] b.hosts[j]).spec_authority()) == name
            && b.hosts[j].spec_methods() == f.spec_methods();
    let g = b.hosts[j];
    assert(a.table.authorities[g.spec_authority() as int]
        == a.table.authorities[f.spec_authority() as int]);
    f.lemma_of(0, 0);
    g.lemma_of(0, 0);
    assert(b.hosts[j] == f);
}

proof fn lemma_table_same_back(a: InternTable, b: InternTable)
    requires
        a.same(b),
    ensures
        b.same(a),
{
    assert forall|i: int| 0 <= i < b.paths.len() implies path::components(#[trigger] b.paths[i])
        == path::components(a.paths[i]) by {
        assert(path::components(a.paths[i]) == path::components(b.paths[i]));
    }
}

/// Over one table, equivalent sets are equal position by position.
proof fn lemma_equivalent_over_table(a: GrantSet, b: GrantSet)
    requires
        settled(a),
        settled(b),
        a.table.same(b.table),
        equivalent(a, b),
    ensures
        super::capability::same_grants(a, b),
{
    lemma_table_same_back(a.table, b.table);
    assert forall|g: FileGrant| #[trigger] a.files.contains(g) == b.files.contains(g) by {
        if a.files.contains(g) {
            let i = choose|i: int| 0 <= i < a.files.len() && a.files[i] == g;
            lemma_table_files(a, b, i);
        }
        if b.files.contains(g) {
            let i = choose|i: int| 0 <= i < b.files.len() && b.files[i] == g;
            lemma_table_files(b, a, i);
        }
    }
    lemma_ascending_equal(a.files, b.files);
    assert forall|g: DirGrant| #[trigger] a.dirs.contains(g) == b.dirs.contains(g) by {
        if a.dirs.contains(g) {
            let i = choose|i: int| 0 <= i < a.dirs.len() && a.dirs[i] == g;
            lemma_table_dirs(a, b, i);
        }
        if b.dirs.contains(g) {
            let i = choose|i: int| 0 <= i < b.dirs.len() && b.dirs[i] == g;
            lemma_table_dirs(b, a, i);
        }
    }
    lemma_ascending_equal(a.dirs, b.dirs);
    assert forall|g: HostGrant| #[trigger] a.hosts.contains(g) == b.hosts.contains(g) by {
        if a.hosts.contains(g) {
            let i = choose|i: int| 0 <= i < a.hosts.len() && a.hosts[i] == g;
            lemma_table_hosts(a, b, i);
        }
        if b.hosts.contains(g) {
            let i = choose|i: int| 0 <= i < b.hosts.len() && b.hosts[i] == g;
            lemma_table_hosts(b, a, i);
        }
    }
    lemma_ascending_equal(a.hosts, b.hosts);
    assert forall|i: int| 0 <= i < a.files.len() implies super::capability::same_file(
        a,
        #[trigger] a.files[i],
        b,
        b.files[i],
    ) by {
        assert(path::components(a.table.paths[a.files[i].spec_path() as int]) == path::components(
            b.table.paths[a.files[i].spec_path() as int],
        ));
    }
    assert forall|i: int| 0 <= i < a.dirs.len() implies super::capability::same_dir(
        a,
        #[trigger] a.dirs[i],
        b,
        b.dirs[i],
    ) by {
        assert(path::components(a.table.paths[a.dirs[i].spec_root() as int]) == path::components(
            b.table.paths[a.dirs[i].spec_root() as int],
        ));
    }
}

/// Settled sets can be met.
pub proof fn settled_sets_meet(a: GrantSet, b: GrantSet)
    requires
        settled(a),
        settled(b),
    ensures
        super::lattice::meetable(a, b),
        super::lattice::meetable(b, a),
{
    lemma_settled_meetable(a, b);
    lemma_settled_meetable(b, a);
}

proof fn lemma_settled_meetable(a: GrantSet, b: GrantSet)
    requires
        settled(a),
    ensures
        super::lattice::meetable(a, b),
{
    if a.table.is_empty() {
        assert forall|i: int| 0 <= i < a.files.len() implies (#[trigger] a.files[i]).spec_path()
            < b.table.paths.len() by {}
        assert forall|i: int| 0 <= i < a.dirs.len() implies (#[trigger] a.dirs[i]).spec_root()
            < b.table.paths.len() by {}
    }
}

/// In the table of a meet, the id of a granted path stands for that path.
proof fn lemma_remap(t: InternTable, s: GrantSet, id: u32)
    requires
        super::interner::distinct(t),
        t.paths.len() <= super::interner::id_space(),
        !s.table.is_empty(),
        !t.is_empty(),
        super::interner::has_path(t.paths, s.table.paths[id as int]),
    ensures
        super::lattice::remap(t, s, id) < t.paths.len(),
        path::components(t.paths[super::lattice::remap(t, s, id) as int]) == s.components(id),
        forall|p: u32|
            p < t.paths.len() && path::components(#[trigger] t.paths[p as int]) == s.components(id)
                ==> p == super::lattice::remap(t, s, id),
{
    super::interner::lemma_has_path_index(t, s.table.paths[id as int]);
}

/// In the table of a meet, the id of a granted authority stands for it.
proof fn lemma_remap_name(t: InternTable, s: GrantSet, id: u32)
    requires
        super::interner::distinct(t),
        t.authorities.len() <= super::interner::id_space(),
        !s.table.is_empty(),
        !t.is_empty(),
        t.authorities.contains(s.table.authorities[id as int]),
    ensures
        super::lattice::remap_name(t, s, id) < t.authorities.len(),
        t.authorities[super::lattice::remap_name(t, s, id) as int] == s.authority(id),
        forall|p: u32|
            p < t.authorities.len() && #[trigger] t.authorities[p as int] == s.authority(id) ==> p
                == super::lattice::remap_name(t, s, id),
{
    super::interner::lemma_has_authority_index(t, s.table.authorities[id as int]);
}

/// A sound table for the meet of `a` and `b`.
spec fn meet_context(a: GrantSet, b: GrantSet, t: InternTable) -> bool {
    &&& settled(a)
    &&& settled(b)
    &&& t == super::lattice::merged_table(a, b)
    &&& super::interner::distinct(t)
    &&& t.paths.len() <= super::interner::id_space()
    &&& t.authorities.len() <= super::interner::id_space()
    &&& super::lattice::granted_in(t, a)
    &&& super::lattice::granted_in(t, b)
    &&& t.is_empty() ==> a.table.is_empty() && b.table.is_empty()
}

proof fn lemma_file_id(a: GrantSet, b: GrantSet, t: InternTable, s: GrantSet, i: int)
    requires
        meet_context(a, b, t),
        s == a || s == b,
        0 <= i < s.files.len(),
    ensures
        !t.is_empty(),
        super::lattice::remap(t, s, s.files[i].spec_path()) < t.paths.len(),
        path::components(t.paths[super::lattice::remap(t, s, s.files[i].spec_path()) as int])
            == s.components(s.files[i].spec_path()),
        forall|p: u32|
            p < t.paths.len() && path::components(#[trigger] t.paths[p as int]) == s.components(
                s.files[i].spec_path(),
            ) ==> p == super::lattice::remap(t, s, s.files[i].spec_path()),
{
    assert(s.files[i].spec_path() < s.table.paths.len());
    lemma_remap(t, s, s.files[i].spec_path());
}

proof fn lemma_dir_id(a: GrantSet, b: GrantSet, t: InternTable, s: GrantSet, i: int)
    requires
        meet_context(a, b, t),
        s == a || s == b,
        0 <= i < s.dirs.len(),
    ensures
        !t.is_empty(),
        super::lattice::remap(t, s, s.dirs[i].spec_root()) < t.paths.len(),
        path::components(t.paths[super::lattice::remap(t, s, s.dirs[i].spec_root()) as int])
            == s.components(s.dirs[i].spec_root()),
{
    assert(s.dirs[i].spec_root() < s.table.paths.len());
    lemma_remap(t, s, s.dirs[i].spec_root());
}

proof fn lemma_host_id(a: GrantSet, b: GrantSet, t: InternTable, s: GrantSet, i: int)
    requires
        meet_context(a, b, t),
        s == a || s == b,
        0 <= i < s.hosts.len(),
    ensures
        !t.is_empty(),
        super::lattice::remap_name(t, s, s.hosts[i].spec_authority()) < t.authorities.len(),
        t.authorities[super::lattice::remap_name(t, s, s.hosts[i].spec_authority()) as int]
            == s.authority(s.hosts[i].spec_authority()),
        forall|p: u32|
            p < t.authorities.len() && #[trigger] t.authorities[p as int] == s.authority(
                s.hosts[i].spec_authority(),
            ) ==> p == super::lattice::remap_name(t, s, s.hosts[i].spec_authority()),
{
    assert(s.hosts[i].spec_authority() < s.table.authorities.len());
    lemma_remap_name(t, s, s.hosts[i].spec_authority());
}

/// What one of the sets grants at a path of the merged table, it grants at
/// that path.
proof fn lemma_mode_granted(
    a: GrantSet,
    b: GrantSet,
    t: InternTable,
    s: GrantSet,
    p: u32,
    x: FileMode,
    m: FileMode,
)
    requires
        meet_context(a, b, t),
        s == a || s == b,
        super::lattice::best_mode(t, s, p, x),
        m.within(x),
    ensures
        files_hold(s, path::components(t.paths[p as int]), m) || dirs_hold(
            s,
            path::components(t.paths[p as int]),
            m,
        ),
{
    let cs = path::components(t.paths[p as int]);
    if super::lattice::file_grants(t, s, p, x) {
        let i = choose|i: int|
            0 <= i < s.files.len() && super::lattice::remap(
                t,
                s,
                (#[trigger] s.files[i]).spec_path(),
            ) == p && s.files[i].spec_mode() == x;
        lemma_file_id(a, b, t, s, i);
        assert(s.components(s.files[i].spec_path()) == cs);
    } else {
        let i = choose|i: int|
            0 <= i < s.dirs.len() && super::lattice::covers_id(
                t,
                super::lattice::remap(t, s, (#[trigger] s.dirs[i]).spec_root()),
                p,
            ) && s.dirs[i].spec_mode() == x;
        lemma_dir_id(a, b, t, s, i);
        assert(super::interner::holds(s.components(s.dirs[i].spec_root()), cs));
    }
}

/// The file grants of a meet are covered by both sets.
proof fn lemma_meet_file_below(a: GrantSet, b: GrantSet, t: InternTable, p: u32, m: FileMode)
    requires
        meet_context(a, b, t),
        super::lattice::meet_file(t, a, b, p, m),
    ensures
        p < t.paths.len(),
        is_rooted(path::components(t.paths[p as int])),
        files_hold(a, path::components(t.paths[p as int]), m) || dirs_hold(
            a,
            path::components(t.paths[p as int]),
            m,
        ),
        files_hold(b, path::components(t.paths[p as int]), m) || dirs_hold(
            b,
            path::components(t.paths[p as int]),
            m,
        ),
{
    if super::lattice::names_file(t, a, p) {
        let i = choose|i: int|
            0 <= i < a.files.len() && super::lattice::remap(
                t,
                a,
                (#[trigger] a.files[i]).spec_path(),
            ) == p;
        lemma_file_id(a, b, t, a, i);
    } else {
        let i = choose|i: int|
            0 <= i < b.files.len() && super::lattice::remap(
                t,
                b,
                (#[trigger] b.files[i]).spec_path(),
            ) == p;
        lemma_file_id(a, b, t, b, i);
    }
    let (x, y) = choose|x: FileMode, y: FileMode|
        #[trigger] super::lattice::best_mode(t, a, p, x) && #[trigger] super::lattice::best_mode(
            t,
            b,
            p,
            y,
        ) && m == x.lesser(y);
    lemma_mode_granted(a, b, t, a, p, x, m);
    lemma_mode_granted(a, b, t, b, p, y, m);
}

/// The directory grants of a meet are covered by both sets.
proof fn lemma_meet_dir_below(a: GrantSet, b: GrantSet, t: InternTable, n: u32, m: FileMode)
    requires
        meet_context(a, b, t),
        super::lattice::meet_dir(t, a, b, n, m),
    ensures
        n < t.paths.len(),
        is_rooted(path::components(t.paths[n as int])),
        dirs_hold(a, path::components(t.paths[n as int]), m),
        dirs_hold(b, path::components(t.paths[n as int]), m),
{
    let (i, j) = choose|i: int, j: int| super::lattice::dirs_meet(t, a, i, b, j, n, m);
    lemma_dir_id(a, b, t, a, i);
    lemma_dir_id(a, b, t, b, j);
    let cs = path::components(t.paths[n as int]);
    assert(super::interner::holds(a.components(a.dirs[i].spec_root()), cs));
    assert(super::interner::holds(b.components(b.dirs[j].spec_root()), cs));
}

/// The host grants of a meet are covered by both sets.
proof fn lemma_meet_host_below(a: GrantSet, b: GrantSet, t: InternTable, n: u32, m: u8)
    requires
        meet_context(a, b, t),
        super::lattice::meet_host(t, a, b, n, m),
    ensures
        n < t.authorities.len(),
        hosts_hold(a, t.authorities[n as int], m),
        hosts_hold(b, t.authorities[n as int], m),
{
    let (i, j) = choose|i: int, j: int| super::lattice::hosts_meet(t, a, i, b, j, n, m);
    lemma_host_id(a, b, t, a, i);
    lemma_host_id(a, b, t, b, j);
    let x = a.hosts[i].spec_methods();
    let y = b.hosts[j].spec_methods();
    assert((x & y) & !x == 0 && (x & y) & !y == 0) by (bit_vector);
    assert(a.authority(a.hosts[i].spec_authority()) == t.authorities[n as int]);
    assert(b.authority(b.hosts[j].spec_authority()) == t.authorities[n as int]);
}

/// A meet is settled and below both sets.
proof fn lemma_meet_below(a: GrantSet, b: GrantSet, r: GrantSet)
    requires
        meet_context(a, b, r.table),
        r.ordered(),
        r.table.closed_upward(),
        super::lattice::is_meet(a, b, r),
    ensures
        settled(r),
        within(r, a),
        within(r, b),
{
    let t = r.table;
    let x = a.bits;
    let y = b.bits;
    assert((x & y) & !x == 0 && (x & y) & !y == 0) by (bit_vector);
    assert forall|i: int| 0 <= i < r.files.len() implies (#[trigger] r.files[i]).spec_path()
        < t.paths.len() && is_rooted(r.components(r.files[i].spec_path())) && (files_hold(
        a,
        r.components(r.files[i].spec_path()),
        r.files[i].spec_mode(),
    ) || dirs_hold(a, r.components(r.files[i].spec_path()), r.files[i].spec_mode())) && (files_hold(
        b,
        r.components(r.files[i].spec_path()),
        r.files[i].spec_mode(),
    ) || dirs_hold(b, r.components(r.files[i].spec_path()), r.files[i].spec_mode())) by {
        let g = r.files[i];
        g.lemma_of(0, FileMode::Read);
        assert(r.files.contains(FileGrant::of(g.spec_path(), g.spec_mode())));
        lemma_meet_file_below(a, b, t, g.spec_path(), g.spec_mode());
    }
    assert forall|i: int| 0 <= i < r.dirs.len() implies (#[trigger] r.dirs[i]).spec_root()
        < t.paths.len() && is_rooted(r.components(r.dirs[i].spec_root())) && dirs_hold(
        a,
        r.components(r.dirs[i].spec_root()),
        r.dirs[i].spec_mode(),
    ) && dirs_hold(b, r.components(r.dirs[i].spec_root()), r.dirs[i].spec_mode()) by {
        let g = r.dirs[i];
        g.lemma_of(0, FileMode::Read);
        assert(r.dirs.contains(DirGrant::of(g.spec_root(), g.spec_mode())));
        lemma_meet_dir_below(a, b, t, g.spec_root(), g.spec_mode());
    }
    assert forall|i: int| 0 <= i < r.hosts.len() implies (#[trigger] r.hosts[i]).spec_authority()
        < t.authorities.len() && hosts_hold(
        a,
        r.authority(r.hosts[i].spec_authority()),
        r.hosts[i].spec_methods(),
    ) && hosts_hold(b, r.authority(r.hosts[i].spec_authority()), r.hosts[i].spec_methods()) by {
        let g = r.hosts[i];
        g.lemma_of(0, 0);
        assert(r.hosts.contains(HostGrant::of(g.spec_authority(), g.spec_methods())));
        lemma_meet_host_below(a, b, t, g.spec_authority(), g.spec_methods());
    }
}

/// A path that `s` covers has a greatest mode in the merged table.
proof fn lemma_best_mode_exists(
    a: GrantSet,
    b: GrantSet,
    t: InternTable,
    s: GrantSet,
    p: u32,
    m: FileMode,
) -> (x: FileMode)
    requires
        meet_context(a, b, t),
        s == a || s == b,
        p < t.paths.len(),
        files_hold(s, path::components(t.paths[p as int]), m) || dirs_hold(
            s,
            path::components(t.paths[p as int]),
            m,
        ),
    ensures
        super::lattice::best_mode(t, s, p, x),
        m.within(x),
{
    let cs = path::components(t.paths[p as int]);
    let rw = FileMode::ReadWrite;
    let granted = if files_hold(s, cs, m) {
        let i = choose|i: int|
            0 <= i < s.files.len() && s.components((#[trigger] s.files[i]).spec_path()) == cs
                && m.within(s.files[i].spec_mode());
        lemma_file_id(a, b, t, s, i);
        assert(super::lattice::remap(t, s, s.files[i].spec_path()) == p);
        assert(super::lattice::file_grants(t, s, p, s.files[i].spec_mode()));
        s.files[i].spec_mode()
    } else {
        let i = choose|i: int|
            0 <= i < s.dirs.len() && super::interner::holds(
                s.components((#[trigger] s.dirs[i]).spec_root()),
                cs,
            ) && m.within(s.dirs[i].spec_mode());
        lemma_dir_id(a, b, t, s, i);
        assert(super::lattice::covers_id(
            t,
            super::lattice::remap(t, s, s.dirs[i].spec_root()),
            p,
        ));
        assert(super::lattice::dir_grants(t, s, p, s.dirs[i].spec_mode()));
        s.dirs[i].spec_mode()
    };
    if super::lattice::file_grants(t, s, p, rw) || super::lattice::dir_grants(t, s, p, rw) {
        assert(super::lattice::best_mode(t, s, p, rw));
        rw
    } else {
        assert forall|n: FileMode|
            super::lattice::file_grants(t, s, p, n) || super::lattice::dir_grants(
                t,
                s,
                p,
                n,
            ) implies #[trigger] n.within(granted) by {
            assert(n == FileMode::Read);
        }
        granted
    }
}

/// A file that one set names and both cover is in the meet.
proof fn lemma_meet_has_file(
    a: GrantSet,
    b: GrantSet,
    r: GrantSet,
    s: GrantSet,
    i: int,
    cs: Seq<Seq<u8>>,
    m: FileMode,
)
    requires
        meet_context(a, b, r.table),
        super::lattice::is_meet(a, b, r),
        s == a || s == b,
        0 <= i < s.files.len(),
        s.components(s.files[i].spec_path()) == cs,
        files_hold(a, cs, m) || dirs_hold(a, cs, m),
        files_hold(b, cs, m) || dirs_hold(b, cs, m),
    ensures
        files_hold(r, cs, m),
{
    let t = r.table;
    lemma_file_id(a, b, t, s, i);
    let p = super::lattice::remap(t, s, s.files[i].spec_path());
    assert(super::lattice::names_file(t, s, p));
    let x = lemma_best_mode_exists(a, b, t, a, p, m);
    let y = lemma_best_mode_exists(a, b, t, b, p, m);
    lemma_both_fs(a, b);
    assert(super::lattice::best_mode(t, a, p, x) && super::lattice::best_mode(t, b, p, y));
    assert(super::lattice::meet_file(t, a, b, p, x.lesser(y)));
    let g = FileGrant::of(p, x.lesser(y));
    g.lemma_of(p, x.lesser(y));
    assert(r.files.contains(g));
    let k = choose|k: int| 0 <= k < r.files.len() && r.files[k] == g;
    assert(r.components(r.files[k].spec_path()) == cs);
}

/// Sets that both grant paths both have the filesystem, and so has the meet.
proof fn lemma_both_fs(a: GrantSet, b: GrantSet)
    requires
        a.ordered(),
        b.ordered(),
        a.files.len() > 0 || a.dirs.len() > 0,
        b.files.len() > 0 || b.dirs.len() > 0,
    ensures
        super::capability::bit_set(a.bits & b.bits, Interface::Filesystem),
{
    let x = a.bits;
    let y = b.bits;
    assert((x & y) & 8 != 0) by (bit_vector)
        requires
            x & 8 != 0,
            y & 8 != 0,
    ;
}

/// A path that directories of both sets hold is held by one of the meet.
proof fn lemma_meet_holds(a: GrantSet, b: GrantSet, r: GrantSet, cs: Seq<Seq<u8>>, m: FileMode)
    requires
        meet_context(a, b, r.table),
        super::lattice::is_meet(a, b, r),
        dirs_hold(a, cs, m),
        dirs_hold(b, cs, m),
    ensures
        dirs_hold(r, cs, m),
{
    let t = r.table;
    let i = choose|i: int|
        0 <= i < a.dirs.len() && super::interner::holds(
            a.components((#[trigger] a.dirs[i]).spec_root()),
            cs,
        ) && m.within(a.dirs[i].spec_mode());
    let j = choose|j: int|
        0 <= j < b.dirs.len() && super::interner::holds(
            b.components((#[trigger] b.dirs[j]).spec_root()),
            cs,
        ) && m.within(b.dirs[j].spec_mode());
    lemma_dir_id(a, b, t, a, i);
    lemma_dir_id(a, b, t, b, j);
    lemma_both_fs(a, b);
    let ra = super::lattice::remap(t, a, a.dirs[i].spec_root());
    let rb = super::lattice::remap(t, b, b.dirs[j].spec_root());
    lemma_holds_nested(
        a.components(a.dirs[i].spec_root()),
        b.components(b.dirs[j].spec_root()),
        cs,
    );
    let n = super::lattice::narrower(t, ra, rb)->0;
    let q = a.dirs[i].spec_mode().lesser(b.dirs[j].spec_mode());
    assert(super::lattice::dirs_meet(t, a, i, b, j, n, q));
    let rw = FileMode::ReadWrite;
    let top = if super::lattice::meet_pair(t, a, b, n, rw) {
        rw
    } else {
        q
    };
    assert(super::lattice::meet_dir(t, a, b, n, top)) by {
        assert forall|k: FileMode| super::lattice::meet_pair(t, a, b, n, k) implies #[trigger] k.within(
            top,
        ) by {}
    }
    let g = DirGrant::of(n, top);
    g.lemma_of(n, top);
    assert(r.dirs.contains(g));
    let k = choose|k: int| 0 <= k < r.dirs.len() && r.dirs[k] == g;
    assert(super::interner::holds(r.components(r.dirs[k].spec_root()), cs));
}

/// What lies below both sets lies below their meet.
proof fn lemma_meet_greatest(a: GrantSet, b: GrantSet, r: GrantSet, c: GrantSet)
    requires
        meet_context(a, b, r.table),
        super::lattice::is_meet(a, b, r),
        within(c, a),
        within(c, b),
        forall|i: int| 0 <= i < c.hosts.len() ==> (#[trigger] c.hosts[i]).spec_methods() != 0,
    ensures
        within(c, r),
{
    let t = r.table;
    let x = a.bits;
    let y = b.bits;
    let z = c.bits;
    assert(z & !(x & y) == 0) by (bit_vector)
        requires
            z & !x == 0,
            z & !y == 0,
    ;
    assert forall|i: int| 0 <= i < c.files.len() implies files_hold(
        r,
        c.components((#[trigger] c.files[i]).spec_path()),
        c.files[i].spec_mode(),
    ) || dirs_hold(r, c.components(c.files[i].spec_path()), c.files[i].spec_mode()) by {
        let cs = c.components(c.files[i].spec_path());
        let m = c.files[i].spec_mode();
        if files_hold(a, cs, m) {
            let j = choose|j: int|
                0 <= j < a.files.len() && a.components((#[trigger] a.files[j]).spec_path()) == cs
                    && m.within(a.files[j].spec_mode());
            lemma_meet_has_file(a, b, r, a, j, cs, m);
        } else if files_hold(b, cs, m) {
            let j = choose|j: int|
                0 <= j < b.files.len() && b.components((#[trigger] b.files[j]).spec_path()) == cs
                    && m.within(b.files[j].spec_mode());
            lemma_meet_has_file(a, b, r, b, j, cs, m);
        } else {
            lemma_meet_holds(a, b, r, cs, m);
        }
    }
    assert forall|i: int| 0 <= i < c.dirs.len() implies dirs_hold(
        r,
        c.components((#[trigger] c.dirs[i]).spec_root()),
        c.dirs[i].spec_mode(),
    ) by {
        lemma_meet_holds(
            a,
            b,
            r,
            c.components(c.dirs[i].spec_root()),
            c.dirs[i].spec_mode(),
        );
    }
    assert forall|i: int| 0 <= i < c.hosts.len() implies hosts_hold(
        r,
        c.authority((#[trigger] c.hosts[i]).spec_authority()),
        c.hosts[i].spec_methods(),
    ) by {
        let name = c.authority(c.hosts[i].spec_authority());
        let m = c.hosts[i].spec_methods();
        assert(hosts_hold(a, name, m) && hosts_hold(b, name, m));
        let j = choose|j: int|
            0 <= j < a.hosts.len() && a.authority((#[trigger] a.hosts[j]).spec_authority()) == name
                && super::grants::mask_within(m, a.hosts[j].spec_methods());
        let k = choose|k: int|
            0 <= k < b.hosts.len() && b.authority((#[trigger] b.hosts[k]).spec_authority()) == name
                && super::grants::mask_within(m, b.hosts[k].spec_methods());
        lemma_host_id(a, b, t, a, j);
        lemma_host_id(a, b, t, b, k);
        let n = super::lattice::remap_name(t, a, a.hosts[j].spec_authority());
        let u = a.hosts[j].spec_methods();
        let v = b.hosts[k].spec_methods();
        assert(u & v != 0 && m & !(u & v) == 0) by (bit_vector)
            requires
                m != 0,
                m & !u == 0,
                m & !v == 0,
        ;
        assert(super::lattice::hosts_meet(t, a, j, b, k, n, u & v));
        assert(super::lattice::meet_host(t, a, b, n, u & v));
        assert((x & y) & 16 != 0) by (bit_vector)
            requires
                x & 16 != 0,
                y & 16 != 0,
        ;
        let g = HostGrant::of(n, u & v);
        g.lemma_of(n, u & v);
        assert(r.hosts.contains(g));
        let h = choose|h: int| 0 <= h < r.hosts.len() && r.hosts[h] == g;
        assert(r.authority(r.hosts[h].spec_authority()) == name);
    }
}

/// `r` is a sound set that is the meet of `a` and `b`.
pub open spec fn sound_meet(a: GrantSet, b: GrantSet, r: GrantSet) -> bool {
    &&& super::lattice::is_meet(a, b, r)
    &&& r.ordered()
    &&& super::interner::distinct(r.table)
    &&& r.table.closed_upward()
    &&& r.table.paths.len() <= super::interner::id_space()
    &&& r.table.authorities.len() <= super::interner::id_space()
}

/// The meet is a subset of both sets.
pub proof fn meet_is_lower_bound(a: GrantSet, b: GrantSet, r: GrantSet)
    requires
        settled(a),
        settled(b),
        sound_meet(a, b, r),
    ensures
        settled(r),
        super::lattice::subset(r, a),
        super::lattice::subset(r, b),
{
    settled_sets_meet(a, b);
    super::lattice::lemma_merged(a, b);
    lemma_meet_below(a, b, r);
    subset_is_within(r, a);
    subset_is_within(r, b);
}

/// Every common subset whose hosts each have a method is a subset of the
/// meet. A host without methods permits nothing, and a meet leaves it out.
pub proof fn meet_is_greatest(a: GrantSet, b: GrantSet, r: GrantSet, c: GrantSet)
    requires
        settled(a),
        settled(b),
        settled(c),
        sound_meet(a, b, r),
        forall|i: int| 0 <= i < c.hosts.len() ==> (#[trigger] c.hosts[i]).spec_methods() != 0,
        super::lattice::subset(c, a),
        super::lattice::subset(c, b),
    ensures
        super::lattice::subset(c, r),
{
    settled_sets_meet(a, b);
    super::lattice::lemma_merged(a, b);
    lemma_meet_below(a, b, r);
    subset_is_within(c, a);
    subset_is_within(c, b);
    subset_is_within(c, r);
    lemma_meet_greatest(a, b, r, c);
}

/// A directory of `s` with just this mode holds the path `cs`.
spec fn dir_gives(s: GrantSet, cs: Seq<Seq<u8>>, m: FileMode) -> bool {
    exists|i: int|
        0 <= i < s.dirs.len() && super::interner::holds(
            s.components((#[trigger] s.dirs[i]).spec_root()),
            cs,
        ) && s.dirs[i].spec_mode() == m
}

/// `m` is the greatest mode with which `s` grants the path `cs`.
spec fn best_at(s: GrantSet, cs: Seq<Seq<u8>>, m: FileMode) -> bool {
    &&& has_file(s, cs, m) || dir_gives(s, cs, m)
    &&& forall|n: FileMode| has_file(s, cs, n) || dir_gives(s, cs, n) ==> #[trigger] n.within(m)
}

/// `s` names the file `cs`.
spec fn names(s: GrantSet, cs: Seq<Seq<u8>>) -> bool {
    exists|i: int|
        0 <= i < s.files.len() && s.components((#[trigger] s.files[i]).spec_path()) == cs
}

/// The file `cs` with mode `m` is in the meet.
spec fn file_meets(a: GrantSet, b: GrantSet, cs: Seq<Seq<u8>>, m: FileMode) -> bool {
    &&& names(a, cs) || names(b, cs)
    &&& exists|x: FileMode, y: FileMode|
        #[trigger] best_at(a, cs, x) && #[trigger] best_at(b, cs, y) && m == x.lesser(y)
}

/// What a set grants at an id of the merged table, by the path.
proof fn lemma_modes_by_path(
    a: GrantSet,
    b: GrantSet,
    t: InternTable,
    s: GrantSet,
    p: u32,
    m: FileMode,
)
    requires
        meet_context(a, b, t),
        s == a || s == b,
        p < t.paths.len(),
    ensures
        super::lattice::file_grants(t, s, p, m) == has_file(
            s,
            path::components(t.paths[p as int]),
            m,
        ),
        super::lattice::dir_grants(t, s, p, m) == dir_gives(
            s,
            path::components(t.paths[p as int]),
            m,
        ),
{
    let cs = path::components(t.paths[p as int]);
    if super::lattice::file_grants(t, s, p, m) {
        let i = choose|i: int|
            0 <= i < s.files.len() && super::lattice::remap(
                t,
                s,
                (#[trigger] s.files[i]).spec_path(),
            ) == p && s.files[i].spec_mode() == m;
        lemma_file_id(a, b, t, s, i);
        assert(s.components(s.files[i].spec_path()) == cs);
    }
    if has_file(s, cs, m) {
        let i = choose|i: int|
            0 <= i < s.files.len() && s.components((#[trigger] s.files[i]).spec_path()) == cs
                && s.files[i].spec_mode() == m;
        lemma_file_id(a, b, t, s, i);
        assert(super::lattice::remap(t, s, s.files[i].spec_path()) == p);
    }
    if super::lattice::dir_grants(t, s, p, m) {
        let i = choose|i: int|
            0 <= i < s.dirs.len() && super::lattice::covers_id(
                t,
                super::lattice::remap(t, s, (#[trigger] s.dirs[i]).spec_root()),
                p,
            ) && s.dirs[i].spec_mode() == m;
        lemma_dir_id(a, b, t, s, i);
        assert(super::interner::holds(s.components(s.dirs[i].spec_root()), cs));
    }
    if dir_gives(s, cs, m) {
        let i = choose|i: int|
            0 <= i < s.dirs.len() && super::interner::holds(
                s.components((#[trigger] s.dirs[i]).spec_root()),
                cs,
            ) && s.dirs[i].spec_mode() == m;
        lemma_dir_id(a, b, t, s, i);
        assert(super::lattice::covers_id(
            t,
            super::lattice::remap(t, s, s.dirs[i].spec_root()),
            p,
        ));
    }
}

proof fn lemma_best_by_path(
    a: GrantSet,
    b: GrantSet,
    t: InternTable,
    s: GrantSet,
    p: u32,
    m: FileMode,
)
    requires
        meet_context(a, b, t),
        s == a || s == b,
        p < t.paths.len(),
    ensures
        super::lattice::best_mode(t, s, p, m) == best_at(s, path::components(t.paths[p as int]), m),
{
    lemma_modes_by_path(a, b, t, s, p, FileMode::Read);
    lemma_modes_by_path(a, b, t, s, p, FileMode::ReadWrite);
    lemma_modes_by_path(a, b, t, s, p, m);
    let cs = path::components(t.paths[p as int]);
    assert forall|n: FileMode|
        (super::lattice::file_grants(t, s, p, n) || super::lattice::dir_grants(t, s, p, n)) == (
        has_file(s, cs, n) || dir_gives(s, cs, n)) by {
        match n {
            FileMode::Read => {},
            FileMode::ReadWrite => {},
        }
    }
    if super::lattice::best_mode(t, s, p, m) {
        assert forall|n: FileMode| has_file(s, cs, n) || dir_gives(s, cs, n) implies
            #[trigger] n.within(m) by {
            assert(super::lattice::file_grants(t, s, p, n) || super::lattice::dir_grants(
                t,
                s,
                p,
                n,
            ));
        }
    }
    if best_at(s, cs, m) {
        assert forall|n: FileMode|
            super::lattice::file_grants(t, s, p, n) || super::lattice::dir_grants(
                t,
                s,
                p,
                n,
            ) implies #[trigger] n.within(m) by {
            assert(has_file(s, cs, n) || dir_gives(s, cs, n));
        }
    }
}

/// The files of a meet, by path.
proof fn lemma_files_of_meet(a: GrantSet, b: GrantSet, r: GrantSet, cs: Seq<Seq<u8>>, m: FileMode)
    requires
        meet_context(a, b, r.table),
        super::lattice::is_meet(a, b, r),
    ensures
        has_file(r, cs, m) <==> super::capability::bit_set(a.bits & b.bits, Interface::Filesystem)
            && file_meets(a, b, cs, m),
{
    let t = r.table;
    let fs = super::capability::bit_set(a.bits & b.bits, Interface::Filesystem);
    if has_file(r, cs, m) {
        let k = choose|k: int|
            0 <= k < r.files.len() && r.components((#[trigger] r.files[k]).spec_path()) == cs
                && r.files[k].spec_mode() == m;
        let g = r.files[k];
        let p = g.spec_path();
        g.lemma_of(0, FileMode::Read);
        assert(r.files.contains(FileGrant::of(p, m)));
        lemma_meet_file_below(a, b, t, p, m);
        let (x, y) = choose|x: FileMode, y: FileMode|
            #[trigger] super::lattice::best_mode(t, a, p, x)
                && #[trigger] super::lattice::best_mode(t, b, p, y) && m == x.lesser(y);
        lemma_best_by_path(a, b, t, a, p, x);
        lemma_best_by_path(a, b, t, b, p, y);
        assert(best_at(a, cs, x) && best_at(b, cs, y));
        if super::lattice::names_file(t, a, p) {
            let i = choose|i: int|
                0 <= i < a.files.len() && super::lattice::remap(
                    t,
                    a,
                    (#[trigger] a.files[i]).spec_path(),
                ) == p;
            lemma_file_id(a, b, t, a, i);
            assert(a.components(a.files[i].spec_path()) == cs);
        } else {
            let i = choose|i: int|
                0 <= i < b.files.len() && super::lattice::remap(
                    t,
                    b,
                    (#[trigger] b.files[i]).spec_path(),
                ) == p;
            lemma_file_id(a, b, t, b, i);
            assert(b.components(b.files[i].spec_path()) == cs);
        }
    }
    if fs && file_meets(a, b, cs, m) {
        let s = if names(a, cs) {
            a
        } else {
            b
        };
        let i = choose|i: int|
            0 <= i < s.files.len() && s.components((#[trigger] s.files[i]).spec_path()) == cs;
        lemma_file_id(a, b, t, s, i);
        let p = super::lattice::remap(t, s, s.files[i].spec_path());
        assert(super::lattice::names_file(t, s, p));
        let (x, y) = choose|x: FileMode, y: FileMode|
            #[trigger] best_at(a, cs, x) && #[trigger] best_at(b, cs, y) && m == x.lesser(y);
        lemma_best_by_path(a, b, t, a, p, x);
        lemma_best_by_path(a, b, t, b, p, y);
        assert(super::lattice::best_mode(t, a, p, x) && super::lattice::best_mode(t, b, p, y));
        assert(super::lattice::meet_file(t, a, b, p, m));
        let g = FileGrant::of(p, m);
        g.lemma_of(p, m);
        assert(r.files.contains(g));
        let k = choose|k: int| 0 <= k < r.files.len() && r.files[k] == g;
        assert(r.components(r.files[k].spec_path()) == cs);
    }
}

/// Directories `i` of `a` and `j` of `b` meet in the path `cs` with mode `m`.
spec fn roots_meet(
    a: GrantSet,
    i: int,
    b: GrantSet,
    j: int,
    cs: Seq<Seq<u8>>,
    m: FileMode,
) -> bool {
    let x = a.components(a.dirs[i].spec_root());
    let y = b.components(b.dirs[j].spec_root());
    &&& 0 <= i < a.dirs.len()
    &&& 0 <= j < b.dirs.len()
    &&& (super::interner::holds(y, x) && cs == x) || (super::interner::holds(x, y) && cs == y)
    &&& m == a.dirs[i].spec_mode().lesser(b.dirs[j].spec_mode())
}

/// Some pair of directories meets in the path `cs` with mode `m`.
spec fn some_roots_meet(a: GrantSet, b: GrantSet, cs: Seq<Seq<u8>>, m: FileMode) -> bool {
    exists|i: int, j: int| roots_meet(a, i, b, j, cs, m)
}

/// The directory `cs` with mode `m` is in the meet.
spec fn dir_meets(a: GrantSet, b: GrantSet, cs: Seq<Seq<u8>>, m: FileMode) -> bool {
    &&& some_roots_meet(a, b, cs, m)
    &&& forall|k: FileMode| some_roots_meet(a, b, cs, k) ==> #[trigger] k.within(m)
}

/// The pairs of directories that meet in an id of the merged table, by the
/// path.
proof fn lemma_pairs_by_path(a: GrantSet, b: GrantSet, t: InternTable, n: u32, m: FileMode)
    requires
        meet_context(a, b, t),
        n < t.paths.len(),
    ensures
        super::lattice::meet_pair(t, a, b, n, m) == some_roots_meet(
            a,
            b,
            path::components(t.paths[n as int]),
            m,
        ),
{
    let cs = path::components(t.paths[n as int]);
    if super::lattice::meet_pair(t, a, b, n, m) {
        let (i, j) = choose|i: int, j: int| super::lattice::dirs_meet(t, a, i, b, j, n, m);
        lemma_dir_id(a, b, t, a, i);
        lemma_dir_id(a, b, t, b, j);
        assert(roots_meet(a, i, b, j, cs, m));
    }
    if some_roots_meet(a, b, cs, m) {
        let (i, j) = choose|i: int, j: int| roots_meet(a, i, b, j, cs, m);
        lemma_dir_id(a, b, t, a, i);
        lemma_dir_id(a, b, t, b, j);
        let x = super::lattice::remap(t, a, a.dirs[i].spec_root());
        let y = super::lattice::remap(t, b, b.dirs[j].spec_root());
        let xs = path::components(t.paths[x as int]);
        let ys = path::components(t.paths[y as int]);
        if super::interner::holds(xs, ys) && super::interner::holds(ys, xs) {
            lemma_holds_antisymmetric(xs, ys);
        }
        assert(path::components(t.paths[n as int]) == xs ==> n == x);
        assert(path::components(t.paths[n as int]) == ys ==> n == y);
        assert(super::lattice::dirs_meet(t, a, i, b, j, n, m));
    }
}

/// The directories of a meet, by path.
proof fn lemma_dirs_of_meet(a: GrantSet, b: GrantSet, r: GrantSet, cs: Seq<Seq<u8>>, m: FileMode)
    requires
        meet_context(a, b, r.table),
        super::lattice::is_meet(a, b, r),
    ensures
        has_dir(r, cs, m) <==> super::capability::bit_set(a.bits & b.bits, Interface::Filesystem)
            && dir_meets(a, b, cs, m),
{
    let t = r.table;
    let fs = super::capability::bit_set(a.bits & b.bits, Interface::Filesystem);
    if has_dir(r, cs, m) {
        let k = choose|k: int|
            0 <= k < r.dirs.len() && r.components((#[trigger] r.dirs[k]).spec_root()) == cs
                && r.dirs[k].spec_mode() == m;
        let g = r.dirs[k];
        let n = g.spec_root();
        g.lemma_of(0, FileMode::Read);
        assert(r.dirs.contains(DirGrant::of(n, m)));
        lemma_meet_dir_below(a, b, t, n, m);
        lemma_pairs_by_path(a, b, t, n, m);
        assert forall|q: FileMode| some_roots_meet(a, b, cs, q) implies #[trigger] q.within(m) by {
            lemma_pairs_by_path(a, b, t, n, q);
        }
    }
    if fs && dir_meets(a, b, cs, m) {
        let (i, j) = choose|i: int, j: int| roots_meet(a, i, b, j, cs, m);
        lemma_dir_id(a, b, t, a, i);
        lemma_dir_id(a, b, t, b, j);
        let x = super::lattice::remap(t, a, a.dirs[i].spec_root());
        let y = super::lattice::remap(t, b, b.dirs[j].spec_root());
        let n = if path::components(t.paths[x as int]) == cs {
            x
        } else {
            y
        };
        lemma_pairs_by_path(a, b, t, n, m);
        assert forall|q: FileMode| super::lattice::meet_pair(t, a, b, n, q) implies
            #[trigger] q.within(m) by {
            lemma_pairs_by_path(a, b, t, n, q);
        }
        assert(super::lattice::meet_dir(t, a, b, n, m));
        let g = DirGrant::of(n, m);
        g.lemma_of(n, m);
        assert(r.dirs.contains(g));
        let k = choose|k: int| 0 <= k < r.dirs.len() && r.dirs[k] == g;
        assert(r.components(r.dirs[k].spec_root()) == cs);
    }
}

/// Hosts `i` of `a` and `j` of `b` are this authority and share these methods.
spec fn names_meet(a: GrantSet, i: int, b: GrantSet, j: int, name: Seq<char>, m: u8) -> bool {
    &&& 0 <= i < a.hosts.len()
    &&& 0 <= j < b.hosts.len()
    &&& a.authority(a.hosts[i].spec_authority()) == name
    &&& b.authority(b.hosts[j].spec_authority()) == name
    &&& m == a.hosts[i].spec_methods() & b.hosts[j].spec_methods()
    &&& m != 0
}

/// The host with these methods is in the meet.
spec fn host_meets(a: GrantSet, b: GrantSet, name: Seq<char>, m: u8) -> bool {
    exists|i: int, j: int| names_meet(a, i, b, j, name, m)
}

/// The hosts of a meet, by authority.
proof fn lemma_hosts_of_meet(a: GrantSet, b: GrantSet, r: GrantSet, name: Seq<char>, m: u8)
    requires
        meet_context(a, b, r.table),
        super::lattice::is_meet(a, b, r),
    ensures
        has_host(r, name, m) <==> super::capability::bit_set(
            a.bits & b.bits,
            Interface::HttpOutbound,
        ) && host_meets(a, b, name, m),
{
    let t = r.table;
    let http = super::capability::bit_set(a.bits & b.bits, Interface::HttpOutbound);
    if has_host(r, name, m) {
        let k = choose|k: int|
            0 <= k < r.hosts.len() && r.authority((#[trigger] r.hosts[k]).spec_authority()) == name
                && r.hosts[k].spec_methods() == m;
        let g = r.hosts[k];
        let n = g.spec_authority();
        g.lemma_of(0, 0);
        assert(r.hosts.contains(HostGrant::of(n, m)));
        let (i, j) = choose|i: int, j: int| super::lattice::hosts_meet(t, a, i, b, j, n, m);
        lemma_host_id(a, b, t, a, i);
        lemma_host_id(a, b, t, b, j);
        assert(names_meet(a, i, b, j, name, m));
    }
    if http && host_meets(a, b, name, m) {
        let (i, j) = choose|i: int, j: int| names_meet(a, i, b, j, name, m);
        lemma_host_id(a, b, t, a, i);
        lemma_host_id(a, b, t, b, j);
        let n = super::lattice::remap_name(t, a, a.hosts[i].spec_authority());
        assert(t.authorities[n as int] == name);
        assert(super::lattice::hosts_meet(t, a, i, b, j, n, m));
        let g = HostGrant::of(n, m);
        g.lemma_of(n, m);
        assert(r.hosts.contains(g));
        let k = choose|k: int| 0 <= k < r.hosts.len() && r.hosts[k] == g;
        assert(r.authority(r.hosts[k].spec_authority()) == name);
    }
}

/// What meets the one way meets the other way round.
proof fn lemma_meets_flip(a: GrantSet, b: GrantSet)
    ensures
        forall|cs: Seq<Seq<u8>>, m: FileMode| #[trigger]
            file_meets(a, b, cs, m) ==> file_meets(b, a, cs, m),
        forall|cs: Seq<Seq<u8>>, m: FileMode| #[trigger]
            some_roots_meet(a, b, cs, m) ==> some_roots_meet(b, a, cs, m),
        forall|name: Seq<char>, m: u8| #[trigger]
            host_meets(a, b, name, m) ==> host_meets(b, a, name, m),
{
    assert forall|cs: Seq<Seq<u8>>, m: FileMode| #[trigger] file_meets(a, b, cs, m) implies
        file_meets(b, a, cs, m) by {
        let (x, y) = choose|x: FileMode, y: FileMode|
            #[trigger] best_at(a, cs, x) && #[trigger] best_at(b, cs, y) && m == x.lesser(y);
        assert(best_at(b, cs, y) && best_at(a, cs, x) && m == y.lesser(x));
    }
    assert forall|cs: Seq<Seq<u8>>, m: FileMode| #[trigger] some_roots_meet(a, b, cs, m) implies
        some_roots_meet(b, a, cs, m) by {
        let (i, j) = choose|i: int, j: int| roots_meet(a, i, b, j, cs, m);
        assert(roots_meet(b, j, a, i, cs, m));
    }
    assert forall|name: Seq<char>, m: u8| #[trigger] host_meets(a, b, name, m) implies host_meets(
        b,
        a,
        name,
        m,
    ) by {
        let (i, j) = choose|i: int, j: int| names_meet(a, i, b, j, name, m);
        let x = a.hosts[i].spec_methods();
        let y = b.hosts[j].spec_methods();
        assert(x & y == y & x) by (bit_vector);
        assert(names_meet(b, j, a, i, name, m));
    }
}

/// The meet is the same set either way round. Sets over one table meet in sets
/// that are equal position by position.
pub proof fn meet_commutes(a: GrantSet, b: GrantSet, r: GrantSet, s: GrantSet)
    requires
        settled(a),
        settled(b),
        sound_meet(a, b, r),
        sound_meet(b, a, s),
    ensures
        equivalent(r, s),
        a.table.same(b.table) ==> super::capability::same_grants(r, s),
{
    settled_sets_meet(a, b);
    super::lattice::lemma_merged(a, b);
    super::lattice::lemma_merged(b, a);
    lemma_meets_flip(a, b);
    lemma_meets_flip(b, a);
    let x = a.bits;
    let y = b.bits;
    assert(x & y == y & x) by (bit_vector);
    assert forall|cs: Seq<Seq<u8>>, m: FileMode| #[trigger] has_file(r, cs, m) == has_file(s, cs, m)
        by {
        lemma_files_of_meet(a, b, r, cs, m);
        lemma_files_of_meet(b, a, s, cs, m);
    }
    assert forall|cs: Seq<Seq<u8>>, m: FileMode| #[trigger] has_dir(r, cs, m) == has_dir(s, cs, m)
        by {
        lemma_dirs_of_meet(a, b, r, cs, m);
        lemma_dirs_of_meet(b, a, s, cs, m);
        assert(forall|k: FileMode| some_roots_meet(a, b, cs, k) == some_roots_meet(b, a, cs, k));
        if dir_meets(a, b, cs, m) {
            assert forall|k: FileMode| some_roots_meet(b, a, cs, k) implies #[trigger] k.within(
                m,
            ) by {
                assert(some_roots_meet(a, b, cs, k));
            }
        }
        if dir_meets(b, a, cs, m) {
            assert forall|k: FileMode| some_roots_meet(a, b, cs, k) implies #[trigger] k.within(
                m,
            ) by {
                assert(some_roots_meet(b, a, cs, k));
            }
        }
    }
    assert forall|name: Seq<char>, m: u8| #[trigger] has_host(r, name, m) == has_host(s, name, m)
        by {
        lemma_hosts_of_meet(a, b, r, name, m);
        lemma_hosts_of_meet(b, a, s, name, m);
    }
    if a.table.same(b.table) {
        lemma_meet_below(a, b, r);
        lemma_meet_below(b, a, s);
        lemma_table_same_back(a.table, b.table);
        lemma_nothing_merged(a, b);
        lemma_nothing_merged(b, a);
        lemma_equivalent_over_table(r, s);
    }
}

/// Sets over one table meet in that table.
proof fn lemma_nothing_merged(a: GrantSet, b: GrantSet)
    requires
        settled(a),
        settled(b),
        a.table.same(b.table),
    ensures
        super::lattice::merged_table(a, b) == a.table,
{
    if !a.table.is_empty() {
        lemma_all_there(a.table, a);
        lemma_all_there(a.table, b);
    } else {
        assert(a.table.paths =~= b.table.paths);
        assert(a.table.authorities =~= b.table.authorities);
    }
}

/// Grants over one table add nothing to it.
proof fn lemma_all_there(t: InternTable, s: GrantSet)
    requires
        settled(s),
        t.same(s.table),
    ensures
        super::lattice::with_grants(t, s) == t,
{
    assert forall|i: int| 0 <= i < s.file_paths().len() implies super::interner::has_path(
        t.paths,
        #[trigger] s.file_paths()[i],
    ) by {
        let id = s.files[i].spec_path() as int;
        assert(super::interner::names_path(t.paths, id, s.table.paths[id]));
    }
    assert forall|i: int| 0 <= i < s.dir_paths().len() implies super::interner::has_path(
        t.paths,
        #[trigger] s.dir_paths()[i],
    ) by {
        let id = s.dirs[i].spec_root() as int;
        assert(super::interner::names_path(t.paths, id, s.table.paths[id]));
    }
    assert forall|i: int| 0 <= i < s.host_names().len() implies t.authorities.contains(
        #[trigger] s.host_names()[i],
    ) by {
        let id = s.hosts[i].spec_authority() as int;
        assert(t.authorities[id] == s.table.authorities[id]);
    }
    lemma_paths_there(t.paths, s.file_paths());
    lemma_paths_there(t.paths, s.dir_paths());
    lemma_names_there(t.authorities, s.host_names());
}

proof fn lemma_paths_there(paths: Seq<Seq<u8>>, ps: Seq<Seq<u8>>)
    requires
        forall|i: int| 0 <= i < ps.len() ==> super::interner::has_path(paths, #[trigger] ps[i]),
    ensures
        super::interner::with_paths(paths, ps) == paths,
    decreases ps.len(),
{
    if ps.len() > 0 {
        assert forall|i: int| 0 <= i < ps.drop_last().len() implies super::interner::has_path(
            paths,
            #[trigger] ps.drop_last()[i],
        ) by {
            assert(ps.drop_last()[i] == ps[i]);
        }
        lemma_paths_there(paths, ps.drop_last());
        assert(super::interner::has_path(paths, ps[ps.len() - 1]));
    }
}

proof fn lemma_names_there(authorities: Seq<Seq<char>>, names: Seq<Seq<char>>)
    requires
        forall|i: int| 0 <= i < names.len() ==> authorities.contains(#[trigger] names[i]),
    ensures
        super::interner::with_authorities(authorities, names) == authorities,
    decreases names.len(),
{
    if names.len() > 0 {
        assert forall|i: int| 0 <= i < names.drop_last().len() implies authorities.contains(
            #[trigger] names.drop_last()[i],
        ) by {
            assert(names.drop_last()[i] == names[i]);
        }
        lemma_names_there(authorities, names.drop_last());
        assert(authorities.contains(names[names.len() - 1]));
    }
}

} // verus!
