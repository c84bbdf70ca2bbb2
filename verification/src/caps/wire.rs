//! The wire form of a capability set: interface names, path and authority
//! texts, method names.
use super::capability::GrantSet;
use super::error::CapsFault;
use super::interner::{validate_authority, validate_canonical_path, InternTable};
use super::{
    CapabilitySet, CapsError, DirGrant, FileGrant, FileMode, HostGrant, Interface, Interner, Method,
    MethodMask,
};
use crate::path;
use vstd::prelude::*;
use vstd::seq_lib::*;

verus! {

/// Wire form of a set.
#[derive(Debug)]
pub struct CapabilitySetWire {
    pub interfaces: Vec<Interface>,
    pub files: Vec<FileGrantWire>,
    pub dirs: Vec<DirGrantWire>,
    pub hosts: Vec<HostGrantWire>,
}

/// Wire form of a file grant.
#[derive(Debug)]
pub struct FileGrantWire {
    pub path: Vec<u8>,
    pub mode: FileMode,
}

/// Wire form of a directory grant.
#[derive(Debug)]
pub struct DirGrantWire {
    pub path: Vec<u8>,
    pub mode: FileMode,
}

/// Wire form of a host grant.
#[derive(Debug)]
pub struct HostGrantWire {
    pub authority: String,
    pub methods: Vec<Method>,
}

/// What a [`CapabilitySetWire`] says.
pub ghost struct WireSet {
    pub interfaces: Seq<Interface>,
    pub files: Seq<(Seq<u8>, FileMode)>,
    pub dirs: Seq<(Seq<u8>, FileMode)>,
    pub hosts: Seq<(Seq<char>, Seq<Method>)>,
}

impl View for CapabilitySetWire {
    type V = WireSet;

    open spec fn view(&self) -> WireSet {
        WireSet {
            interfaces: self.interfaces@,
            files: Seq::new(
                self.files@.len(),
                |i: int| (self.files@[i].path@, self.files@[i].mode),
            ),
            dirs: Seq::new(self.dirs@.len(), |i: int| (self.dirs@[i].path@, self.dirs@[i].mode)),
            hosts: Seq::new(
                self.hosts@.len(),
                |i: int| (self.hosts@[i].authority@, self.hosts@[i].methods@),
            ),
        }
    }
}

/// The first path that is not canonical.
pub open spec fn first_bad_path(ps: Seq<(Seq<u8>, FileMode)>) -> Option<Seq<u8>>
    decreases ps.len(),
{
    if ps.len() == 0 {
        None
    } else {
        match first_bad_path(ps.drop_last()) {
            Some(p) => Some(p),
            None => if path::is_canonical(ps.last().0) {
                None
            } else {
                Some(ps.last().0)
            },
        }
    }
}

/// The first authority that is not a lowercase `host:port`.
pub open spec fn first_bad_authority(hs: Seq<(Seq<char>, Seq<Method>)>) -> Option<Seq<char>>
    decreases hs.len(),
{
    if hs.len() == 0 {
        None
    } else {
        match first_bad_authority(hs.drop_last()) {
            Some(p) => Some(p),
            None => if super::interner::is_authority(hs.last().0) {
                None
            } else {
                Some(hs.last().0)
            },
        }
    }
}

/// The texts of paths with modes.
pub open spec fn path_texts(ps: Seq<(Seq<u8>, FileMode)>) -> Seq<Seq<u8>> {
    Seq::new(ps.len(), |i: int| ps[i].0)
}

impl WireSet {
    /// The texts of the authorities.
    pub open spec fn names(self) -> Seq<Seq<char>> {
        Seq::new(self.hosts.len(), |i: int| self.hosts[i].0)
    }

    /// The table that the texts are interned in: files, then directories.
    pub open spec fn table(self) -> InternTable {
        InternTable {
            paths: super::interner::with_paths(
                super::interner::with_paths(Seq::empty(), path_texts(self.files)),
                path_texts(self.dirs),
            ),
            authorities: super::interner::with_authorities(Seq::empty(), self.names()),
        }
    }

    /// The file grants over that table, in wire order.
    pub open spec fn file_grants(self) -> Seq<FileGrant> {
        Seq::new(
            self.files.len(),
            |i: int|
                FileGrant::of(
                    super::interner::path_index(self.table().paths, self.files[i].0),
                    self.files[i].1,
                ),
        )
    }

    /// The directory grants over that table, in wire order.
    pub open spec fn dir_grants(self) -> Seq<DirGrant> {
        Seq::new(
            self.dirs.len(),
            |i: int|
                DirGrant::of(
                    super::interner::path_index(self.table().paths, self.dirs[i].0),
                    self.dirs[i].1,
                ),
        )
    }

    /// The host grants over that table, in wire order.
    pub open spec fn host_grants(self) -> Seq<HostGrant> {
        Seq::new(
            self.hosts.len(),
            |i: int|
                HostGrant::of(
                    super::interner::authority_index(self.table().authorities, self.hosts[i].0),
                    super::grants::mask_of(self.hosts[i].1),
                ),
        )
    }

    /// Why no set can be made of the interned grants; `None` if one can.
    pub open spec fn build_fault(self) -> Option<CapsFault> {
        super::capability::construction_fault(
            super::capability::bits_of(self.interfaces),
            self.file_grants(),
            self.dir_grants(),
            self.host_grants(),
        )
    }

    /// Why the wire form is refused; `None` if it is accepted.
    pub open spec fn fault(self) -> Option<CapsFault> {
        if first_bad_path(self.files) is Some {
            Some(CapsFault::NonCanonicalPath(first_bad_path(self.files)->0))
        } else if first_bad_path(self.dirs) is Some {
            Some(CapsFault::NonCanonicalPath(first_bad_path(self.dirs)->0))
        } else if first_bad_authority(self.hosts) is Some {
            Some(CapsFault::NotInterned(first_bad_authority(self.hosts)->0))
        } else {
            self.build_fault()
        }
    }

    /// The ids fit in 32 bits.
    pub open spec fn fits(self) -> bool {
        self.table().paths.len() <= super::interner::id_space() && self.table().authorities.len()
            <= super::interner::id_space()
    }

    /// `r` is the set made of the interned grants.
    pub open spec fn built_as(self, r: GrantSet) -> bool {
        &&& self.build_fault() is None
        &&& r.ordered()
        &&& r.bits == super::capability::bits_of(self.interfaces)
        &&& r.files.to_multiset() == self.file_grants().to_multiset()
        &&& r.dirs.to_multiset() == self.dir_grants().to_multiset()
        &&& r.hosts.to_multiset() == self.host_grants().to_multiset()
        &&& r.table == self.table()
    }

    /// `r` is the set that the wire form stands for.
    pub open spec fn accepted_as(self, r: GrantSet) -> bool {
        self.fault() is None && self.built_as(r)
    }
}

/// The wire form of a set.
pub open spec fn wire_of(s: GrantSet) -> WireSet {
    WireSet {
        interfaces: super::capability::interfaces_of(s.bits),
        files: Seq::new(
            s.files.len(),
            |i: int| (s.table.paths[s.files[i].spec_path() as int], s.files[i].spec_mode()),
        ),
        dirs: Seq::new(
            s.dirs.len(),
            |i: int| (s.table.paths[s.dirs[i].spec_root() as int], s.dirs[i].spec_mode()),
        ),
        hosts: Seq::new(
            s.hosts.len(),
            |i: int|
                (
                    s.table.authorities[s.hosts[i].spec_authority() as int],
                    super::grants::methods_of(s.hosts[i].spec_methods()),
                ),
        ),
    }
}

fn check_files(files: &Vec<FileGrantWire>, Ghost(w): Ghost<WireSet>) -> (r: Result<(), CapsError>)
    requires
        w.files == Seq::new(files@.len(), |i: int| (files@[i].path@, files@[i].mode)),
    ensures
        match r {
            Ok(_) => first_bad_path(w.files) is None,
            Err(e) => first_bad_path(w.files) is Some && e@ == CapsFault::NonCanonicalPath(
                first_bad_path(w.files)->0,
            ),
        },
{
    let mut i: usize = 0;
    assert(w.files.take(0) =~= Seq::empty());
    while i < files.len()
        invariant
            0 <= i <= files.len(),
            w.files == Seq::new(files@.len(), |i: int| (files@[i].path@, files@[i].mode)),
            first_bad_path(w.files.take(i as int)) is None,
        decreases files.len() - i,
    {
        proof {
            assert(w.files.take(i as int + 1).drop_last() =~= w.files.take(i as int));
        }
        match validate_canonical_path(files[i].path.as_slice()) {
            Ok(_) => {},
            Err(e) => {
                proof {
                    lemma_first_bad_path(w.files, i as int + 1);
                }
                return Err(e);
            },
        }
        i += 1;
    }
    assert(w.files.take(i as int) =~= w.files);
    Ok(())
}

fn check_dirs(dirs: &Vec<DirGrantWire>, Ghost(w): Ghost<WireSet>) -> (r: Result<(), CapsError>)
    requires
        w.dirs == Seq::new(dirs@.len(), |i: int| (dirs@[i].path@, dirs@[i].mode)),
    ensures
        match r {
            Ok(_) => first_bad_path(w.dirs) is None,
            Err(e) => first_bad_path(w.dirs) is Some && e@ == CapsFault::NonCanonicalPath(
                first_bad_path(w.dirs)->0,
            ),
        },
{
    let mut i: usize = 0;
    assert(w.dirs.take(0) =~= Seq::empty());
    while i < dirs.len()
        invariant
            0 <= i <= dirs.len(),
            w.dirs == Seq::new(dirs@.len(), |i: int| (dirs@[i].path@, dirs@[i].mode)),
            first_bad_path(w.dirs.take(i as int)) is None,
        decreases dirs.len() - i,
    {
        proof {
            assert(w.dirs.take(i as int + 1).drop_last() =~= w.dirs.take(i as int));
        }
        match validate_canonical_path(dirs[i].path.as_slice()) {
            Ok(_) => {},
            Err(e) => {
                proof {
                    lemma_first_bad_path(w.dirs, i as int + 1);
                }
                return Err(e);
            },
        }
        i += 1;
    }
    assert(w.dirs.take(i as int) =~= w.dirs);
    Ok(())
}

fn check_hosts(hosts: &Vec<HostGrantWire>, Ghost(w): Ghost<WireSet>) -> (r: Result<(), CapsError>)
    requires
        w.hosts == Seq::new(hosts@.len(), |i: int| (hosts@[i].authority@, hosts@[i].methods@)),
    ensures
        match r {
            Ok(_) => first_bad_authority(w.hosts) is None,
            Err(e) => first_bad_authority(w.hosts) is Some && e@ == CapsFault::NotInterned(
                first_bad_authority(w.hosts)->0,
            ),
        },
{
    let mut i: usize = 0;
    assert(w.hosts.take(0) =~= Seq::empty());
    while i < hosts.len()
        invariant
            0 <= i <= hosts.len(),
            w.hosts == Seq::new(hosts@.len(), |i: int| (hosts@[i].authority@, hosts@[i].methods@)),
            first_bad_authority(w.hosts.take(i as int)) is None,
        decreases hosts.len() - i,
    {
        proof {
            assert(w.hosts.take(i as int + 1).drop_last() =~= w.hosts.take(i as int));
        }
        match validate_authority(hosts[i].authority.as_str()) {
            Ok(_) => {},
            Err(e) => {
                proof {
                    lemma_first_bad_authority(w.hosts, i as int + 1);
                }
                return Err(e);
            },
        }
        i += 1;
    }
    assert(w.hosts.take(i as int) =~= w.hosts);
    Ok(())
}

proof fn lemma_first_bad_path(ps: Seq<(Seq<u8>, FileMode)>, n: int)
    requires
        0 <= n <= ps.len(),
        first_bad_path(ps.take(n)) is Some,
    ensures
        first_bad_path(ps) == first_bad_path(ps.take(n)),
    decreases ps.len(),
{
    if n < ps.len() {
        assert(ps.drop_last().take(n) =~= ps.take(n));
        lemma_first_bad_path(ps.drop_last(), n);
    } else {
        assert(ps.take(n) =~= ps);
    }
}

proof fn lemma_first_bad_authority(hs: Seq<(Seq<char>, Seq<Method>)>, n: int)
    requires
        0 <= n <= hs.len(),
        first_bad_authority(hs.take(n)) is Some,
    ensures
        first_bad_authority(hs) == first_bad_authority(hs.take(n)),
    decreases hs.len(),
{
    if n < hs.len() {
        assert(hs.drop_last().take(n) =~= hs.take(n));
        lemma_first_bad_authority(hs.drop_last(), n);
    } else {
        assert(hs.take(n) =~= hs);
    }
}

/// With no bad path, every path is canonical, and the other way round.
pub proof fn lemma_no_bad_path(ps: Seq<(Seq<u8>, FileMode)>)
    ensures
        first_bad_path(ps) is None <==> forall|i: int|
            0 <= i < ps.len() ==> path::is_canonical((#[trigger] ps[i]).0),
    decreases ps.len(),
{
    if ps.len() > 0 {
        lemma_no_bad_path(ps.drop_last());
        if first_bad_path(ps) is None {
            assert forall|i: int| 0 <= i < ps.len() implies path::is_canonical(
                (#[trigger] ps[i]).0,
            ) by {
                if i < ps.len() - 1 {
                    assert(ps.drop_last()[i] == ps[i]);
                }
            }
        } else if first_bad_path(ps.drop_last()) is None {
            assert(!path::is_canonical(ps[ps.len() - 1].0));
        } else {
            let i = choose|i: int|
                0 <= i < ps.drop_last().len() && !path::is_canonical(
                    (#[trigger] ps.drop_last()[i]).0,
                );
            assert(!path::is_canonical(ps[i].0));
        }
    }
}

/// With no bad authority, every authority is sound, and the other way round.
pub proof fn lemma_no_bad_authority(hs: Seq<(Seq<char>, Seq<Method>)>)
    ensures
        first_bad_authority(hs) is None <==> forall|i: int|
            0 <= i < hs.len() ==> super::interner::is_authority((#[trigger] hs[i]).0),
    decreases hs.len(),
{
    if hs.len() > 0 {
        lemma_no_bad_authority(hs.drop_last());
        if first_bad_authority(hs) is None {
            assert forall|i: int| 0 <= i < hs.len() implies super::interner::is_authority(
                (#[trigger] hs[i]).0,
            ) by {
                if i < hs.len() - 1 {
                    assert(hs.drop_last()[i] == hs[i]);
                }
            }
        } else if first_bad_authority(hs.drop_last()) is None {
            assert(!super::interner::is_authority(hs[hs.len() - 1].0));
        } else {
            let i = choose|i: int|
                0 <= i < hs.drop_last().len() && !super::interner::is_authority(
                    (#[trigger] hs.drop_last()[i]).0,
                );
            assert(!super::interner::is_authority(hs[i].0));
        }
    }
}

/// An id in a table stays the id when the table grows.
proof fn lemma_index_stays(t: InternTable, x: Seq<Seq<u8>>, i: u32, p: Seq<u8>)
    requires
        super::interner::distinct(t),
        x.len() <= t.paths.len(),
        t.paths.take(x.len() as int) == x,
        super::interner::names_path(x, i as int, p),
    ensures
        super::interner::path_index(t.paths, p) == i,
{
    assert(t.paths.take(x.len() as int)[i as int] == t.paths[i as int]);
    super::interner::lemma_path_index(t, i, p);
}

impl CapabilitySet {
    /// Interns the texts of the wire form and builds the set. A wire form
    /// that [`CapabilitySet::new`] would refuse is refused.
    pub fn try_from(wire: CapabilitySetWire) -> (r: Result<CapabilitySet, CapsError>)
        requires
            wire@.fits(),
        ensures
            match r {
                Ok(set) => set.wf() && wire@.accepted_as(set@),
                Err(e) => wire@.fault() == Some(e@),
            },
    {
        let ghost w = wire@;
        match check_files(&wire.files, Ghost(w)) {
            Ok(_) => {},
            Err(e) => {
                return Err(e);
            },
        }
        match check_dirs(&wire.dirs, Ghost(w)) {
            Ok(_) => {},
            Err(e) => {
                return Err(e);
            },
        }
        match check_hosts(&wire.hosts, Ghost(w)) {
            Ok(_) => {},
            Err(e) => {
                return Err(e);
            },
        }
        Self::assemble(wire)
    }

    /// Interns the texts of the wire form, whatever they are, and builds the
    /// set.
    pub fn assemble(wire: CapabilitySetWire) -> (r: Result<CapabilitySet, CapsError>)
        requires
            wire@.fits(),
        ensures
            match r {
                Ok(set) => set.wf() && wire@.built_as(set@),
                Err(e) => wire@.build_fault() == Some(e@),
            },
    {
        let ghost w = wire@;
        let mut interner = Interner::new();
        let files = intern_files(&mut interner, &wire.files, Ghost(w));
        let dirs = intern_dirs(&mut interner, &wire.dirs, Ghost(w));
        let hosts = intern_hosts(&mut interner, &wire.hosts, Ghost(w));
        proof {
            interner.lemma_wf();
            assert(interner@ == w.table());
            lemma_grants_settle(w, files@, dirs@, hosts@);
        }
        match CapabilitySet::new(wire.interfaces.as_slice(), files, dirs, hosts) {
            Ok(set) => {
                proof {
                    set.lemma_wf();
                }
                let bound = set.with_interner(interner);
                proof {
                    bound.lemma_wf();
                }
                Ok(bound)
            },
            Err(e) => Err(e),
        }
    }
}

/// `g` is a grant of path `p` in the table `paths`.
spec fn file_placed(paths: Seq<Seq<u8>>, g: FileGrant, p: (Seq<u8>, FileMode)) -> bool {
    super::interner::names_path(paths, g.spec_path() as int, p.0) && g.spec_mode() == p.1
}

/// `g` is a grant of root `p` in the table `paths`.
spec fn dir_placed(paths: Seq<Seq<u8>>, g: DirGrant, p: (Seq<u8>, FileMode)) -> bool {
    super::interner::names_path(paths, g.spec_root() as int, p.0) && g.spec_mode() == p.1
}

/// `g` is a grant of authority `h` in the table `names`.
spec fn host_placed(names: Seq<Seq<char>>, g: HostGrant, h: (Seq<char>, Seq<Method>)) -> bool {
    g.spec_authority() < names.len() && names[g.spec_authority() as int] == h.0 && g.spec_methods()
        == super::grants::mask_of(h.1)
}

/// Grants placed in a table while it grew are the grants of the whole table.
proof fn lemma_grants_settle(
    w: WireSet,
    files: Seq<FileGrant>,
    dirs: Seq<DirGrant>,
    hosts: Seq<HostGrant>,
)
    requires
        super::interner::distinct(w.table()),
        files.len() == w.files.len(),
        dirs.len() == w.dirs.len(),
        hosts.len() == w.hosts.len(),
        forall|i: int|
            0 <= i < files.len() ==> file_placed(
                super::interner::with_paths(Seq::empty(), path_texts(w.files)),
                #[trigger] files[i],
                w.files[i],
            ),
        forall|i: int|
            0 <= i < dirs.len() ==> dir_placed(w.table().paths, #[trigger] dirs[i], w.dirs[i]),
        forall|i: int|
            0 <= i < hosts.len() ==> host_placed(
                w.table().authorities,
                #[trigger] hosts[i],
                w.hosts[i],
            ),
    ensures
        files == w.file_grants(),
        dirs == w.dir_grants(),
        hosts == w.host_grants(),
{
    let t = w.table();
    let mid = super::interner::with_paths(Seq::empty(), path_texts(w.files));
    super::interner::lemma_with_paths(mid, path_texts(w.dirs));
    assert forall|i: int| 0 <= i < files.len() implies files[i] == w.file_grants()[i] by {
        assert(file_placed(mid, files[i], w.files[i]));
        lemma_index_stays(t, mid, files[i].spec_path(), w.files[i].0);
        files[i].lemma_of(0, FileMode::Read);
    }
    assert(files =~= w.file_grants());
    assert forall|i: int| 0 <= i < dirs.len() implies dirs[i] == w.dir_grants()[i] by {
        assert(dir_placed(t.paths, dirs[i], w.dirs[i]));
        super::interner::lemma_path_index(t, dirs[i].spec_root(), w.dirs[i].0);
        dirs[i].lemma_of(0, FileMode::Read);
    }
    assert(dirs =~= w.dir_grants());
    assert forall|i: int| 0 <= i < hosts.len() implies hosts[i] == w.host_grants()[i] by {
        assert(host_placed(t.authorities, hosts[i], w.hosts[i]));
        super::interner::lemma_authority_index(t, hosts[i].spec_authority());
        hosts[i].lemma_of(0, 0);
    }
    assert(hosts =~= w.host_grants());
}

/// An entry keeps its place when a table grows.
proof fn lemma_named_grows(x: Seq<Seq<u8>>, y: Seq<Seq<u8>>, i: int, p: Seq<u8>)
    requires
        x.len() <= y.len(),
        y.take(x.len() as int) == x,
        super::interner::names_path(x, i, p),
    ensures
        super::interner::names_path(y, i, p),
{
    assert(y.take(x.len() as int)[i] == y[i]);
}

fn intern_files(
    interner: &mut Interner,
    files: &Vec<FileGrantWire>,
    Ghost(w): Ghost<WireSet>,
) -> (out: Vec<FileGrant>)
    requires
        old(interner).wf(),
        old(interner)@ == InternTable::nothing(),
        w.files == Seq::new(files@.len(), |i: int| (files@[i].path@, files@[i].mode)),
        w.fits(),
    ensures
        final(interner).wf(),
        final(interner)@.paths == super::interner::with_paths(Seq::empty(), path_texts(w.files)),
        final(interner)@.authorities == old(interner)@.authorities,
        out@.len() == w.files.len(),
        forall|i: int|
            0 <= i < out@.len() ==> file_placed(
                final(interner)@.paths,
                #[trigger] out@[i],
                w.files[i],
            ),
{
    let ghost texts = path_texts(w.files);
    let mut out: Vec<FileGrant> = Vec::new();
    let mut i: usize = 0;
    assert(texts.take(0) =~= Seq::empty());
    proof {
        super::interner::lemma_with_paths(
            super::interner::with_paths(Seq::empty(), texts),
            path_texts(w.dirs),
        );
    }
    while i < files.len()
        invariant
            0 <= i <= files.len(),
            w.files == Seq::new(files@.len(), |i: int| (files@[i].path@, files@[i].mode)),
            texts == path_texts(w.files),
            interner.wf(),
            interner@.paths == super::interner::with_paths(Seq::empty(), texts.take(i as int)),
            interner@.authorities == Seq::<Seq<char>>::empty(),
            super::interner::with_paths(Seq::empty(), texts).len() <= super::interner::id_space(),
            out@.len() == i,
            forall|k: int|
                0 <= k < i ==> file_placed(interner@.paths, #[trigger] out@[k], w.files[k]),
        decreases files.len() - i,
    {
        let ghost before = interner@.paths;
        proof {
            assert(texts.take(i as int + 1).drop_last() =~= texts.take(i as int));
            assert(texts.take(i as int + 1).last() == files@[i as int].path@);
            super::lattice::lemma_with_paths_monotone(Seq::empty(), texts, i as int + 1);
            super::interner::lemma_with_path_shape(before, files@[i as int].path@);
        }
        let id = interner.intern_path(files[i].path.as_slice());
        out.push(FileGrant::new(id, files[i].mode));
        proof {
            assert forall|k: int| 0 <= k < i + 1 implies file_placed(
                interner@.paths,
                #[trigger] out@[k],
                w.files[k],
            ) by {
                if k < i {
                    lemma_named_grows(
                        before,
                        interner@.paths,
                        out@[k].spec_path() as int,
                        w.files[k].0,
                    );
                }
            }
        }
        i += 1;
    }
    assert(texts.take(i as int) =~= texts);
    out
}

fn intern_dirs(
    interner: &mut Interner,
    dirs: &Vec<DirGrantWire>,
    Ghost(w): Ghost<WireSet>,
) -> (out: Vec<DirGrant>)
    requires
        old(interner).wf(),
        old(interner)@.paths == super::interner::with_paths(Seq::empty(), path_texts(w.files)),
        w.dirs == Seq::new(dirs@.len(), |i: int| (dirs@[i].path@, dirs@[i].mode)),
        w.fits(),
    ensures
        final(interner).wf(),
        final(interner)@.paths == w.table().paths,
        final(interner)@.authorities == old(interner)@.authorities,
        out@.len() == w.dirs.len(),
        forall|i: int|
            0 <= i < out@.len() ==> dir_placed(w.table().paths, #[trigger] out@[i], w.dirs[i]),
{
    let ghost texts = path_texts(w.dirs);
    let ghost first = interner@;
    let mut out: Vec<DirGrant> = Vec::new();
    let mut i: usize = 0;
    assert(texts.take(0) =~= Seq::empty());
    while i < dirs.len()
        invariant
            0 <= i <= dirs.len(),
            w.dirs == Seq::new(dirs@.len(), |i: int| (dirs@[i].path@, dirs@[i].mode)),
            texts == path_texts(w.dirs),
            interner.wf(),
            interner@.paths == super::interner::with_paths(first.paths, texts.take(i as int)),
            interner@.authorities == first.authorities,
            super::interner::with_paths(first.paths, texts).len() <= super::interner::id_space(),
            out@.len() == i,
            forall|k: int| 0 <= k < i ==> dir_placed(interner@.paths, #[trigger] out@[k], w.dirs[k]),
        decreases dirs.len() - i,
    {
        let ghost before = interner@.paths;
        proof {
            assert(texts.take(i as int + 1).drop_last() =~= texts.take(i as int));
            assert(texts.take(i as int + 1).last() == dirs@[i as int].path@);
            super::lattice::lemma_with_paths_monotone(first.paths, texts, i as int + 1);
            super::interner::lemma_with_path_shape(before, dirs@[i as int].path@);
        }
        let id = interner.intern_path(dirs[i].path.as_slice());
        out.push(DirGrant::new(id, dirs[i].mode));
        proof {
            assert forall|k: int| 0 <= k < i + 1 implies dir_placed(
                interner@.paths,
                #[trigger] out@[k],
                w.dirs[k],
            ) by {
                if k < i {
                    lemma_named_grows(
                        before,
                        interner@.paths,
                        out@[k].spec_root() as int,
                        w.dirs[k].0,
                    );
                }
            }
        }
        i += 1;
    }
    assert(texts.take(i as int) =~= texts);
    out
}

fn intern_hosts(
    interner: &mut Interner,
    hosts: &Vec<HostGrantWire>,
    Ghost(w): Ghost<WireSet>,
) -> (out: Vec<HostGrant>)
    requires
        old(interner).wf(),
        old(interner)@.authorities == Seq::<Seq<char>>::empty(),
        w.hosts == Seq::new(hosts@.len(), |i: int| (hosts@[i].authority@, hosts@[i].methods@)),
        w.fits(),
    ensures
        final(interner).wf(),
        final(interner)@.paths == old(interner)@.paths,
        final(interner)@.authorities == w.table().authorities,
        out@.len() == w.hosts.len(),
        forall|i: int|
            0 <= i < out@.len() ==> host_placed(
                w.table().authorities,
                #[trigger] out@[i],
                w.hosts[i],
            ),
{
    let ghost names = w.names();
    let ghost first = interner@;
    let mut out: Vec<HostGrant> = Vec::new();
    let mut i: usize = 0;
    assert(names.take(0) =~= Seq::empty());
    while i < hosts.len()
        invariant
            0 <= i <= hosts.len(),
            w.hosts == Seq::new(hosts@.len(), |i: int| (hosts@[i].authority@, hosts@[i].methods@)),
            names == w.names(),
            interner.wf(),
            interner@.paths == first.paths,
            interner@.authorities == super::interner::with_authorities(
                Seq::empty(),
                names.take(i as int),
            ),
            super::interner::with_authorities(Seq::empty(), names).len()
                <= super::interner::id_space(),
            out@.len() == i,
            forall|k: int|
                0 <= k < i ==> host_placed(interner@.authorities, #[trigger] out@[k], w.hosts[k]),
        decreases hosts.len() - i,
    {
        let ghost before = interner@.authorities;
        proof {
            assert(names.take(i as int + 1).drop_last() =~= names.take(i as int));
            assert(names.take(i as int + 1).last() == hosts@[i as int].authority@);
            super::lattice::lemma_with_authorities_monotone(Seq::empty(), names, i as int + 1);
            super::interner::lemma_with_authority(before, hosts@[i as int].authority@);
        }
        let id = interner.intern_authority(hosts[i].authority.as_str());
        out.push(HostGrant::new(id, MethodMask::new(hosts[i].methods.as_slice())));
        proof {
            assert forall|k: int| 0 <= k < i + 1 implies host_placed(
                interner@.authorities,
                #[trigger] out@[k],
                w.hosts[k],
            ) by {
                if k < i {
                    assert(interner@.authorities.take(before.len() as int)[out@[k].spec_authority() as int]
                        == interner@.authorities[out@[k].spec_authority() as int]);
                }
            }
        }
        i += 1;
    }
    assert(names.take(i as int) =~= names);
    out
}

impl CapabilitySetWire {
    /// Whether 32 bits can number what the grants name.
    #[must_use]
    pub fn fits(&self) -> (r: bool)
        ensures
            r == self@.fits(),
    {
        let ghost w = self@;
        let ghost files = path_texts(w.files);
        let ghost dirs = path_texts(w.dirs);
        let ghost names = w.names();
        let ghost mid = super::interner::with_paths(Seq::empty(), files);
        let mut interner = Interner::new();
        let mut i: usize = 0;
        assert(files.take(0) =~= Seq::empty());
        proof {
            super::interner::lemma_with_paths(mid, dirs);
        }
        while i < self.files.len()
            invariant
                w == self@,
                files == path_texts(w.files),
                dirs == path_texts(w.dirs),
                mid == super::interner::with_paths(Seq::empty(), files),
                mid.len() <= w.table().paths.len(),
                0 <= i <= self.files.len(),
                interner.wf(),
                interner@.paths == super::interner::with_paths(Seq::empty(), files.take(i as int)),
                interner@.authorities == Seq::<Seq<char>>::empty(),
            decreases self.files.len() - i,
        {
            proof {
                assert(files.take(i as int + 1).drop_last() =~= files.take(i as int));
                assert(files.take(i as int + 1).last() == self.files@[i as int].path@);
                super::lattice::lemma_with_paths_monotone(Seq::empty(), files, i as int + 1);
            }
            if !interner.admits_path(self.files[i].path.as_slice()) {
                return false;
            }
            interner.intern_path(self.files[i].path.as_slice());
            i += 1;
        }
        assert(files.take(i as int) =~= files);
        let mut j: usize = 0;
        assert(dirs.take(0) =~= Seq::empty());
        while j < self.dirs.len()
            invariant
                w == self@,
                files == path_texts(w.files),
                dirs == path_texts(w.dirs),
                mid == super::interner::with_paths(Seq::empty(), files),
                0 <= j <= self.dirs.len(),
                interner.wf(),
                interner@.paths == super::interner::with_paths(mid, dirs.take(j as int)),
                interner@.authorities == Seq::<Seq<char>>::empty(),
            decreases self.dirs.len() - j,
        {
            proof {
                assert(dirs.take(j as int + 1).drop_last() =~= dirs.take(j as int));
                assert(dirs.take(j as int + 1).last() == self.dirs@[j as int].path@);
                super::lattice::lemma_with_paths_monotone(mid, dirs, j as int + 1);
            }
            if !interner.admits_path(self.dirs[j].path.as_slice()) {
                return false;
            }
            interner.intern_path(self.dirs[j].path.as_slice());
            j += 1;
        }
        assert(dirs.take(j as int) =~= dirs);
        let mut k: usize = 0;
        assert(names.take(0) =~= Seq::empty());
        while k < self.hosts.len()
            invariant
                w == self@,
                names == w.names(),
                0 <= k <= self.hosts.len(),
                interner.wf(),
                interner@.paths == w.table().paths,
                interner@.authorities == super::interner::with_authorities(
                    Seq::empty(),
                    names.take(k as int),
                ),
            decreases self.hosts.len() - k,
        {
            proof {
                assert(names.take(k as int + 1).drop_last() =~= names.take(k as int));
                assert(names.take(k as int + 1).last() == self.hosts@[k as int].authority@);
                super::lattice::lemma_with_authorities_monotone(Seq::empty(), names, k as int + 1);
            }
            if !interner.admits_authority(self.hosts[k].authority.as_str()) {
                return false;
            }
            interner.intern_authority(self.hosts[k].authority.as_str());
            k += 1;
        }
        proof {
            assert(names.take(k as int) =~= names);
            interner.lemma_wf();
        }
        true
    }

    /// The wire form of a set: ids resolved against the set's own table.
    pub fn from(set: CapabilitySet) -> (r: CapabilitySetWire)
        requires
            set.wf(),
            set@.resolves(),
        ensures
            r@ == wire_of(set@),
    {
        let mut files: Vec<FileGrantWire> = Vec::new();
        let granted = set.files();
        let mut i: usize = 0;
        while i < granted.len()
            invariant
                set.wf(),
                set@.resolves(),
                granted@ == set@.files,
                0 <= i <= granted.len(),
                files@.len() == i,
                forall|k: int|
                    0 <= k < i ==> (#[trigger] files@[k]).path@
                        == set@.table.paths[set@.files[k].spec_path() as int] && files@[k].mode
                        == set@.files[k].spec_mode(),
            decreases granted.len() - i,
        {
            let f = granted[i];
            assert(f == set@.files[i as int]);
            files.push(
                FileGrantWire {
                    path: vstd::slice::slice_to_vec(set.interner().path(f.path())),
                    mode: f.mode(),
                },
            );
            i += 1;
        }
        let mut dirs: Vec<DirGrantWire> = Vec::new();
        let granted = set.dirs();
        let mut i: usize = 0;
        while i < granted.len()
            invariant
                set.wf(),
                set@.resolves(),
                granted@ == set@.dirs,
                0 <= i <= granted.len(),
                dirs@.len() == i,
                forall|k: int|
                    0 <= k < i ==> (#[trigger] dirs@[k]).path@
                        == set@.table.paths[set@.dirs[k].spec_root() as int] && dirs@[k].mode
                        == set@.dirs[k].spec_mode(),
            decreases granted.len() - i,
        {
            let d = granted[i];
            assert(d == set@.dirs[i as int]);
            dirs.push(
                DirGrantWire {
                    path: vstd::slice::slice_to_vec(set.interner().path(d.root())),
                    mode: d.mode(),
                },
            );
            i += 1;
        }
        let mut hosts: Vec<HostGrantWire> = Vec::new();
        let granted = set.hosts();
        let mut i: usize = 0;
        while i < granted.len()
            invariant
                set.wf(),
                set@.resolves(),
                granted@ == set@.hosts,
                0 <= i <= granted.len(),
                hosts@.len() == i,
                forall|k: int|
                    0 <= k < i ==> (#[trigger] hosts@[k]).authority@
                        == set@.table.authorities[set@.hosts[k].spec_authority() as int]
                        && hosts@[k].methods@ == super::grants::methods_of(
                        set@.hosts[k].spec_methods(),
                    ),
            decreases granted.len() - i,
        {
            let h = granted[i];
            assert(h == set@.hosts[i as int]);
            hosts.push(
                HostGrantWire {
                    authority: set.interner().authority(h.authority()).to_owned(),
                    methods: h.methods().methods(),
                },
            );
            i += 1;
        }
        let interfaces = super::capability::list_interfaces(set.interfaces_bits());
        let r = CapabilitySetWire { interfaces, files, dirs, hosts };
        assert(r@.files =~= wire_of(set@).files);
        assert(r@.dirs =~= wire_of(set@).dirs);
        assert(r@.hosts =~= wire_of(set@).hosts);
        r
    }
}

/// A set from the wire is settled.
pub proof fn accepted_is_settled(w: WireSet, r: GrantSet)
    requires
        w.fits(),
        w.accepted_as(r),
    ensures
        super::laws::settled(r),
{
    let t = w.table();
    super::interner::lemma_with_paths_sound(Seq::empty(), path_texts(w.files));
    let mid = super::interner::with_paths(Seq::empty(), path_texts(w.files));
    super::interner::lemma_with_paths_sound(mid, path_texts(w.dirs));
    super::interner::lemma_with_paths(Seq::empty(), path_texts(w.files));
    super::interner::lemma_with_paths(mid, path_texts(w.dirs));
    super::interner::lemma_with_authorities(Seq::empty(), w.names());
    super::interner::lemma_with_authorities_sound(Seq::empty(), w.names());
    lemma_no_bad_path(w.files);
    lemma_no_bad_path(w.dirs);
    super::interner::lemma_sound(t);
    assert forall|i: int| 0 <= i < r.files.len() implies (#[trigger] r.files[i]).spec_path()
        < t.paths.len() && super::laws::is_rooted(r.components(r.files[i].spec_path())) by {
        let k = lemma_wire_file(w, r, i);
        path::lemma_absolute(w.files[k].0);
    }
    assert forall|i: int| 0 <= i < r.dirs.len() implies (#[trigger] r.dirs[i]).spec_root()
        < t.paths.len() && super::laws::is_rooted(r.components(r.dirs[i].spec_root())) by {
        let k = lemma_wire_dir(w, r, i);
        path::lemma_absolute(w.dirs[k].0);
    }
    assert forall|i: int| 0 <= i < r.hosts.len() implies (#[trigger] r.hosts[i]).spec_authority()
        < t.authorities.len() by {
        let k = lemma_wire_host(w, r, i);
    }
}

/// The wire file that a file grant comes from.
pub proof fn lemma_wire_file(w: WireSet, r: GrantSet, i: int) -> (k: int)
    requires
        w.fits(),
        w.built_as(r),
        0 <= i < r.files.len(),
    ensures
        0 <= k < w.files.len(),
        r.files[i] == w.file_grants()[k],
        r.files[i].spec_path() < r.table.paths.len(),
        r.components(r.files[i].spec_path()) == path::components(w.files[k].0),
        r.files[i].spec_mode() == w.files[k].1,
{
    let g = r.files[i];
    assert(r.files.contains(g));
    to_multiset_contains(r.files, g);
    to_multiset_contains(w.file_grants(), g);
    let k = choose|k: int| 0 <= k < w.file_grants().len() && w.file_grants()[k] == g;
    lemma_wire_file_id(w, k);
    k
}

/// Each wire file is in the table.
pub proof fn lemma_wire_file_id(w: WireSet, k: int)
    requires
        w.fits(),
        0 <= k < w.files.len(),
    ensures
        super::interner::names_path(
            w.table().paths,
            super::interner::path_index(w.table().paths, w.files[k].0) as int,
            w.files[k].0,
        ),
        w.file_grants()[k].spec_path() == super::interner::path_index(
            w.table().paths,
            w.files[k].0,
        ),
        w.file_grants()[k].spec_mode() == w.files[k].1,
{
    let mid = super::interner::with_paths(Seq::empty(), path_texts(w.files));
    super::interner::lemma_with_paths(Seq::empty(), path_texts(w.files));
    super::interner::lemma_with_paths(mid, path_texts(w.dirs));
    assert(super::interner::has_path(mid, path_texts(w.files)[k]));
    let j = choose|j: int| super::interner::names_path(mid, j, w.files[k].0);
    lemma_named_grows(mid, w.table().paths, j, w.files[k].0);
    super::interner::lemma_has_path_index(w.table(), w.files[k].0);
    w.file_grants()[k].lemma_of(
        super::interner::path_index(w.table().paths, w.files[k].0),
        w.files[k].1,
    );
}

/// The wire directory that a directory grant comes from.
pub proof fn lemma_wire_dir(w: WireSet, r: GrantSet, i: int) -> (k: int)
    requires
        w.fits(),
        w.built_as(r),
        0 <= i < r.dirs.len(),
    ensures
        0 <= k < w.dirs.len(),
        r.dirs[i] == w.dir_grants()[k],
        r.dirs[i].spec_root() < r.table.paths.len(),
        r.components(r.dirs[i].spec_root()) == path::components(w.dirs[k].0),
        r.dirs[i].spec_mode() == w.dirs[k].1,
{
    let g = r.dirs[i];
    assert(r.dirs.contains(g));
    to_multiset_contains(r.dirs, g);
    to_multiset_contains(w.dir_grants(), g);
    let k = choose|k: int| 0 <= k < w.dir_grants().len() && w.dir_grants()[k] == g;
    lemma_wire_dir_id(w, k);
    k
}

/// Each wire directory is in the table.
pub proof fn lemma_wire_dir_id(w: WireSet, k: int)
    requires
        w.fits(),
        0 <= k < w.dirs.len(),
    ensures
        super::interner::names_path(
            w.table().paths,
            super::interner::path_index(w.table().paths, w.dirs[k].0) as int,
            w.dirs[k].0,
        ),
        w.dir_grants()[k].spec_root() == super::interner::path_index(
            w.table().paths,
            w.dirs[k].0,
        ),
        w.dir_grants()[k].spec_mode() == w.dirs[k].1,
{
    let mid = super::interner::with_paths(Seq::empty(), path_texts(w.files));
    super::interner::lemma_with_paths(mid, path_texts(w.dirs));
    assert(super::interner::has_path(w.table().paths, path_texts(w.dirs)[k]));
    super::interner::lemma_has_path_index(w.table(), w.dirs[k].0);
    w.dir_grants()[k].lemma_of(
        super::interner::path_index(w.table().paths, w.dirs[k].0),
        w.dirs[k].1,
    );
}

/// The wire host that a host grant comes from.
pub proof fn lemma_wire_host(w: WireSet, r: GrantSet, i: int) -> (k: int)
    requires
        w.fits(),
        w.built_as(r),
        0 <= i < r.hosts.len(),
    ensures
        0 <= k < w.hosts.len(),
        r.hosts[i] == w.host_grants()[k],
        r.hosts[i].spec_authority() < r.table.authorities.len(),
        r.authority(r.hosts[i].spec_authority()) == w.hosts[k].0,
        r.hosts[i].spec_methods() == super::grants::mask_of(w.hosts[k].1),
{
    let g = r.hosts[i];
    assert(r.hosts.contains(g));
    to_multiset_contains(r.hosts, g);
    to_multiset_contains(w.host_grants(), g);
    let k = choose|k: int| 0 <= k < w.host_grants().len() && w.host_grants()[k] == g;
    lemma_wire_host_id(w, k);
    k
}

/// Each wire authority is in the table.
pub proof fn lemma_wire_host_id(w: WireSet, k: int)
    requires
        w.fits(),
        0 <= k < w.hosts.len(),
    ensures
        super::interner::authority_index(w.table().authorities, w.hosts[k].0)
            < w.table().authorities.len(),
        w.table().authorities[super::interner::authority_index(
            w.table().authorities,
            w.hosts[k].0,
        ) as int] == w.hosts[k].0,
        w.host_grants()[k].spec_authority() == super::interner::authority_index(
            w.table().authorities,
            w.hosts[k].0,
        ),
        w.host_grants()[k].spec_methods() == super::grants::mask_of(w.hosts[k].1),
{
    super::interner::lemma_with_authorities(Seq::empty(), w.names());
    assert(w.table().authorities.contains(w.names()[k]));
    super::interner::lemma_has_authority_index(w.table(), w.hosts[k].0);
    w.host_grants()[k].lemma_of(
        super::interner::authority_index(w.table().authorities, w.hosts[k].0),
        super::grants::mask_of(w.hosts[k].1),
    );
}

/// A settled set whose paths are canonical, whose authorities are sound
/// and whose masks hold methods only: one that the wire can carry.
pub open spec fn transportable(s: GrantSet) -> bool {
    &&& super::laws::settled(s)
    &&& s.known_bits()
    &&& forall|i: int|
        0 <= i < s.files.len() ==> path::is_canonical(
            s.table.paths[(#[trigger] s.files[i]).spec_path() as int],
        )
    &&& forall|i: int|
        0 <= i < s.dirs.len() ==> path::is_canonical(
            s.table.paths[(#[trigger] s.dirs[i]).spec_root() as int],
        )
    &&& forall|i: int|
        0 <= i < s.hosts.len() ==> super::interner::is_authority(
            s.table.authorities[(#[trigger] s.hosts[i]).spec_authority() as int],
        )
    &&& s.known_methods()
}

/// No path and no authority is listed twice.
pub open spec fn lists_once(w: WireSet) -> bool {
    &&& forall|i: int, j: int|
        0 <= i < w.files.len() && 0 <= j < w.files.len() && path::components(
            (#[trigger] w.files[i]).0,
        ) == path::components((#[trigger] w.files[j]).0) ==> i == j
    &&& forall|i: int, j: int|
        0 <= i < w.dirs.len() && 0 <= j < w.dirs.len() && path::components(
            (#[trigger] w.dirs[i]).0,
        ) == path::components((#[trigger] w.dirs[j]).0) ==> i == j
    &&& forall|i: int, j: int|
        0 <= i < w.hosts.len() && 0 <= j < w.hosts.len() && (#[trigger] w.hosts[i]).0 == (
        #[trigger] w.hosts[j]).0 ==> i == j
}

/// What is listed once gets an id of its own.
pub proof fn lemma_wire_keys(w: WireSet)
    requires
        lists_once(w),
        w.fits(),
    ensures
        !super::sort::has_repeat(super::sort::key_bag(w.file_grants())),
        !super::sort::has_repeat(super::sort::key_bag(w.dir_grants())),
        !super::sort::has_repeat(super::sort::key_bag(w.host_grants())),
{
    let fk = super::sort::keys(w.file_grants());
    assert forall|i: int, j: int| 0 <= i < fk.len() && 0 <= j < fk.len() && i != j implies fk[i]
        != fk[j] by {
        lemma_wire_file_id(w, i);
        lemma_wire_file_id(w, j);
        if fk[i] == fk[j] {
            assert(path::components(w.files[i].0) == path::components(w.files[j].0));
        }
    }
    super::sort::lemma_unique_no_repeat(fk);
    let dk = super::sort::keys(w.dir_grants());
    assert forall|i: int, j: int| 0 <= i < dk.len() && 0 <= j < dk.len() && i != j implies dk[i]
        != dk[j] by {
        lemma_wire_dir_id(w, i);
        lemma_wire_dir_id(w, j);
        if dk[i] == dk[j] {
            assert(path::components(w.dirs[i].0) == path::components(w.dirs[j].0));
        }
    }
    super::sort::lemma_unique_no_repeat(dk);
    let hk = super::sort::keys(w.host_grants());
    assert forall|i: int, j: int| 0 <= i < hk.len() && 0 <= j < hk.len() && i != j implies hk[i]
        != hk[j] by {
        lemma_wire_host_id(w, i);
        lemma_wire_host_id(w, j);
        if hk[i] == hk[j] {
            assert(w.hosts[i].0 == w.hosts[j].0);
        }
    }
    super::sort::lemma_unique_no_repeat(hk);
}

/// A set lists no path and no authority twice.
pub proof fn lemma_lists_once(s: GrantSet)
    requires
        s.ordered(),
        s.resolves(),
        super::interner::distinct(s.table),
    ensures
        lists_once(wire_of(s)),
{
    let w = wire_of(s);
    assert forall|i: int, j: int|
        0 <= i < w.files.len() && 0 <= j < w.files.len() && path::components(
            (#[trigger] w.files[i]).0,
        ) == path::components((#[trigger] w.files[j]).0) implies i == j by {
        lemma_distinct_files(s, i, j);
    }
    assert forall|i: int, j: int|
        0 <= i < w.dirs.len() && 0 <= j < w.dirs.len() && path::components(
            (#[trigger] w.dirs[i]).0,
        ) == path::components((#[trigger] w.dirs[j]).0) implies i == j by {
        lemma_distinct_dirs(s, i, j);
    }
    assert forall|i: int, j: int|
        0 <= i < w.hosts.len() && 0 <= j < w.hosts.len() && (#[trigger] w.hosts[i]).0 == (
        #[trigger] w.hosts[j]).0 implies i == j by {
        lemma_distinct_hosts(s, i, j);
    }
}

proof fn lemma_distinct_files(s: GrantSet, i: int, j: int)
    requires
        s.ordered(),
        s.resolves(),
        super::interner::distinct(s.table),
        0 <= i < s.files.len(),
        0 <= j < s.files.len(),
        s.components(s.files[i].spec_path()) == s.components(s.files[j].spec_path()),
    ensures
        i == j,
{
    assert(path::components(s.table.paths[s.files[i].spec_path() as int]) == path::components(
        s.table.paths[s.files[j].spec_path() as int],
    ));
    if i < j {
        assert(super::sort::keys(s.files)[i] == s.files[i].spec_path());
        assert(s.files[i].spec_path() < s.files[j].spec_path()) by {
            super::sort::lemma_ascending_pair(s.files, i, j);
        }
    } else if j < i {
        super::sort::lemma_ascending_pair(s.files, j, i);
    }
}

proof fn lemma_distinct_dirs(s: GrantSet, i: int, j: int)
    requires
        s.ordered(),
        s.resolves(),
        super::interner::distinct(s.table),
        0 <= i < s.dirs.len(),
        0 <= j < s.dirs.len(),
        s.components(s.dirs[i].spec_root()) == s.components(s.dirs[j].spec_root()),
    ensures
        i == j,
{
    assert(path::components(s.table.paths[s.dirs[i].spec_root() as int]) == path::components(
        s.table.paths[s.dirs[j].spec_root() as int],
    ));
    if i < j {
        super::sort::lemma_ascending_pair(s.dirs, i, j);
    } else if j < i {
        super::sort::lemma_ascending_pair(s.dirs, j, i);
    }
}

proof fn lemma_distinct_hosts(s: GrantSet, i: int, j: int)
    requires
        s.ordered(),
        s.resolves(),
        super::interner::distinct(s.table),
        0 <= i < s.hosts.len(),
        0 <= j < s.hosts.len(),
        s.authority(s.hosts[i].spec_authority()) == s.authority(s.hosts[j].spec_authority()),
    ensures
        i == j,
{
    assert(s.table.authorities[s.hosts[i].spec_authority() as int]
        == s.table.authorities[s.hosts[j].spec_authority() as int]);
    if i < j {
        super::sort::lemma_ascending_pair(s.hosts, i, j);
    } else if j < i {
        super::sort::lemma_ascending_pair(s.hosts, j, i);
    }
}

/// The wire form of a set is accepted, and what is read back holds the same
/// grants.
pub proof fn wire_round_trip(s: GrantSet, r: GrantSet)
    requires
        transportable(s),
        wire_of(s).fits(),
    ensures
        wire_of(s).fault() is None,
        wire_of(s).accepted_as(r) ==> super::laws::equivalent(s, r),
{
    let w = wire_of(s);
    lemma_no_bad_path(w.files);
    lemma_no_bad_path(w.dirs);
    lemma_no_bad_authority(w.hosts);
    lemma_lists_once(s);
    lemma_wire_keys(w);
    super::capability::interfaces_round_trip(s.bits);
    if w.accepted_as(r) {
        assert forall|cs: Seq<Seq<u8>>, m: FileMode| #[trigger] super::laws::has_file(s, cs, m)
            == super::laws::has_file(r, cs, m) by {
            if super::laws::has_file(s, cs, m) {
                let j = choose|j: int|
                    0 <= j < s.files.len() && s.components((#[trigger] s.files[j]).spec_path())
                        == cs && s.files[j].spec_mode() == m;
                lemma_wire_file_id(w, j);
                let g = w.file_grants()[j];
                assert(w.file_grants().contains(g));
                to_multiset_contains(w.file_grants(), g);
                to_multiset_contains(r.files, g);
                let k = choose|k: int| 0 <= k < r.files.len() && r.files[k] == g;
                assert(r.components(r.files[k].spec_path()) == cs);
            }
            if super::laws::has_file(r, cs, m) {
                let j = choose|j: int|
                    0 <= j < r.files.len() && r.components((#[trigger] r.files[j]).spec_path())
                        == cs && r.files[j].spec_mode() == m;
                let k = lemma_wire_file(w, r, j);
                assert(s.components(s.files[k].spec_path()) == cs);
            }
        }
        assert forall|cs: Seq<Seq<u8>>, m: FileMode| #[trigger] super::laws::has_dir(s, cs, m)
            == super::laws::has_dir(r, cs, m) by {
            if super::laws::has_dir(s, cs, m) {
                let j = choose|j: int|
                    0 <= j < s.dirs.len() && s.components((#[trigger] s.dirs[j]).spec_root()) == cs
                        && s.dirs[j].spec_mode() == m;
                lemma_wire_dir_id(w, j);
                let g = w.dir_grants()[j];
                assert(w.dir_grants().contains(g));
                to_multiset_contains(w.dir_grants(), g);
                to_multiset_contains(r.dirs, g);
                let k = choose|k: int| 0 <= k < r.dirs.len() && r.dirs[k] == g;
                assert(r.components(r.dirs[k].spec_root()) == cs);
            }
            if super::laws::has_dir(r, cs, m) {
                let j = choose|j: int|
                    0 <= j < r.dirs.len() && r.components((#[trigger] r.dirs[j]).spec_root()) == cs
                        && r.dirs[j].spec_mode() == m;
                let k = lemma_wire_dir(w, r, j);
                assert(s.components(s.dirs[k].spec_root()) == cs);
            }
        }
        assert forall|name: Seq<char>, m: u8| #[trigger] super::laws::has_host(s, name, m)
            == super::laws::has_host(r, name, m) by {
            if super::laws::has_host(s, name, m) {
                let j = choose|j: int|
                    0 <= j < s.hosts.len() && s.authority((#[trigger] s.hosts[j]).spec_authority())
                        == name && s.hosts[j].spec_methods() == m;
                lemma_wire_host_id(w, j);
                super::grants::mask_round_trip(m);
                let g = w.host_grants()[j];
                assert(w.host_grants().contains(g));
                to_multiset_contains(w.host_grants(), g);
                to_multiset_contains(r.hosts, g);
                let k = choose|k: int| 0 <= k < r.hosts.len() && r.hosts[k] == g;
                assert(r.authority(r.hosts[k].spec_authority()) == name);
            }
            if super::laws::has_host(r, name, m) {
                let j = choose|j: int|
                    0 <= j < r.hosts.len() && r.authority((#[trigger] r.hosts[j]).spec_authority())
                        == name && r.hosts[j].spec_methods() == m;
                let k = lemma_wire_host(w, r, j);
                super::grants::mask_round_trip(s.hosts[k].spec_methods());
                assert(s.authority(s.hosts[k].spec_authority()) == name);
            }
        }
    }
}

/// What the wire carries is accepted only if every path is canonical, every
/// authority is a lowercase `host:port`, and the grants make a set. The first
/// bad path is reported before the first bad authority, and files before
/// directories.
pub proof fn wire_sets_are_checked(w: WireSet)
    ensures
        w.fault() is None <==> {
            &&& forall|i: int|
                0 <= i < w.files.len() ==> path::is_canonical((#[trigger] w.files[i]).0)
            &&& forall|i: int| 0 <= i < w.dirs.len() ==> path::is_canonical((#[trigger] w.dirs[i]).0)
            &&& forall|i: int|
                0 <= i < w.hosts.len() ==> super::interner::is_authority((#[trigger] w.hosts[i]).0)
            &&& w.build_fault() is None
        },
        w.fault() matches Some(CapsFault::NonCanonicalPath(p)) ==> !path::is_canonical(p) && ((
        exists|i: int| 0 <= i < w.files.len() && (#[trigger] w.files[i]).0 == p) || (exists|i: int|
            0 <= i < w.dirs.len() && (#[trigger] w.dirs[i]).0 == p)),
{
    lemma_no_bad_path(w.files);
    lemma_no_bad_path(w.dirs);
    lemma_no_bad_authority(w.hosts);
    lemma_bad_path_is_first(w.files);
    lemma_bad_path_is_first(w.dirs);
    if first_bad_path(w.files) is Some {
        let k = choose|k: int|
            0 <= k < w.files.len() && (#[trigger] w.files[k]).0 == first_bad_path(w.files)->0;
        assert(w.files[k].0 == first_bad_path(w.files)->0);
    } else if first_bad_path(w.dirs) is Some {
        let k = choose|k: int|
            0 <= k < w.dirs.len() && (#[trigger] w.dirs[k]).0 == first_bad_path(w.dirs)->0;
        assert(w.dirs[k].0 == first_bad_path(w.dirs)->0);
    }
}

/// A path that is reported as bad is one of those given, and those before it
/// are not.
pub proof fn lemma_bad_path_is_first(ps: Seq<(Seq<u8>, FileMode)>)
    ensures
        first_bad_path(ps) matches Some(p) ==> !path::is_canonical(p) && exists|i: int|
            0 <= i < ps.len() && (#[trigger] ps[i]).0 == p && forall|j: int|
                0 <= j < i ==> path::is_canonical((#[trigger] ps[j]).0),
    decreases ps.len(),
{
    if ps.len() > 0 {
        let front = ps.drop_last();
        lemma_bad_path_is_first(front);
        lemma_no_bad_path(front);
        if first_bad_path(front) is Some {
            let p = first_bad_path(front)->0;
            let i = choose|i: int|
                0 <= i < front.len() && (#[trigger] front[i]).0 == p && forall|j: int|
                    0 <= j < i ==> path::is_canonical((#[trigger] front[j]).0);
            assert(ps[i].0 == p);
            assert forall|j: int| 0 <= j < i implies path::is_canonical((#[trigger] ps[j]).0) by {
                assert(front[j] == ps[j]);
            }
        } else if !path::is_canonical(ps.last().0) {
            assert(ps[ps.len() - 1].0 == ps.last().0);
            assert forall|j: int| 0 <= j < ps.len() - 1 implies path::is_canonical(
                (#[trigger] ps[j]).0,
            ) by {
                assert(front[j] == ps[j]);
            }
        }
    }
}

/// The wire form of a set lists its grants in their order: every path with its
/// mode, every authority with its methods.
pub proof fn wire_forms_list_every_grant(s: GrantSet)
    ensures
        ({
            let w = wire_of(s);
            &&& w.files.len() == s.files.len()
            &&& w.dirs.len() == s.dirs.len()
            &&& w.hosts.len() == s.hosts.len()
            &&& forall|i: int|
                0 <= i < s.files.len() ==> (#[trigger] w.files[i]) == (
                    s.table.paths[s.files[i].spec_path() as int],
                    s.files[i].spec_mode(),
                )
            &&& forall|i: int|
                0 <= i < s.dirs.len() ==> (#[trigger] w.dirs[i]) == (
                    s.table.paths[s.dirs[i].spec_root() as int],
                    s.dirs[i].spec_mode(),
                )
            &&& forall|i: int|
                0 <= i < s.hosts.len() ==> (#[trigger] w.hosts[i]).0
                    == s.table.authorities[s.hosts[i].spec_authority() as int]
            &&& forall|i: int|
                0 <= i < s.hosts.len() && s.hosts[i].spec_methods() < 64
                    ==> super::grants::mask_of((#[trigger] w.hosts[i]).1)
                    == s.hosts[i].spec_methods()
            &&& s.bits < 32 ==> super::capability::bits_of(w.interfaces) == s.bits
        }),
{
    let w = wire_of(s);
    assert forall|i: int| 0 <= i < s.hosts.len() && s.hosts[i].spec_methods() < 64 implies
        super::grants::mask_of((#[trigger] w.hosts[i]).1) == s.hosts[i].spec_methods() by {
        super::grants::mask_round_trip(s.hosts[i].spec_methods());
    }
    if s.bits < 32 {
        super::capability::interfaces_round_trip(s.bits);
    }
}

/// Where every path is canonical, an authority that is reported is the first
/// that is no lowercase `host:port`.
pub proof fn the_first_bad_authority_is_reported(w: WireSet)
    requires
        first_bad_path(w.files) is None,
        first_bad_path(w.dirs) is None,
        first_bad_authority(w.hosts) is Some,
    ensures
        ({
            let a = first_bad_authority(w.hosts)->0;
            &&& w.fault() == Some(CapsFault::NotInterned(a))
            &&& !super::interner::is_authority(a)
            &&& exists|i: int|
                0 <= i < w.hosts.len() && (#[trigger] w.hosts[i]).0 == a && forall|j: int|
                    0 <= j < i ==> super::interner::is_authority((#[trigger] w.hosts[j]).0)
        }),
{
    lemma_bad_authority_is_first(w.hosts);
}

proof fn lemma_bad_authority_is_first(hs: Seq<(Seq<char>, Seq<Method>)>)
    ensures
        first_bad_authority(hs) matches Some(a) ==> !super::interner::is_authority(a) && exists|i:
            int|
            0 <= i < hs.len() && (#[trigger] hs[i]).0 == a && forall|j: int|
                0 <= j < i ==> super::interner::is_authority((#[trigger] hs[j]).0),
    decreases hs.len(),
{
    if hs.len() > 0 {
        let front = hs.drop_last();
        lemma_bad_authority_is_first(front);
        lemma_no_bad_authority(front);
        if first_bad_authority(front) is Some {
            let a = first_bad_authority(front)->0;
            let i = choose|i: int|
                0 <= i < front.len() && (#[trigger] front[i]).0 == a && forall|j: int|
                    0 <= j < i ==> super::interner::is_authority((#[trigger] front[j]).0);
            assert(hs[i].0 == a);
            assert forall|j: int| 0 <= j < i implies super::interner::is_authority(
                (#[trigger] hs[j]).0,
            ) by {
                assert(front[j] == hs[j]);
            }
        } else if !super::interner::is_authority(hs.last().0) {
            assert(hs[hs.len() - 1].0 == hs.last().0);
            assert forall|j: int| 0 <= j < hs.len() - 1 implies super::interner::is_authority(
                (#[trigger] hs[j]).0,
            ) by {
                assert(front[j] == hs[j]);
            }
        }
    }
}

} // verus!
