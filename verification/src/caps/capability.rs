//! The capability set: checked construction, and its wire form.
use super::error::CapsFault;
use super::interner::InternTable;
use super::sort;
use super::{CapsError, DirGrant, FileGrant, HostGrant, Interface, Interner};
use crate::path;
use crate::text;
use vstd::prelude::*;
use vstd::seq_lib::*;

verus! {

/// The complete authority available to one sandbox for one invocation.
///
/// - `files`, `dirs` and `hosts` are sorted ascending by id, no id twice.
/// - If `Interface::Filesystem` is clear, `files` and `dirs` are empty.
/// - If `Interface::HttpOutbound` is clear, `hosts` is empty.
///
/// The sets form a lattice under `is_subset_of`. A set comes from
/// [`CapabilitySet::new`] or, from the wire form, through
/// [`CapabilitySet::try_from`].
#[derive(Debug)]
pub struct CapabilitySet {
    interfaces: u64,
    files: Vec<FileGrant>,
    dirs: Vec<DirGrant>,
    hosts: Vec<HostGrant>,
    interner: Interner,
}

/// What a [`CapabilitySet`] holds.
pub ghost struct GrantSet {
    pub bits: u64,
    pub files: Seq<FileGrant>,
    pub dirs: Seq<DirGrant>,
    pub hosts: Seq<HostGrant>,
    pub table: InternTable,
}

/// The interface bit is set.
pub open spec fn bit_set(bits: u64, i: Interface) -> bool {
    bits & i.spec_bit() != 0
}

/// The bits of the interfaces in `s`.
pub open spec fn bits_of(s: Seq<Interface>) -> u64
    decreases s.len(),
{
    if s.len() == 0 {
        0
    } else {
        bits_of(s.drop_last()) | s.last().spec_bit()
    }
}

/// `i` alone if its bit is set in `bits`.
pub open spec fn picked(bits: u64, i: Interface) -> Seq<Interface> {
    if bit_set(bits, i) {
        seq![i]
    } else {
        Seq::empty()
    }
}

/// The interfaces set in `bits`, in bit order.
pub open spec fn interfaces_of(bits: u64) -> Seq<Interface> {
    picked(bits, Interface::Stdio) + picked(bits, Interface::Clocks) + picked(
        bits,
        Interface::Random,
    ) + picked(bits, Interface::Filesystem) + picked(bits, Interface::HttpOutbound)
}

/// Why a set cannot be made of these parts; `None` if it can. Repeated ids
/// are reported before grants without their interface.
pub open spec fn construction_fault(
    bits: u64,
    files: Seq<FileGrant>,
    dirs: Seq<DirGrant>,
    hosts: Seq<HostGrant>,
) -> Option<CapsFault> {
    let f = sort::key_bag(files);
    let d = sort::key_bag(dirs);
    let h = sort::key_bag(hosts);
    if sort::has_repeat(f) {
        Some(CapsFault::Duplicate("path id "@ + text::decimal(sort::least_repeat(f) as nat)))
    } else if sort::has_repeat(d) {
        Some(CapsFault::Duplicate("dir id "@ + text::decimal(sort::least_repeat(d) as nat)))
    } else if sort::has_repeat(h) {
        Some(CapsFault::Duplicate("authority id "@ + text::decimal(sort::least_repeat(h) as nat)))
    } else if !bit_set(bits, Interface::Filesystem) && (files.len() > 0 || dirs.len() > 0) {
        Some(CapsFault::OrphanGrant(Interface::Filesystem))
    } else if !bit_set(bits, Interface::HttpOutbound) && hosts.len() > 0 {
        Some(CapsFault::OrphanGrant(Interface::HttpOutbound))
    } else {
        None
    }
}

impl GrantSet {
    /// Sorted by id without repeats, and no grant without its interface.
    pub open spec fn ordered(self) -> bool {
        &&& sort::ascending(self.files)
        &&& sort::ascending(self.dirs)
        &&& sort::ascending(self.hosts)
        &&& bit_set(self.bits, Interface::Filesystem) || (self.files.len() == 0 && self.dirs.len()
            == 0)
        &&& bit_set(self.bits, Interface::HttpOutbound) || self.hosts.len() == 0
    }

    /// Every id is an id of the set's own table.
    pub open spec fn resolves(self) -> bool {
        &&& forall|i: int|
            0 <= i < self.files.len() ==> (#[trigger] self.files[i]).spec_path()
                < self.table.paths.len()
        &&& forall|i: int|
            0 <= i < self.dirs.len() ==> (#[trigger] self.dirs[i]).spec_root()
                < self.table.paths.len()
        &&& forall|i: int|
            0 <= i < self.hosts.len() ==> (#[trigger] self.hosts[i]).spec_authority()
                < self.table.authorities.len()
    }

    /// The components of the path with this id.
    pub open spec fn components(self, id: u32) -> Seq<Seq<u8>> {
        path::components(self.table.paths[id as int])
    }

    /// The authority with this id.
    pub open spec fn authority(self, id: u32) -> Seq<char> {
        self.table.authorities[id as int]
    }

    /// The texts of the granted file paths, in order.
    pub open spec fn file_paths(self) -> Seq<Seq<u8>> {
        Seq::new(self.files.len(), |i: int| self.table.paths[self.files[i].spec_path() as int])
    }

    /// The texts of the granted directory roots, in order.
    pub open spec fn dir_paths(self) -> Seq<Seq<u8>> {
        Seq::new(self.dirs.len(), |i: int| self.table.paths[self.dirs[i].spec_root() as int])
    }

    /// The texts of the granted authorities, in order.
    pub open spec fn host_names(self) -> Seq<Seq<char>> {
        Seq::new(
            self.hosts.len(),
            |i: int| self.table.authorities[self.hosts[i].spec_authority() as int],
        )
    }

    /// Masks hold no bit beyond the six methods.
    pub open spec fn known_methods(self) -> bool {
        forall|i: int| 0 <= i < self.hosts.len() ==> (#[trigger] self.hosts[i]).spec_methods() < 64
    }

    /// Only the five interface bits.
    pub open spec fn known_bits(self) -> bool {
        self.bits < 32
    }
}

impl View for CapabilitySet {
    type V = GrantSet;

    closed spec fn view(&self) -> GrantSet {
        GrantSet {
            bits: self.interfaces,
            files: self.files@,
            dirs: self.dirs@,
            hosts: self.hosts@,
            table: self.interner@,
        }
    }
}

/// The same grants: equal interface bits, and position by position the same
/// path or authority with the same mode or methods.
pub open spec fn same_grants(a: GrantSet, b: GrantSet) -> bool {
    &&& a.bits == b.bits
    &&& a.files.len() == b.files.len()
    &&& a.dirs.len() == b.dirs.len()
    &&& a.hosts.len() == b.hosts.len()
    &&& forall|i: int| 0 <= i < a.files.len() ==> same_file(a, #[trigger] a.files[i], b, b.files[i])
    &&& forall|i: int| 0 <= i < a.dirs.len() ==> same_dir(a, #[trigger] a.dirs[i], b, b.dirs[i])
    &&& forall|i: int| 0 <= i < a.hosts.len() ==> same_host(a, #[trigger] a.hosts[i], b, b.hosts[i])
}

/// Equal interface bits and equally many grants.
pub open spec fn alike(a: GrantSet, b: GrantSet) -> bool {
    &&& a.bits == b.bits
    &&& a.files.len() == b.files.len()
    &&& a.dirs.len() == b.dirs.len()
    &&& a.hosts.len() == b.hosts.len()
}

/// The files before `n` are the same.
pub open spec fn files_agree(a: GrantSet, b: GrantSet, n: int) -> bool {
    forall|j: int| 0 <= j < n ==> same_file(a, #[trigger] a.files[j], b, b.files[j])
}

/// The directories before `n` are the same.
pub open spec fn dirs_agree(a: GrantSet, b: GrantSet, n: int) -> bool {
    forall|j: int| 0 <= j < n ==> same_dir(a, #[trigger] a.dirs[j], b, b.dirs[j])
}

/// The hosts before `n` are the same.
pub open spec fn hosts_agree(a: GrantSet, b: GrantSet, n: int) -> bool {
    forall|j: int| 0 <= j < n ==> same_host(a, #[trigger] a.hosts[j], b, b.hosts[j])
}

/// Files resolve as far as they are compared.
pub open spec fn files_decidable(a: GrantSet, b: GrantSet) -> bool {
    forall|i: int|
        0 <= i < a.files.len() && files_agree(a, b, i) && (#[trigger] a.files[i]).spec_mode()
            == b.files[i].spec_mode() ==> a.files[i].spec_path() < a.table.paths.len()
            && b.files[i].spec_path() < b.table.paths.len()
}

/// Directories resolve as far as they are compared.
pub open spec fn dirs_decidable(a: GrantSet, b: GrantSet) -> bool {
    forall|i: int|
        0 <= i < a.dirs.len() && dirs_agree(a, b, i) && (#[trigger] a.dirs[i]).spec_mode()
            == b.dirs[i].spec_mode() ==> a.dirs[i].spec_root() < a.table.paths.len()
            && b.dirs[i].spec_root() < b.table.paths.len()
}

/// Hosts resolve as far as they are compared.
pub open spec fn hosts_decidable(a: GrantSet, b: GrantSet) -> bool {
    forall|i: int|
        0 <= i < a.hosts.len() && hosts_agree(a, b, i) && (#[trigger] a.hosts[i]).spec_methods()
            == b.hosts[i].spec_methods() ==> a.hosts[i].spec_authority()
            < a.table.authorities.len() && b.hosts[i].spec_authority() < b.table.authorities.len()
}

/// Every id that is looked up before the first difference is found is one of
/// its set's table. Sets whose ids all resolve are decidable.
pub open spec fn decidable(a: GrantSet, b: GrantSet) -> bool {
    alike(a, b) ==> {
        &&& files_decidable(a, b)
        &&& files_agree(a, b, a.files.len() as int) ==> dirs_decidable(a, b)
        &&& files_agree(a, b, a.files.len() as int) && dirs_agree(a, b, a.dirs.len() as int)
            ==> hosts_decidable(a, b)
    }
}

/// The same path and mode.
pub open spec fn same_file(a: GrantSet, x: FileGrant, b: GrantSet, y: FileGrant) -> bool {
    x.spec_mode() == y.spec_mode() && a.components(x.spec_path()) == b.components(y.spec_path())
}

/// The same root and mode.
pub open spec fn same_dir(a: GrantSet, x: DirGrant, b: GrantSet, y: DirGrant) -> bool {
    x.spec_mode() == y.spec_mode() && a.components(x.spec_root()) == b.components(y.spec_root())
}

/// The same authority and methods.
pub open spec fn same_host(a: GrantSet, x: HostGrant, b: GrantSet, y: HostGrant) -> bool {
    x.spec_methods() == y.spec_methods() && a.authority(x.spec_authority()) == b.authority(
        y.spec_authority(),
    )
}

/// Bits of interfaces never reach beyond the five.
pub proof fn lemma_bits_bound(s: Seq<Interface>)
    ensures
        bits_of(s) < 32,
    decreases s.len(),
{
    if s.len() > 0 {
        lemma_bits_bound(s.drop_last());
        let a = bits_of(s.drop_last());
        let b = s.last().spec_bit();
        assert(a | b < 32) by (bit_vector)
            requires
                a < 32,
                b < 32,
        ;
    }
}

/// An interface is granted exactly when it is listed.
pub proof fn bits_are_membership(s: Seq<Interface>, i: Interface)
    ensures
        bit_set(bits_of(s), i) <==> s.contains(i),
    decreases s.len(),
{
    if s.len() == 0 {
        let b = i.spec_bit();
        assert(0u64 & b == 0) by (bit_vector);
    } else {
        bits_are_membership(s.drop_last(), i);
        let a = bits_of(s.drop_last());
        let l = s.last().spec_bit();
        let b = i.spec_bit();
        assert((a | l) & b != 0 <==> (a & b != 0 || l & b != 0)) by (bit_vector);
        assert(l & b != 0 <==> l == b) by (bit_vector)
            requires
                l == 1 || l == 2 || l == 4 || l == 8 || l == 16,
                b == 1 || b == 2 || b == 4 || b == 8 || b == 16,
        ;
        if s.contains(i) {
            let k = choose|k: int| 0 <= k < s.len() && s[k] == i;
            if k < s.len() - 1 {
                assert(s.drop_last()[k] == i);
            }
        }
        if s.drop_last().contains(i) {
            let k = choose|k: int| 0 <= k < s.drop_last().len() && s.drop_last()[k] == i;
            assert(s[k] == i);
        }
        if s.last() == i {
            assert(s[s.len() - 1] == i);
        }
    }
}

proof fn lemma_bits_append(s: Seq<Interface>, bits: u64, i: Interface)
    ensures
        bits_of(s + picked(bits, i)) == bits_of(s) | (bits & i.spec_bit()),
{
    let b = i.spec_bit();
    let a = bits_of(s);
    if bits & b != 0 {
        assert(s + picked(bits, i) =~= s.push(i));
        assert(s.push(i).drop_last() =~= s);
        assert(bits & b == b) by (bit_vector)
            requires
                bits & b != 0,
                b == 1 || b == 2 || b == 4 || b == 8 || b == 16,
        ;
    } else {
        assert(s + picked(bits, i) =~= s);
        assert(a | (bits & b) == a) by (bit_vector)
            requires
                bits & b == 0,
        ;
    }
}

/// The listed interfaces give the bits back.
pub proof fn interfaces_round_trip(bits: u64)
    requires
        bits < 32,
    ensures
        bits_of(interfaces_of(bits)) == bits,
{
    let e = Seq::<Interface>::empty();
    let s1 = picked(bits, Interface::Stdio);
    let s2 = s1 + picked(bits, Interface::Clocks);
    let s3 = s2 + picked(bits, Interface::Random);
    let s4 = s3 + picked(bits, Interface::Filesystem);
    assert(e + s1 =~= s1);
    lemma_bits_append(e, bits, Interface::Stdio);
    lemma_bits_append(s1, bits, Interface::Clocks);
    lemma_bits_append(s2, bits, Interface::Random);
    lemma_bits_append(s3, bits, Interface::Filesystem);
    lemma_bits_append(s4, bits, Interface::HttpOutbound);
    assert(((((0u64 | (bits & 1)) | (bits & 2)) | (bits & 4)) | (bits & 8)) | (bits & 16) == bits)
        by (bit_vector)
        requires
            bits < 32,
    ;
}

fn push_picked(out: &mut Vec<Interface>, bits: u64, i: Interface)
    ensures
        final(out)@ == old(out)@ + picked(bits, i),
{
    if bits & i.bit() != 0 {
        out.push(i);
    }
    assert(out@ =~= old(out)@ + picked(bits, i));
}

/// The interfaces set in `bits`, in bit order.
pub fn list_interfaces(bits: u64) -> (r: Vec<Interface>)
    ensures
        r@ == interfaces_of(bits),
{
    let mut out: Vec<Interface> = Vec::new();
    push_picked(&mut out, bits, Interface::Stdio);
    push_picked(&mut out, bits, Interface::Clocks);
    push_picked(&mut out, bits, Interface::Random);
    push_picked(&mut out, bits, Interface::Filesystem);
    push_picked(&mut out, bits, Interface::HttpOutbound);
    assert(out@ =~= interfaces_of(bits));
    out
}

fn duplicate(what: &str, id: u32) -> (r: CapsError)
    ensures
        r@ == CapsFault::Duplicate(what@ + text::decimal(id as nat)),
{
    let mut s = String::from_str(what);
    text::push_decimal(&mut s, id as u64);
    CapsError::Duplicate(s)
}

fn clone_grants<T: sort::Ranked>(v: &Vec<T>) -> (r: Vec<T>)
    ensures
        r@ == v@,
{
    let mut out: Vec<T> = Vec::new();
    let mut i: usize = 0;
    while i < v.len()
        invariant
            0 <= i <= v.len(),
            out@ == v@.take(i as int),
        decreases v.len() - i,
    {
        out.push(v[i]);
        assert(v@.take(i as int + 1) =~= v@.take(i as int).push(v@[i as int]));
        i += 1;
    }
    assert(v@.take(i as int) =~= v@);
    out
}

fn is_ascending<T: sort::Ranked>(v: &Vec<T>) -> (r: bool)
    ensures
        r == sort::ascending(v@),
{
    let mut i: usize = 1;
    while i < v.len()
        invariant
            1 <= i,
            v.len() > 0 ==> i <= v.len(),
            forall|a: int, b: int|
                0 <= a < b < i && b < v@.len() ==> (#[trigger] v@[a]).key() < (#[trigger] v@[b]).key(),
        decreases v.len() - i,
    {
        let k: u32 = v[i - 1].get_key();
        if !(k < v[i].get_key()) {
            return false;
        }
        i += 1;
    }
    true
}

/// Every mask is one of methods.
fn masks_known(hosts: &Vec<HostGrant>)
    ensures
        forall|i: int| 0 <= i < hosts@.len() ==> (#[trigger] hosts@[i]).spec_methods() < 64,
{
    let mut i: usize = 0;
    while i < hosts.len()
        invariant
            0 <= i <= hosts.len(),
            forall|j: int| 0 <= j < i ==> (#[trigger] hosts@[j]).spec_methods() < 64,
        decreases hosts.len() - i,
    {
        let _ = hosts[i].methods();
        i += 1;
    }
}

impl CapabilitySet {
    /// The set keeps its order and scoping, and its table is sound.
    pub closed spec fn wf(&self) -> bool {
        self@.ordered() && self@.known_bits() && self@.known_methods() && self.interner.wf()
    }

    /// What [`CapabilitySet::wf`] says of the grants and the table.
    pub proof fn lemma_wf(&self)
        requires
            self.wf(),
        ensures
            self@.ordered(),
            self@.known_bits(),
            self@.known_methods(),
            super::interner::distinct(self@.table),
            self@.table.paths.len() <= super::interner::id_space(),
            self@.table.authorities.len() <= super::interner::id_space(),
            self@.table.closed_upward(),
    {
        self.interner.lemma_wf();
    }

    /// The set with no interfaces and no grants.
    pub open spec fn nothing() -> GrantSet {
        GrantSet {
            bits: 0,
            files: Seq::empty(),
            dirs: Seq::empty(),
            hosts: Seq::empty(),
            table: InternTable::nothing(),
        }
    }

    /// The empty set: no interfaces, no grants. Bottom of the lattice.
    #[must_use]
    pub fn empty() -> (r: CapabilitySet)
        ensures
            r.wf(),
            r@ == Self::nothing(),
    {
        let r = CapabilitySet {
            interfaces: 0,
            files: Vec::new(),
            dirs: Vec::new(),
            hosts: Vec::new(),
            interner: Interner::empty(),
        };
        assert(r@.files =~= Seq::<FileGrant>::empty());
        r
    }

    /// Validates invariants, sorts, and returns the set. Path checks run when
    /// grants are built from the wire form; here ids and interfaces are
    /// checked.
    pub fn new(
        interfaces: &[Interface],
        files: Vec<FileGrant>,
        dirs: Vec<DirGrant>,
        hosts: Vec<HostGrant>,
    ) -> (r: Result<CapabilitySet, CapsError>)
        ensures
            match r {
                Ok(set) => {
                    &&& construction_fault(bits_of(interfaces@), files@, dirs@, hosts@) is None
                    &&& set.wf()
                    &&& set@.bits == bits_of(interfaces@)
                    &&& set@.files.to_multiset() == files@.to_multiset()
                    &&& set@.dirs.to_multiset() == dirs@.to_multiset()
                    &&& set@.hosts.to_multiset() == hosts@.to_multiset()
                    &&& set@.table == InternTable::nothing()
                },
                Err(e) => construction_fault(bits_of(interfaces@), files@, dirs@, hosts@) == Some(
                    e@,
                ),
            },
    {
        let mut bits: u64 = 0;
        let mut i: usize = 0;
        assert(interfaces@.take(0) =~= Seq::<Interface>::empty());
        while i < interfaces.len()
            invariant
                0 <= i <= interfaces.len(),
                bits == bits_of(interfaces@.take(i as int)),
            decreases interfaces.len() - i,
        {
            assert(interfaces@.take(i as int + 1).drop_last() =~= interfaces@.take(i as int));
            bits = bits | interfaces[i].bit();
            i += 1;
        }
        assert(interfaces@.take(i as int) =~= interfaces@);
        let sorted_files = sort::sort_by_rank(&files);
        let sorted_dirs = sort::sort_by_rank(&dirs);
        let sorted_hosts = sort::sort_by_rank(&hosts);
        masks_known(&sorted_hosts);
        proof {
            lemma_bits_bound(interfaces@);
            to_multiset_len(files@);
            to_multiset_len(dirs@);
            to_multiset_len(hosts@);
            to_multiset_len(sorted_files@);
            to_multiset_len(sorted_dirs@);
            to_multiset_len(sorted_hosts@);
        }
        match sort::find_repeat(&sorted_files) {
            Some(id) => {
                return Err(duplicate("path id ", id));
            },
            None => {},
        }
        match sort::find_repeat(&sorted_dirs) {
            Some(id) => {
                return Err(duplicate("dir id ", id));
            },
            None => {},
        }
        match sort::find_repeat(&sorted_hosts) {
            Some(id) => {
                return Err(duplicate("authority id ", id));
            },
            None => {},
        }
        let has_fs = bits & Interface::Filesystem.bit() != 0;
        let has_http = bits & Interface::HttpOutbound.bit() != 0;
        if !has_fs && (sorted_files.len() > 0 || sorted_dirs.len() > 0) {
            return Err(CapsError::OrphanGrant(Interface::Filesystem));
        }
        if !has_http && sorted_hosts.len() > 0 {
            return Err(CapsError::OrphanGrant(Interface::HttpOutbound));
        }
        Ok(
            CapabilitySet {
                interfaces: bits,
                files: sorted_files,
                dirs: sorted_dirs,
                hosts: sorted_hosts,
                interner: Interner::empty(),
            },
        )
    }

    /// Attach a snapshot interner used to resolve ids on serialize / equality.
    #[must_use]
    pub fn with_interner(self, interner: Interner) -> (r: CapabilitySet)
        requires
            self.wf(),
            interner.wf(),
        ensures
            r.wf(),
            r@ == (GrantSet { table: interner@, ..self@ }),
    {
        CapabilitySet {
            interfaces: self.interfaces,
            files: self.files,
            dirs: self.dirs,
            hosts: self.hosts,
            interner,
        }
    }

    /// Snapshot interner owned by this set (empty unless built from wire or
    /// bound via [`Self::with_interner`]).
    #[must_use]
    pub fn interner(&self) -> (r: &Interner)
        requires
            self.wf(),
        ensures
            r.wf(),
            r@ == self@.table,
    {
        &self.interner
    }

    /// Internal interfaces bitset.
    #[must_use]
    pub fn interfaces_bits(&self) -> (r: u64)
        ensures
            r == self@.bits,
    {
        self.interfaces
    }

    /// Sorted file grants.
    #[must_use]
    pub fn files(&self) -> (r: &[FileGrant])
        ensures
            r@ == self@.files,
    {
        self.files.as_slice()
    }

    /// Sorted directory grants.
    #[must_use]
    pub fn dirs(&self) -> (r: &[DirGrant])
        ensures
            r@ == self@.dirs,
    {
        self.dirs.as_slice()
    }

    /// Sorted host grants.
    #[must_use]
    pub fn hosts(&self) -> (r: &[HostGrant])
        ensures
            r@ == self@.hosts,
    {
        self.hosts.as_slice()
    }

    /// True if the bit for `i` is set.
    #[must_use]
    pub fn has(&self, i: Interface) -> (r: bool)
        ensures
            r == bit_set(self@.bits, i),
    {
        self.interfaces & i.bit() != 0
    }

    /// Whether the grants are sorted without repeats and none lacks its
    /// interface.
    pub fn invariants_hold(&self) -> (r: bool)
        ensures
            r == self@.ordered(),
    {
        let has_fs = self.interfaces & Interface::Filesystem.bit() != 0;
        let has_http = self.interfaces & Interface::HttpOutbound.bit() != 0;
        is_ascending(&self.files) && is_ascending(&self.dirs) && is_ascending(&self.hosts) && (has_fs
            || (self.files.len() == 0 && self.dirs.len() == 0)) && (has_http || self.hosts.len()
            == 0)
    }

    /// Whether every id is one of the set's own table.
    #[must_use]
    pub fn ids_resolve(&self) -> (r: bool)
        ensures
            r == self@.resolves(),
    {
        let mut i: usize = 0;
        while i < self.files.len()
            invariant
                0 <= i <= self.files.len(),
                forall|j: int|
                    0 <= j < i ==> (#[trigger] self@.files[j]).spec_path()
                        < self@.table.paths.len(),
            decreases self.files.len() - i,
        {
            assert(self@.files[i as int] == self.files@[i as int]);
            if !self.interner.knows_path(self.files[i].path()) {
                return false;
            }
            i += 1;
        }
        let mut k: usize = 0;
        while k < self.dirs.len()
            invariant
                0 <= k <= self.dirs.len(),
                forall|j: int|
                    0 <= j < k ==> (#[trigger] self@.dirs[j]).spec_root() < self@.table.paths.len(),
            decreases self.dirs.len() - k,
        {
            assert(self@.dirs[k as int] == self.dirs@[k as int]);
            if !self.interner.knows_path(self.dirs[k].root()) {
                return false;
            }
            k += 1;
        }
        let mut n: usize = 0;
        while n < self.hosts.len()
            invariant
                0 <= n <= self.hosts.len(),
                forall|j: int|
                    0 <= j < n ==> (#[trigger] self@.hosts[j]).spec_authority()
                        < self@.table.authorities.len(),
            decreases self.hosts.len() - n,
        {
            assert(self@.hosts[n as int] == self.hosts@[n as int]);
            if !self.interner.knows_authority(self.hosts[n].authority()) {
                return false;
            }
            n += 1;
        }
        true
    }

    /// Whether both sets hold the same grants, position by position, with ids
    /// resolved against each set's own table.
    pub fn eq(&self, other: &CapabilitySet) -> (r: bool)
        requires
            self.wf(),
            other.wf(),
            decidable(self@, other@),
        ensures
            r == same_grants(self@, other@),
    {
        if self.interfaces != other.interfaces {
            return false;
        }
        if self.files.len() != other.files.len() || self.dirs.len() != other.dirs.len()
            || self.hosts.len() != other.hosts.len() {
            return false;
        }
        let mut i: usize = 0;
        while i < self.files.len()
            invariant
                self.wf(),
                other.wf(),
                alike(self@, other@),
                files_decidable(self@, other@),
                0 <= i <= self.files.len(),
                forall|j: int|
                    0 <= j < i ==> same_file(
                        self@,
                        #[trigger] self@.files[j],
                        other@,
                        other@.files[j],
                    ),
            decreases self.files.len() - i,
        {
            let a = self.files[i];
            let b = other.files[i];
            assert(a == self@.files[i as int] && b == other@.files[i as int]);
            if a.mode() != b.mode() {
                return false;
            }
            if !path::same_path(self.interner.path(a.path()), other.interner.path(b.path())) {
                return false;
            }
            i += 1;
        }
        let mut i: usize = 0;
        while i < self.dirs.len()
            invariant
                self.wf(),
                other.wf(),
                alike(self@, other@),
                dirs_decidable(self@, other@),
                0 <= i <= self.dirs.len(),
                forall|j: int|
                    0 <= j < i ==> same_dir(
                        self@,
                        #[trigger] self@.dirs[j],
                        other@,
                        other@.dirs[j],
                    ),
            decreases self.dirs.len() - i,
        {
            let a = self.dirs[i];
            let b = other.dirs[i];
            assert(a == self@.dirs[i as int] && b == other@.dirs[i as int]);
            if a.mode() != b.mode() {
                return false;
            }
            if !path::same_path(self.interner.path(a.root()), other.interner.path(b.root())) {
                return false;
            }
            i += 1;
        }
        let mut i: usize = 0;
        while i < self.hosts.len()
            invariant
                self.wf(),
                other.wf(),
                alike(self@, other@),
                hosts_decidable(self@, other@),
                0 <= i <= self.hosts.len(),
                forall|j: int|
                    0 <= j < i ==> same_host(
                        self@,
                        #[trigger] self@.hosts[j],
                        other@,
                        other@.hosts[j],
                    ),
            decreases self.hosts.len() - i,
        {
            let a = self.hosts[i];
            let b = other.hosts[i];
            assert(a == self@.hosts[i as int] && b == other@.hosts[i as int]);
            if a.methods().bits() != b.methods().bits() {
                return false;
            }
            if !text::str_eq(
                self.interner.authority(a.authority()),
                other.interner.authority(b.authority()),
            ) {
                return false;
            }
            i += 1;
        }
        true
    }
}

impl Clone for CapabilitySet {
    fn clone(&self) -> (r: CapabilitySet)
        ensures
            r@ == self@,
            r.wf() == self.wf(),
    {
        CapabilitySet {
            interfaces: self.interfaces,
            files: clone_grants(&self.files),
            dirs: clone_grants(&self.dirs),
            hosts: clone_grants(&self.hosts),
            interner: self.interner.clone(),
        }
    }
}

/// A set can be made of parts exactly when no path, root or authority is
/// granted twice, files and directories come with the filesystem, and hosts
/// with outgoing requests.
pub proof fn sets_are_made_of_sound_parts(
    bits: u64,
    files: Seq<FileGrant>,
    dirs: Seq<DirGrant>,
    hosts: Seq<HostGrant>,
)
    ensures
        construction_fault(bits, files, dirs, hosts) is None <==> {
            &&& forall|i: int, j: int|
                0 <= i < j < files.len() ==> (#[trigger] files[i]).spec_path() != (
                #[trigger] files[j]).spec_path()
            &&& forall|i: int, j: int|
                0 <= i < j < dirs.len() ==> (#[trigger] dirs[i]).spec_root() != (
                #[trigger] dirs[j]).spec_root()
            &&& forall|i: int, j: int|
                0 <= i < j < hosts.len() ==> (#[trigger] hosts[i]).spec_authority() != (
                #[trigger] hosts[j]).spec_authority()
            &&& files.len() > 0 || dirs.len() > 0 ==> bits & 8 != 0
            &&& hosts.len() > 0 ==> bits & 16 != 0
        },
        construction_fault(bits, files, dirs, hosts) matches Some(CapsFault::OrphanGrant(i)) ==> (
        i is Filesystem && bits & 8 == 0 && (files.len() > 0 || dirs.len() > 0)) || (
        i is HttpOutbound && bits & 16 == 0 && hosts.len() > 0),
{
    sort::repeats_are_two_records(files);
    sort::repeats_are_two_records(dirs);
    sort::repeats_are_two_records(hosts);
}

/// Sets hold the same grants when they grant the same interfaces, and the same
/// files, directories and hosts in the same order, whatever their ids are.
pub proof fn same_grants_read_the_same(a: GrantSet, b: GrantSet)
    ensures
        same_grants(a, b) <==> {
            &&& a.bits == b.bits
            &&& a.files.len() == b.files.len() && forall|i: int|
                0 <= i < a.files.len() ==> (#[trigger] a.files[i]).spec_mode()
                    == b.files[i].spec_mode() && path::components(
                    a.table.paths[a.files[i].spec_path() as int],
                ) == path::components(b.table.paths[b.files[i].spec_path() as int])
            &&& a.dirs.len() == b.dirs.len() && forall|i: int|
                0 <= i < a.dirs.len() ==> (#[trigger] a.dirs[i]).spec_mode()
                    == b.dirs[i].spec_mode() && path::components(
                    a.table.paths[a.dirs[i].spec_root() as int],
                ) == path::components(b.table.paths[b.dirs[i].spec_root() as int])
            &&& a.hosts.len() == b.hosts.len() && forall|i: int|
                0 <= i < a.hosts.len() ==> (#[trigger] a.hosts[i]).spec_methods()
                    == b.hosts[i].spec_methods()
                    && a.table.authorities[a.hosts[i].spec_authority() as int]
                    == b.table.authorities[b.hosts[i].spec_authority() as int]
        },
{
    if same_grants(a, b) {
        assert forall|i: int| 0 <= i < a.files.len() implies (#[trigger] a.files[i]).spec_mode()
            == b.files[i].spec_mode() && path::components(
            a.table.paths[a.files[i].spec_path() as int],
        ) == path::components(b.table.paths[b.files[i].spec_path() as int]) by {
            assert(same_file(a, a.files[i], b, b.files[i]));
        }
        assert forall|i: int| 0 <= i < a.dirs.len() implies (#[trigger] a.dirs[i]).spec_mode()
            == b.dirs[i].spec_mode() && path::components(
            a.table.paths[a.dirs[i].spec_root() as int],
        ) == path::components(b.table.paths[b.dirs[i].spec_root() as int]) by {
            assert(same_dir(a, a.dirs[i], b, b.dirs[i]));
        }
        assert forall|i: int| 0 <= i < a.hosts.len() implies (#[trigger] a.hosts[i]).spec_methods()
            == b.hosts[i].spec_methods() && a.table.authorities[a.hosts[i].spec_authority() as int]
            == b.table.authorities[b.hosts[i].spec_authority() as int] by {
            assert(same_host(a, a.hosts[i], b, b.hosts[i]));
        }
    }
}

} // verus!
