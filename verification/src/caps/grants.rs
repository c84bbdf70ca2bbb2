//! File, directory, and host grants plus HTTP method masks.
use super::sort::Ranked;
use super::{AuthorityId, PathId};
use vstd::prelude::*;

verus! {

/// Access mode for a file or directory grant. `ReadWrite` is a superset of `Read`.
#[derive(Clone, Copy, PartialEq, Eq, Structural, PartialOrd, Ord, Debug)]
pub enum FileMode {
    /// Open read-only.
    Read,
    /// Open read-write, no create, no truncate.
    ReadWrite,
}

impl FileMode {
    /// `self` permits nothing that `other` does not.
    pub open spec fn within(self, other: FileMode) -> bool {
        self == FileMode::Read || other == FileMode::ReadWrite
    }

    /// The lesser of two modes.
    pub open spec fn lesser(self, other: FileMode) -> FileMode {
        if self.within(other) {
            self
        } else {
            other
        }
    }

    /// The greater of two modes.
    pub open spec fn greater(self, other: FileMode) -> FileMode {
        if self.within(other) {
            other
        } else {
            self
        }
    }

    /// `self` permits nothing that `other` does not.
    pub fn is_within(self, other: FileMode) -> (r: bool)
        ensures
            r == self.within(other),
    {
        self == FileMode::Read || other == FileMode::ReadWrite
    }

    /// The lesser of two modes.
    pub fn min_with(self, other: FileMode) -> (r: FileMode)
        ensures
            r == self.lesser(other),
    {
        if self.is_within(other) {
            self
        } else {
            other
        }
    }

    /// The greater of two modes.
    pub fn max_with(self, other: FileMode) -> (r: FileMode)
        ensures
            r == self.greater(other),
    {
        if self.is_within(other) {
            other
        } else {
            self
        }
    }

    /// 0 for `Read`, 1 for `ReadWrite`.
    pub open spec fn spec_level(self) -> u64 {
        match self {
            FileMode::Read => 0,
            FileMode::ReadWrite => 1,
        }
    }

    fn level(self) -> (r: u64)
        ensures
            r == self.spec_level(),
    {
        match self {
            FileMode::Read => 0,
            FileMode::ReadWrite => 1,
        }
    }
}

/// HTTP methods that may appear in a `MethodMask`.
#[derive(Clone, Copy, PartialEq, Eq, Structural, Debug)]
pub enum Method {
    /// GET
    Get,
    /// HEAD
    Head,
    /// POST
    Post,
    /// PUT
    Put,
    /// PATCH
    Patch,
    /// DELETE
    Delete,
}

impl Method {
    /// The bit of this method.
    pub open spec fn spec_bit(self) -> u8 {
        match self {
            Method::Get => 1,
            Method::Head => 2,
            Method::Post => 4,
            Method::Put => 8,
            Method::Patch => 16,
            Method::Delete => 32,
        }
    }

    fn bit(self) -> (r: u8)
        ensures
            r == self.spec_bit(),
    {
        match self {
            Method::Get => 1,
            Method::Head => 2,
            Method::Post => 4,
            Method::Put => 8,
            Method::Patch => 16,
            Method::Delete => 32,
        }
    }
}

/// Bitmask of HTTP methods. Bit order: GET=0, HEAD=1, POST=2, PUT=3, PATCH=4, DELETE=5.
#[derive(Clone, Copy, PartialEq, Eq, Structural, PartialOrd, Ord, Debug)]
pub struct MethodMask(u8);

/// The bits of the methods in `ms`.
pub open spec fn mask_of(ms: Seq<Method>) -> u8
    decreases ms.len(),
{
    if ms.len() == 0 {
        0
    } else {
        mask_of(ms.drop_last()) | ms.last().spec_bit()
    }
}

/// `m` alone if its bit is set in `bits`.
pub open spec fn picked(bits: u8, m: Method) -> Seq<Method> {
    if bits & m.spec_bit() != 0 {
        seq![m]
    } else {
        Seq::empty()
    }
}

/// The methods set in `bits`, in bit order.
pub open spec fn methods_of(bits: u8) -> Seq<Method> {
    picked(bits, Method::Get) + picked(bits, Method::Head) + picked(bits, Method::Post) + picked(
        bits,
        Method::Put,
    ) + picked(bits, Method::Patch) + picked(bits, Method::Delete)
}

/// Every method of `a` is a method of `b`.
pub open spec fn mask_within(a: u8, b: u8) -> bool {
    a & !b == 0
}

/// Adding a listed method to a mask.
proof fn lemma_mask_append(ms: Seq<Method>, bits: u8, m: Method)
    ensures
        mask_of(ms + picked(bits, m)) == mask_of(ms) | (bits & m.spec_bit()),
{
    let b = m.spec_bit();
    let a = mask_of(ms);
    if bits & b != 0 {
        assert(ms + picked(bits, m) =~= ms.push(m));
        assert(ms.push(m).drop_last() =~= ms);
        assert(bits & b == b) by (bit_vector)
            requires
                bits & b != 0,
                b == 1 || b == 2 || b == 4 || b == 8 || b == 16 || b == 32,
        ;
    } else {
        assert(ms + picked(bits, m) =~= ms);
        assert(a | (bits & b) == a) by (bit_vector)
            requires
                bits & b == 0,
        ;
    }
}

/// A mask lists the methods that it was made of.
pub proof fn mask_round_trip(bits: u8)
    requires
        bits < 64,
    ensures
        mask_of(methods_of(bits)) == bits,
{
    let e = Seq::<Method>::empty();
    let s1 = picked(bits, Method::Get);
    let s2 = s1 + picked(bits, Method::Head);
    let s3 = s2 + picked(bits, Method::Post);
    let s4 = s3 + picked(bits, Method::Put);
    let s5 = s4 + picked(bits, Method::Patch);
    assert(e + s1 =~= s1);
    lemma_mask_append(e, bits, Method::Get);
    lemma_mask_append(s1, bits, Method::Head);
    lemma_mask_append(s2, bits, Method::Post);
    lemma_mask_append(s3, bits, Method::Put);
    lemma_mask_append(s4, bits, Method::Patch);
    lemma_mask_append(s5, bits, Method::Delete);
    assert((((((0u8 | (bits & 1)) | (bits & 2)) | (bits & 4)) | (bits & 8)) | (bits & 16)) | (bits
        & 32) == bits) by (bit_vector)
        requires
            bits < 64,
    ;
}

/// A mask of methods has no bit beyond the six.
pub proof fn lemma_mask_bound(ms: Seq<Method>)
    ensures
        mask_of(ms) < 64,
    decreases ms.len(),
{
    if ms.len() > 0 {
        lemma_mask_bound(ms.drop_last());
        let a = mask_of(ms.drop_last());
        let b = ms.last().spec_bit();
        assert(a | b < 64) by (bit_vector)
            requires
                a < 64,
                b < 64,
        ;
    }
}

impl View for MethodMask {
    type V = u8;

    closed spec fn view(&self) -> u8 {
        self.0
    }
}

impl MethodMask {
    /// No bit beyond the six methods is set.
    #[verifier::type_invariant]
    closed spec fn six_methods(self) -> bool {
        self.0 < 64
    }

    /// From a slice of defined methods. Duplicate methods are idempotent.
    #[must_use]
    pub fn new(methods: &[Method]) -> (r: MethodMask)
        ensures
            r@ == mask_of(methods@),
            r@ < 64,
    {
        let mut bits: u8 = 0;
        let mut i: usize = 0;
        assert(methods@.take(0) =~= Seq::<Method>::empty());
        while i < methods.len()
            invariant
                0 <= i <= methods.len(),
                bits == mask_of(methods@.take(i as int)),
            decreases methods.len() - i,
        {
            assert(methods@.take(i as int + 1).drop_last() =~= methods@.take(i as int));
            bits = bits | methods[i].bit();
            i += 1;
        }
        assert(methods@.take(i as int) =~= methods@);
        proof {
            lemma_mask_bound(methods@);
        }
        MethodMask(bits)
    }

    /// Raw bits.
    #[must_use]
    pub fn bits(self) -> (r: u8)
        ensures
            r == self@,
            r < 64,
    {
        proof {
            use_type_invariant(&self);
        }
        self.0
    }

    /// True if `self` grants nothing that `other` does not:
    /// `self.bits() & !other.bits() == 0`.
    #[must_use]
    pub fn is_subset_of(self, other: MethodMask) -> (r: bool)
        ensures
            r == mask_within(self@, other@),
    {
        self.0 & !other.0 == 0
    }

    /// Methods set in both masks.
    #[must_use]
    pub fn intersection(self, other: MethodMask) -> (r: MethodMask)
        ensures
            r@ == self@ & other@,
    {
        proof {
            use_type_invariant(&self);
        }
        let a: u8 = self.0;
        let b: u8 = other.0;
        assert(a & b < 64) by (bit_vector)
            requires
                a < 64,
        ;
        MethodMask(a & b)
    }

    /// Methods set in this mask, in bit order.
    pub fn methods(self) -> (r: Vec<Method>)
        ensures
            r@ == methods_of(self@),
    {
        let mut out: Vec<Method> = Vec::new();
        let bits: u8 = self.0;
        push_picked(&mut out, bits, Method::Get);
        push_picked(&mut out, bits, Method::Head);
        push_picked(&mut out, bits, Method::Post);
        push_picked(&mut out, bits, Method::Put);
        push_picked(&mut out, bits, Method::Patch);
        push_picked(&mut out, bits, Method::Delete);
        assert(out@ =~= methods_of(self@));
        out
    }
}

fn push_picked(out: &mut Vec<Method>, bits: u8, m: Method)
    ensures
        final(out)@ == old(out)@ + picked(bits, m),
{
    if bits & m.bit() != 0 {
        out.push(m);
    }
    assert(out@ =~= old(out)@ + picked(bits, m));
}

/// A single file the sandbox may open, by interned canonical path.
#[derive(Clone, Copy, PartialEq, Eq, Structural, PartialOrd, Ord, Debug)]
pub struct FileGrant {
    path: PathId,
    mode: FileMode,
}

impl FileGrant {
    /// The path id.
    pub closed spec fn spec_path(self) -> u32 {
        self.path@
    }

    /// The mode.
    pub closed spec fn spec_mode(self) -> FileMode {
        self.mode
    }

    /// The grant with this id and mode.
    pub closed spec fn of(path: u32, mode: FileMode) -> FileGrant {
        FileGrant { path: super::interner::path_id(path), mode }
    }

    /// A grant is its id and its mode.
    pub proof fn lemma_of(self, path: u32, mode: FileMode)
        ensures
            Self::of(path, mode).spec_path() == path,
            Self::of(path, mode).spec_mode() == mode,
            Self::of(self.spec_path(), self.spec_mode()) == self,
    {
        super::interner::lemma_path_id(path);
        super::interner::lemma_path_id(self.path@);
        super::interner::lemma_path_id_ext(
            super::interner::path_id(self.path@),
            self.path,
        );
    }

    /// Construct from interned path and mode. Does not canonicalize.
    #[must_use]
    pub fn new(path: PathId, mode: FileMode) -> (r: FileGrant)
        ensures
            r == Self::of(path@, mode),
            r.spec_path() == path@,
            r.spec_mode() == mode,
    {
        proof {
            super::interner::lemma_path_id(path@);
            super::interner::lemma_path_id_ext(super::interner::path_id(path@), path);
        }
        FileGrant { path, mode }
    }

    /// Interned canonical path.
    #[must_use]
    pub fn path(&self) -> (r: PathId)
        ensures
            r@ == self.spec_path(),
    {
        self.path
    }

    /// Permitted mode.
    #[must_use]
    pub fn mode(&self) -> (r: FileMode)
        ensures
            r == self.spec_mode(),
    {
        self.mode
    }
}

impl Ranked for FileGrant {
    open spec fn key(&self) -> u32 {
        self.spec_path()
    }

    open spec fn rank(&self) -> u64 {
        (self.spec_path() * 2 + self.spec_mode().spec_level()) as u64
    }

    proof fn rank_by_key(&self, other: &Self) {
    }

    fn get_key(&self) -> u32 {
        self.path.as_u32()
    }

    fn get_rank(&self) -> u64 {
        self.path.as_u32() as u64 * 2 + self.mode.level()
    }
}

/// A directory the sandbox may open.
///
/// Subset is prefix containment: a `DirGrant` is covered by one whose root is
/// an ancestor-or-equal path and whose mode is greater-or-equal.
#[derive(Clone, Copy, PartialEq, Eq, Structural, PartialOrd, Ord, Debug)]
pub struct DirGrant {
    root: PathId,
    mode: FileMode,
}

impl DirGrant {
    /// The root's id.
    pub closed spec fn spec_root(self) -> u32 {
        self.root@
    }

    /// The mode.
    pub closed spec fn spec_mode(self) -> FileMode {
        self.mode
    }

    /// The grant with this id and mode.
    pub closed spec fn of(root: u32, mode: FileMode) -> DirGrant {
        DirGrant { root: super::interner::path_id(root), mode }
    }

    /// A grant is its id and its mode.
    pub proof fn lemma_of(self, root: u32, mode: FileMode)
        ensures
            Self::of(root, mode).spec_root() == root,
            Self::of(root, mode).spec_mode() == mode,
            Self::of(self.spec_root(), self.spec_mode()) == self,
    {
        super::interner::lemma_path_id(root);
        super::interner::lemma_path_id(self.root@);
        super::interner::lemma_path_id_ext(
            super::interner::path_id(self.root@),
            self.root,
        );
    }

    /// Construct from interned root and mode. Does not canonicalize.
    #[must_use]
    pub fn new(root: PathId, mode: FileMode) -> (r: DirGrant)
        ensures
            r == Self::of(root@, mode),
            r.spec_root() == root@,
            r.spec_mode() == mode,
    {
        proof {
            super::interner::lemma_path_id(root@);
            super::interner::lemma_path_id_ext(super::interner::path_id(root@), root);
        }
        DirGrant { root, mode }
    }

    /// Interned canonical directory root.
    #[must_use]
    pub fn root(&self) -> (r: PathId)
        ensures
            r@ == self.spec_root(),
    {
        self.root
    }

    /// Permitted mode.
    #[must_use]
    pub fn mode(&self) -> (r: FileMode)
        ensures
            r == self.spec_mode(),
    {
        self.mode
    }
}

impl Ranked for DirGrant {
    open spec fn key(&self) -> u32 {
        self.spec_root()
    }

    open spec fn rank(&self) -> u64 {
        (self.spec_root() * 2 + self.spec_mode().spec_level()) as u64
    }

    proof fn rank_by_key(&self, other: &Self) {
    }

    fn get_key(&self) -> u32 {
        self.root.as_u32()
    }

    fn get_rank(&self) -> u64 {
        self.root.as_u32() as u64 * 2 + self.mode.level()
    }
}

/// A single network authority the sandbox may reach: a lowercase `host:port`
/// with an explicit port, interned.
#[derive(Clone, Copy, PartialEq, Eq, Structural, PartialOrd, Ord, Debug)]
pub struct HostGrant {
    authority: AuthorityId,
    methods: MethodMask,
}

impl HostGrant {
    /// The authority's id.
    pub closed spec fn spec_authority(self) -> u32 {
        self.authority@
    }

    /// The method bits.
    pub closed spec fn spec_methods(self) -> u8 {
        self.methods@
    }

    /// The grant with this id and these method bits.
    pub closed spec fn of(authority: u32, methods: u8) -> HostGrant {
        HostGrant {
            authority: super::interner::authority_id(authority),
            methods: MethodMask(methods),
        }
    }

    /// A grant is its id and its method bits.
    pub proof fn lemma_of(self, authority: u32, methods: u8)
        ensures
            Self::of(authority, methods).spec_authority() == authority,
            Self::of(authority, methods).spec_methods() == methods,
            Self::of(self.spec_authority(), self.spec_methods()) == self,
    {
        super::interner::lemma_authority_id(authority);
        super::interner::lemma_authority_id(self.authority@);
        super::interner::lemma_authority_id_ext(
            super::interner::authority_id(self.authority@),
            self.authority,
        );
    }

    /// Construct from interned authority and method mask.
    #[must_use]
    pub fn new(authority: AuthorityId, methods: MethodMask) -> (r: HostGrant)
        ensures
            r == Self::of(authority@, methods@),
            r.spec_authority() == authority@,
            r.spec_methods() == methods@,
    {
        proof {
            super::interner::lemma_authority_id(authority@);
            super::interner::lemma_authority_id_ext(
                super::interner::authority_id(authority@),
                authority,
            );
        }
        HostGrant { authority, methods }
    }

    /// Interned authority.
    #[must_use]
    pub fn authority(&self) -> (r: AuthorityId)
        ensures
            r@ == self.spec_authority(),
    {
        self.authority
    }

    /// Allowed methods.
    #[must_use]
    pub fn methods(&self) -> (r: MethodMask)
        ensures
            r@ == self.spec_methods(),
            r@ < 64,
    {
        proof {
            use_type_invariant(&self.methods);
        }
        self.methods
    }
}

impl Ranked for HostGrant {
    open spec fn key(&self) -> u32 {
        self.spec_authority()
    }

    open spec fn rank(&self) -> u64 {
        (self.spec_authority() * 256 + self.spec_methods()) as u64
    }

    proof fn rank_by_key(&self, other: &Self) {
    }

    fn get_key(&self) -> u32 {
        self.authority.as_u32()
    }

    fn get_rank(&self) -> u64 {
        self.authority.as_u32() as u64 * 256 + self.methods.bits() as u64
    }
}

/// Reading is within reading and writing, and not the other way round.
pub proof fn reading_is_the_lesser_mode(a: FileMode, b: FileMode)
    ensures
        a.within(b) <==> !(a is ReadWrite && b is Read),
        a.lesser(b) is ReadWrite <==> a is ReadWrite && b is ReadWrite,
        a.greater(b) is Read <==> a is Read && b is Read,
{
}

/// A mask holds a method exactly when the method is listed.
pub proof fn mask_is_membership(ms: Seq<Method>, m: Method)
    ensures
        mask_of(ms) & m.spec_bit() != 0 <==> ms.contains(m),
    decreases ms.len(),
{
    let b = m.spec_bit();
    if ms.len() == 0 {
        assert(0u8 & b == 0) by (bit_vector);
    } else {
        let front = ms.drop_last();
        mask_is_membership(front, m);
        let a = mask_of(front);
        let l = ms.last().spec_bit();
        assert((a | l) & b != 0 <==> (a & b != 0 || l & b != 0)) by (bit_vector);
        assert(l & b != 0 <==> l == b) by (bit_vector)
            requires
                l == 1 || l == 2 || l == 4 || l == 8 || l == 16 || l == 32,
                b == 1 || b == 2 || b == 4 || b == 8 || b == 16 || b == 32,
        ;
        if ms.contains(m) {
            let k = choose|k: int| 0 <= k < ms.len() && ms[k] == m;
            if k < front.len() {
                assert(front[k] == m);
            }
        }
        if front.contains(m) {
            let k = choose|k: int| 0 <= k < front.len() && front[k] == m;
            assert(ms[k] == m);
        }
        if ms.last() == m {
            assert(ms[ms.len() - 1] == m);
        }
    }
}

/// A mask lists exactly the methods that it holds.
pub proof fn masks_list_what_they_hold(bits: u8, m: Method)
    requires
        bits < 64,
    ensures
        methods_of(bits).contains(m) <==> bits & m.spec_bit() != 0,
{
    mask_round_trip(bits);
    mask_is_membership(methods_of(bits), m);
}

/// A mask is within another exactly when every method that it holds is held by
/// the other.
pub proof fn masks_are_within_by_method(a: u8, b: u8)
    requires
        a < 64,
    ensures
        mask_within(a, b) <==> forall|m: Method|
            a & (#[trigger] m.spec_bit()) != 0 ==> b & m.spec_bit() != 0,
{
    if mask_within(a, b) {
        assert forall|m: Method| a & (#[trigger] m.spec_bit()) != 0 implies b & m.spec_bit()
            != 0 by {
            let k = m.spec_bit();
            assert(a & !b == 0 && a & k != 0 ==> b & k != 0) by (bit_vector);
        }
    }
    if forall|m: Method| a & (#[trigger] m.spec_bit()) != 0 ==> b & m.spec_bit() != 0 {
        assert(Method::Get.spec_bit() == 1);
        assert(Method::Head.spec_bit() == 2);
        assert(Method::Post.spec_bit() == 4);
        assert(Method::Put.spec_bit() == 8);
        assert(Method::Patch.spec_bit() == 16);
        assert(Method::Delete.spec_bit() == 32);
        assert(a & !b == 0) by (bit_vector)
            requires
                a < 64,
                a & 1 != 0 ==> b & 1 != 0,
                a & 2 != 0 ==> b & 2 != 0,
                a & 4 != 0 ==> b & 4 != 0,
                a & 8 != 0 ==> b & 8 != 0,
                a & 16 != 0 ==> b & 16 != 0,
                a & 32 != 0 ==> b & 32 != 0,
        ;
    }
}

} // verus!
