//! Capability sets into CBOR.
use super::{interface_name, method_name, mode_name, CapsStoreError, CapsStoreFault};
use crate::caps::capability::GrantSet;
use crate::caps::wire::{
    CapabilitySetWire, DirGrantWire, FileGrantWire, HostGrantWire, WireSet,
};
use crate::caps::{CapabilitySet, FileMode, Interface, Method};
use crate::cbor;
use crate::order;
use crate::order::Keyed;
use crate::text;
use vstd::prelude::*;
use vstd::utf8::*;

verus! {

/// A path grant is sorted by its path.
pub open spec fn path_key() -> spec_fn((Seq<u8>, FileMode)) -> Seq<u8> {
    |g: (Seq<u8>, FileMode)| g.0
}

/// A host grant is sorted by its authority.
pub open spec fn host_key() -> spec_fn((Seq<char>, Seq<Method>)) -> Seq<u8> {
    |h: (Seq<char>, Seq<Method>)| encode_utf8(h.0)
}

/// A path grant in CBOR.
#[verifier::opaque]
pub open spec fn path_item(g: (Seq<u8>, FileMode)) -> Seq<u8> {
    cbor::head(5, 2) + cbor::text("mode"@) + cbor::text(super::mode_text(g.1)) + cbor::text("path"@)
        + cbor::text(decode_utf8(g.0))
}

/// Path grants one behind the other.
pub open spec fn path_items(s: Seq<(Seq<u8>, FileMode)>) -> Seq<u8>
    decreases s.len(),
{
    if s.len() == 0 {
        Seq::empty()
    } else {
        path_items(s.drop_last()) + path_item(s.last())
    }
}

/// Method names one behind the other.
pub open spec fn method_items(s: Seq<Method>) -> Seq<u8>
    decreases s.len(),
{
    if s.len() == 0 {
        Seq::empty()
    } else {
        method_items(s.drop_last()) + cbor::text(super::method_text(s.last()))
    }
}

/// A host grant in CBOR.
#[verifier::opaque]
pub open spec fn host_item(h: (Seq<char>, Seq<Method>)) -> Seq<u8> {
    cbor::head(5, 2) + cbor::text("authority"@) + cbor::text(h.0) + cbor::text("methods"@)
        + cbor::head(4, h.1.len()) + method_items(h.1)
}

/// Host grants one behind the other.
pub open spec fn host_items(s: Seq<(Seq<char>, Seq<Method>)>) -> Seq<u8>
    decreases s.len(),
{
    if s.len() == 0 {
        Seq::empty()
    } else {
        host_items(s.drop_last()) + host_item(s.last())
    }
}

/// Interface names one behind the other.
pub open spec fn interface_items(s: Seq<Interface>) -> Seq<u8>
    decreases s.len(),
{
    if s.len() == 0 {
        Seq::empty()
    } else {
        interface_items(s.drop_last()) + cbor::text(super::interface_text(s.last()))
    }
}

/// Grants in CBOR, in the order given.
pub open spec fn wire_bytes(w: WireSet) -> Seq<u8> {
    cbor::head(5, 4) + (cbor::text("dirs"@) + (cbor::head(4, w.dirs.len()) + path_items(w.dirs))) + (
    cbor::text("files"@) + (cbor::head(4, w.files.len()) + path_items(w.files))) + (cbor::text(
        "hosts"@,
    ) + (cbor::head(4, w.hosts.len()) + host_items(w.hosts))) + (cbor::text("interfaces"@) + (
    cbor::head(4, w.interfaces.len()) + interface_items(w.interfaces)))
}

/// The same grants, sorted by path and authority.
pub open spec fn sorted_wire(w: WireSet) -> WireSet {
    WireSet {
        interfaces: w.interfaces,
        files: order::arranged(w.files, path_key()),
        dirs: order::arranged(w.dirs, path_key()),
        hosts: order::arranged(w.hosts, host_key()),
    }
}

/// The first path that is not UTF-8.
pub open spec fn first_non_utf8(ps: Seq<(Seq<u8>, FileMode)>) -> Option<Seq<u8>>
    decreases ps.len(),
{
    if ps.len() == 0 {
        None
    } else {
        match first_non_utf8(ps.drop_last()) {
            Some(p) => Some(p),
            None => if valid_utf8(ps.last().0) {
                None
            } else {
                Some(ps.last().0)
            },
        }
    }
}

/// A set in CBOR, or why it cannot be written.
pub open spec fn encoded_set(g: GrantSet) -> Result<Seq<u8>, CapsStoreFault> {
    let w = crate::caps::wire::wire_of(g);
    if (w.files.len() > 0 || w.dirs.len() > 0 || w.hosts.len() > 0) && g.table.is_empty() {
        Err(
            CapsStoreFault::UnresolvedId(
                "grants present but Interner is empty; bind via with_interner or wire build"@,
            ),
        )
    } else if first_non_utf8(w.files) is Some {
        Err(CapsStoreFault::NonUtf8Path(text::lossy_text(first_non_utf8(w.files)->0)))
    } else if first_non_utf8(w.dirs) is Some {
        Err(CapsStoreFault::NonUtf8Path(text::lossy_text(first_non_utf8(w.dirs)->0)))
    } else {
        Ok(wire_bytes(sorted_wire(w)))
    }
}

struct PathItem {
    text: String,
    mode: FileMode,
}

impl Keyed for PathItem {
    closed spec fn key(&self) -> Seq<u8> {
        encode_utf8(self.text@)
    }

    fn get_key(&self) -> &[u8] {
        self.text.as_str().as_bytes()
    }
}

/// What an item says.
spec fn item_says() -> spec_fn(PathItem) -> (Seq<u8>, FileMode) {
    |x: PathItem| (encode_utf8(x.text@), x.mode)
}

impl Keyed for HostGrantWire {
    open spec fn key(&self) -> Seq<u8> {
        encode_utf8(self.authority@)
    }

    fn get_key(&self) -> &[u8] {
        self.authority.as_str().as_bytes()
    }
}

/// What a host grant says.
spec fn host_says() -> spec_fn(HostGrantWire) -> (Seq<char>, Seq<Method>) {
    |x: HostGrantWire| (x.authority@, x.methods@)
}

fn path_text(p: &[u8]) -> (r: Result<String, CapsStoreError>)
    ensures
        match r {
            Ok(s) => valid_utf8(p@) && s@ == decode_utf8(p@),
            Err(e) => !valid_utf8(p@) && e@ == CapsStoreFault::NonUtf8Path(text::lossy_text(p@)),
        },
{
    match text::string_from_utf8(vstd::slice::slice_to_vec(p)) {
        Some(s) => Ok(s),
        None => Err(CapsStoreError::NonUtf8Path(text::string_from_utf8_lossy(p))),
    }
}

proof fn lemma_first_non_utf8(ps: Seq<(Seq<u8>, FileMode)>, n: int)
    requires
        0 <= n <= ps.len(),
        first_non_utf8(ps.take(n)) is Some,
    ensures
        first_non_utf8(ps) == first_non_utf8(ps.take(n)),
    decreases ps.len(),
{
    if n < ps.len() {
        assert(ps.drop_last().take(n) =~= ps.take(n));
        lemma_first_non_utf8(ps.drop_last(), n);
    } else {
        assert(ps.take(n) =~= ps);
    }
}

/// With no bad path, every path is UTF-8.
pub proof fn lemma_all_utf8(ps: Seq<(Seq<u8>, FileMode)>)
    ensures
        first_non_utf8(ps) is None <==> forall|i: int|
            0 <= i < ps.len() ==> valid_utf8((#[trigger] ps[i]).0),
    decreases ps.len(),
{
    if ps.len() > 0 {
        lemma_all_utf8(ps.drop_last());
        if first_non_utf8(ps) is None {
            assert forall|i: int| 0 <= i < ps.len() implies valid_utf8((#[trigger] ps[i]).0) by {
                if i < ps.len() - 1 {
                    assert(ps.drop_last()[i] == ps[i]);
                }
            }
        } else if first_non_utf8(ps.drop_last()) is None {
            assert(!valid_utf8(ps[ps.len() - 1].0));
        } else {
            let i = choose|i: int|
                0 <= i < ps.drop_last().len() && !valid_utf8((#[trigger] ps.drop_last()[i]).0);
            assert(!valid_utf8(ps[i].0));
        }
    }
}

fn file_items(files: &Vec<FileGrantWire>, Ghost(w): Ghost<WireSet>) -> (r: Result<
    Vec<PathItem>,
    CapsStoreError,
>)
    requires
        w.files == Seq::new(files@.len(), |i: int| (files@[i].path@, files@[i].mode)),
    ensures
        match r {
            Ok(v) => first_non_utf8(w.files) is None && v@.map_values(item_says()) == w.files,
            Err(e) => first_non_utf8(w.files) is Some && e@ == CapsStoreFault::NonUtf8Path(
                text::lossy_text(first_non_utf8(w.files)->0),
            ),
        },
{
    let mut out: Vec<PathItem> = Vec::new();
    let mut i: usize = 0;
    assert(w.files.take(0) =~= Seq::empty());
    while i < files.len()
        invariant
            0 <= i <= files.len(),
            w.files == Seq::new(files@.len(), |i: int| (files@[i].path@, files@[i].mode)),
            first_non_utf8(w.files.take(i as int)) is None,
            out@.map_values(item_says()) =~= w.files.take(i as int),
        decreases files.len() - i,
    {
        proof {
            assert(w.files.take(i as int + 1).drop_last() =~= w.files.take(i as int));
        }
        match path_text(files[i].path.as_slice()) {
            Ok(s) => {
                proof {
                    decode_utf8_encode_utf8(files@[i as int].path@);
                }
                out.push(PathItem { text: s, mode: files[i].mode });
                assert(out@.map_values(item_says()) =~= w.files.take(i as int + 1));
            },
            Err(e) => {
                proof {
                    lemma_first_non_utf8(w.files, i as int + 1);
                }
                return Err(e);
            },
        }
        i += 1;
    }
    assert(w.files.take(i as int) =~= w.files);
    Ok(out)
}

fn dir_items(dirs: &Vec<DirGrantWire>, Ghost(w): Ghost<WireSet>) -> (r: Result<
    Vec<PathItem>,
    CapsStoreError,
>)
    requires
        w.dirs == Seq::new(dirs@.len(), |i: int| (dirs@[i].path@, dirs@[i].mode)),
    ensures
        match r {
            Ok(v) => first_non_utf8(w.dirs) is None && v@.map_values(item_says()) == w.dirs,
            Err(e) => first_non_utf8(w.dirs) is Some && e@ == CapsStoreFault::NonUtf8Path(
                text::lossy_text(first_non_utf8(w.dirs)->0),
            ),
        },
{
    let mut out: Vec<PathItem> = Vec::new();
    let mut i: usize = 0;
    assert(w.dirs.take(0) =~= Seq::empty());
    while i < dirs.len()
        invariant
            0 <= i <= dirs.len(),
            w.dirs == Seq::new(dirs@.len(), |i: int| (dirs@[i].path@, dirs@[i].mode)),
            first_non_utf8(w.dirs.take(i as int)) is None,
            out@.map_values(item_says()) =~= w.dirs.take(i as int),
        decreases dirs.len() - i,
    {
        proof {
            assert(w.dirs.take(i as int + 1).drop_last() =~= w.dirs.take(i as int));
        }
        match path_text(dirs[i].path.as_slice()) {
            Ok(s) => {
                proof {
                    decode_utf8_encode_utf8(dirs@[i as int].path@);
                }
                out.push(PathItem { text: s, mode: dirs[i].mode });
                assert(out@.map_values(item_says()) =~= w.dirs.take(i as int + 1));
            },
            Err(e) => {
                proof {
                    lemma_first_non_utf8(w.dirs, i as int + 1);
                }
                return Err(e);
            },
        }
        i += 1;
    }
    assert(w.dirs.take(i as int) =~= w.dirs);
    Ok(out)
}

fn put_path_items(out: &mut Vec<u8>, items: &Vec<PathItem>, Ghost(s): Ghost<Seq<(Seq<u8>, FileMode)>>)
    requires
        items@.map_values(item_says()) == s,
    ensures
        final(out)@ == old(out)@ + (cbor::head(4, s.len()) + path_items(s)),
{
    let ghost first = out@;
    cbor::put_array(out, items.len() as u64);
    let ghost h = cbor::head(4, s.len());
    let mut i: usize = 0;
    assert(s.take(0) =~= Seq::empty());
    assert(out@ =~= first + (h + path_items(s.take(0))));
    while i < items.len()
        invariant
            0 <= i <= items.len(),
            items@.map_values(item_says()) == s,
            out@ == first + (h + path_items(s.take(i as int))),
        decreases items.len() - i,
    {
        let ghost before = out@;
        cbor::put_map(out, 2);
        cbor::put_str(out, "mode");
        cbor::put_str(out, mode_name(items[i].mode));
        cbor::put_str(out, "path");
        cbor::put_str(out, items[i].text.as_str());
        proof {
            assert(s[i as int] == item_says()(items@[i as int]));
            encode_utf8_decode_utf8(items@[i as int].text@);
            reveal(path_item);
            let item = path_item(s[i as int]);
            assert(out@ =~= before + item);
            assert(s.take(i as int + 1).drop_last() =~= s.take(i as int));
            assert(out@ =~= first + (h + path_items(s.take(i as int + 1))));
        }
        i += 1;
    }
    assert(s.take(i as int) =~= s);
}

fn put_methods(out: &mut Vec<u8>, methods: &Vec<Method>)
    ensures
        final(out)@ == old(out)@ + cbor::head(4, methods@.len()) + method_items(methods@),
{
    cbor::put_array(out, methods.len() as u64);
    let ghost first = out@;
    let mut i: usize = 0;
    assert(methods@.take(0) =~= Seq::empty());
    assert(out@ =~= first + method_items(methods@.take(0)));
    while i < methods.len()
        invariant
            0 <= i <= methods.len(),
            out@ == first + method_items(methods@.take(i as int)),
        decreases methods.len() - i,
    {
        cbor::put_str(out, method_name(methods[i]));
        proof {
            assert(methods@.take(i as int + 1).drop_last() =~= methods@.take(i as int));
            assert(out@ =~= first + method_items(methods@.take(i as int + 1)));
        }
        i += 1;
    }
    assert(methods@.take(i as int) =~= methods@);
}

fn put_host_items(
    out: &mut Vec<u8>,
    items: &Vec<HostGrantWire>,
    Ghost(s): Ghost<Seq<(Seq<char>, Seq<Method>)>>,
)
    requires
        items@.map_values(host_says()) == s,
    ensures
        final(out)@ == old(out)@ + (cbor::head(4, s.len()) + host_items(s)),
{
    let ghost first = out@;
    cbor::put_array(out, items.len() as u64);
    let ghost h = cbor::head(4, s.len());
    let mut i: usize = 0;
    assert(s.take(0) =~= Seq::empty());
    assert(out@ =~= first + (h + host_items(s.take(0))));
    while i < items.len()
        invariant
            0 <= i <= items.len(),
            items@.map_values(host_says()) == s,
            out@ == first + (h + host_items(s.take(i as int))),
        decreases items.len() - i,
    {
        let ghost before = out@;
        cbor::put_map(out, 2);
        cbor::put_str(out, "authority");
        cbor::put_str(out, items[i].authority.as_str());
        cbor::put_str(out, "methods");
        put_methods(out, &items[i].methods);
        proof {
            assert(s[i as int] == host_says()(items@[i as int]));
            reveal(host_item);
            let item = host_item(s[i as int]);
            assert(out@ =~= before + item);
            assert(s.take(i as int + 1).drop_last() =~= s.take(i as int));
            assert(out@ =~= first + (h + host_items(s.take(i as int + 1))));
        }
        i += 1;
    }
    assert(s.take(i as int) =~= s);
}

fn put_interfaces(out: &mut Vec<u8>, names: &Vec<Interface>)
    ensures
        final(out)@ == old(out)@ + (cbor::head(4, names@.len()) + interface_items(names@)),
{
    let ghost first = out@;
    cbor::put_array(out, names.len() as u64);
    let ghost h = cbor::head(4, names@.len());
    let mut i: usize = 0;
    assert(names@.take(0) =~= Seq::empty());
    assert(out@ =~= first + (h + interface_items(names@.take(0))));
    while i < names.len()
        invariant
            0 <= i <= names.len(),
            out@ == first + (h + interface_items(names@.take(i as int))),
        decreases names.len() - i,
    {
        cbor::put_str(out, interface_name(names[i]));
        proof {
            assert(names@.take(i as int + 1).drop_last() =~= names@.take(i as int));
            assert(out@ =~= first + (h + interface_items(names@.take(i as int + 1))));
        }
        i += 1;
    }
    assert(names@.take(i as int) =~= names@);
}

/// No path twice, no authority twice.
pub open spec fn distinct_grants(w: WireSet) -> bool {
    &&& order::distinct_by(w.files, path_key())
    &&& order::distinct_by(w.dirs, path_key())
    &&& order::distinct_by(w.hosts, host_key())
}

/// A set grants no path and no authority twice.
pub proof fn lemma_distinct_grants(g: GrantSet)
    requires
        g.ordered(),
        g.resolves(),
        crate::caps::interner::distinct(g.table),
    ensures
        distinct_grants(crate::caps::wire::wire_of(g)),
{
    let w = crate::caps::wire::wire_of(g);
    assert forall|i: int, j: int|
        0 <= i < w.files.len() && 0 <= j < w.files.len() && path_key()(#[trigger] w.files[i])
            == path_key()(#[trigger] w.files[j]) implies i == j by {
        let (a, b) = (g.files[i].spec_path(), g.files[j].spec_path());
        assert(g.table.paths[a as int] == g.table.paths[b as int]);
        if i < j {
            crate::caps::sort::lemma_ascending_pair(g.files, i, j);
        } else if j < i {
            crate::caps::sort::lemma_ascending_pair(g.files, j, i);
        }
    }
    assert forall|i: int, j: int|
        0 <= i < w.dirs.len() && 0 <= j < w.dirs.len() && path_key()(#[trigger] w.dirs[i])
            == path_key()(#[trigger] w.dirs[j]) implies i == j by {
        let (a, b) = (g.dirs[i].spec_root(), g.dirs[j].spec_root());
        assert(g.table.paths[a as int] == g.table.paths[b as int]);
        if i < j {
            crate::caps::sort::lemma_ascending_pair(g.dirs, i, j);
        } else if j < i {
            crate::caps::sort::lemma_ascending_pair(g.dirs, j, i);
        }
    }
    assert forall|i: int, j: int|
        0 <= i < w.hosts.len() && 0 <= j < w.hosts.len() && host_key()(#[trigger] w.hosts[i])
            == host_key()(#[trigger] w.hosts[j]) implies i == j by {
        let (a, b) = (g.hosts[i].spec_authority(), g.hosts[j].spec_authority());
        encode_utf8_decode_utf8(w.hosts[i].0);
        encode_utf8_decode_utf8(w.hosts[j].0);
        assert(g.table.authorities[a as int] == g.table.authorities[b as int]);
        if i < j {
            crate::caps::sort::lemma_ascending_pair(g.hosts, i, j);
        } else if j < i {
            crate::caps::sort::lemma_ascending_pair(g.hosts, j, i);
        }
    }
}

/// Encode `set` as deterministic CBOR for the caps side file.
pub fn encode_capability_set(set: &CapabilitySet) -> (r: Result<Vec<u8>, CapsStoreError>)
    requires
        set.wf(),
        set@.table.is_empty() || set@.resolves(),
    ensures
        match (r, encoded_set(set@)) {
            (Ok(b), Ok(c)) => b@ == c,
            (Err(e), Err(f)) => e@ == f,
            _ => false,
        },
        r matches Ok(b) ==> super::decoding::numbered(b@),
{
    if (set.files().len() > 0 || set.dirs().len() > 0 || set.hosts().len() > 0)
        && set.interner().is_empty() {
        return Err(
            CapsStoreError::UnresolvedId(
                "grants present but Interner is empty; bind via with_interner or wire build".to_owned(),
            ),
        );
    }
    proof {
        set.lemma_wf();
        lemma_distinct_grants(set@);
    }
    let wire = CapabilitySetWire::from(set.clone());
    let ghost w = wire@;
    let files = match file_items(&wire.files, Ghost(w)) {
        Ok(v) => v,
        Err(e) => {
            return Err(e);
        },
    };
    let dirs = match dir_items(&wire.dirs, Ghost(w)) {
        Ok(v) => v,
        Err(e) => {
            return Err(e);
        },
    };
    let ghost sorted = sorted_wire(w);
    let sorted_files = order::sort_by_key(files);
    let sorted_dirs = order::sort_by_key(dirs);
    let ghost hosts0 = wire.hosts@;
    let sorted_hosts = order::sort_by_key(wire.hosts);
    proof {
        order::lemma_sorted(sorted_files@, files@, item_says(), path_key());
        order::lemma_sorted(sorted_dirs@, dirs@, item_says(), path_key());
        assert(hosts0.map_values(host_says()) =~= w.hosts);
        order::lemma_sorted(sorted_hosts@, hosts0, host_says(), host_key());
    }
    let mut out: Vec<u8> = Vec::new();
    cbor::put_map(&mut out, 4);
    cbor::put_str(&mut out, "dirs");
    put_path_items(&mut out, &sorted_dirs, Ghost(sorted.dirs));
    cbor::put_str(&mut out, "files");
    put_path_items(&mut out, &sorted_files, Ghost(sorted.files));
    cbor::put_str(&mut out, "hosts");
    put_host_items(&mut out, &sorted_hosts, Ghost(sorted.hosts));
    cbor::put_str(&mut out, "interfaces");
    put_interfaces(&mut out, &wire.interfaces);
    proof {
        assert(out@ =~= wire_bytes(sorted));
        assert(out@.len() == out.len());
        super::laws::lemma_minted(*set);
        super::laws::encoded_bytes_are_numbered(set@);
    }
    Ok(out)
}

/// A set can be written exactly when its ids have names, if it grants
/// anything by id, and every path is text.
pub proof fn sets_with_readable_paths_are_written(g: GrantSet)
    ensures
        ({
            let w = crate::caps::wire::wire_of(g);
            let nameless = (g.files.len() > 0 || g.dirs.len() > 0 || g.hosts.len() > 0)
                && g.table.is_empty();
            &&& encoded_set(g) is Ok <==> !nameless && (forall|i: int|
                0 <= i < w.files.len() ==> valid_utf8((#[trigger] w.files[i]).0)) && (forall|i: int|
                0 <= i < w.dirs.len() ==> valid_utf8((#[trigger] w.dirs[i]).0))
            &&& nameless ==> encoded_set(g)->Err_0 is UnresolvedId
            &&& !nameless && encoded_set(g) is Err ==> encoded_set(g)->Err_0 is NonUtf8Path
        }),
{
    let w = crate::caps::wire::wire_of(g);
    lemma_readable(w.files);
    lemma_readable(w.dirs);
}

proof fn lemma_readable(ps: Seq<(Seq<u8>, FileMode)>)
    ensures
        first_non_utf8(ps) is None <==> forall|i: int|
            0 <= i < ps.len() ==> valid_utf8((#[trigger] ps[i]).0),
    decreases ps.len(),
{
    if ps.len() > 0 {
        let front = ps.drop_last();
        lemma_readable(front);
        if first_non_utf8(ps) is None {
            assert forall|i: int| 0 <= i < ps.len() implies valid_utf8((#[trigger] ps[i]).0) by {
                if i < front.len() {
                    assert(front[i] == ps[i]);
                }
            }
        }
        if forall|i: int| 0 <= i < ps.len() ==> valid_utf8((#[trigger] ps[i]).0) {
            assert forall|i: int| 0 <= i < front.len() implies valid_utf8(
                (#[trigger] front[i]).0,
            ) by {
                assert(ps[i] == front[i]);
            }
            assert(valid_utf8(ps[ps.len() - 1].0));
        }
    }
}

/// Grants are written one behind the other, each with its mode and path, or
/// its authority and methods.
pub proof fn grants_are_written_one_by_one(
    ps: Seq<(Seq<u8>, FileMode)>,
    g: (Seq<u8>, FileMode),
    hs: Seq<(Seq<char>, Seq<Method>)>,
    h: (Seq<char>, Seq<Method>),
)
    ensures
        path_items(ps.push(g)) == path_items(ps) + path_item(g),
        host_items(hs.push(h)) == host_items(hs) + host_item(h),
        path_item(g) == cbor::head(5, 2) + cbor::text("mode"@) + cbor::text(super::mode_text(g.1))
            + cbor::text("path"@) + cbor::text(decode_utf8(g.0)),
        host_item(h) == cbor::head(5, 2) + cbor::text("authority"@) + cbor::text(h.0) + cbor::text(
            "methods"@,
        ) + cbor::head(4, h.1.len()) + method_items(h.1),
{
    reveal(path_item);
    reveal(host_item);
    assert(ps.push(g).drop_last() =~= ps);
    assert(hs.push(h).drop_last() =~= hs);
}

/// Names are written one behind the other.
pub proof fn names_are_written_one_by_one(
    ms: Seq<Method>,
    m: Method,
    is: Seq<Interface>,
    i: Interface,
)
    ensures
        method_items(ms.push(m)) == method_items(ms) + cbor::text(super::method_text(m)),
        interface_items(is.push(i)) == interface_items(is) + cbor::text(super::interface_text(i)),
{
    assert(ms.push(m).drop_last() =~= ms);
    assert(is.push(i).drop_last() =~= is);
}

/// Where no path and no authority is granted twice, grants are written in the
/// order of their paths and authorities, and none is lost.
pub proof fn grants_are_written_in_order(w: WireSet)
    requires
        order::distinct_by(w.files, path_key()),
        order::distinct_by(w.dirs, path_key()),
        order::distinct_by(w.hosts, host_key()),
    ensures
        ({
            let s = sorted_wire(w);
            &&& s.interfaces == w.interfaces
            &&& forall|g: (Seq<u8>, FileMode)| #[trigger]
                s.files.contains(g) <==> w.files.contains(g)
            &&& forall|g: (Seq<u8>, FileMode)| #[trigger]
                s.dirs.contains(g) <==> w.dirs.contains(g)
            &&& forall|h: (Seq<char>, Seq<Method>)| #[trigger]
                s.hosts.contains(h) <==> w.hosts.contains(h)
            &&& forall|i: int, j: int|
                0 <= i < j < s.files.len() ==> order::before(
                    (#[trigger] s.files[i]).0,
                    (#[trigger] s.files[j]).0,
                )
            &&& forall|i: int, j: int|
                0 <= i < j < s.dirs.len() ==> order::before(
                    (#[trigger] s.dirs[i]).0,
                    (#[trigger] s.dirs[j]).0,
                )
            &&& forall|i: int, j: int|
                0 <= i < j < s.hosts.len() ==> order::before(
                    encode_utf8((#[trigger] s.hosts[i]).0),
                    encode_utf8((#[trigger] s.hosts[j]).0),
                )
        }),
{
    order::lemma_arranged(w.files, path_key());
    order::lemma_arranged(w.dirs, path_key());
    order::lemma_arranged(w.hosts, host_key());
    let s = sorted_wire(w);
    assert forall|i: int, j: int| 0 <= i < j < s.files.len() implies order::before(
        (#[trigger] s.files[i]).0,
        (#[trigger] s.files[j]).0,
    ) by {
        assert(order::before(path_key()(s.files[i]), path_key()(s.files[j])));
    }
    assert forall|i: int, j: int| 0 <= i < j < s.dirs.len() implies order::before(
        (#[trigger] s.dirs[i]).0,
        (#[trigger] s.dirs[j]).0,
    ) by {
        assert(order::before(path_key()(s.dirs[i]), path_key()(s.dirs[j])));
    }
    assert forall|i: int, j: int| 0 <= i < j < s.hosts.len() implies order::before(
        encode_utf8((#[trigger] s.hosts[i]).0),
        encode_utf8((#[trigger] s.hosts[j]).0),
    ) by {
        assert(order::before(host_key()(s.hosts[i]), host_key()(s.hosts[j])));
    }
}

} // verus!
