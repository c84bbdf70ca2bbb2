//! What encoding and decoding a capability set keeps.
use super::decoding::{HostParts, PathParts};
use super::{decoding, encoding, CapsStoreFault};
use crate::caps::capability::GrantSet;
use crate::caps::wire;
use crate::caps::wire::WireSet;
use crate::caps::interner::InternTable;
use crate::caps::{CapabilitySet, FileMode, Interface, Method};
use crate::cbor;
use crate::order;
use crate::path;
use vstd::prelude::*;
use vstd::seq_lib::*;
use vstd::utf8::*;

verus! {

/// Grants whose paths are UTF-8 and whose texts and lists have lengths that a
/// CBOR head can hold.
pub open spec fn portable(w: WireSet) -> bool {
    &&& w.interfaces.len() <= u64::MAX
    &&& w.files.len() <= u64::MAX
    &&& w.dirs.len() <= u64::MAX
    &&& w.hosts.len() <= u64::MAX
    &&& forall|i: int| 0 <= i < w.files.len() ==> portable_path(#[trigger] w.files[i])
    &&& forall|i: int| 0 <= i < w.dirs.len() ==> portable_path(#[trigger] w.dirs[i])
    &&& forall|i: int| 0 <= i < w.hosts.len() ==> portable_host(#[trigger] w.hosts[i])
}

/// A path grant that CBOR can hold.
pub open spec fn portable_path(g: (Seq<u8>, FileMode)) -> bool {
    valid_utf8(g.0) && g.0.len() <= u64::MAX
}

/// A host grant that CBOR can hold.
pub open spec fn portable_host(h: (Seq<char>, Seq<Method>)) -> bool {
    encode_utf8(h.0).len() <= u64::MAX && h.1.len() <= u64::MAX
}

proof fn lemma_words()
    ensures
        encode_utf8("mode"@).len() == 4,
        encode_utf8("path"@).len() == 4,
        encode_utf8("authority"@).len() == 9,
        encode_utf8("methods"@).len() == 7,
        encode_utf8("dirs"@).len() == 4,
        encode_utf8("files"@).len() == 5,
        encode_utf8("hosts"@).len() == 5,
        encode_utf8("interfaces"@).len() == 10,
        "mode"@ != "path"@,
        "authority"@ != "methods"@,
        "dirs"@ != "files"@,
        "dirs"@ != "interfaces"@,
        "files"@ != "interfaces"@,
        "hosts"@ != "interfaces"@,
        "hosts"@ != "files"@,
        "hosts"@ != "dirs"@,
{
    reveal_strlit("mode");
    reveal_strlit("path");
    reveal_strlit("authority");
    reveal_strlit("methods");
    reveal_strlit("dirs");
    reveal_strlit("files");
    reveal_strlit("hosts");
    reveal_strlit("interfaces");
    is_ascii_chars_encode_utf8("mode"@);
    is_ascii_chars_encode_utf8("path"@);
    is_ascii_chars_encode_utf8("authority"@);
    is_ascii_chars_encode_utf8("methods"@);
    is_ascii_chars_encode_utf8("dirs"@);
    is_ascii_chars_encode_utf8("files"@);
    is_ascii_chars_encode_utf8("hosts"@);
    is_ascii_chars_encode_utf8("interfaces"@);
    assert("mode"@[0] == 'm' && "path"@[0] == 'p');
    assert("files"@[0] == 'f' && "hosts"@[0] == 'h');
}

proof fn lemma_names(i: Interface, f: FileMode, m: Method)
    ensures
        encode_utf8(super::interface_text(i)).len() <= 13,
        encode_utf8(super::mode_text(f)).len() <= 10,
        encode_utf8(super::method_text(m)).len() <= 6,
{
    reveal_strlit("stdio");
    reveal_strlit("clocks");
    reveal_strlit("random");
    reveal_strlit("filesystem");
    reveal_strlit("http_outbound");
    reveal_strlit("read");
    reveal_strlit("read_write");
    reveal_strlit("GET");
    reveal_strlit("HEAD");
    reveal_strlit("POST");
    reveal_strlit("PUT");
    reveal_strlit("PATCH");
    reveal_strlit("DELETE");
    is_ascii_chars_encode_utf8(super::interface_text(i));
    is_ascii_chars_encode_utf8(super::mode_text(f));
    is_ascii_chars_encode_utf8(super::method_text(m));
}

/// A text at a position is read back.
proof fn lemma_text_at(b: Seq<u8>, pos: nat, t: Seq<char>, rest: Seq<u8>)
    requires
        pos <= b.len(),
        encode_utf8(t).len() <= u64::MAX,
        cbor::from(b, pos) == cbor::text(t) + rest,
    ensures
        decoding::text_at(b, pos) == Ok::<(Seq<char>, nat), CapsStoreFault>(
            (t, pos + cbor::text(t).len()),
        ),
        pos + cbor::text(t).len() <= b.len(),
        cbor::from(b, pos + cbor::text(t).len()) == rest,
{
    cbor::lemma_get_str(b, pos, t, rest);
}

proof fn lemma_methods_front(s: Seq<Method>)
    requires
        s.len() > 0,
    ensures
        encoding::method_items(s) == cbor::text(super::method_text(s[0])) + encoding::method_items(
            s.skip(1),
        ),
    decreases s.len(),
{
    let t = cbor::text(super::method_text(s[0]));
    if s.len() == 1 {
        assert(s.drop_last() =~= Seq::<Method>::empty());
        assert(s.skip(1) =~= Seq::<Method>::empty());
        assert(Seq::<u8>::empty() + t =~= t + Seq::<u8>::empty());
    } else {
        lemma_methods_front(s.drop_last());
        assert(s.drop_last().skip(1) =~= s.skip(1).drop_last());
        let mid = encoding::method_items(s.skip(1).drop_last());
        let z = cbor::text(super::method_text(s.last()));
        assert((t + mid) + z =~= t + (mid + z));
    }
}

proof fn lemma_interfaces_front(s: Seq<Interface>)
    requires
        s.len() > 0,
    ensures
        encoding::interface_items(s) == cbor::text(super::interface_text(s[0]))
            + encoding::interface_items(s.skip(1)),
    decreases s.len(),
{
    let t = cbor::text(super::interface_text(s[0]));
    if s.len() == 1 {
        assert(s.drop_last() =~= Seq::<Interface>::empty());
        assert(s.skip(1) =~= Seq::<Interface>::empty());
        assert(Seq::<u8>::empty() + t =~= t + Seq::<u8>::empty());
    } else {
        lemma_interfaces_front(s.drop_last());
        assert(s.drop_last().skip(1) =~= s.skip(1).drop_last());
        let mid = encoding::interface_items(s.skip(1).drop_last());
        let z = cbor::text(super::interface_text(s.last()));
        assert((t + mid) + z =~= t + (mid + z));
    }
}

proof fn lemma_paths_front(s: Seq<(Seq<u8>, FileMode)>)
    requires
        s.len() > 0,
    ensures
        encoding::path_items(s) == encoding::path_item(s[0]) + encoding::path_items(s.skip(1)),
    decreases s.len(),
{
    let t = encoding::path_item(s[0]);
    if s.len() == 1 {
        assert(s.drop_last() =~= Seq::<(Seq<u8>, FileMode)>::empty());
        assert(s.skip(1) =~= Seq::<(Seq<u8>, FileMode)>::empty());
        assert(Seq::<u8>::empty() + t =~= t + Seq::<u8>::empty());
    } else {
        lemma_paths_front(s.drop_last());
        assert(s.drop_last().skip(1) =~= s.skip(1).drop_last());
        let mid = encoding::path_items(s.skip(1).drop_last());
        let z = encoding::path_item(s.last());
        assert((t + mid) + z =~= t + (mid + z));
    }
}

proof fn lemma_hosts_front(s: Seq<(Seq<char>, Seq<Method>)>)
    requires
        s.len() > 0,
    ensures
        encoding::host_items(s) == encoding::host_item(s[0]) + encoding::host_items(s.skip(1)),
    decreases s.len(),
{
    let t = encoding::host_item(s[0]);
    if s.len() == 1 {
        assert(s.drop_last() =~= Seq::<(Seq<char>, Seq<Method>)>::empty());
        assert(s.skip(1) =~= Seq::<(Seq<char>, Seq<Method>)>::empty());
        assert(Seq::<u8>::empty() + t =~= t + Seq::<u8>::empty());
    } else {
        lemma_hosts_front(s.drop_last());
        assert(s.drop_last().skip(1) =~= s.skip(1).drop_last());
        let mid = encoding::host_items(s.skip(1).drop_last());
        let z = encoding::host_item(s.last());
        assert((t + mid) + z =~= t + (mid + z));
    }
}

proof fn lemma_methods_at(
    b: Seq<u8>,
    pos: nat,
    s: Seq<Method>,
    before: Seq<Method>,
    rest: Seq<u8>,
)
    requires
        pos <= b.len(),
        cbor::from(b, pos) == encoding::method_items(s) + rest,
    ensures
        decoding::methods_at(b, pos, s.len(), before) == Ok::<(Seq<Method>, nat), CapsStoreFault>(
            (before + s, pos + encoding::method_items(s).len()),
        ),
        pos + encoding::method_items(s).len() <= b.len(),
        cbor::from(b, pos + encoding::method_items(s).len()) == rest,
    decreases s.len(),
{
    if s.len() == 0 {
        assert(before + s =~= before);
        assert(encoding::method_items(s) + rest =~= rest);
    } else {
        lemma_methods_front(s);
        lemma_names(Interface::Stdio, FileMode::Read, s[0]);
        super::names_round_trip(Interface::Stdio, FileMode::Read, s[0]);
        let t = super::method_text(s[0]);
        let tail = encoding::method_items(s.skip(1));
        assert(cbor::from(b, pos) =~= cbor::text(t) + (tail + rest));
        lemma_text_at(b, pos, t, tail + rest);
        lemma_methods_at(b, pos + cbor::text(t).len(), s.skip(1), before.push(s[0]), rest);
        assert(before.push(s[0]) + s.skip(1) =~= before + s);
    }
}

proof fn lemma_interfaces_at(
    b: Seq<u8>,
    pos: nat,
    s: Seq<Interface>,
    before: Seq<Interface>,
    rest: Seq<u8>,
)
    requires
        pos <= b.len(),
        cbor::from(b, pos) == encoding::interface_items(s) + rest,
    ensures
        decoding::interfaces_at(b, pos, s.len(), before) == Ok::<
            (Seq<Interface>, nat),
            CapsStoreFault,
        >((before + s, pos + encoding::interface_items(s).len())),
        pos + encoding::interface_items(s).len() <= b.len(),
        cbor::from(b, pos + encoding::interface_items(s).len()) == rest,
    decreases s.len(),
{
    if s.len() == 0 {
        assert(before + s =~= before);
        assert(encoding::interface_items(s) + rest =~= rest);
    } else {
        lemma_interfaces_front(s);
        lemma_names(s[0], FileMode::Read, Method::Get);
        super::names_round_trip(s[0], FileMode::Read, Method::Get);
        let t = super::interface_text(s[0]);
        let tail = encoding::interface_items(s.skip(1));
        assert(cbor::from(b, pos) =~= cbor::text(t) + (tail + rest));
        lemma_text_at(b, pos, t, tail + rest);
        lemma_interfaces_at(b, pos + cbor::text(t).len(), s.skip(1), before.push(s[0]), rest);
        assert(before.push(s[0]) + s.skip(1) =~= before + s);
    }
}

/// A path grant at a position is read back.
proof fn lemma_path_grant(b: Seq<u8>, pos: nat, g: (Seq<u8>, FileMode), rest: Seq<u8>)
    requires
        pos <= b.len(),
        portable_path(g),
        cbor::from(b, pos) == encoding::path_item(g) + rest,
    ensures
        decoding::path_grant(b, pos) == Ok::<((Seq<u8>, FileMode), nat), CapsStoreFault>(
            (g, pos + encoding::path_item(g).len()),
        ),
        pos + encoding::path_item(g).len() <= b.len(),
        cbor::from(b, pos + encoding::path_item(g).len()) == rest,
{
    let h = cbor::head(5, 2);
    let k1 = cbor::text("mode"@);
    let v1 = cbor::text(super::mode_text(g.1));
    let k2 = cbor::text("path"@);
    let v2 = cbor::text(decode_utf8(g.0));
    let r4 = v2 + rest;
    let r3 = k2 + r4;
    let r2 = v1 + r3;
    let r1 = k1 + r2;
    reveal(encoding::path_item);
    cbor::lemma_assoc(h + k1 + v1 + k2, v2, rest);
    cbor::lemma_assoc(h + k1 + v1, k2, r4);
    cbor::lemma_assoc(h + k1, v1, r3);
    cbor::lemma_assoc(h, k1, r2);
    lemma_words();
    lemma_names(Interface::Stdio, g.1, Method::Get);
    super::names_round_trip(Interface::Stdio, g.1, Method::Get);
    decode_utf8_encode_utf8(g.0);
    cbor::lemma_get_map(b, pos, 2, r1);
    let p1 = pos + h.len();
    lemma_text_at(b, p1, "mode"@, r2);
    let p2 = p1 + k1.len();
    lemma_text_at(b, p2, super::mode_text(g.1), r3);
    let p3 = p2 + v1.len();
    lemma_text_at(b, p3, "path"@, r4);
    let p4 = p3 + k2.len();
    lemma_text_at(b, p4, decode_utf8(g.0), rest);
    let q0 = PathParts { path: None, mode: None };
    let q1 = PathParts { mode: Some(g.1), ..q0 };
    let q2 = PathParts { path: Some(g.0), ..q1 };
    let end = p4 + v2.len();
    assert(decoding::path_entries(b, end, 0, q2) == Ok::<(PathParts, nat), CapsStoreFault>((q2, end)));
    assert(decoding::path_value(b, p4, "path"@, q1) == Ok::<(PathParts, nat), CapsStoreFault>(
        (q2, end),
    ));
    assert(decoding::path_entries(b, p3, 1, q1) == decoding::path_entries(b, end, 0, q2));
    assert(decoding::path_value(b, p2, "mode"@, q0) == Ok::<(PathParts, nat), CapsStoreFault>(
        (q1, p3),
    ));
    assert(decoding::path_entries(b, p1, 2, q0) == decoding::path_entries(b, p3, 1, q1));
    assert(encoding::path_item(g).len() == h.len() + k1.len() + v1.len() + k2.len() + v2.len());
}

proof fn lemma_path_grants(
    b: Seq<u8>,
    pos: nat,
    s: Seq<(Seq<u8>, FileMode)>,
    before: Seq<(Seq<u8>, FileMode)>,
    rest: Seq<u8>,
)
    requires
        pos <= b.len(),
        forall|i: int| 0 <= i < s.len() ==> portable_path(#[trigger] s[i]),
        cbor::from(b, pos) == encoding::path_items(s) + rest,
    ensures
        decoding::path_grants(b, pos, s.len(), before) == Ok::<
            (Seq<(Seq<u8>, FileMode)>, nat),
            CapsStoreFault,
        >((before + s, pos + encoding::path_items(s).len())),
        pos + encoding::path_items(s).len() <= b.len(),
        cbor::from(b, pos + encoding::path_items(s).len()) == rest,
    decreases s.len(),
{
    if s.len() == 0 {
        assert(before + s =~= before);
        assert(encoding::path_items(s) + rest =~= rest);
    } else {
        lemma_paths_front(s);
        let t = encoding::path_item(s[0]);
        let tail = encoding::path_items(s.skip(1));
        cbor::lemma_assoc(t, tail, rest);
        lemma_path_grant(b, pos, s[0], tail + rest);
        assert forall|i: int| 0 <= i < s.skip(1).len() implies portable_path(
            #[trigger] s.skip(1)[i],
        ) by {
            assert(s.skip(1)[i] == s[i + 1]);
        }
        lemma_path_grants(b, pos + t.len(), s.skip(1), before.push(s[0]), rest);
        assert(before.push(s[0]) + s.skip(1) =~= before + s);
    }
}

/// A host grant at a position is read back.
proof fn lemma_host_grant(b: Seq<u8>, pos: nat, g: (Seq<char>, Seq<Method>), rest: Seq<u8>)
    requires
        pos <= b.len(),
        portable_host(g),
        cbor::from(b, pos) == encoding::host_item(g) + rest,
    ensures
        decoding::host_grant(b, pos) == Ok::<((Seq<char>, Seq<Method>), nat), CapsStoreFault>(
            (g, pos + encoding::host_item(g).len()),
        ),
        pos + encoding::host_item(g).len() <= b.len(),
        cbor::from(b, pos + encoding::host_item(g).len()) == rest,
{
    let h = cbor::head(5, 2);
    let k1 = cbor::text("authority"@);
    let v1 = cbor::text(g.0);
    let k2 = cbor::text("methods"@);
    let c = cbor::head(4, g.1.len());
    let v2 = encoding::method_items(g.1);
    let r5 = v2 + rest;
    let r4 = c + r5;
    let r3 = k2 + r4;
    let r2 = v1 + r3;
    let r1 = k1 + r2;
    reveal(encoding::host_item);
    cbor::lemma_assoc(h + k1 + v1 + k2 + c, v2, rest);
    cbor::lemma_assoc(h + k1 + v1 + k2, c, r5);
    cbor::lemma_assoc(h + k1 + v1, k2, r4);
    cbor::lemma_assoc(h + k1, v1, r3);
    cbor::lemma_assoc(h, k1, r2);
    lemma_words();
    cbor::lemma_get_map(b, pos, 2, r1);
    let p1 = pos + h.len();
    lemma_text_at(b, p1, "authority"@, r2);
    let p2 = p1 + k1.len();
    lemma_text_at(b, p2, g.0, r3);
    let p3 = p2 + v1.len();
    lemma_text_at(b, p3, "methods"@, r4);
    let p4 = p3 + k2.len();
    cbor::lemma_get_array(b, p4, g.1.len(), r5);
    let p5 = p4 + c.len();
    lemma_methods_at(b, p5, g.1, Seq::empty(), rest);
    assert(Seq::<Method>::empty() + g.1 =~= g.1);
    let q0 = HostParts { authority: None, methods: None };
    let q1 = HostParts { authority: Some(g.0), ..q0 };
    let q2 = HostParts { methods: Some(g.1), ..q1 };
    let end = p5 + v2.len();
    assert(decoding::host_entries(b, end, 0, q2) == Ok::<(HostParts, nat), CapsStoreFault>((q2, end)));
    assert(decoding::host_value(b, p4, "methods"@, q1) == Ok::<(HostParts, nat), CapsStoreFault>(
        (q2, end),
    ));
    assert(decoding::host_entries(b, p3, 1, q1) == decoding::host_entries(b, end, 0, q2));
    assert(decoding::host_value(b, p2, "authority"@, q0) == Ok::<(HostParts, nat), CapsStoreFault>(
        (q1, p3),
    ));
    assert(decoding::host_entries(b, p1, 2, q0) == decoding::host_entries(b, p3, 1, q1));
    assert(encoding::host_item(g).len() == h.len() + k1.len() + v1.len() + k2.len() + c.len()
        + v2.len());
}

proof fn lemma_host_grants(
    b: Seq<u8>,
    pos: nat,
    s: Seq<(Seq<char>, Seq<Method>)>,
    before: Seq<(Seq<char>, Seq<Method>)>,
    rest: Seq<u8>,
)
    requires
        pos <= b.len(),
        forall|i: int| 0 <= i < s.len() ==> portable_host(#[trigger] s[i]),
        cbor::from(b, pos) == encoding::host_items(s) + rest,
    ensures
        decoding::host_grants(b, pos, s.len(), before) == Ok::<
            (Seq<(Seq<char>, Seq<Method>)>, nat),
            CapsStoreFault,
        >((before + s, pos + encoding::host_items(s).len())),
        pos + encoding::host_items(s).len() <= b.len(),
        cbor::from(b, pos + encoding::host_items(s).len()) == rest,
    decreases s.len(),
{
    if s.len() == 0 {
        assert(before + s =~= before);
        assert(encoding::host_items(s) + rest =~= rest);
    } else {
        lemma_hosts_front(s);
        let t = encoding::host_item(s[0]);
        let tail = encoding::host_items(s.skip(1));
        cbor::lemma_assoc(t, tail, rest);
        lemma_host_grant(b, pos, s[0], tail + rest);
        assert forall|i: int| 0 <= i < s.skip(1).len() implies portable_host(
            #[trigger] s.skip(1)[i],
        ) by {
            assert(s.skip(1)[i] == s[i + 1]);
        }
        lemma_host_grants(b, pos + t.len(), s.skip(1), before.push(s[0]), rest);
        assert(before.push(s[0]) + s.skip(1) =~= before + s);
    }
}

/// What follows a list's key and count.
proof fn lemma_list(b: Seq<u8>, pos: nat, key: Seq<char>, n: nat, body: Seq<u8>, rest: Seq<u8>)
    requires
        pos <= b.len(),
        n <= u64::MAX,
        encode_utf8(key).len() <= u64::MAX,
        cbor::from(b, pos) == (cbor::text(key) + (cbor::head(4, n) + body)) + rest,
    ensures
        decoding::text_at(b, pos) == Ok::<(Seq<char>, nat), CapsStoreFault>(
            (key, pos + cbor::text(key).len()),
        ),
        decoding::array_count(b, pos + cbor::text(key).len()) == Ok::<(nat, nat), CapsStoreFault>(
            (n, pos + cbor::text(key).len() + cbor::head(4, n).len()),
        ),
        pos + cbor::text(key).len() + cbor::head(4, n).len() <= b.len(),
        cbor::from(b, pos + cbor::text(key).len() + cbor::head(4, n).len()) == body + rest,
{
    let t = cbor::text(key);
    let c = cbor::head(4, n);
    assert((t + (c + body)) + rest =~= t + (c + (body + rest)));
    lemma_text_at(b, pos, key, c + (body + rest));
    cbor::lemma_get_array(b, pos + t.len(), n, body + rest);
}

/// What reading the bytes of grants gives with further bytes behind them.
pub open spec fn read_before(w: WireSet, e: Seq<u8>) -> Result<WireSet, CapsStoreFault> {
    if e.len() == 0 {
        Ok(w)
    } else {
        Err(CapsStoreFault::Structure("trailing "@ + crate::text::decimal(e.len()) + " bytes"@))
    }
}

/// Grants read back from their bytes, in the order written.
pub proof fn wire_bytes_round_trip(w: WireSet)
    requires
        portable(w),
    ensures
        decoding::decoded_wire(encoding::wire_bytes(w)) == Ok::<WireSet, CapsStoreFault>(w),
{
    let e = Seq::<u8>::empty();
    lemma_wire_bytes(w, e);
    assert(encoding::wire_bytes(w) + e =~= encoding::wire_bytes(w));
}

#[verifier::spinoff_prover]
proof fn lemma_wire_bytes(w: WireSet, e: Seq<u8>)
    requires
        portable(w),
    ensures
        decoding::decoded_wire(encoding::wire_bytes(w) + e) == read_before(w, e),
{
    let b = encoding::wire_bytes(w) + e;
    let h = cbor::head(5, 4);
    let d = cbor::text("dirs"@) + (cbor::head(4, w.dirs.len()) + encoding::path_items(w.dirs));
    let f = cbor::text("files"@) + (cbor::head(4, w.files.len()) + encoding::path_items(w.files));
    let o = cbor::text("hosts"@) + (cbor::head(4, w.hosts.len()) + encoding::host_items(w.hosts));
    let i = cbor::text("interfaces"@) + (cbor::head(4, w.interfaces.len())
        + encoding::interface_items(w.interfaces));
    let r3 = i + e;
    let r2 = o + r3;
    let r1 = f + r2;
    let r0 = d + r1;
    lemma_words();
    cbor::lemma_assoc(h + d + f + o, i, e);
    cbor::lemma_assoc(h + d + f, o, r3);
    cbor::lemma_assoc(h + d, f, r2);
    cbor::lemma_assoc(h, d, r1);
    assert(cbor::from(b, 0) =~= b);
    cbor::lemma_get_map(b, 0, 4, r0);
    let w0 = decoding::no_grants();
    let w1 = WireSet { dirs: w.dirs, ..w0 };
    let w2 = WireSet { files: w.files, ..w1 };
    let w3 = WireSet { hosts: w.hosts, ..w2 };
    let p0 = h.len();
    lemma_list(b, p0, "dirs"@, w.dirs.len(), encoding::path_items(w.dirs), r1);
    let m0 = p0 + cbor::text("dirs"@).len() + cbor::head(4, w.dirs.len()).len();
    lemma_path_grants(b, m0, w.dirs, Seq::empty(), r1);
    assert(Seq::<(Seq<u8>, FileMode)>::empty() + w.dirs =~= w.dirs);
    let p1 = m0 + encoding::path_items(w.dirs).len();
    lemma_list(b, p1, "files"@, w.files.len(), encoding::path_items(w.files), r2);
    let m1 = p1 + cbor::text("files"@).len() + cbor::head(4, w.files.len()).len();
    lemma_path_grants(b, m1, w.files, Seq::empty(), r2);
    assert(Seq::<(Seq<u8>, FileMode)>::empty() + w.files =~= w.files);
    let p2 = m1 + encoding::path_items(w.files).len();
    lemma_list(b, p2, "hosts"@, w.hosts.len(), encoding::host_items(w.hosts), r3);
    let m2 = p2 + cbor::text("hosts"@).len() + cbor::head(4, w.hosts.len()).len();
    lemma_host_grants(b, m2, w.hosts, Seq::empty(), r3);
    assert(Seq::<(Seq<char>, Seq<Method>)>::empty() + w.hosts =~= w.hosts);
    let p3 = m2 + encoding::host_items(w.hosts).len();
    lemma_list(b, p3, "interfaces"@, w.interfaces.len(), encoding::interface_items(w.interfaces), e);
    let m3 = p3 + cbor::text("interfaces"@).len() + cbor::head(4, w.interfaces.len()).len();
    lemma_interfaces_at(b, m3, w.interfaces, Seq::empty(), e);
    assert(Seq::<Interface>::empty() + w.interfaces =~= w.interfaces);
    let p4 = m3 + encoding::interface_items(w.interfaces).len();
    assert(decoding::set_entries(b, p4, 0, w) == Ok::<(WireSet, nat), CapsStoreFault>((w, p4)));
    assert(decoding::set_value(b, p3 + cbor::text("interfaces"@).len(), "interfaces"@, w3) == Ok::<
        (WireSet, nat),
        CapsStoreFault,
    >((w, p4)));
    assert(decoding::set_entries(b, p3, 1, w3) == decoding::set_entries(b, p4, 0, w));
    assert(decoding::set_value(b, p2 + cbor::text("hosts"@).len(), "hosts"@, w2) == Ok::<
        (WireSet, nat),
        CapsStoreFault,
    >((w3, p3)));
    assert(decoding::set_entries(b, p2, 2, w2) == decoding::set_entries(b, p3, 1, w3));
    assert(decoding::set_value(b, p1 + cbor::text("files"@).len(), "files"@, w1) == Ok::<
        (WireSet, nat),
        CapsStoreFault,
    >((w2, p2)));
    assert(decoding::set_entries(b, p1, 3, w1) == decoding::set_entries(b, p2, 2, w2));
    assert(decoding::set_value(b, p0 + cbor::text("dirs"@).len(), "dirs"@, w0) == Ok::<
        (WireSet, nat),
        CapsStoreFault,
    >((w1, p1)));
    assert(decoding::set_entries(b, p0, 4, w0) == decoding::set_entries(b, p1, 3, w1));
    assert(cbor::from(b, p4) == e);
    assert(p4 + e.len() == b.len());
}

/// A set in order whose ids are ids of its table.
pub open spec fn sound(g: GrantSet) -> bool {
    g.ordered() && g.resolves() && crate::caps::interner::distinct(g.table)
}

/// The same interfaces, and the same paths and authorities spelled the same,
/// with the same modes and methods, in whatever order and under whatever ids.
pub open spec fn same_texts(a: GrantSet, b: GrantSet) -> bool {
    let x = wire::wire_of(a);
    let y = wire::wire_of(b);
    &&& a.bits == b.bits
    &&& order::same_items(x.files, y.files)
    &&& order::same_items(x.dirs, y.dirs)
    &&& order::same_items(x.hosts, y.hosts)
}

proof fn lemma_same_utf8(x: Seq<(Seq<u8>, FileMode)>, y: Seq<(Seq<u8>, FileMode)>)
    requires
        order::same_items(x, y),
        encoding::first_non_utf8(x) is None,
    ensures
        encoding::first_non_utf8(y) is None,
{
    encoding::lemma_all_utf8(x);
    encoding::lemma_all_utf8(y);
    assert forall|i: int| 0 <= i < y.len() implies valid_utf8((#[trigger] y[i]).0) by {
        assert(y.contains(y[i]));
        assert(x.contains(y[i]));
        let k = choose|k: int| 0 <= k < x.len() && x[k] == y[i];
        assert(valid_utf8(x[k].0));
    }
}

proof fn lemma_same_items_flip<A>(a: Seq<A>, b: Seq<A>)
    requires
        order::same_items(a, b),
    ensures
        order::same_items(b, a),
{
}

proof fn lemma_same_items_trans<A>(a: Seq<A>, b: Seq<A>, c: Seq<A>)
    requires
        order::same_items(a, b),
        order::same_items(b, c),
    ensures
        order::same_items(a, c),
{
    assert forall|x: A|
        #![trigger a.contains(x)]
        #![trigger c.contains(x)]
        a.contains(x) <==> c.contains(x) by {
        assert(a.contains(x) <==> b.contains(x));
    }
}

/// A sound set with grants has a table.
proof fn lemma_table_used(g: GrantSet)
    requires
        sound(g),
        g.files.len() > 0 || g.dirs.len() > 0 || g.hosts.len() > 0,
    ensures
        !g.table.is_empty(),
{
    if g.files.len() > 0 {
        assert(g.files[0].spec_path() < g.table.paths.len());
    } else if g.dirs.len() > 0 {
        assert(g.dirs[0].spec_root() < g.table.paths.len());
    } else {
        assert(g.hosts[0].spec_authority() < g.table.authorities.len());
    }
}

/// Sets that grant the same give the same bytes, hence the same hash, whatever
/// the order of their grants and the ids in their tables.
pub proof fn same_texts_same_bytes(a: GrantSet, b: GrantSet)
    requires
        sound(a),
        sound(b),
        same_texts(a, b),
    ensures
        encoding::encoded_set(a) is Ok <==> encoding::encoded_set(b) is Ok,
        encoding::encoded_set(a) is Ok ==> encoding::encoded_set(a) == encoding::encoded_set(b),
{
    let x = wire::wire_of(a);
    let y = wire::wire_of(b);
    lemma_same_items_flip(x.files, y.files);
    lemma_same_items_flip(x.dirs, y.dirs);
    lemma_same_items_flip(x.hosts, y.hosts);
    if encoding::encoded_set(a) is Ok {
        lemma_ok_moves(a, b);
    } else if encoding::encoded_set(b) is Ok {
        lemma_ok_moves(b, a);
    }
}

proof fn lemma_ok_moves(a: GrantSet, b: GrantSet)
    requires
        sound(a),
        sound(b),
        same_texts(a, b),
        encoding::encoded_set(a) is Ok,
    ensures
        encoding::encoded_set(a) == encoding::encoded_set(b),
{
    let x = wire::wire_of(a);
    let y = wire::wire_of(b);
    if y.files.len() > 0 || y.dirs.len() > 0 || y.hosts.len() > 0 {
        lemma_table_used(b);
    }
    lemma_same_utf8(x.files, y.files);
    lemma_same_utf8(x.dirs, y.dirs);
    encoding::lemma_distinct_grants(a);
    encoding::lemma_distinct_grants(b);
    order::lemma_arranged_same(x.files, y.files, encoding::path_key());
    order::lemma_arranged_same(x.dirs, y.dirs, encoding::path_key());
    order::lemma_arranged_same(x.hosts, y.hosts, encoding::host_key());
}

/// Each path is found in the table under its own spelling. (Two spellings of
/// one path, such as `/a` and `/a/`, share an id and so a spelling.)
pub open spec fn spelled(w: WireSet) -> bool {
    let t = w.table().paths;
    &&& forall|i: int|
        0 <= i < w.files.len() ==> t[crate::caps::interner::path_index(
            t,
            (#[trigger] w.files[i]).0,
        ) as int] == w.files[i].0
    &&& forall|i: int|
        0 <= i < w.dirs.len() ==> t[crate::caps::interner::path_index(
            t,
            (#[trigger] w.dirs[i]).0,
        ) as int] == w.dirs[i].0
}

/// Sorted grants are the same grants.
proof fn lemma_sorted_wire(g: GrantSet)
    requires
        sound(g),
    ensures
        ({
            let w = wire::wire_of(g);
            let s = encoding::sorted_wire(w);
            &&& order::same_items(s.files, w.files)
            &&& order::same_items(s.dirs, w.dirs)
            &&& order::same_items(s.hosts, w.hosts)
            &&& wire::lists_once(s)
            &&& w.files.len() == 0 ==> s.files.len() == 0
            &&& w.dirs.len() == 0 ==> s.dirs.len() == 0
            &&& w.hosts.len() == 0 ==> s.hosts.len() == 0
        }),
{
    let w = wire::wire_of(g);
    let s = encoding::sorted_wire(w);
    encoding::lemma_distinct_grants(g);
    order::lemma_arranged(w.files, encoding::path_key());
    order::lemma_arranged(w.dirs, encoding::path_key());
    order::lemma_arranged(w.hosts, encoding::host_key());
    wire::lemma_lists_once(g);
    if w.files.len() == 0 && s.files.len() > 0 {
        assert(s.files.contains(s.files[0]));
    }
    if w.dirs.len() == 0 && s.dirs.len() > 0 {
        assert(s.dirs.contains(s.dirs[0]));
    }
    if w.hosts.len() == 0 && s.hosts.len() > 0 {
        assert(s.hosts.contains(s.hosts[0]));
    }
    assert forall|i: int, j: int|
        0 <= i < s.files.len() && 0 <= j < s.files.len() && path::components(
            (#[trigger] s.files[i]).0,
        ) == path::components((#[trigger] s.files[j]).0) implies i == j by {
        assert(s.files.contains(s.files[i]));
        assert(s.files.contains(s.files[j]));
        let a = choose|a: int| 0 <= a < w.files.len() && w.files[a] == s.files[i];
        let b = choose|b: int| 0 <= b < w.files.len() && w.files[b] == s.files[j];
        assert(path::components(w.files[a].0) == path::components(w.files[b].0));
        order::lemma_before_irreflexive(s.files[i].0);
        if i < j {
            assert(order::before(
                encoding::path_key()(s.files[i]),
                encoding::path_key()(s.files[j]),
            ));
        } else if j < i {
            assert(order::before(
                encoding::path_key()(s.files[j]),
                encoding::path_key()(s.files[i]),
            ));
        }
    }
    assert forall|i: int, j: int|
        0 <= i < s.dirs.len() && 0 <= j < s.dirs.len() && path::components(
            (#[trigger] s.dirs[i]).0,
        ) == path::components((#[trigger] s.dirs[j]).0) implies i == j by {
        assert(s.dirs.contains(s.dirs[i]));
        assert(s.dirs.contains(s.dirs[j]));
        let a = choose|a: int| 0 <= a < w.dirs.len() && w.dirs[a] == s.dirs[i];
        let b = choose|b: int| 0 <= b < w.dirs.len() && w.dirs[b] == s.dirs[j];
        assert(path::components(w.dirs[a].0) == path::components(w.dirs[b].0));
        order::lemma_before_irreflexive(s.dirs[i].0);
        if i < j {
            assert(order::before(
                encoding::path_key()(s.dirs[i]),
                encoding::path_key()(s.dirs[j]),
            ));
        } else if j < i {
            assert(order::before(
                encoding::path_key()(s.dirs[j]),
                encoding::path_key()(s.dirs[i]),
            ));
        }
    }
    assert forall|i: int, j: int|
        0 <= i < s.hosts.len() && 0 <= j < s.hosts.len() && (#[trigger] s.hosts[i]).0 == (
        #[trigger] s.hosts[j]).0 implies i == j by {
        order::lemma_before_irreflexive(encode_utf8(s.hosts[i].0));
        if i < j {
            assert(order::before(
                encoding::host_key()(s.hosts[i]),
                encoding::host_key()(s.hosts[j]),
            ));
        } else if j < i {
            assert(order::before(
                encoding::host_key()(s.hosts[j]),
                encoding::host_key()(s.hosts[i]),
            ));
        }
    }
}

/// What is built of interned grants is sound.
pub proof fn lemma_built_sound(w: WireSet, r: GrantSet)
    requires
        w.fits(),
        w.built_as(r),
    ensures
        sound(r),
{
    let mid = crate::caps::interner::with_paths(Seq::empty(), wire::path_texts(w.files));
    crate::caps::interner::lemma_with_paths_sound(Seq::empty(), wire::path_texts(w.files));
    crate::caps::interner::lemma_with_paths_sound(mid, wire::path_texts(w.dirs));
    crate::caps::interner::lemma_with_authorities_sound(Seq::empty(), w.names());
    crate::caps::interner::lemma_sound(w.table());
    assert forall|i: int| 0 <= i < r.files.len() implies (#[trigger] r.files[i]).spec_path()
        < r.table.paths.len() by {
        let k = wire::lemma_wire_file(w, r, i);
    }
    assert forall|i: int| 0 <= i < r.dirs.len() implies (#[trigger] r.dirs[i]).spec_root()
        < r.table.paths.len() by {
        let k = wire::lemma_wire_dir(w, r, i);
    }
    assert forall|i: int| 0 <= i < r.hosts.len() implies (#[trigger] r.hosts[i]).spec_authority()
        < r.table.authorities.len() by {
        let k = wire::lemma_wire_host(w, r, i);
    }
}

/// The grants of what is built of `w` are the grants of `w`.
proof fn lemma_built_items(w: WireSet, r: GrantSet)
    requires
        w.fits(),
        w.built_as(r),
        spelled(w),
        forall|i: int|
            0 <= i < w.hosts.len() ==> (#[trigger] w.hosts[i]).1 == crate::caps::grants::methods_of(
                crate::caps::grants::mask_of(w.hosts[i].1),
            ),
    ensures
        order::same_items(wire::wire_of(r).files, w.files),
        order::same_items(wire::wire_of(r).dirs, w.dirs),
        order::same_items(wire::wire_of(r).hosts, w.hosts),
{
    let x = wire::wire_of(r);
    assert forall|g: (Seq<u8>, FileMode)|
        #![trigger x.files.contains(g)]
        #![trigger w.files.contains(g)]
        x.files.contains(g) <==> w.files.contains(g) by {
        if x.files.contains(g) {
            let i = choose|i: int| 0 <= i < x.files.len() && x.files[i] == g;
            let k = wire::lemma_wire_file(w, r, i);
            wire::lemma_wire_file_id(w, k);
            assert(w.files[k] == g);
        }
        if w.files.contains(g) {
            let k = choose|k: int| 0 <= k < w.files.len() && w.files[k] == g;
            wire::lemma_wire_file_id(w, k);
            let f = w.file_grants()[k];
            assert(w.file_grants().contains(f));
            to_multiset_contains(w.file_grants(), f);
            to_multiset_contains(r.files, f);
            let i = choose|i: int| 0 <= i < r.files.len() && r.files[i] == f;
            assert(x.files[i] == g);
        }
    }
    assert forall|g: (Seq<u8>, FileMode)|
        #![trigger x.dirs.contains(g)]
        #![trigger w.dirs.contains(g)]
        x.dirs.contains(g) <==> w.dirs.contains(g) by {
        if x.dirs.contains(g) {
            let i = choose|i: int| 0 <= i < x.dirs.len() && x.dirs[i] == g;
            let k = wire::lemma_wire_dir(w, r, i);
            wire::lemma_wire_dir_id(w, k);
            assert(w.dirs[k] == g);
        }
        if w.dirs.contains(g) {
            let k = choose|k: int| 0 <= k < w.dirs.len() && w.dirs[k] == g;
            wire::lemma_wire_dir_id(w, k);
            let f = w.dir_grants()[k];
            assert(w.dir_grants().contains(f));
            to_multiset_contains(w.dir_grants(), f);
            to_multiset_contains(r.dirs, f);
            let i = choose|i: int| 0 <= i < r.dirs.len() && r.dirs[i] == f;
            assert(x.dirs[i] == g);
        }
    }
    assert forall|g: (Seq<char>, Seq<Method>)|
        #![trigger x.hosts.contains(g)]
        #![trigger w.hosts.contains(g)]
        x.hosts.contains(g) <==> w.hosts.contains(g) by {
        if x.hosts.contains(g) {
            let i = choose|i: int| 0 <= i < x.hosts.len() && x.hosts[i] == g;
            let k = wire::lemma_wire_host(w, r, i);
            assert(w.hosts[k] == g);
        }
        if w.hosts.contains(g) {
            let k = choose|k: int| 0 <= k < w.hosts.len() && w.hosts[k] == g;
            wire::lemma_wire_host_id(w, k);
            let f = w.host_grants()[k];
            assert(w.host_grants().contains(f));
            to_multiset_contains(w.host_grants(), f);
            to_multiset_contains(r.hosts, f);
            let i = choose|i: int| 0 <= i < r.hosts.len() && r.hosts[i] == f;
            assert(x.hosts[i] == g);
        }
    }
}

/// A sound set whose table holds with every path its ancestors and is numbered
/// by 32 bits, with known interfaces and methods. Every capability set whose
/// ids resolve is minted.
pub open spec fn minted(g: GrantSet) -> bool {
    &&& sound(g)
    &&& g.table.closed_upward()
    &&& g.table.paths.len() <= crate::caps::interner::id_space()
    &&& g.table.authorities.len() <= crate::caps::interner::id_space()
    &&& g.known_bits()
    &&& g.known_methods()
}

/// A capability set whose ids resolve is minted.
pub proof fn lemma_minted(set: CapabilitySet)
    requires
        set.wf(),
        set@.resolves(),
    ensures
        minted(set@),
{
    set.lemma_wf();
}

/// The set has bytes, no more than a machine can hold.
pub open spec fn encodes(g: GrantSet) -> bool {
    encoding::encoded_set(g) matches Ok(b) && b.len() <= u64::MAX
}

proof fn lemma_head_room(major: nat, n: nat)
    ensures
        cbor::head(major, n).len() >= 1,
{
}

proof fn lemma_paths_room(s: Seq<(Seq<u8>, FileMode)>)
    requires
        forall|i: int| 0 <= i < s.len() ==> valid_utf8((#[trigger] s[i]).0),
    ensures
        s.len() <= encoding::path_items(s).len(),
        forall|i: int|
            0 <= i < s.len() ==> (#[trigger] s[i]).0.len() <= encoding::path_items(s).len(),
    decreases s.len(),
{
    if s.len() > 0 {
        let d = s.drop_last();
        assert forall|i: int| 0 <= i < d.len() implies valid_utf8((#[trigger] d[i]).0) by {
            assert(d[i] == s[i]);
        }
        lemma_paths_room(d);
        assert(valid_utf8(s[s.len() - 1].0));
        reveal(encoding::path_item);
        decode_utf8_encode_utf8(s.last().0);
        lemma_head_room(5, 2);
        assert(encoding::path_item(s.last()).len() >= 1 + s.last().0.len());
        assert forall|i: int| 0 <= i < s.len() implies (#[trigger] s[i]).0.len()
            <= encoding::path_items(s).len() by {
            if i < d.len() {
                assert(d[i] == s[i]);
            }
        }
    }
}

proof fn lemma_methods_room(s: Seq<Method>)
    ensures
        s.len() <= encoding::method_items(s).len(),
    decreases s.len(),
{
    if s.len() > 0 {
        lemma_methods_room(s.drop_last());
        lemma_head_room(3, encode_utf8(super::method_text(s.last())).len());
    }
}

proof fn lemma_interfaces_room(s: Seq<Interface>)
    ensures
        s.len() <= encoding::interface_items(s).len(),
    decreases s.len(),
{
    if s.len() > 0 {
        lemma_interfaces_room(s.drop_last());
        lemma_head_room(3, encode_utf8(super::interface_text(s.last())).len());
    }
}

proof fn lemma_hosts_room(s: Seq<(Seq<char>, Seq<Method>)>)
    ensures
        s.len() <= encoding::host_items(s).len(),
        forall|i: int|
            0 <= i < s.len() ==> encode_utf8((#[trigger] s[i]).0).len() <= encoding::host_items(
                s,
            ).len() && s[i].1.len() <= encoding::host_items(s).len(),
    decreases s.len(),
{
    if s.len() > 0 {
        let d = s.drop_last();
        lemma_hosts_room(d);
        reveal(encoding::host_item);
        lemma_head_room(5, 2);
        lemma_methods_room(s.last().1);
        assert(encoding::host_item(s.last()).len() >= 1 + encode_utf8(s.last().0).len()
            + s.last().1.len());
        assert forall|i: int| 0 <= i < s.len() implies encode_utf8((#[trigger] s[i]).0).len()
            <= encoding::host_items(s).len() && s[i].1.len() <= encoding::host_items(s).len() by {
            if i < d.len() {
                assert(d[i] == s[i]);
            }
        }
    }
}

/// What takes no more bytes than a machine can hold has no longer text or list.
proof fn lemma_portable(g: GrantSet)
    requires
        sound(g),
        encodes(g),
    ensures
        portable(encoding::sorted_wire(wire::wire_of(g))),
{
    let w = wire::wire_of(g);
    let s = encoding::sorted_wire(w);
    lemma_sorted_wire(g);
    encoding::lemma_all_utf8(w.files);
    encoding::lemma_all_utf8(w.dirs);
    assert forall|i: int| 0 <= i < s.files.len() implies valid_utf8((#[trigger] s.files[i]).0) by {
        assert(s.files.contains(s.files[i]));
        assert(w.files.contains(s.files[i]));
        let k = choose|k: int| 0 <= k < w.files.len() && w.files[k] == s.files[i];
        assert(valid_utf8(w.files[k].0));
    }
    assert forall|i: int| 0 <= i < s.dirs.len() implies valid_utf8((#[trigger] s.dirs[i]).0) by {
        assert(s.dirs.contains(s.dirs[i]));
        assert(w.dirs.contains(s.dirs[i]));
        let k = choose|k: int| 0 <= k < w.dirs.len() && w.dirs[k] == s.dirs[i];
        assert(valid_utf8(w.dirs[k].0));
    }
    lemma_paths_room(s.files);
    lemma_paths_room(s.dirs);
    lemma_hosts_room(s.hosts);
    lemma_interfaces_room(s.interfaces);
}

/// Every path of `xs` is in `t`.
spec fn paths_within(xs: Seq<Seq<u8>>, t: Seq<Seq<u8>>) -> bool {
    forall|i: int| 0 <= i < xs.len() ==> crate::caps::interner::has_path(t, #[trigger] xs[i])
}

/// Interning a path of a table adds nothing that the table does not hold.
proof fn lemma_path_within(paths: Seq<Seq<u8>>, p: Seq<u8>, t: InternTable)
    requires
        t.closed_upward(),
        paths_within(paths, t.paths),
        crate::caps::interner::has_path(t.paths, p),
    ensures
        paths_within(crate::caps::interner::with_path(paths, p), t.paths),
    decreases p.len(),
{
    if !crate::caps::interner::has_path(paths, p) {
        path::lemma_parent(p);
        match path::parent(p) {
            Some(q) => {
                if q.len() > 0 {
                    path::lemma_no_components(q);
                    let cs = path::components(p);
                    let k = choose|k: int| crate::caps::interner::names_path(t.paths, k, p);
                    let n = cs.len() - 1;
                    assert(cs.drop_last() =~= cs.take(n));
                    assert(0 < n < path::components(t.paths[k]).len());
                    let j = choose|j: int|
                        0 <= j < t.paths.len() && path::components(#[trigger] t.paths[j])
                            == path::components(t.paths[k]).take(n);
                    assert(crate::caps::interner::names_path(t.paths, j, q));
                    lemma_path_within(paths, q, t);
                    let front = crate::caps::interner::with_path(paths, q);
                    assert(crate::caps::interner::with_path(paths, p) == front.push(p));
                    lemma_within_push(front, p, t.paths);
                } else {
                    lemma_within_push(paths, p, t.paths);
                }
            },
            None => {
                lemma_within_push(paths, p, t.paths);
            },
        }
    }
}

proof fn lemma_within_push(xs: Seq<Seq<u8>>, p: Seq<u8>, t: Seq<Seq<u8>>)
    requires
        paths_within(xs, t),
        crate::caps::interner::has_path(t, p),
    ensures
        paths_within(xs.push(p), t),
{
    assert forall|i: int| 0 <= i < xs.push(p).len() implies crate::caps::interner::has_path(
        t,
        #[trigger] xs.push(p)[i],
    ) by {
        if i < xs.len() {
            assert(xs.push(p)[i] == xs[i]);
        }
    }
}

proof fn lemma_paths_within(paths: Seq<Seq<u8>>, ps: Seq<Seq<u8>>, t: InternTable)
    requires
        t.closed_upward(),
        paths_within(paths, t.paths),
        paths_within(ps, t.paths),
    ensures
        paths_within(crate::caps::interner::with_paths(paths, ps), t.paths),
    decreases ps.len(),
{
    if ps.len() > 0 {
        let d = ps.drop_last();
        assert forall|i: int| 0 <= i < d.len() implies crate::caps::interner::has_path(
            t.paths,
            #[trigger] d[i],
        ) by {
            assert(d[i] == ps[i]);
        }
        lemma_paths_within(paths, d, t);
        assert(crate::caps::interner::has_path(t.paths, ps[ps.len() - 1]));
        lemma_path_within(crate::caps::interner::with_paths(paths, d), ps.last(), t);
    }
}

/// Paths without repeats, all of them in a table, are no more than the table
/// has.
proof fn lemma_no_more_paths(xs: Seq<Seq<u8>>, t: Seq<Seq<u8>>)
    requires
        crate::caps::interner::sound_paths(xs),
        paths_within(xs, t),
    ensures
        xs.len() <= t.len(),
{
    let at = Seq::new(
        xs.len(),
        |i: int| choose|j: int| crate::caps::interner::names_path(t, j, xs[i]),
    );
    assert forall|i: int| 0 <= i < at.len() implies crate::caps::interner::names_path(
        t,
        #[trigger] at[i],
        xs[i],
    ) by {
        assert(crate::caps::interner::has_path(t, xs[i]));
    }
    assert(at.no_duplicates()) by {
        assert forall|i: int, j: int| 0 <= i < at.len() && 0 <= j < at.len() && i != j implies at[i]
            != at[j] by {
            assert(crate::caps::interner::names_path(t, at[i], xs[i]));
            assert(crate::caps::interner::names_path(t, at[j], xs[j]));
        }
    }
    at.unique_seq_to_set();
    vstd::set_lib::lemma_int_range(0, t.len() as int);
    let all = vstd::set_lib::set_int_range(0, t.len() as int);
    assert(at.to_set().subset_of(all)) by {
        assert forall|x: int| at.to_set().contains(x) implies all.contains(x) by {
            let i = choose|i: int| 0 <= i < at.len() && at[i] == x;
            assert(crate::caps::interner::names_path(t, at[i], xs[i]));
        }
    }
    vstd::set_lib::lemma_len_subset(at.to_set(), all);
}

proof fn lemma_names_within(authorities: Seq<Seq<char>>, names: Seq<Seq<char>>, t: Seq<Seq<char>>)
    requires
        forall|i: int| 0 <= i < authorities.len() ==> t.contains(#[trigger] authorities[i]),
        forall|i: int| 0 <= i < names.len() ==> t.contains(#[trigger] names[i]),
    ensures
        forall|i: int|
            0 <= i < crate::caps::interner::with_authorities(authorities, names).len()
                ==> t.contains(
                #[trigger] crate::caps::interner::with_authorities(authorities, names)[i],
            ),
    decreases names.len(),
{
    if names.len() > 0 {
        let d = names.drop_last();
        assert forall|i: int| 0 <= i < d.len() implies t.contains(#[trigger] d[i]) by {
            assert(d[i] == names[i]);
        }
        lemma_names_within(authorities, d, t);
        assert(t.contains(names[names.len() - 1]));
        let front = crate::caps::interner::with_authorities(authorities, d);
        let out = crate::caps::interner::with_authorities(authorities, names);
        assert forall|i: int| 0 <= i < out.len() implies t.contains(#[trigger] out[i]) by {
            if i < front.len() {
                assert(out[i] == front[i]);
            }
        }
    }
}

/// What a set names can be numbered again: interning it adds a path and its
/// ancestors only, and the set's own table holds those.
pub proof fn encoded_sets_are_numbered(g: GrantSet)
    requires
        sound(g),
        g.table.closed_upward(),
        g.table.paths.len() <= crate::caps::interner::id_space(),
        g.table.authorities.len() <= crate::caps::interner::id_space(),
    ensures
        encoding::sorted_wire(wire::wire_of(g)).fits(),
{
    let w = wire::wire_of(g);
    let s = encoding::sorted_wire(w);
    let t = g.table;
    lemma_sorted_wire(g);
    let files = wire::path_texts(s.files);
    let dirs = wire::path_texts(s.dirs);
    let names = s.names();
    assert forall|i: int| 0 <= i < files.len() implies crate::caps::interner::has_path(
        t.paths,
        #[trigger] files[i],
    ) by {
        assert(s.files.contains(s.files[i]));
        assert(w.files.contains(s.files[i]));
        let k = choose|k: int| 0 <= k < w.files.len() && w.files[k] == s.files[i];
        let id = g.files[k].spec_path() as int;
        assert(crate::caps::interner::names_path(t.paths, id, files[i]));
    }
    assert forall|i: int| 0 <= i < dirs.len() implies crate::caps::interner::has_path(
        t.paths,
        #[trigger] dirs[i],
    ) by {
        assert(s.dirs.contains(s.dirs[i]));
        assert(w.dirs.contains(s.dirs[i]));
        let k = choose|k: int| 0 <= k < w.dirs.len() && w.dirs[k] == s.dirs[i];
        let id = g.dirs[k].spec_root() as int;
        assert(crate::caps::interner::names_path(t.paths, id, dirs[i]));
    }
    assert forall|i: int| 0 <= i < names.len() implies t.authorities.contains(
        #[trigger] names[i],
    ) by {
        assert(s.hosts.contains(s.hosts[i]));
        assert(w.hosts.contains(s.hosts[i]));
        let k = choose|k: int| 0 <= k < w.hosts.len() && w.hosts[k] == s.hosts[i];
        let id = g.hosts[k].spec_authority() as int;
        assert(t.authorities[id] == names[i]);
    }
    let none = Seq::<Seq<u8>>::empty();
    let mid = crate::caps::interner::with_paths(none, files);
    lemma_paths_within(none, files, t);
    lemma_paths_within(mid, dirs, t);
    crate::caps::interner::lemma_with_paths_sound(none, files);
    crate::caps::interner::lemma_with_paths_sound(mid, dirs);
    lemma_no_more_paths(s.table().paths, t.paths);
    let nobody = Seq::<Seq<char>>::empty();
    let out = s.table().authorities;
    lemma_names_within(nobody, names, t.authorities);
    crate::caps::interner::lemma_with_authorities_sound(nobody, names);
    out.unique_seq_to_set();
    t.authorities.lemma_cardinality_of_set();
    seq_to_set_is_finite(t.authorities);
    assert(out.to_set().subset_of(t.authorities.to_set())) by {
        assert forall|x: Seq<char>| out.to_set().contains(x) implies t.authorities.to_set().contains(
            x,
        ) by {
            let i = choose|i: int| 0 <= i < out.len() && out[i] == x;
            assert(t.authorities.contains(out[i]));
        }
    }
    vstd::set_lib::lemma_len_subset(out.to_set(), t.authorities.to_set());
}

/// The bytes of a set can be decoded: they list the set's grants, and these
/// can be numbered.
pub proof fn encoded_bytes_are_numbered(g: GrantSet)
    requires
        minted(g),
        encodes(g),
    ensures
        decoding::numbered(encoding::encoded_set(g)->Ok_0),
        decoding::decoded_wire(encoding::encoded_set(g)->Ok_0) == Ok::<WireSet, CapsStoreFault>(
            encoding::sorted_wire(wire::wire_of(g)),
        ),
{
    lemma_portable(g);
    encoded_sets_are_numbered(g);
    wire_bytes_round_trip(encoding::sorted_wire(wire::wire_of(g)));
}

/// Bytes tell sets apart: only sets that grant the same under the same texts
/// have the same bytes. Two other sets have one hash only if their different
/// bytes have one digest.
pub proof fn bytes_tell_sets_apart(a: GrantSet, b: GrantSet)
    requires
        minted(a),
        minted(b),
        encodes(a),
        encodes(b),
        encoding::encoded_set(a) == encoding::encoded_set(b),
    ensures
        same_texts(a, b),
{
    encoded_bytes_are_numbered(a);
    encoded_bytes_are_numbered(b);
    let x = wire::wire_of(a);
    let y = wire::wire_of(b);
    let s = encoding::sorted_wire(x);
    let t = encoding::sorted_wire(y);
    assert(s == t);
    crate::caps::capability::interfaces_round_trip(a.bits);
    crate::caps::capability::interfaces_round_trip(b.bits);
    lemma_sorted_wire(a);
    lemma_sorted_wire(b);
    lemma_same_items_flip(s.files, x.files);
    lemma_same_items_flip(s.dirs, x.dirs);
    lemma_same_items_flip(s.hosts, x.hosts);
    lemma_same_items_trans(x.files, s.files, y.files);
    lemma_same_items_trans(x.dirs, s.dirs, y.dirs);
    lemma_same_items_trans(x.hosts, s.hosts, y.hosts);
}

/// A side file is the bytes of one set and nothing else: an encoded set with
/// any further byte behind it is refused.
pub proof fn trailing_bytes_are_refused(
    g: GrantSet,
    extra: Seq<u8>,
    r: Result<GrantSet, CapsStoreFault>,
)
    requires
        minted(g),
        encodes(g),
        extra.len() > 0,
    ensures
        decoding::decoded_as(encoding::encoded_set(g)->Ok_0 + extra, r) <==> r == Err::<
            GrantSet,
            CapsStoreFault,
        >(
            CapsStoreFault::Structure(
                "trailing "@ + crate::text::decimal(extra.len()) + " bytes"@,
            ),
        ),
{
    lemma_portable(g);
    lemma_wire_bytes(encoding::sorted_wire(wire::wire_of(g)), extra);
}

/// What was encoded decodes, to a set that grants the same; encoding that set
/// gives the same bytes again.
pub proof fn capability_set_round_trip(g: GrantSet, r: GrantSet)
    requires
        minted(g),
        encodes(g),
        spelled(encoding::sorted_wire(wire::wire_of(g))),
    ensures
        ({
            let b = encoding::encoded_set(g)->Ok_0;
            &&& decoding::decoded_wire(b) == Ok::<WireSet, CapsStoreFault>(
                encoding::sorted_wire(wire::wire_of(g)),
            )
            &&& encoding::sorted_wire(wire::wire_of(g)).build_fault() is None
            &&& decoding::decoded_as(b, Ok(r)) ==> same_texts(r, g) && encoding::encoded_set(r)
                == encoding::encoded_set(g)
        }),
{
    let w = wire::wire_of(g);
    let s = encoding::sorted_wire(w);
    encoded_bytes_are_numbered(g);
    lemma_sorted_wire(g);
    wire::lemma_wire_keys(s);
    crate::caps::capability::interfaces_round_trip(g.bits);
    assert(s.files.len() > 0 ==> w.files.len() > 0);
    assert(s.build_fault() is None);
    if decoding::decoded_as(encoding::encoded_set(g)->Ok_0, Ok(r)) {
        lemma_built_sound(s, r);
        assert forall|i: int| 0 <= i < s.hosts.len() implies (#[trigger] s.hosts[i]).1
            == crate::caps::grants::methods_of(crate::caps::grants::mask_of(s.hosts[i].1)) by {
            assert(s.hosts.contains(s.hosts[i]));
            assert(w.hosts.contains(s.hosts[i]));
            let k = choose|k: int| 0 <= k < w.hosts.len() && w.hosts[k] == s.hosts[i];
            crate::caps::grants::mask_round_trip(g.hosts[k].spec_methods());
        }
        lemma_built_items(s, r);
        let x = wire::wire_of(r);
        lemma_same_items_trans(x.files, s.files, w.files);
        lemma_same_items_trans(x.dirs, s.dirs, w.dirs);
        lemma_same_items_trans(x.hosts, s.hosts, w.hosts);
        lemma_same_items_flip(x.files, w.files);
        lemma_same_items_flip(x.dirs, w.dirs);
        lemma_same_items_flip(x.hosts, w.hosts);
        lemma_ok_moves(g, r);
    }
}

/// A decoded set grants what the encoded one does: the same interfaces, the
/// same modes on the same paths, the same methods on the same hosts. Only the
/// spelling of a path may differ, where two spellings of it are in use.
pub proof fn decoded_set_grants_the_same(g: GrantSet, d: Result<GrantSet, CapsStoreFault>)
    requires
        minted(g),
        encodes(g),
        decoding::decoded_as(encoding::encoded_set(g)->Ok_0, d),
    ensures
        d is Ok,
        crate::caps::laws::equivalent(g, d->Ok_0),
{
    let w = wire::wire_of(g);
    let s = encoding::sorted_wire(w);
    encoded_bytes_are_numbered(g);
    lemma_sorted_wire(g);
    wire::lemma_wire_keys(s);
    crate::caps::capability::interfaces_round_trip(g.bits);
    assert(s.build_fault() is None);
    if let Ok(r) = d {
        assert forall|cs: Seq<Seq<u8>>, m: FileMode| #[trigger]
            crate::caps::laws::has_file(g, cs, m) == crate::caps::laws::has_file(r, cs, m) by {
            lemma_same_file(g, s, r, cs, m);
        }
        assert forall|cs: Seq<Seq<u8>>, m: FileMode| #[trigger]
            crate::caps::laws::has_dir(g, cs, m) == crate::caps::laws::has_dir(r, cs, m) by {
            lemma_same_dir(g, s, r, cs, m);
        }
        assert forall|name: Seq<char>, m: u8| #[trigger]
            crate::caps::laws::has_host(g, name, m) == crate::caps::laws::has_host(r, name, m) by {
            lemma_same_host(g, s, r, name, m);
        }
    }
}

proof fn lemma_same_file(g: GrantSet, s: WireSet, r: GrantSet, cs: Seq<Seq<u8>>, m: FileMode)
    requires
        order::same_items(s.files, wire::wire_of(g).files),
        s.fits(),
        s.built_as(r),
    ensures
        crate::caps::laws::has_file(g, cs, m) == crate::caps::laws::has_file(r, cs, m),
{
    let w = wire::wire_of(g);
    if crate::caps::laws::has_file(g, cs, m) {
        let j = choose|j: int|
            0 <= j < g.files.len() && g.components((#[trigger] g.files[j]).spec_path()) == cs
                && g.files[j].spec_mode() == m;
        assert(w.files.contains(w.files[j]));
        assert(s.files.contains(w.files[j]));
        let n = choose|n: int| 0 <= n < s.files.len() && s.files[n] == w.files[j];
        wire::lemma_wire_file_id(s, n);
        let f = s.file_grants()[n];
        assert(s.file_grants().contains(f));
        to_multiset_contains(s.file_grants(), f);
        to_multiset_contains(r.files, f);
        let k = choose|k: int| 0 <= k < r.files.len() && r.files[k] == f;
        assert(r.components(r.files[k].spec_path()) == cs);
    }
    if crate::caps::laws::has_file(r, cs, m) {
        let j = choose|j: int|
            0 <= j < r.files.len() && r.components((#[trigger] r.files[j]).spec_path()) == cs
                && r.files[j].spec_mode() == m;
        let n = wire::lemma_wire_file(s, r, j);
        assert(s.files.contains(s.files[n]));
        assert(w.files.contains(s.files[n]));
        let k = choose|k: int| 0 <= k < w.files.len() && w.files[k] == s.files[n];
        assert(g.components(g.files[k].spec_path()) == cs);
    }
}

proof fn lemma_same_dir(g: GrantSet, s: WireSet, r: GrantSet, cs: Seq<Seq<u8>>, m: FileMode)
    requires
        order::same_items(s.dirs, wire::wire_of(g).dirs),
        s.fits(),
        s.built_as(r),
    ensures
        crate::caps::laws::has_dir(g, cs, m) == crate::caps::laws::has_dir(r, cs, m),
{
    let w = wire::wire_of(g);
    if crate::caps::laws::has_dir(g, cs, m) {
        let j = choose|j: int|
            0 <= j < g.dirs.len() && g.components((#[trigger] g.dirs[j]).spec_root()) == cs
                && g.dirs[j].spec_mode() == m;
        assert(w.dirs.contains(w.dirs[j]));
        assert(s.dirs.contains(w.dirs[j]));
        let n = choose|n: int| 0 <= n < s.dirs.len() && s.dirs[n] == w.dirs[j];
        wire::lemma_wire_dir_id(s, n);
        let f = s.dir_grants()[n];
        assert(s.dir_grants().contains(f));
        to_multiset_contains(s.dir_grants(), f);
        to_multiset_contains(r.dirs, f);
        let k = choose|k: int| 0 <= k < r.dirs.len() && r.dirs[k] == f;
        assert(r.components(r.dirs[k].spec_root()) == cs);
    }
    if crate::caps::laws::has_dir(r, cs, m) {
        let j = choose|j: int|
            0 <= j < r.dirs.len() && r.components((#[trigger] r.dirs[j]).spec_root()) == cs
                && r.dirs[j].spec_mode() == m;
        let n = wire::lemma_wire_dir(s, r, j);
        assert(s.dirs.contains(s.dirs[n]));
        assert(w.dirs.contains(s.dirs[n]));
        let k = choose|k: int| 0 <= k < w.dirs.len() && w.dirs[k] == s.dirs[n];
        assert(g.components(g.dirs[k].spec_root()) == cs);
    }
}

proof fn lemma_same_host(g: GrantSet, s: WireSet, r: GrantSet, name: Seq<char>, m: u8)
    requires
        order::same_items(s.hosts, wire::wire_of(g).hosts),
        g.known_methods(),
        s.fits(),
        s.built_as(r),
    ensures
        crate::caps::laws::has_host(g, name, m) == crate::caps::laws::has_host(r, name, m),
{
    let w = wire::wire_of(g);
    if crate::caps::laws::has_host(g, name, m) {
        let j = choose|j: int|
            0 <= j < g.hosts.len() && g.authority((#[trigger] g.hosts[j]).spec_authority()) == name
                && g.hosts[j].spec_methods() == m;
        assert(w.hosts.contains(w.hosts[j]));
        assert(s.hosts.contains(w.hosts[j]));
        let n = choose|n: int| 0 <= n < s.hosts.len() && s.hosts[n] == w.hosts[j];
        wire::lemma_wire_host_id(s, n);
        crate::caps::grants::mask_round_trip(m);
        let f = s.host_grants()[n];
        assert(s.host_grants().contains(f));
        to_multiset_contains(s.host_grants(), f);
        to_multiset_contains(r.hosts, f);
        let k = choose|k: int| 0 <= k < r.hosts.len() && r.hosts[k] == f;
        assert(r.authority(r.hosts[k].spec_authority()) == name);
    }
    if crate::caps::laws::has_host(r, name, m) {
        let j = choose|j: int|
            0 <= j < r.hosts.len() && r.authority((#[trigger] r.hosts[j]).spec_authority()) == name
                && r.hosts[j].spec_methods() == m;
        let n = wire::lemma_wire_host(s, r, j);
        assert(s.hosts.contains(s.hosts[n]));
        assert(w.hosts.contains(s.hosts[n]));
        let k = choose|k: int| 0 <= k < w.hosts.len() && w.hosts[k] == s.hosts[n];
        crate::caps::grants::mask_round_trip(g.hosts[k].spec_methods());
        assert(g.authority(g.hosts[k].spec_authority()) == name);
    }
}

/// Every path of the set is tidy.
pub open spec fn tidy(w: WireSet) -> bool {
    &&& forall|i: int| 0 <= i < w.files.len() ==> path::is_tidy((#[trigger] w.files[i]).0)
    &&& forall|i: int| 0 <= i < w.dirs.len() ==> path::is_tidy((#[trigger] w.dirs[i]).0)
}

proof fn lemma_tidy_grows(paths: Seq<Seq<u8>>, p: Seq<u8>)
    requires
        forall|i: int| 0 <= i < paths.len() ==> path::is_tidy(#[trigger] paths[i]),
        path::is_tidy(p),
    ensures
        forall|i: int|
            0 <= i < crate::caps::interner::with_path(paths, p).len() ==> path::is_tidy(
                #[trigger] crate::caps::interner::with_path(paths, p)[i],
            ),
    decreases p.len(),
{
    if !crate::caps::interner::has_path(paths, p) {
        path::lemma_tidy_parent(p);
        match path::parent(p) {
            Some(q) => {
                path::lemma_parent(p);
                if q.len() > 0 {
                    lemma_tidy_grows(paths, q);
                    let front = crate::caps::interner::with_path(paths, q);
                    assert(crate::caps::interner::with_path(paths, p) == front.push(p));
                    assert(forall|i: int|
                        0 <= i < front.push(p).len() ==> path::is_tidy(
                            #[trigger] front.push(p)[i],
                        ));
                } else {
                    assert(crate::caps::interner::with_path(paths, p) == paths.push(p));
                }
            },
            None => {
                assert(crate::caps::interner::with_path(paths, p) == paths.push(p));
            },
        }
    }
}

proof fn lemma_tidy_all(paths: Seq<Seq<u8>>, ps: Seq<Seq<u8>>)
    requires
        forall|i: int| 0 <= i < paths.len() ==> path::is_tidy(#[trigger] paths[i]),
        forall|i: int| 0 <= i < ps.len() ==> path::is_tidy(#[trigger] ps[i]),
    ensures
        forall|i: int|
            0 <= i < crate::caps::interner::with_paths(paths, ps).len() ==> path::is_tidy(
                #[trigger] crate::caps::interner::with_paths(paths, ps)[i],
            ),
    decreases ps.len(),
{
    if ps.len() > 0 {
        assert forall|i: int| 0 <= i < ps.drop_last().len() implies path::is_tidy(
            #[trigger] ps.drop_last()[i],
        ) by {
            assert(ps.drop_last()[i] == ps[i]);
        }
        assert(ps[ps.len() - 1] == ps.last());
        lemma_tidy_all(paths, ps.drop_last());
        lemma_tidy_grows(crate::caps::interner::with_paths(paths, ps.drop_last()), ps.last());
    }
}

/// A tidy path has one spelling only.
proof fn lemma_tidy_is_spelled(w: WireSet)
    requires
        w.fits(),
        tidy(w),
    ensures
        spelled(w),
{
    let mid = crate::caps::interner::with_paths(Seq::empty(), wire::path_texts(w.files));
    assert forall|i: int| 0 <= i < wire::path_texts(w.files).len() implies path::is_tidy(
        #[trigger] wire::path_texts(w.files)[i],
    ) by {
        assert(path::is_tidy(w.files[i].0));
    }
    assert forall|i: int| 0 <= i < wire::path_texts(w.dirs).len() implies path::is_tidy(
        #[trigger] wire::path_texts(w.dirs)[i],
    ) by {
        assert(path::is_tidy(w.dirs[i].0));
    }
    lemma_tidy_all(Seq::empty(), wire::path_texts(w.files));
    lemma_tidy_all(mid, wire::path_texts(w.dirs));
    let t = w.table().paths;
    assert forall|i: int| 0 <= i < w.files.len() implies t[crate::caps::interner::path_index(
        t,
        (#[trigger] w.files[i]).0,
    ) as int] == w.files[i].0 by {
        wire::lemma_wire_file_id(w, i);
        path::lemma_tidy_unique(
            t[crate::caps::interner::path_index(t, w.files[i].0) as int],
            w.files[i].0,
        );
    }
    assert forall|i: int| 0 <= i < w.dirs.len() implies t[crate::caps::interner::path_index(
        t,
        (#[trigger] w.dirs[i]).0,
    ) as int] == w.dirs[i].0 by {
        wire::lemma_wire_dir_id(w, i);
        path::lemma_tidy_unique(
            t[crate::caps::interner::path_index(t, w.dirs[i].0) as int],
            w.dirs[i].0,
        );
    }
}

/// A set of tidy paths decodes to the same texts, and these encode to the same
/// bytes again: the hash of such a set names it whatever file it went through.
pub proof fn tidy_sets_keep_their_bytes(g: GrantSet, d: Result<GrantSet, CapsStoreFault>)
    requires
        minted(g),
        encodes(g),
        tidy(wire::wire_of(g)),
        decoding::decoded_as(encoding::encoded_set(g)->Ok_0, d),
    ensures
        d is Ok,
        same_texts(d->Ok_0, g),
        encoding::encoded_set(d->Ok_0) == encoding::encoded_set(g),
{
    let w = wire::wire_of(g);
    let s = encoding::sorted_wire(w);
    lemma_sorted_wire(g);
    assert forall|i: int| 0 <= i < s.files.len() implies path::is_tidy(
        (#[trigger] s.files[i]).0,
    ) by {
        assert(s.files.contains(s.files[i]));
        assert(w.files.contains(s.files[i]));
        let k = choose|k: int| 0 <= k < w.files.len() && w.files[k] == s.files[i];
        assert(path::is_tidy(w.files[k].0));
    }
    assert forall|i: int| 0 <= i < s.dirs.len() implies path::is_tidy((#[trigger] s.dirs[i]).0) by {
        assert(s.dirs.contains(s.dirs[i]));
        assert(w.dirs.contains(s.dirs[i]));
        let k = choose|k: int| 0 <= k < w.dirs.len() && w.dirs[k] == s.dirs[i];
        assert(path::is_tidy(w.dirs[k].0));
    }
    encoded_sets_are_numbered(g);
    lemma_tidy_is_spelled(s);
    capability_set_round_trip(g, d->Ok_0);
}

} // verus!
