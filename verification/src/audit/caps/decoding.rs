//! Capability sets out of CBOR.
use super::{parse_interface, parse_method, parse_mode, CapsStoreError, CapsStoreFault};
use crate::caps::capability::GrantSet;
use crate::caps::wire::{
    CapabilitySetWire, DirGrantWire, FileGrantWire, HostGrantWire, WireSet,
};
use crate::caps::{CapabilitySet, FileMode, Interface, Method};
use crate::cbor;
use crate::text;
use vstd::prelude::*;
use vstd::utf8::*;

verus! {

/// The number of entries of the map at a position.
pub open spec fn map_count(b: Seq<u8>, pos: nat) -> Result<(nat, nat), CapsStoreFault> {
    match cbor::get_map(b, pos) {
        Ok((Some(n), at)) => Ok((n as nat, at)),
        Ok((None, _)) => Err(CapsStoreFault::Indefinite),
        Err(m) => Err(CapsStoreFault::Decode(m)),
    }
}

/// The number of elements of the array at a position.
pub open spec fn array_count(b: Seq<u8>, pos: nat) -> Result<(nat, nat), CapsStoreFault> {
    match cbor::get_array(b, pos) {
        Ok((Some(n), at)) => Ok((n as nat, at)),
        Ok((None, _)) => Err(CapsStoreFault::Indefinite),
        Err(m) => Err(CapsStoreFault::Decode(m)),
    }
}

/// The text at a position.
pub open spec fn text_at(b: Seq<u8>, pos: nat) -> Result<(Seq<char>, nat), CapsStoreFault> {
    match cbor::get_str(b, pos) {
        Ok(v) => Ok(v),
        Err(m) => Err(CapsStoreFault::Decode(m)),
    }
}

/// The position behind the item at a position.
pub open spec fn after_item(b: Seq<u8>, pos: nat) -> Result<nat, CapsStoreFault> {
    match cbor::get_skip(b, pos) {
        Ok(at) => Ok(at),
        Err(m) => Err(CapsStoreFault::Decode(m)),
    }
}

/// The parts of a path grant read so far.
pub ghost struct PathParts {
    pub path: Option<Seq<u8>>,
    pub mode: Option<FileMode>,
}

/// `p` after the value under a key.
pub open spec fn path_value(b: Seq<u8>, pos: nat, key: Seq<char>, p: PathParts) -> Result<
    (PathParts, nat),
    CapsStoreFault,
> {
    if key == "path"@ {
        match text_at(b, pos) {
            Ok((s, at)) => Ok((PathParts { path: Some(encode_utf8(s)), ..p }, at)),
            Err(f) => Err(f),
        }
    } else if key == "mode"@ {
        match text_at(b, pos) {
            Ok((s, at)) => match super::mode_named(s) {
                Some(m) => Ok((PathParts { mode: Some(m), ..p }, at)),
                None => Err(CapsStoreFault::UnknownMode(s)),
            },
            Err(f) => Err(f),
        }
    } else {
        match after_item(b, pos) {
            Ok(at) => Ok((p, at)),
            Err(f) => Err(f),
        }
    }
}

/// `p` after `n` more entries.
pub open spec fn path_entries(b: Seq<u8>, pos: nat, n: nat, p: PathParts) -> Result<
    (PathParts, nat),
    CapsStoreFault,
>
    decreases n,
{
    if n == 0 {
        Ok((p, pos))
    } else {
        match text_at(b, pos) {
            Ok((key, at)) => match path_value(b, at, key, p) {
                Ok((q, end)) => path_entries(b, end, (n - 1) as nat, q),
                Err(f) => Err(f),
            },
            Err(f) => Err(f),
        }
    }
}

/// The path grant at a position.
pub open spec fn path_grant(b: Seq<u8>, pos: nat) -> Result<
    ((Seq<u8>, FileMode), nat),
    CapsStoreFault,
> {
    match map_count(b, pos) {
        Ok((n, at)) => match path_entries(b, at, n, PathParts { path: None, mode: None }) {
            Ok((p, end)) => if p.path is None {
                Err(CapsStoreFault::Structure("grant missing path"@))
            } else if p.mode is None {
                Err(CapsStoreFault::Structure("grant missing mode"@))
            } else {
                Ok(((p.path->0, p.mode->0), end))
            },
            Err(f) => Err(f),
        },
        Err(f) => Err(f),
    }
}

/// `n` more path grants behind those read before.
pub open spec fn path_grants(b: Seq<u8>, pos: nat, n: nat, before: Seq<(Seq<u8>, FileMode)>) -> Result<
    (Seq<(Seq<u8>, FileMode)>, nat),
    CapsStoreFault,
>
    decreases n,
{
    if n == 0 {
        Ok((before, pos))
    } else {
        match path_grant(b, pos) {
            Ok((g, at)) => path_grants(b, at, (n - 1) as nat, before.push(g)),
            Err(f) => Err(f),
        }
    }
}

/// `n` more methods behind those read before.
pub open spec fn methods_at(b: Seq<u8>, pos: nat, n: nat, before: Seq<Method>) -> Result<
    (Seq<Method>, nat),
    CapsStoreFault,
>
    decreases n,
{
    if n == 0 {
        Ok((before, pos))
    } else {
        match text_at(b, pos) {
            Ok((s, at)) => match super::method_named(s) {
                Some(m) => methods_at(b, at, (n - 1) as nat, before.push(m)),
                None => Err(CapsStoreFault::UnknownMethod(s)),
            },
            Err(f) => Err(f),
        }
    }
}

/// `n` more interfaces behind those read before.
pub open spec fn interfaces_at(b: Seq<u8>, pos: nat, n: nat, before: Seq<Interface>) -> Result<
    (Seq<Interface>, nat),
    CapsStoreFault,
>
    decreases n,
{
    if n == 0 {
        Ok((before, pos))
    } else {
        match text_at(b, pos) {
            Ok((s, at)) => match super::interface_named(s) {
                Some(i) => interfaces_at(b, at, (n - 1) as nat, before.push(i)),
                None => Err(CapsStoreFault::UnknownInterface(s)),
            },
            Err(f) => Err(f),
        }
    }
}

/// The parts of a host grant read so far.
pub ghost struct HostParts {
    pub authority: Option<Seq<char>>,
    pub methods: Option<Seq<Method>>,
}

/// `p` after the value under a key.
pub open spec fn host_value(b: Seq<u8>, pos: nat, key: Seq<char>, p: HostParts) -> Result<
    (HostParts, nat),
    CapsStoreFault,
> {
    if key == "authority"@ {
        match text_at(b, pos) {
            Ok((s, at)) => Ok((HostParts { authority: Some(s), ..p }, at)),
            Err(f) => Err(f),
        }
    } else if key == "methods"@ {
        match array_count(b, pos) {
            Ok((n, at)) => match methods_at(b, at, n, Seq::empty()) {
                Ok((ms, end)) => Ok((HostParts { methods: Some(ms), ..p }, end)),
                Err(f) => Err(f),
            },
            Err(f) => Err(f),
        }
    } else {
        match after_item(b, pos) {
            Ok(at) => Ok((p, at)),
            Err(f) => Err(f),
        }
    }
}

/// `p` after `n` more entries.
pub open spec fn host_entries(b: Seq<u8>, pos: nat, n: nat, p: HostParts) -> Result<
    (HostParts, nat),
    CapsStoreFault,
>
    decreases n,
{
    if n == 0 {
        Ok((p, pos))
    } else {
        match text_at(b, pos) {
            Ok((key, at)) => match host_value(b, at, key, p) {
                Ok((q, end)) => host_entries(b, end, (n - 1) as nat, q),
                Err(f) => Err(f),
            },
            Err(f) => Err(f),
        }
    }
}

/// The host grant at a position.
pub open spec fn host_grant(b: Seq<u8>, pos: nat) -> Result<
    ((Seq<char>, Seq<Method>), nat),
    CapsStoreFault,
> {
    match map_count(b, pos) {
        Ok((n, at)) => match host_entries(b, at, n, HostParts { authority: None, methods: None }) {
            Ok((p, end)) => if p.authority is None {
                Err(CapsStoreFault::Structure("host missing authority"@))
            } else if p.methods is None {
                Err(CapsStoreFault::Structure("host missing methods"@))
            } else {
                Ok(((p.authority->0, p.methods->0), end))
            },
            Err(f) => Err(f),
        },
        Err(f) => Err(f),
    }
}

/// `n` more host grants behind those read before.
pub open spec fn host_grants(
    b: Seq<u8>,
    pos: nat,
    n: nat,
    before: Seq<(Seq<char>, Seq<Method>)>,
) -> Result<(Seq<(Seq<char>, Seq<Method>)>, nat), CapsStoreFault>
    decreases n,
{
    if n == 0 {
        Ok((before, pos))
    } else {
        match host_grant(b, pos) {
            Ok((g, at)) => host_grants(b, at, (n - 1) as nat, before.push(g)),
            Err(f) => Err(f),
        }
    }
}

/// `w` after the value under a key. Lists under one key add up, unknown keys
/// are skipped.
pub open spec fn set_value(b: Seq<u8>, pos: nat, key: Seq<char>, w: WireSet) -> Result<
    (WireSet, nat),
    CapsStoreFault,
> {
    if key == "interfaces"@ {
        match array_count(b, pos) {
            Ok((n, at)) => match interfaces_at(b, at, n, w.interfaces) {
                Ok((v, end)) => Ok((WireSet { interfaces: v, ..w }, end)),
                Err(f) => Err(f),
            },
            Err(f) => Err(f),
        }
    } else if key == "files"@ {
        match array_count(b, pos) {
            Ok((n, at)) => match path_grants(b, at, n, w.files) {
                Ok((v, end)) => Ok((WireSet { files: v, ..w }, end)),
                Err(f) => Err(f),
            },
            Err(f) => Err(f),
        }
    } else if key == "dirs"@ {
        match array_count(b, pos) {
            Ok((n, at)) => match path_grants(b, at, n, w.dirs) {
                Ok((v, end)) => Ok((WireSet { dirs: v, ..w }, end)),
                Err(f) => Err(f),
            },
            Err(f) => Err(f),
        }
    } else if key == "hosts"@ {
        match array_count(b, pos) {
            Ok((n, at)) => match host_grants(b, at, n, w.hosts) {
                Ok((v, end)) => Ok((WireSet { hosts: v, ..w }, end)),
                Err(f) => Err(f),
            },
            Err(f) => Err(f),
        }
    } else {
        match after_item(b, pos) {
            Ok(at) => Ok((w, at)),
            Err(f) => Err(f),
        }
    }
}

/// `w` after `n` more entries.
pub open spec fn set_entries(b: Seq<u8>, pos: nat, n: nat, w: WireSet) -> Result<
    (WireSet, nat),
    CapsStoreFault,
>
    decreases n,
{
    if n == 0 {
        Ok((w, pos))
    } else {
        match text_at(b, pos) {
            Ok((key, at)) => match set_value(b, at, key, w) {
                Ok((x, end)) => set_entries(b, end, (n - 1) as nat, x),
                Err(f) => Err(f),
            },
            Err(f) => Err(f),
        }
    }
}

/// Grants of nothing.
pub open spec fn no_grants() -> WireSet {
    WireSet {
        interfaces: Seq::empty(),
        files: Seq::empty(),
        dirs: Seq::empty(),
        hosts: Seq::empty(),
    }
}

/// The grants that CBOR bytes list.
pub open spec fn decoded_wire(b: Seq<u8>) -> Result<WireSet, CapsStoreFault> {
    match map_count(b, 0) {
        Ok((n, at)) => match set_entries(b, at, n, no_grants()) {
            Ok((w, end)) => if end != b.len() {
                Err(
                    CapsStoreFault::Structure(
                        "trailing "@ + text::decimal((b.len() - end) as nat) + " bytes"@,
                    ),
                )
            } else {
                Ok(w)
            },
            Err(f) => Err(f),
        },
        Err(f) => Err(f),
    }
}

fn read_text(b: &[u8], pos: usize) -> (r: Result<(String, usize), CapsStoreError>)
    requires
        pos <= b@.len(),
    ensures
        match (r, text_at(b@, pos as nat)) {
            (Ok((v, end)), Ok((w, at))) => v@ == w && end == at && pos < end <= b@.len(),
            (Err(e), Err(f)) => e@ == f,
            _ => false,
        },
{
    match cbor::read_str(b, pos) {
        Ok(v) => Ok(v),
        Err(m) => Err(CapsStoreError::Decode(m)),
    }
}

fn skip(b: &[u8], pos: usize) -> (r: Result<usize, CapsStoreError>)
    requires
        pos <= b@.len(),
    ensures
        match (r, after_item(b@, pos as nat)) {
            (Ok(end), Ok(at)) => end == at && pos < end <= b@.len(),
            (Err(e), Err(f)) => e@ == f,
            _ => false,
        },
{
    match cbor::step_over(b, pos) {
        Ok(v) => Ok(v),
        Err(m) => Err(CapsStoreError::Decode(m)),
    }
}

fn read_map_count(b: &[u8], pos: usize) -> (r: Result<(u64, usize), CapsStoreError>)
    requires
        pos <= b@.len(),
    ensures
        match (r, map_count(b@, pos as nat)) {
            (Ok((n, end)), Ok((k, at))) => n == k && end == at && pos < end <= b@.len(),
            (Err(e), Err(f)) => e@ == f,
            _ => false,
        },
{
    match cbor::read_map(b, pos) {
        Ok((Some(n), at)) => Ok((n, at)),
        Ok((None, _)) => Err(CapsStoreError::Indefinite),
        Err(m) => Err(CapsStoreError::Decode(m)),
    }
}

fn read_array_count(b: &[u8], pos: usize) -> (r: Result<(u64, usize), CapsStoreError>)
    requires
        pos <= b@.len(),
    ensures
        match (r, array_count(b@, pos as nat)) {
            (Ok((n, end)), Ok((k, at))) => n == k && end == at && pos < end <= b@.len(),
            (Err(e), Err(f)) => e@ == f,
            _ => false,
        },
{
    match cbor::read_array(b, pos) {
        Ok((Some(n), at)) => Ok((n, at)),
        Ok((None, _)) => Err(CapsStoreError::Indefinite),
        Err(m) => Err(CapsStoreError::Decode(m)),
    }
}

/// An optional text as its bytes.
spec fn path_part(path: Option<String>) -> Option<Seq<u8>> {
    match path {
        Some(s) => Some(encode_utf8(s@)),
        None => None,
    }
}

fn decode_path_mode(b: &[u8], start: usize) -> (r: Result<
    (Vec<u8>, FileMode, usize),
    CapsStoreError,
>)
    requires
        start <= b@.len(),
    ensures
        match (r, path_grant(b@, start as nat)) {
            (Ok((p, m, end)), Ok((g, at))) => p@ == g.0 && m == g.1 && end == at && start < end
                <= b@.len(),
            (Err(e), Err(f)) => e@ == f,
            _ => false,
        },
{
    let (n, first): (u64, usize) = match read_map_count(b, start) {
        Ok(v) => v,
        Err(e) => {
            return Err(e);
        },
    };
    let mut path: Option<String> = None;
    let mut mode: Option<FileMode> = None;
    let mut pos: usize = first;
    let mut i: u64 = 0;
    let ghost whole = path_entries(
        b@,
        first as nat,
        n as nat,
        PathParts { path: None, mode: None },
    );
    while i < n
        invariant
            i <= n,
            start < pos <= b@.len(),
            whole == path_entries(
                b@,
                pos as nat,
                (n - i) as nat,
                PathParts { path: path_part(path), mode },
            ),
            map_count(b@, start as nat) == Ok::<(nat, nat), CapsStoreFault>(
                (n as nat, first as nat),
            ),
            whole == path_entries(
                b@,
                first as nat,
                n as nat,
                PathParts { path: None, mode: None },
            ),
        decreases n - i,
    {
        let (key, at): (String, usize) = match read_text(b, pos) {
            Ok(v) => v,
            Err(e) => {
                return Err(e);
            },
        };
        if text::str_eq(key.as_str(), "path") {
            match read_text(b, at) {
                Ok((s, end)) => {
                    path = Some(s);
                    pos = end;
                },
                Err(e) => {
                    return Err(e);
                },
            }
        } else if text::str_eq(key.as_str(), "mode") {
            let (s, end): (String, usize) = match read_text(b, at) {
                Ok(v) => v,
                Err(e) => {
                    return Err(e);
                },
            };
            match parse_mode(s.as_str()) {
                Ok(m) => {
                    mode = Some(m);
                },
                Err(e) => {
                    return Err(e);
                },
            }
            pos = end;
        } else {
            match skip(b, at) {
                Ok(end) => {
                    pos = end;
                },
                Err(e) => {
                    return Err(e);
                },
            }
        }
        i += 1;
    }
    let p = match path {
        Some(s) => vstd::slice::slice_to_vec(s.as_str().as_bytes()),
        None => {
            return Err(CapsStoreError::Structure("grant missing path".to_owned()));
        },
    };
    match mode {
        Some(m) => Ok((p, m, pos)),
        None => Err(CapsStoreError::Structure("grant missing mode".to_owned())),
    }
}

/// What file grants say.
pub open spec fn files_say(v: Seq<FileGrantWire>) -> Seq<(Seq<u8>, FileMode)> {
    Seq::new(v.len(), |i: int| (v[i].path@, v[i].mode))
}

/// What directory grants say.
pub open spec fn dirs_say(v: Seq<DirGrantWire>) -> Seq<(Seq<u8>, FileMode)> {
    Seq::new(v.len(), |i: int| (v[i].path@, v[i].mode))
}

/// What host grants say.
pub open spec fn hosts_say(v: Seq<HostGrantWire>) -> Seq<(Seq<char>, Seq<Method>)> {
    Seq::new(v.len(), |i: int| (v[i].authority@, v[i].methods@))
}

fn read_files(b: &[u8], start: usize, n: u64, out: &mut Vec<FileGrantWire>) -> (r: Result<
    usize,
    CapsStoreError,
>)
    requires
        start <= b@.len(),
    ensures
        match (r, path_grants(b@, start as nat, n as nat, files_say(old(out)@))) {
            (Ok(end), Ok((v, at))) => files_say(final(out)@) == v && end == at && start <= end
                <= b@.len(),
            (Err(e), Err(f)) => e@ == f,
            _ => false,
        },
{
    let ghost first = files_say(out@);
    let ghost whole = path_grants(b@, start as nat, n as nat, first);
    let mut pos: usize = start;
    let mut i: u64 = 0;
    while i < n
        invariant
            i <= n,
            start <= pos <= b@.len(),
            whole == path_grants(b@, pos as nat, (n - i) as nat, files_say(out@)),
            whole == path_grants(b@, start as nat, n as nat, first),
            first == files_say(old(out)@),
        decreases n - i,
    {
        match decode_path_mode(b, pos) {
            Ok((path, mode, end)) => {
                let ghost before = files_say(out@);
                let ghost g = (path@, mode);
                out.push(FileGrantWire { path, mode });
                assert(files_say(out@) =~= before.push(g));
                pos = end;
            },
            Err(e) => {
                return Err(e);
            },
        }
        i += 1;
    }
    Ok(pos)
}

fn read_dirs(b: &[u8], start: usize, n: u64, out: &mut Vec<DirGrantWire>) -> (r: Result<
    usize,
    CapsStoreError,
>)
    requires
        start <= b@.len(),
    ensures
        match (r, path_grants(b@, start as nat, n as nat, dirs_say(old(out)@))) {
            (Ok(end), Ok((v, at))) => dirs_say(final(out)@) == v && end == at && start <= end
                <= b@.len(),
            (Err(e), Err(f)) => e@ == f,
            _ => false,
        },
{
    let ghost first = dirs_say(out@);
    let ghost whole = path_grants(b@, start as nat, n as nat, first);
    let mut pos: usize = start;
    let mut i: u64 = 0;
    while i < n
        invariant
            i <= n,
            start <= pos <= b@.len(),
            whole == path_grants(b@, pos as nat, (n - i) as nat, dirs_say(out@)),
            whole == path_grants(b@, start as nat, n as nat, first),
            first == dirs_say(old(out)@),
        decreases n - i,
    {
        match decode_path_mode(b, pos) {
            Ok((path, mode, end)) => {
                let ghost before = dirs_say(out@);
                let ghost g = (path@, mode);
                out.push(DirGrantWire { path, mode });
                assert(dirs_say(out@) =~= before.push(g));
                pos = end;
            },
            Err(e) => {
                return Err(e);
            },
        }
        i += 1;
    }
    Ok(pos)
}

fn read_methods(b: &[u8], start: usize, n: u64) -> (r: Result<(Vec<Method>, usize), CapsStoreError>)
    requires
        start <= b@.len(),
    ensures
        match (r, methods_at(b@, start as nat, n as nat, Seq::empty())) {
            (Ok((v, end)), Ok((w, at))) => v@ == w && end == at && start <= end <= b@.len(),
            (Err(e), Err(f)) => e@ == f,
            _ => false,
        },
{
    let mut out: Vec<Method> = Vec::new();
    let mut pos: usize = start;
    let mut i: u64 = 0;
    while i < n
        invariant
            i <= n,
            start <= pos <= b@.len(),
            methods_at(b@, start as nat, n as nat, Seq::empty()) == methods_at(
                b@,
                pos as nat,
                (n - i) as nat,
                out@,
            ),
        decreases n - i,
    {
        let (s, at): (String, usize) = match read_text(b, pos) {
            Ok(v) => v,
            Err(e) => {
                return Err(e);
            },
        };
        match parse_method(s.as_str()) {
            Ok(m) => {
                out.push(m);
            },
            Err(e) => {
                return Err(e);
            },
        }
        pos = at;
        i += 1;
    }
    Ok((out, pos))
}

fn read_interfaces(b: &[u8], start: usize, n: u64, out: &mut Vec<Interface>) -> (r: Result<
    usize,
    CapsStoreError,
>)
    requires
        start <= b@.len(),
    ensures
        match (r, interfaces_at(b@, start as nat, n as nat, old(out)@)) {
            (Ok(end), Ok((w, at))) => final(out)@ == w && end == at && start <= end <= b@.len(),
            (Err(e), Err(f)) => e@ == f,
            _ => false,
        },
{
    let mut pos: usize = start;
    let mut i: u64 = 0;
    while i < n
        invariant
            i <= n,
            start <= pos <= b@.len(),
            interfaces_at(b@, start as nat, n as nat, old(out)@) == interfaces_at(
                b@,
                pos as nat,
                (n - i) as nat,
                out@,
            ),
        decreases n - i,
    {
        let (s, at): (String, usize) = match read_text(b, pos) {
            Ok(v) => v,
            Err(e) => {
                return Err(e);
            },
        };
        match parse_interface(s.as_str()) {
            Ok(m) => {
                out.push(m);
            },
            Err(e) => {
                return Err(e);
            },
        }
        pos = at;
        i += 1;
    }
    Ok(pos)
}

/// What has been read of a host grant.
spec fn host_parts(authority: Option<String>, methods: Option<Vec<Method>>) -> HostParts {
    HostParts {
        authority: match authority {
            Some(s) => Some(s@),
            None => None,
        },
        methods: match methods {
            Some(v) => Some(v@),
            None => None,
        },
    }
}

fn decode_host(b: &[u8], start: usize) -> (r: Result<(String, Vec<Method>, usize), CapsStoreError>)
    requires
        start <= b@.len(),
    ensures
        match (r, host_grant(b@, start as nat)) {
            (Ok((a, m, end)), Ok((g, at))) => a@ == g.0 && m@ == g.1 && end == at && start < end
                <= b@.len(),
            (Err(e), Err(f)) => e@ == f,
            _ => false,
        },
{
    let (n, first): (u64, usize) = match read_map_count(b, start) {
        Ok(v) => v,
        Err(e) => {
            return Err(e);
        },
    };
    let mut authority: Option<String> = None;
    let mut methods: Option<Vec<Method>> = None;
    let mut pos: usize = first;
    let mut i: u64 = 0;
    let ghost whole = host_entries(
        b@,
        first as nat,
        n as nat,
        HostParts { authority: None, methods: None },
    );
    while i < n
        invariant
            i <= n,
            start < pos <= b@.len(),
            whole == host_entries(
                b@,
                pos as nat,
                (n - i) as nat,
                host_parts(authority, methods),
            ),
            map_count(b@, start as nat) == Ok::<(nat, nat), CapsStoreFault>(
                (n as nat, first as nat),
            ),
            whole == host_entries(
                b@,
                first as nat,
                n as nat,
                HostParts { authority: None, methods: None },
            ),
        decreases n - i,
    {
        let (key, at): (String, usize) = match read_text(b, pos) {
            Ok(v) => v,
            Err(e) => {
                return Err(e);
            },
        };
        if text::str_eq(key.as_str(), "authority") {
            match read_text(b, at) {
                Ok((s, end)) => {
                    authority = Some(s);
                    pos = end;
                },
                Err(e) => {
                    return Err(e);
                },
            }
        } else if text::str_eq(key.as_str(), "methods") {
            let (k, p): (u64, usize) = match read_array_count(b, at) {
                Ok(v) => v,
                Err(e) => {
                    return Err(e);
                },
            };
            match read_methods(b, p, k) {
                Ok((ms, end)) => {
                    methods = Some(ms);
                    pos = end;
                },
                Err(e) => {
                    return Err(e);
                },
            }
        } else {
            match skip(b, at) {
                Ok(end) => {
                    pos = end;
                },
                Err(e) => {
                    return Err(e);
                },
            }
        }
        i += 1;
    }
    let a = match authority {
        Some(s) => s,
        None => {
            return Err(CapsStoreError::Structure("host missing authority".to_owned()));
        },
    };
    match methods {
        Some(m) => Ok((a, m, pos)),
        None => Err(CapsStoreError::Structure("host missing methods".to_owned())),
    }
}

fn read_hosts(b: &[u8], start: usize, n: u64, out: &mut Vec<HostGrantWire>) -> (r: Result<
    usize,
    CapsStoreError,
>)
    requires
        start <= b@.len(),
    ensures
        match (r, host_grants(b@, start as nat, n as nat, hosts_say(old(out)@))) {
            (Ok(end), Ok((v, at))) => hosts_say(final(out)@) == v && end == at && start <= end
                <= b@.len(),
            (Err(e), Err(f)) => e@ == f,
            _ => false,
        },
{
    let ghost first = hosts_say(out@);
    let ghost whole = host_grants(b@, start as nat, n as nat, first);
    let mut pos: usize = start;
    let mut i: u64 = 0;
    while i < n
        invariant
            i <= n,
            start <= pos <= b@.len(),
            whole == host_grants(b@, pos as nat, (n - i) as nat, hosts_say(out@)),
            whole == host_grants(b@, start as nat, n as nat, first),
            first == hosts_say(old(out)@),
        decreases n - i,
    {
        match decode_host(b, pos) {
            Ok((authority, methods, end)) => {
                let ghost before = hosts_say(out@);
                let ghost g = (authority@, methods@);
                out.push(HostGrantWire { authority, methods });
                assert(hosts_say(out@) =~= before.push(g));
                pos = end;
            },
            Err(e) => {
                return Err(e);
            },
        }
        i += 1;
    }
    Ok(pos)
}

fn read_set_entry(b: &[u8], pos: usize, wire: &mut CapabilitySetWire) -> (r: Result<
    usize,
    CapsStoreError,
>)
    requires
        pos <= b@.len(),
    ensures
        match (r, set_entries(b@, pos as nat, 1, old(wire)@)) {
            (Ok(end), Ok((w, at))) => final(wire)@ == w && end == at && pos < end <= b@.len(),
            (Err(e), Err(f)) => e@ == f,
            _ => false,
        },
{
    proof {
        reveal_with_fuel(set_entries, 2);
        assert(files_say(wire.files@) =~= wire@.files);
        assert(dirs_say(wire.dirs@) =~= wire@.dirs);
        assert(hosts_say(wire.hosts@) =~= wire@.hosts);
    }
    let (key, at): (String, usize) = match read_text(b, pos) {
        Ok(v) => v,
        Err(e) => {
            return Err(e);
        },
    };
    let k = key.as_str();
    let listed = text::str_eq(k, "interfaces") || text::str_eq(k, "files") || text::str_eq(k, "dirs")
        || text::str_eq(k, "hosts");
    if !listed {
        return skip(b, at);
    }
    let (n, start): (u64, usize) = match read_array_count(b, at) {
        Ok(v) => v,
        Err(e) => {
            return Err(e);
        },
    };
    let ghost before = wire@;
    if text::str_eq(k, "interfaces") {
        let r = read_interfaces(b, start, n, &mut wire.interfaces);
        assert(wire@.files =~= before.files);
        assert(wire@.dirs =~= before.dirs);
        assert(wire@.hosts =~= before.hosts);
        r
    } else if text::str_eq(k, "files") {
        let r = read_files(b, start, n, &mut wire.files);
        assert(wire@.files =~= files_say(wire.files@));
        assert(wire@.dirs =~= before.dirs);
        assert(wire@.hosts =~= before.hosts);
        r
    } else if text::str_eq(k, "dirs") {
        let r = read_dirs(b, start, n, &mut wire.dirs);
        assert(wire@.files =~= before.files);
        assert(wire@.dirs =~= dirs_say(wire.dirs@));
        assert(wire@.hosts =~= before.hosts);
        r
    } else {
        let r = read_hosts(b, start, n, &mut wire.hosts);
        assert(wire@.files =~= before.files);
        assert(wire@.dirs =~= before.dirs);
        assert(wire@.hosts =~= hosts_say(wire.hosts@));
        r
    }
}

fn decode_wire(bytes: &[u8]) -> (r: Result<CapabilitySetWire, CapsStoreError>)
    ensures
        match (r, decoded_wire(bytes@)) {
            (Ok(w), Ok(x)) => w@ == x,
            (Err(e), Err(f)) => e@ == f,
            _ => false,
        },
{
    let (n, start): (u64, usize) = match read_map_count(bytes, 0) {
        Ok(v) => v,
        Err(e) => {
            return Err(e);
        },
    };
    let mut wire = CapabilitySetWire {
        interfaces: Vec::new(),
        files: Vec::new(),
        dirs: Vec::new(),
        hosts: Vec::new(),
    };
    proof {
        assert(wire@.interfaces =~= Seq::<Interface>::empty());
        assert(wire@.files =~= Seq::<(Seq<u8>, FileMode)>::empty());
        assert(wire@.dirs =~= Seq::<(Seq<u8>, FileMode)>::empty());
        assert(wire@.hosts =~= Seq::<(Seq<char>, Seq<Method>)>::empty());
    }
    let ghost whole = set_entries(bytes@, start as nat, n as nat, no_grants());
    let mut pos: usize = start;
    let mut i: u64 = 0;
    while i < n
        invariant
            i <= n,
            pos <= bytes@.len(),
            whole == set_entries(bytes@, pos as nat, (n - i) as nat, wire@),
            whole == set_entries(bytes@, start as nat, n as nat, no_grants()),
            map_count(bytes@, 0) == Ok::<(nat, nat), CapsStoreFault>((n as nat, start as nat)),
        decreases n - i,
    {
        proof {
            reveal_with_fuel(set_entries, 2);
        }
        match read_set_entry(bytes, pos, &mut wire) {
            Ok(end) => {
                pos = end;
            },
            Err(e) => {
                return Err(e);
            },
        }
        i += 1;
    }
    if pos != bytes.len() {
        return Err(
            CapsStoreError::Structure(
                text::join3(
                    "trailing ",
                    text::decimal_string((bytes.len() - pos) as u64).as_str(),
                    " bytes",
                ),
            ),
        );
    }
    Ok(wire)
}

/// What a decoded set is, or why there is none.
pub open spec fn decoded_as(b: Seq<u8>, r: Result<GrantSet, CapsStoreFault>) -> bool {
    match decoded_wire(b) {
        Err(f) => r == Err::<GrantSet, CapsStoreFault>(f),
        Ok(w) => match w.build_fault() {
            Some(f) => r == Err::<GrantSet, CapsStoreFault>(CapsStoreFault::Structure(f.message())),
            None => r matches Ok(g) && w.built_as(g),
        },
    }
}

/// The grants in the bytes, where there are any, get ids of 32 bits.
pub open spec fn numbered(b: Seq<u8>) -> bool {
    decoded_wire(b) matches Ok(w) ==> w.fits()
}

/// Whether 32 bits can number what side-file CBOR names.
pub fn is_numbered(bytes: &[u8]) -> (r: bool)
    ensures
        r == numbered(bytes@),
{
    match decode_wire(bytes) {
        Ok(wire) => wire.fits(),
        Err(_) => true,
    }
}

/// Decode caps side-file CBOR into a [`CapabilitySet`] with a table of its own.
/// Paths and authorities are taken as they stand.
pub fn decode_capability_set(bytes: &[u8]) -> (r: Result<CapabilitySet, CapsStoreError>)
    requires
        numbered(bytes@),
    ensures
        match r {
            Ok(set) => set.wf() && set@.resolves() && decoded_as(bytes@, Ok(set@)),
            Err(e) => decoded_as(bytes@, Err(e@)),
        },
{
    let wire = match decode_wire(bytes) {
        Ok(w) => w,
        Err(e) => {
            return Err(e);
        },
    };
    let ghost w = wire@;
    match CapabilitySet::assemble(wire) {
        Ok(set) => {
            proof {
                super::laws::lemma_built_sound(w, set@);
            }
            Ok(set)
        },
        Err(e) => Err(CapsStoreError::Structure(e.message())),
    }
}

} // verus!
