//! Capability sets: construction, wire form and lattice.
use helix::audit::caps::{parse_interface, parse_method, parse_mode};
use helix::caps::interner::{validate_authority, validate_canonical_path};
use helix::caps::ulid_str;
use helix::caps::{
    CapabilitySet, CapabilitySetWire, CapsError, DirGrant, DirGrantWire, FileGrant, FileGrantWire,
    FileMode, HostGrant, HostGrantWire, Interface, Interner, Method, MethodMask, RequestId,
    ResourceBudget,
};
use serde_json::Value;

const ALL_IFACES: [Interface; 5] = [
    Interface::Stdio,
    Interface::Clocks,
    Interface::Random,
    Interface::Filesystem,
    Interface::HttpOutbound,
];

const DIR_PATHS: [&str; 8] = [
    "/",
    "/a",
    "/a/b",
    "/a/bc",
    "/srv",
    "/srv/inbox",
    "/srv/data",
    "/etc",
];

const FILE_PATHS: [&str; 4] = ["/a/b/c", "/a/bc/x", "/srv/data/report.csv", "/etc/passwd"];

const HOSTS: [&str; 3] = ["api.example.com:443", "example.com:80", "localhost:8080"];

fn pool() -> Interner {
    let mut intern = Interner::new();
    for p in DIR_PATHS.iter().chain(FILE_PATHS.iter()) {
        intern.intern_path(p.as_bytes());
    }
    for a in HOSTS {
        intern.intern_authority(a);
    }
    intern
}

fn path_id(intern: &Interner, p: &str) -> helix::caps::PathId {
    intern.get_path(p.as_bytes()).unwrap()
}

fn texts(v: &Value) -> Result<Vec<String>, String> {
    let items = v.as_array().ok_or("expected an array")?;
    let mut out = Vec::new();
    for item in items {
        out.push(item.as_str().ok_or("expected a string")?.to_owned());
    }
    Ok(out)
}

fn field<'a>(v: &'a Value, name: &str) -> Result<&'a Value, String> {
    v.get(name).ok_or(format!("missing field {name}"))
}

fn grants(v: &Value, name: &str) -> Result<Vec<(Vec<u8>, FileMode)>, String> {
    let mut out = Vec::new();
    for item in field(v, name)?.as_array().ok_or("expected an array")? {
        let path = field(item, "path")?.as_str().ok_or("expected a string")?;
        let mode = field(item, "mode")?.as_str().ok_or("expected a string")?;
        let mode = parse_mode(mode).map_err(|e| e.message())?;
        out.push((path.as_bytes().to_vec(), mode));
    }
    Ok(out)
}

fn wire_from_json(json: &str) -> Result<CapabilitySetWire, String> {
    let v = serde_json::from_str::<Value>(json).map_err(|e| e.to_string())?;
    let mut interfaces = Vec::new();
    for name in texts(field(&v, "interfaces")?)? {
        interfaces.push(parse_interface(&name).map_err(|e| e.message())?);
    }
    let mut files = Vec::new();
    for (path, mode) in grants(&v, "files")? {
        files.push(FileGrantWire { path, mode });
    }
    let mut dirs = Vec::new();
    for (path, mode) in grants(&v, "dirs")? {
        dirs.push(DirGrantWire { path, mode });
    }
    let mut hosts = Vec::new();
    for item in field(&v, "hosts")?.as_array().ok_or("expected an array")? {
        let authority = field(item, "authority")?.as_str().ok_or("expected a string")?;
        let mut methods = Vec::new();
        for name in texts(field(item, "methods")?)? {
            methods.push(parse_method(&name).map_err(|e| e.message())?);
        }
        hosts.push(HostGrantWire { authority: authority.to_owned(), methods });
    }
    Ok(CapabilitySetWire { interfaces, files, dirs, hosts })
}

fn set_from_json(json: &str) -> Result<CapabilitySet, String> {
    CapabilitySet::try_from(wire_from_json(json)?).map_err(|e| e.message())
}

fn sample_json() -> &'static str {
    r#"{
      "interfaces": ["stdio", "clocks", "random", "filesystem", "http_outbound"],
      "files": [{ "path": "/srv/data/report.csv", "mode": "read" }],
      "dirs": [{ "path": "/srv/inbox", "mode": "read_write" }],
      "hosts": [{ "authority": "api.example.com:443", "methods": ["GET", "POST"] }]
    }"#
}

#[test]
fn caps8_new_rejects_relative_path_via_wire() {
    let json = r#"{
      "interfaces": ["filesystem"],
      "files": [{ "path": "relative/file.txt", "mode": "read" }],
      "dirs": [],
      "hosts": []
    }"#;
    let err = set_from_json(json).unwrap_err();
    assert!(
        err.contains("canonical") || err.contains("relative"),
        "unexpected error: {err}"
    );
}

#[test]
fn caps8_new_rejects_dotdot_component_via_wire() {
    let json = r#"{
      "interfaces": ["filesystem"],
      "files": [{ "path": "/srv/../etc/passwd", "mode": "read" }],
      "dirs": [],
      "hosts": []
    }"#;
    let msg = set_from_json(json).unwrap_err();
    assert!(msg.contains("canonical") || msg.contains(".."), "unexpected error: {msg}");
}

#[test]
fn caps8_new_rejects_duplicate_paths() {
    let mut interner = Interner::new();
    let p = interner.intern_path(b"/srv/a");
    let err = CapabilitySet::new(
        &[Interface::Filesystem],
        vec![
            FileGrant::new(p, FileMode::Read),
            FileGrant::new(p, FileMode::ReadWrite),
        ],
        vec![],
        vec![],
    )
    .unwrap_err();
    assert!(matches!(err, CapsError::Duplicate(_)));
}

#[test]
fn caps8_new_rejects_duplicate_dir_roots() {
    let mut interner = Interner::new();
    let p = interner.intern_path(b"/srv/inbox");
    let err = CapabilitySet::new(
        &[Interface::Filesystem],
        vec![],
        vec![
            DirGrant::new(p, FileMode::Read),
            DirGrant::new(p, FileMode::ReadWrite),
        ],
        vec![],
    )
    .unwrap_err();
    assert!(matches!(err, CapsError::Duplicate(_)));
}

#[test]
fn caps8_new_rejects_duplicate_authorities() {
    let mut interner = Interner::new();
    let a = interner.intern_authority("api.example.com:443");
    let err = CapabilitySet::new(
        &[Interface::HttpOutbound],
        vec![],
        vec![],
        vec![
            HostGrant::new(a, MethodMask::new(&[Method::Get])),
            HostGrant::new(a, MethodMask::new(&[Method::Post])),
        ],
    )
    .unwrap_err();
    assert!(matches!(err, CapsError::Duplicate(_)));
}

#[test]
fn caps8_new_rejects_orphan_file_grants() {
    let mut interner = Interner::new();
    let p = interner.intern_path(b"/srv/a");
    let err = CapabilitySet::new(
        &[Interface::Stdio],
        vec![FileGrant::new(p, FileMode::Read)],
        vec![],
        vec![],
    )
    .unwrap_err();
    assert_eq!(err, CapsError::OrphanGrant(Interface::Filesystem));
}

#[test]
fn caps8_new_rejects_orphan_host_grants() {
    let mut interner = Interner::new();
    let a = interner.intern_authority("api.example.com:443");
    let err = CapabilitySet::new(
        &[Interface::Stdio],
        vec![],
        vec![],
        vec![HostGrant::new(a, MethodMask::new(&[Method::Get]))],
    )
    .unwrap_err();
    assert_eq!(err, CapsError::OrphanGrant(Interface::HttpOutbound));
}

#[test]
fn caps9_json_round_trip_every_field() {
    let set = set_from_json(sample_json()).unwrap();
    assert!(set.has(Interface::Stdio));
    assert!(set.has(Interface::Clocks));
    assert!(set.has(Interface::Random));
    assert!(set.has(Interface::Filesystem));
    assert!(set.has(Interface::HttpOutbound));
    assert_eq!(set.files().len(), 1);
    assert_eq!(set.dirs().len(), 1);
    assert_eq!(set.hosts().len(), 1);
    assert_eq!(set.interner().path(set.files()[0].path()), b"/srv/data/report.csv");
    assert_eq!(set.files()[0].mode(), FileMode::Read);
    assert_eq!(set.interner().path(set.dirs()[0].root()), b"/srv/inbox");
    assert_eq!(set.dirs()[0].mode(), FileMode::ReadWrite);
    assert_eq!(
        set.interner().authority(set.hosts()[0].authority()),
        "api.example.com:443"
    );
    assert!(set.hosts()[0]
        .methods()
        .is_subset_of(MethodMask::new(&[Method::Get, Method::Post])));
    assert!(MethodMask::new(&[Method::Get, Method::Post]).is_subset_of(set.hosts()[0].methods()));

    let wire = CapabilitySetWire::from(set.clone());
    assert_eq!(wire.interfaces.len(), 5);
    assert_eq!(wire.files.len(), 1);
    assert_eq!(wire.dirs.len(), 1);
    assert_eq!(wire.hosts.len(), 1);
    let again = CapabilitySet::try_from(wire).unwrap();
    assert!(set.eq(&again));

    let shown = helix::audit::caps::capability_set_to_json(&set);
    let helix::json::Json::Object(entries) = shown else {
        panic!("expected an object");
    };
    let keys: Vec<&str> = entries.iter().map(|(k, _)| k.as_str()).collect();
    assert!(keys.contains(&"interfaces"));
    assert!(keys.contains(&"files"));
    assert!(keys.contains(&"dirs"));
    assert!(keys.contains(&"hosts"));
    assert!(!keys.contains(&"budget"), "budget is a sibling, not a CapabilitySet field");
}

#[test]
fn caps9_unknown_interface_name_fails_to_deserialize() {
    let json = r#"{
      "interfaces": ["stdio", "environment"],
      "files": [],
      "dirs": [],
      "hosts": []
    }"#;
    let err = set_from_json(json).unwrap_err().to_ascii_lowercase();
    assert!(
        err.contains("environment") || err.contains("unknown"),
        "unexpected error: {err}"
    );
}

#[test]
fn resource_budget_is_within_and_min() {
    let high = ResourceBudget::new(500, 2000, 64 * 1024 * 1024, 1024 * 1024, 2, 8, 32);
    let low = ResourceBudget::new(100, 500, 1024, 512, 1, 2, 4);
    assert!(low.is_within(&high));
    assert!(!high.is_within(&low));
    assert!(high.is_within(&high));
    let m = high.min(&low);
    assert_eq!(m.preempt_ticks(), 100);
    assert_eq!(m.wall_clock_ms(), 500);
    assert_eq!(m.memory_bytes(), 1024);
    assert_eq!(m.output_bytes(), 512);
    assert_eq!(m.max_delegation_depth(), 1);
    assert_eq!(m.max_children(), 2);
    assert_eq!(m.max_concurrent_instances(), 4);
}

#[test]
fn empty_const_is_bottom() {
    assert_eq!(CapabilitySet::empty().interfaces_bits(), 0);
    assert!(CapabilitySet::empty().files().is_empty());
    assert!(CapabilitySet::empty().dirs().is_empty());
    assert!(CapabilitySet::empty().hosts().is_empty());
}

#[test]
fn caps12_unknown_names_and_non_array_interfaces() {
    let unknown_method = r#"{
      "interfaces": ["http_outbound"],
      "files": [],
      "dirs": [],
      "hosts": [{ "authority": "api.example.com:443", "methods": ["GET", "TRACE"] }]
    }"#;
    let err = set_from_json(unknown_method).unwrap_err();
    let msg = err.to_ascii_lowercase();
    assert!(
        msg.contains("trace") || msg.contains("unknown") || msg.contains("method"),
        "unexpected error: {err}"
    );

    let connect = r#"{
      "interfaces": ["http_outbound"],
      "files": [],
      "dirs": [],
      "hosts": [{ "authority": "api.example.com:443", "methods": ["CONNECT"] }]
    }"#;
    assert!(set_from_json(connect).is_err());

    let unknown_iface = r#"{
      "interfaces": ["stdio", "environment"],
      "files": [],
      "dirs": [],
      "hosts": []
    }"#;
    let err = set_from_json(unknown_iface).unwrap_err();
    let msg = err.to_ascii_lowercase();
    assert!(
        msg.contains("environment") || msg.contains("unknown"),
        "unexpected error: {err}"
    );

    let as_int = r#"{
      "interfaces": 31,
      "files": [],
      "dirs": [],
      "hosts": []
    }"#;
    assert!(set_from_json(as_int).is_err(), "integer interfaces encoding must be rejected");

    let as_bitmask = r#"{
      "interfaces": 15,
      "files": [],
      "dirs": [],
      "hosts": []
    }"#;
    assert!(
        set_from_json(as_bitmask).is_err(),
        "raw bitmask interfaces encoding must be rejected"
    );

    let as_object = r#"{
      "interfaces": { "bits": 15 },
      "files": [],
      "dirs": [],
      "hosts": []
    }"#;
    assert!(set_from_json(as_object).is_err());

    let methods_as_bits = r#"{
      "interfaces": ["http_outbound"],
      "files": [],
      "dirs": [],
      "hosts": [{ "authority": "api.example.com:443", "methods": 3 }]
    }"#;
    assert!(
        set_from_json(methods_as_bits).is_err(),
        "MethodMask integer bitmask must be rejected"
    );
}

#[test]
fn caps13_prefix_containment_edges() {
    let mut intern = Interner::new();
    let root = intern.intern_path(b"/");
    let a = intern.intern_path(b"/a");
    let ab = intern.intern_path(b"/a/b");
    let abc = intern.intern_path(b"/a/bc");

    assert!(!intern.is_prefix(ab, abc), "/a/b must not contain /a/bc");
    assert!(!intern.is_prefix(abc, ab));

    assert!(intern.is_prefix(root, root));
    assert!(intern.is_prefix(root, a));
    assert!(intern.is_prefix(root, ab));
    assert!(intern.is_prefix(root, abc), "/ contains everything");

    assert!(intern.is_prefix(ab, ab), "equal roots contain each other");
    assert!(intern.is_prefix(abc, abc));

    let fs = [Interface::Filesystem];
    let set = |root_id, mode: FileMode| {
        CapabilitySet::new(&fs, vec![], vec![DirGrant::new(root_id, mode)], vec![])
            .unwrap()
            .with_interner(intern.clone())
    };

    let ab_read = set(ab, FileMode::Read);
    let ab_write = set(ab, FileMode::ReadWrite);
    let abc_read = set(abc, FileMode::Read);
    let abc_write = set(abc, FileMode::ReadWrite);
    let root_write = set(root, FileMode::ReadWrite);
    let a_read = set(a, FileMode::Read);
    let a_write = set(a, FileMode::ReadWrite);

    assert!(!abc_read.is_subset_of(&ab_read));
    assert!(!ab_read.is_subset_of(&abc_read));

    assert!(ab_read.is_subset_of(&root_write));
    assert!(abc_read.is_subset_of(&root_write));
    assert!(abc_write.is_subset_of(&root_write));

    assert!(ab_read.is_subset_of(&ab_read));
    assert!(ab_read.is_subset_of(&ab_write));
    assert!(!ab_write.is_subset_of(&ab_read));

    assert!(ab_read.is_subset_of(&a_read));
    assert!(ab_read.is_subset_of(&a_write));
    assert!(!ab_write.is_subset_of(&a_read), "mode ordering respected");
    assert!(ab_write.is_subset_of(&a_write));
}

fn id_to_json(id: RequestId) -> String {
    serde_json::to_string(&ulid_str::encode(id.as_u128())).unwrap()
}

fn id_from_json(json: &str) -> Result<RequestId, String> {
    let text = serde_json::from_str::<String>(json).map_err(|e| e.to_string())?;
    let value = ulid_str::decode(&text).map_err(|e| e.to_owned())?;
    Ok(RequestId::from_u128(value))
}

#[test]
fn caps15_request_id_ulid_json() {
    let id = RequestId::from_u128(0x018F_2C2A_5E0B_4C3D_9A1E_7B8C_6D5E_4F30);
    let json = id_to_json(id);
    assert!(json.starts_with('"') && json.ends_with('"'), "JSON: {json}");
    let inner = json.trim_matches('"');
    assert_eq!(inner.len(), 26, "ULID text must be 26 chars, got {inner}");
    let value = serde_json::from_str::<Value>(&json).unwrap();
    assert!(value.is_string());
    assert_eq!(value.as_str().unwrap().len(), 26);

    let back = id_from_json(&json).unwrap();
    assert_eq!(back, id);

    let zero = RequestId::from_u128(0);
    let zero_json = id_to_json(zero);
    assert_eq!(zero_json, "\"00000000000000000000000000\"");
    assert_eq!(id_from_json(&zero_json).unwrap(), zero);

    assert!(id_from_json("0").is_err());
    assert!(id_from_json("12345").is_err());
    assert!(id_from_json("340282366920938463463374607431768211455").is_err());

    assert!(id_from_json("\"\"").is_err());
    assert!(id_from_json("\"01ARZ3NDEKTSV4RRFFQ69G5FA\"").is_err());
    assert!(id_from_json("\"01ARZ3NDEKTSV4RRFFQ69G5FAVA\"").is_err());
    assert!(id_from_json("\"IIIIIIIIIIIIIIIIIIIIIIIIII\"").is_err());
    assert!(id_from_json("\"0000000000000000000000000U\"").is_err());
    assert!(id_from_json("\"0000000000000000000000000O\"").is_err());
    assert!(id_from_json("\"LLLLLLLLLLLLLLLLLLLLLLLLLL\"").is_err());
}

fn iface_only(bits: u8) -> CapabilitySet {
    let mut interfaces = Vec::new();
    for (i, iface) in ALL_IFACES.iter().enumerate() {
        if bits & (1 << i) != 0 {
            interfaces.push(*iface);
        }
    }
    CapabilitySet::new(&interfaces, vec![], vec![], vec![]).expect("interface-only set is valid")
}

#[test]
fn caps7_exhaustive_32_interface_combos() {
    let sets: Vec<CapabilitySet> = (0u8..32).map(iface_only).collect();
    assert_eq!(sets.len(), 32);
    for (i, a) in sets.iter().enumerate() {
        let i = u64::try_from(i).unwrap();
        assert_eq!(a.interfaces_bits(), i);
        assert!(a.files().is_empty());
        assert!(a.dirs().is_empty());
        assert!(a.hosts().is_empty());
        for (bit, iface) in ALL_IFACES.iter().enumerate() {
            assert_eq!(a.has(*iface), i & (1 << bit) != 0);
        }
        for (j, b) in sets.iter().enumerate() {
            let j = u64::try_from(j).unwrap();
            assert_eq!(a.is_subset_of(b), i & !j == 0, "{i} ⊆ {j}");
            let meet = a.meet(b);
            assert_eq!(meet.interfaces_bits(), i & j);
            assert_eq!(CapabilitySet::attenuate(b, a).is_ok(), a.is_subset_of(b));
        }
    }
}

fn fs_set(intern: &Interner, files: Vec<FileGrant>, dirs: Vec<DirGrant>) -> CapabilitySet {
    CapabilitySet::new(&[Interface::Filesystem], files, dirs, vec![])
        .unwrap()
        .with_interner(intern.clone())
}

#[test]
fn caps10_empty_subset_hand_built() {
    let intern = pool();
    let dir = path_id(&intern, "/srv/inbox");
    let set = CapabilitySet::new(
        &[Interface::Filesystem, Interface::Stdio],
        vec![],
        vec![DirGrant::new(dir, FileMode::ReadWrite)],
        vec![],
    )
    .unwrap()
    .with_interner(intern);
    assert!(CapabilitySet::empty().is_subset_of(&set));
    assert!(CapabilitySet::empty().is_subset_of(&CapabilitySet::empty()));
}

#[test]
fn dir_grant_covers_nested_file() {
    let intern = pool();
    let file = path_id(&intern, "/srv/data/report.csv");
    let dir = path_id(&intern, "/srv/data");
    let parent = fs_set(&intern, vec![], vec![DirGrant::new(dir, FileMode::ReadWrite)]);
    let child = fs_set(&intern, vec![FileGrant::new(file, FileMode::Read)], vec![]);
    assert!(child.is_subset_of(&parent));
    assert!(!parent.is_subset_of(&child));
    assert!(CapabilitySet::attenuate(&parent, &child).unwrap().eq(&child));
}

#[test]
fn a_slash_b_does_not_contain_a_slash_bc() {
    let intern = pool();
    let ab = path_id(&intern, "/a/b");
    let abc = path_id(&intern, "/a/bc");
    assert!(!intern.is_prefix(ab, abc));
    assert!(!intern.is_prefix(abc, ab));
    let a = fs_set(&intern, vec![], vec![DirGrant::new(ab, FileMode::Read)]);
    let b = fs_set(&intern, vec![], vec![DirGrant::new(abc, FileMode::Read)]);
    assert!(!b.is_subset_of(&a));
    assert!(!a.is_subset_of(&b));
    let m = a.meet(&b);
    assert!(m.dirs().is_empty());
}

#[test]
fn root_dir_covers_everything() {
    let intern = pool();
    let root = path_id(&intern, "/");
    let nested = path_id(&intern, "/a/b");
    let parent = fs_set(&intern, vec![], vec![DirGrant::new(root, FileMode::ReadWrite)]);
    let child = fs_set(&intern, vec![], vec![DirGrant::new(nested, FileMode::Read)]);
    assert!(child.is_subset_of(&parent));
}

#[test]
fn meet_nested_dirs_is_more_specific() {
    let intern = pool();
    let a_root = path_id(&intern, "/a");
    let ab = path_id(&intern, "/a/b");
    let wide = fs_set(&intern, vec![], vec![DirGrant::new(a_root, FileMode::ReadWrite)]);
    let narrow = fs_set(&intern, vec![], vec![DirGrant::new(ab, FileMode::Read)]);
    let m = wide.meet(&narrow);
    assert_eq!(m.dirs().len(), 1);
    assert_eq!(m.dirs()[0].root(), ab);
    assert_eq!(m.dirs()[0].mode(), FileMode::Read);
    assert!(m.is_subset_of(&wide));
    assert!(m.is_subset_of(&narrow));
}

#[test]
fn sets_that_differ_in_size_need_no_table() {
    let intern = pool();
    let file = path_id(&intern, "/srv/data/report.csv");
    let unbound = CapabilitySet::new(
        &[Interface::Filesystem],
        vec![FileGrant::new(file, FileMode::Read)],
        vec![],
        vec![],
    )
    .unwrap();
    assert!(!unbound.ids_resolve());
    assert!(!unbound.eq(&CapabilitySet::empty()));
    assert!(!CapabilitySet::empty().eq(&unbound));
    let other = CapabilitySet::new(
        &[Interface::Filesystem],
        vec![FileGrant::new(file, FileMode::ReadWrite)],
        vec![],
        vec![],
    )
    .unwrap();
    assert!(!unbound.eq(&other));
}

#[test]
fn meet_is_the_same_either_way_round() {
    let intern = pool();
    let file = path_id(&intern, "/srv/data/report.csv");
    let inbox = path_id(&intern, "/srv/inbox");
    let srv = path_id(&intern, "/srv");
    let a = fs_set(
        &intern,
        vec![FileGrant::new(file, FileMode::ReadWrite)],
        vec![DirGrant::new(inbox, FileMode::ReadWrite)],
    );
    let b = fs_set(&intern, vec![], vec![DirGrant::new(srv, FileMode::Read)]);
    assert!(a.meet(&b).eq(&b.meet(&a)));
    assert_eq!(a.meet(&b).files().len(), 1);
    assert_eq!(a.meet(&b).dirs()[0].root(), inbox);
}

#[test]
fn meet_file_with_covering_dir_lesser_mode() {
    let intern = pool();
    let file = path_id(&intern, "/srv/data/report.csv");
    let dir = path_id(&intern, "/srv");
    let files = fs_set(&intern, vec![FileGrant::new(file, FileMode::ReadWrite)], vec![]);
    let dirs = fs_set(&intern, vec![], vec![DirGrant::new(dir, FileMode::Read)]);
    let m = files.meet(&dirs);
    assert_eq!(m.files().len(), 1);
    assert_eq!(m.files()[0].path(), file);
    assert_eq!(m.files()[0].mode(), FileMode::Read);
    assert!(m.dirs().is_empty());
}

#[test]
fn attenuate_rejects_escalation() {
    let intern = pool();
    let dir = path_id(&intern, "/srv/inbox");
    let parent = fs_set(&intern, vec![], vec![DirGrant::new(dir, FileMode::Read)]);
    let requested = fs_set(&intern, vec![], vec![DirGrant::new(dir, FileMode::ReadWrite)]);
    let err = CapabilitySet::attenuate(&parent, &requested).unwrap_err();
    assert!(matches!(err, CapsError::Escalation(_)));
}

#[test]
fn host_methods_subset_and_meet() {
    let intern = pool();
    let auth = intern.get_authority("api.example.com:443").unwrap();
    let get_post = CapabilitySet::new(
        &[Interface::HttpOutbound],
        vec![],
        vec![],
        vec![HostGrant::new(auth, MethodMask::new(&[Method::Get, Method::Post]))],
    )
    .unwrap()
    .with_interner(intern.clone());
    let get = CapabilitySet::new(
        &[Interface::HttpOutbound],
        vec![],
        vec![],
        vec![HostGrant::new(auth, MethodMask::new(&[Method::Get]))],
    )
    .unwrap()
    .with_interner(intern);
    assert!(get.is_subset_of(&get_post));
    assert!(!get_post.is_subset_of(&get));
    let m = get_post.meet(&get);
    assert_eq!(m.hosts().len(), 1);
    assert!(m.hosts()[0]
        .methods()
        .is_subset_of(MethodMask::new(&[Method::Get])));
    assert!(MethodMask::new(&[Method::Get]).is_subset_of(m.hosts()[0].methods()));
}

/// A family of sets over the pool, each kept only where nothing in it is
/// covered by something else in it.
fn family() -> Vec<CapabilitySet> {
    let intern = pool();
    let auth = intern.get_authority("example.com:80").unwrap();
    let mut out = vec![CapabilitySet::empty()];
    for (i, p) in DIR_PATHS.iter().enumerate() {
        let mode = if i % 2 == 0 { FileMode::Read } else { FileMode::ReadWrite };
        out.push(fs_set(&intern, vec![], vec![DirGrant::new(path_id(&intern, p), mode)]));
    }
    for p in FILE_PATHS {
        for mode in [FileMode::Read, FileMode::ReadWrite] {
            out.push(fs_set(&intern, vec![FileGrant::new(path_id(&intern, p), mode)], vec![]));
        }
    }
    out.push(fs_set(
        &intern,
        vec![FileGrant::new(path_id(&intern, "/etc/passwd"), FileMode::Read)],
        vec![
            DirGrant::new(path_id(&intern, "/a/b"), FileMode::ReadWrite),
            DirGrant::new(path_id(&intern, "/srv"), FileMode::Read),
        ],
    ));
    for methods in [vec![Method::Get], vec![Method::Get, Method::Delete]] {
        out.push(
            CapabilitySet::new(
                &[Interface::HttpOutbound, Interface::Clocks],
                vec![],
                vec![],
                vec![HostGrant::new(auth, MethodMask::new(&methods))],
            )
            .unwrap()
            .with_interner(intern.clone()),
        );
    }
    out
}

#[test]
fn subset_is_a_partial_order() {
    let sets = family();
    for a in &sets {
        assert!(a.is_subset_of(a));
        assert!(CapabilitySet::empty().is_subset_of(a));
        for b in &sets {
            if a.is_subset_of(b) && b.is_subset_of(a) {
                assert!(a.eq(b));
            }
            for c in &sets {
                if a.is_subset_of(b) && b.is_subset_of(c) {
                    assert!(a.is_subset_of(c));
                }
            }
        }
    }
}

#[test]
fn meet_is_the_greatest_lower_bound() {
    let sets = family();
    for a in &sets {
        for b in &sets {
            let m = a.meet(b);
            assert!(m.is_subset_of(a));
            assert!(m.is_subset_of(b));
            for c in &sets {
                if c.is_subset_of(a) && c.is_subset_of(b) {
                    assert!(c.is_subset_of(&m));
                }
            }
        }
    }
}

#[test]
fn attenuate_succeeds_exactly_on_subsets() {
    let sets = family();
    for p in &sets {
        for r in &sets {
            match CapabilitySet::attenuate(p, r) {
                Ok(s) => {
                    assert!(r.is_subset_of(p));
                    assert!(s.is_subset_of(p));
                    assert!(s.eq(r));
                }
                Err(e) => {
                    assert!(!r.is_subset_of(p));
                    assert!(matches!(e, CapsError::Escalation(_)));
                }
            }
        }
    }
}

#[test]
fn sets_compare_across_tables() {
    let mut one = Interner::new();
    let d1 = one.intern_path(b"/srv");
    let mut two = Interner::new();
    two.intern_path(b"/noise/deep");
    let f2 = two.intern_path(b"/srv/data");
    let wide = fs_set(&one, vec![], vec![DirGrant::new(d1, FileMode::Read)]);
    let narrow = fs_set(&two, vec![], vec![DirGrant::new(f2, FileMode::Read)]);
    assert!(narrow.is_subset_of(&wide));
    assert!(!wide.is_subset_of(&narrow));
    let m = wide.meet(&narrow);
    assert_eq!(m.dirs().len(), 1);
    assert_eq!(m.interner().path(m.dirs()[0].root()), b"/srv/data");
}

#[test]
fn interning_is_stable() {
    let mut t = Interner::new();
    assert!(t.is_empty());
    let a = t.intern_path(b"/srv/data");
    let b = t.intern_path(b"/srv/data/");
    assert_eq!(a, b);
    assert_eq!(t.get_path(b"/srv/data"), Some(a));
    assert_eq!(t.get_path(b"/nowhere"), None);
    assert_eq!(t.path(a), b"/srv/data");
    let names: Vec<&[u8]> = t.parent_chain(a).iter().map(|p| t.path(*p)).collect();
    assert!(names.contains(&b"/srv".as_slice()) && names.contains(&b"/".as_slice()));
    let h = t.intern_authority("example.com:80");
    assert_eq!(t.intern_authority("example.com:80"), h);
    assert_eq!(t.authority(h), "example.com:80");
    assert_eq!(h.as_u32(), 0);
    assert!(!t.is_empty());
}

#[test]
fn paths_and_authorities_are_validated() {

    assert!(validate_canonical_path(b"/srv/a").is_ok());
    assert!(validate_canonical_path(b"srv/a").is_err());
    assert!(validate_canonical_path(b"/srv/../a").is_err());
    assert!(validate_canonical_path(b"/a/./b").is_err());
    assert!(validate_canonical_path(b"/a/.").is_err());
    assert!(validate_canonical_path(b"/a//b/").is_ok());
    assert!(validate_canonical_path(b"/a/.b/..c").is_ok());
    assert!(validate_authority("api.example.com:443").is_ok());
    assert!(validate_authority("api.example.com").is_err());
    assert!(validate_authority("").is_err());
}

#[test]
fn methods_and_interfaces_are_bits() {
    let m = MethodMask::new(&[Method::Delete, Method::Get, Method::Get]);
    assert_eq!(m.bits(), 0b10_0001);
    assert_eq!(m.methods(), vec![Method::Get, Method::Delete]);
    let n = MethodMask::new(&[Method::Get, Method::Put]);
    assert_eq!(m.intersection(n).methods(), vec![Method::Get]);
    assert_eq!(Interface::HttpOutbound.bit(), 16);
    assert_eq!(
        helix::caps::capability::list_interfaces(0b1_0010),
        vec![Interface::Clocks, Interface::HttpOutbound]
    );
}

#[test]
fn wire_form_names_errors() {
    let bad = CapabilitySetWire {
        interfaces: vec![Interface::HttpOutbound],
        files: vec![],
        dirs: vec![],
        hosts: vec![HostGrantWire { authority: "nohost".to_owned(), methods: vec![Method::Get] }],
    };
    assert!(CapabilitySet::try_from(bad).is_err());
    let twice = CapabilitySetWire {
        interfaces: vec![Interface::Filesystem],
        files: vec![
            FileGrantWire { path: b"/a".to_vec(), mode: FileMode::Read },
            FileGrantWire { path: b"/a/".to_vec(), mode: FileMode::Read },
        ],
        dirs: vec![],
        hosts: vec![],
    };
    assert!(matches!(
        CapabilitySet::try_from(twice).unwrap_err(),
        CapsError::Duplicate(_)
    ));
}
