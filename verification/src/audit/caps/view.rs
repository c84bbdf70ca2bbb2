//! Capability sets as JSON.
use super::{interface_name, method_name, mode_name};
use crate::caps::capability::GrantSet;
use crate::caps::wire;
use crate::caps::wire::{CapabilitySetWire, DirGrantWire, FileGrantWire, HostGrantWire, WireSet};
use crate::caps::{CapabilitySet, FileMode, Interface, Method};
use crate::json;
use crate::json::{Json, JsonModel};
use crate::text;
use vstd::prelude::*;
use vstd::utf8::*;

verus! {

/// A path grant as a JSON object.
pub open spec fn path_json(g: (Seq<u8>, FileMode)) -> JsonModel {
    JsonModel::Object(
        map![
            "path"@ => JsonModel::Text(decode_utf8(g.0)),
            "mode"@ => JsonModel::Text(super::mode_text(g.1)),
        ],
    )
}

/// Path grants as JSON, without those whose path is not UTF-8.
pub open spec fn paths_json(s: Seq<(Seq<u8>, FileMode)>) -> Seq<JsonModel>
    decreases s.len(),
{
    if s.len() == 0 {
        Seq::empty()
    } else if valid_utf8(s.last().0) {
        paths_json(s.drop_last()).push(path_json(s.last()))
    } else {
        paths_json(s.drop_last())
    }
}

/// Methods as JSON.
pub open spec fn methods_json(s: Seq<Method>) -> Seq<JsonModel> {
    Seq::new(s.len(), |i: int| JsonModel::Text(super::method_text(s[i])))
}

/// Interfaces as JSON.
pub open spec fn interfaces_json(s: Seq<Interface>) -> Seq<JsonModel> {
    Seq::new(s.len(), |i: int| JsonModel::Text(super::interface_text(s[i])))
}

/// Host grants as JSON.
pub open spec fn hosts_json(s: Seq<(Seq<char>, Seq<Method>)>) -> Seq<JsonModel> {
    Seq::new(
        s.len(),
        |i: int|
            JsonModel::Object(
                map![
                    "authority"@ => JsonModel::Text(s[i].0),
                    "methods"@ => JsonModel::List(methods_json(s[i].1)),
                ],
            ),
    )
}

/// A set as a JSON object.
pub open spec fn set_json(g: GrantSet) -> JsonModel {
    let w = wire::wire_of(g);
    JsonModel::Object(
        map![
            "interfaces"@ => JsonModel::List(interfaces_json(w.interfaces)),
            "files"@ => JsonModel::List(paths_json(w.files)),
            "dirs"@ => JsonModel::List(paths_json(w.dirs)),
            "hosts"@ => JsonModel::List(hosts_json(w.hosts)),
        ],
    )
}

fn push_path(out: &mut Vec<Json>, path: &Vec<u8>, mode: FileMode)
    ensures
        json::models(final(out)@) == (if valid_utf8(path@) {
            json::models(old(out)@).push(path_json((path@, mode)))
        } else {
            json::models(old(out)@)
        }),
{
    match text::string_from_utf8(vstd::slice::slice_to_vec(path.as_slice())) {
        Some(s) => {
            let mut o: Vec<(String, Json)> = Vec::new();
            json::put(&mut o, "path", Json::Text(s));
            json::put(&mut o, "mode", Json::Text(mode_name(mode).to_owned()));
            json::push(out, Json::Object(o));
        },
        None => {},
    }
}

fn list_files(files: &Vec<FileGrantWire>, Ghost(w): Ghost<WireSet>) -> (r: Vec<Json>)
    requires
        w.files == Seq::new(files@.len(), |i: int| (files@[i].path@, files@[i].mode)),
    ensures
        json::models(r@) == paths_json(w.files),
{
    let mut out: Vec<Json> = Vec::new();
    let mut i: usize = 0;
    assert(w.files.take(0) =~= Seq::empty());
    while i < files.len()
        invariant
            0 <= i <= files.len(),
            w.files == Seq::new(files@.len(), |i: int| (files@[i].path@, files@[i].mode)),
            json::models(out@) == paths_json(w.files.take(i as int)),
        decreases files.len() - i,
    {
        assert(w.files.take(i as int + 1).drop_last() =~= w.files.take(i as int));
        push_path(&mut out, &files[i].path, files[i].mode);
        i += 1;
    }
    assert(w.files.take(i as int) =~= w.files);
    out
}

fn list_dirs(dirs: &Vec<DirGrantWire>, Ghost(w): Ghost<WireSet>) -> (r: Vec<Json>)
    requires
        w.dirs == Seq::new(dirs@.len(), |i: int| (dirs@[i].path@, dirs@[i].mode)),
    ensures
        json::models(r@) == paths_json(w.dirs),
{
    let mut out: Vec<Json> = Vec::new();
    let mut i: usize = 0;
    assert(w.dirs.take(0) =~= Seq::empty());
    while i < dirs.len()
        invariant
            0 <= i <= dirs.len(),
            w.dirs == Seq::new(dirs@.len(), |i: int| (dirs@[i].path@, dirs@[i].mode)),
            json::models(out@) == paths_json(w.dirs.take(i as int)),
        decreases dirs.len() - i,
    {
        assert(w.dirs.take(i as int + 1).drop_last() =~= w.dirs.take(i as int));
        push_path(&mut out, &dirs[i].path, dirs[i].mode);
        i += 1;
    }
    assert(w.dirs.take(i as int) =~= w.dirs);
    out
}

fn list_methods(methods: &Vec<Method>) -> (r: Vec<Json>)
    ensures
        json::models(r@) == methods_json(methods@),
{
    let mut out: Vec<Json> = Vec::new();
    let mut i: usize = 0;
    assert(methods_json(methods@.take(0)) =~= Seq::empty());
    while i < methods.len()
        invariant
            0 <= i <= methods.len(),
            json::models(out@) == methods_json(methods@.take(i as int)),
        decreases methods.len() - i,
    {
        json::push(&mut out, Json::Text(method_name(methods[i]).to_owned()));
        assert(methods_json(methods@.take(i as int + 1)) =~= methods_json(
            methods@.take(i as int),
        ).push(JsonModel::Text(super::method_text(methods@[i as int]))));
        i += 1;
    }
    assert(methods@.take(i as int) =~= methods@);
    out
}

fn list_hosts(hosts: &Vec<HostGrantWire>, Ghost(w): Ghost<WireSet>) -> (r: Vec<Json>)
    requires
        w.hosts == Seq::new(hosts@.len(), |i: int| (hosts@[i].authority@, hosts@[i].methods@)),
    ensures
        json::models(r@) == hosts_json(w.hosts),
{
    let mut out: Vec<Json> = Vec::new();
    let mut i: usize = 0;
    assert(hosts_json(w.hosts.take(0)) =~= Seq::empty());
    while i < hosts.len()
        invariant
            0 <= i <= hosts.len(),
            w.hosts == Seq::new(hosts@.len(), |i: int| (hosts@[i].authority@, hosts@[i].methods@)),
            json::models(out@) == hosts_json(w.hosts.take(i as int)),
        decreases hosts.len() - i,
    {
        let mut o: Vec<(String, Json)> = Vec::new();
        json::put(&mut o, "authority", Json::Text(hosts[i].authority.clone()));
        json::put(&mut o, "methods", Json::List(list_methods(&hosts[i].methods)));
        json::push(&mut out, Json::Object(o));
        assert(json::models(out@) =~= hosts_json(w.hosts.take(i as int + 1)));
        i += 1;
    }
    assert(w.hosts.take(i as int) =~= w.hosts);
    out
}

fn list_interfaces(names: &Vec<Interface>) -> (r: Vec<Json>)
    ensures
        json::models(r@) == interfaces_json(names@),
{
    let mut out: Vec<Json> = Vec::new();
    let mut i: usize = 0;
    assert(interfaces_json(names@.take(0)) =~= Seq::empty());
    while i < names.len()
        invariant
            0 <= i <= names.len(),
            json::models(out@) == interfaces_json(names@.take(i as int)),
        decreases names.len() - i,
    {
        json::push(&mut out, Json::Text(interface_name(names[i]).to_owned()));
        assert(interfaces_json(names@.take(i as int + 1)) =~= interfaces_json(
            names@.take(i as int),
        ).push(JsonModel::Text(super::interface_text(names@[i as int]))));
        i += 1;
    }
    assert(names@.take(i as int) =~= names@);
    out
}

/// JSON view of a capability set.
#[must_use]
pub fn capability_set_to_json(set: &CapabilitySet) -> (r: Json)
    requires
        set.wf(),
        set@.resolves(),
    ensures
        r@ == set_json(set@),
{
    let wire = CapabilitySetWire::from(set.clone());
    let ghost w = wire@;
    let mut o: Vec<(String, Json)> = Vec::new();
    json::put(&mut o, "interfaces", Json::List(list_interfaces(&wire.interfaces)));
    json::put(&mut o, "files", Json::List(list_files(&wire.files, Ghost(w))));
    json::put(&mut o, "dirs", Json::List(list_dirs(&wire.dirs, Ghost(w))));
    json::put(&mut o, "hosts", Json::List(list_hosts(&wire.hosts, Ghost(w))));
    Json::Object(o)
}

/// A path grant as JSON shows its path and its mode.
pub proof fn path_json_shows_path_and_mode(g: (Seq<u8>, FileMode))
    ensures
        ({
            let o = path_json(g)->Object_0;
            &&& path_json(g) is Object
            &&& o.dom() == set!["path"@, "mode"@]
            &&& o["path"@] == JsonModel::Text(decode_utf8(g.0))
            &&& o["mode"@] == JsonModel::Text(super::mode_text(g.1))
        }),
{
    reveal_strlit("path");
    reveal_strlit("mode");
    assert("path"@[0] == 'p');
    assert("mode"@[0] == 'm');
    assert(path_json(g)->Object_0.dom() =~= set!["path"@, "mode"@]);
}

/// Every grant whose path is text is shown, in its order, and nothing else.
pub proof fn every_readable_path_is_shown(s: Seq<(Seq<u8>, FileMode)>)
    ensures
        paths_json(s) == s.filter(|g: (Seq<u8>, FileMode)| valid_utf8(g.0)).map_values(
            |g: (Seq<u8>, FileMode)| path_json(g),
        ),
    decreases s.len(),
{
    reveal(Seq::filter);
    let f = |g: (Seq<u8>, FileMode)| path_json(g);
    let kept = s.filter(|g: (Seq<u8>, FileMode)| valid_utf8(g.0));
    if s.len() > 0 {
        every_readable_path_is_shown(s.drop_last());
        let before = s.drop_last().filter(|g: (Seq<u8>, FileMode)| valid_utf8(g.0));
        if valid_utf8(s.last().0) {
            assert(kept == before.push(s.last()));
            assert(kept.map_values(f) =~= before.map_values(f).push(path_json(s.last())));
        }
    } else {
        assert(kept.map_values(f) =~= Seq::<JsonModel>::empty());
    }
}

/// Every host grant is shown with its authority and all its methods.
pub proof fn host_json_shows_authority_and_methods(s: Seq<(Seq<char>, Seq<Method>)>, i: int)
    requires
        0 <= i < s.len(),
    ensures
        ({
            let o = hosts_json(s)[i]->Object_0;
            &&& hosts_json(s).len() == s.len()
            &&& hosts_json(s)[i] is Object
            &&& o.dom() == set!["authority"@, "methods"@]
            &&& o["authority"@] == JsonModel::Text(s[i].0)
            &&& o["methods"@] matches JsonModel::List(l)
            &&& l.len() == s[i].1.len()
            &&& forall|k: int|
                0 <= k < l.len() ==> #[trigger] l[k] == JsonModel::Text(
                    super::method_text(s[i].1[k]),
                )
        }),
{
    reveal_strlit("authority");
    reveal_strlit("methods");
    assert("authority"@[0] == 'a');
    assert("methods"@[0] == 'm');
    assert(hosts_json(s)[i]->Object_0.dom() =~= set!["authority"@, "methods"@]);
}

/// A set as JSON shows its interfaces by name, its files, directories and
/// hosts, each list under its own name.
pub proof fn set_json_shows_four_lists(g: GrantSet)
    ensures
        ({
            let w = wire::wire_of(g);
            let o = set_json(g)->Object_0;
            &&& set_json(g) is Object
            &&& o.dom() == set!["interfaces"@, "files"@, "dirs"@, "hosts"@]
            &&& o["interfaces"@] matches JsonModel::List(l)
            &&& l.len() == w.interfaces.len()
            &&& forall|k: int|
                0 <= k < l.len() ==> #[trigger] l[k] == JsonModel::Text(
                    super::interface_text(w.interfaces[k]),
                )
            &&& o["files"@] == JsonModel::List(paths_json(w.files))
            &&& o["dirs"@] == JsonModel::List(paths_json(w.dirs))
            &&& o["hosts"@] == JsonModel::List(hosts_json(w.hosts))
        }),
{
    reveal_strlit("interfaces");
    reveal_strlit("files");
    reveal_strlit("dirs");
    reveal_strlit("hosts");
    assert("interfaces"@[0] == 'i');
    assert("files"@[0] == 'f');
    assert("dirs"@[0] == 'd');
    assert("hosts"@[0] == 'h');
    assert(set_json(g)->Object_0.dom() =~= set!["interfaces"@, "files"@, "dirs"@, "hosts"@]);
}

} // verus!
