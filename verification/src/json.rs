//! JSON values.
use vstd::prelude::*;

verus! {

/// A JSON value. Of two entries of an object under one key the later counts.
#[derive(Debug)]
pub enum Json {
    Null,
    Bool(bool),
    Unsigned(u64),
    Signed(i64),
    /// A finite floating-point number, as its CBOR item.
    Float(Vec<u8>),
    Text(String),
    List(Vec<Json>),
    Object(Vec<(String, Json)>),
}

/// What a [`Json`] value says.
pub ghost enum JsonModel {
    Null,
    Bool(bool),
    Number(int),
    Float(Seq<u8>),
    Text(Seq<char>),
    List(Seq<JsonModel>),
    Object(Map<Seq<char>, JsonModel>),
}

/// What a value says.
pub open spec fn model(j: Json) -> JsonModel
    decreases j,
{
    match j {
        Json::Null => JsonModel::Null,
        Json::Bool(x) => JsonModel::Bool(x),
        Json::Unsigned(n) => JsonModel::Number(n as int),
        Json::Signed(n) => JsonModel::Number(n as int),
        Json::Float(raw) => JsonModel::Float(raw@),
        Json::Text(s) => JsonModel::Text(s@),
        Json::List(v) => JsonModel::List(models(v@)),
        Json::Object(v) => JsonModel::Object(entries(v@)),
    }
}

/// What values say.
pub open spec fn models(v: Seq<Json>) -> Seq<JsonModel>
    decreases v,
{
    if v.len() == 0 {
        Seq::empty()
    } else {
        models(v.drop_last()).push(model(v.last()))
    }
}

/// What entries say.
pub open spec fn entries(v: Seq<(String, Json)>) -> Map<Seq<char>, JsonModel>
    decreases v,
{
    if v.len() == 0 {
        Map::empty()
    } else {
        entries(v.drop_last()).insert(v.last().0@, model(v.last().1))
    }
}

impl View for Json {
    type V = JsonModel;

    open spec fn view(&self) -> JsonModel {
        model(*self)
    }
}

/// Adds a value to a list.
pub fn push(list: &mut Vec<Json>, value: Json)
    ensures
        models(final(list)@) == models(old(list)@).push(value@),
{
    let ghost before = list@;
    list.push(value);
    assert(list@.drop_last() =~= before);
}

/// Adds an entry to an object.
pub fn put(object: &mut Vec<(String, Json)>, key: &str, value: Json)
    ensures
        entries(final(object)@) == entries(old(object)@).insert(key@, value@),
{
    put_owned(object, key.to_owned(), value);
}

/// Adds an entry to an object.
pub fn put_owned(object: &mut Vec<(String, Json)>, key: String, value: Json)
    ensures
        entries(final(object)@) == entries(old(object)@).insert(key@, value@),
{
    let ghost before = object@;
    object.push((key, value));
    assert(object@.drop_last() =~= before);
}

/// A list says its values in their order; of two entries of an object under
/// one key the later counts, and the others stay.
pub proof fn objects_say_their_entries(v: Seq<(String, Json)>, k: String, x: Json, l: Seq<Json>)
    ensures
        entries(v.push((k, x))) == entries(v).insert(k@, model(x)),
        models(l.push(x)) == models(l).push(model(x)),
        entries(Seq::empty()) == Map::<Seq<char>, JsonModel>::empty(),
        models(Seq::empty()).len() == 0,
{
    assert(v.push((k, x)).drop_last() =~= v);
    assert(l.push(x).drop_last() =~= l);
}

/// Values are told apart: each kind says its own, numbers of either sign as
/// numbers.
pub proof fn values_say_what_they_are(b: bool, n: u64, i: i64, s: String)
    ensures
        model(Json::Null) == JsonModel::Null,
        model(Json::Bool(b)) == JsonModel::Bool(b),
        model(Json::Unsigned(n)) == JsonModel::Number(n as int),
        model(Json::Signed(i)) == JsonModel::Number(i as int),
        model(Json::Text(s)) == JsonModel::Text(s@),
{
}

} // verus!
