//! Listings of a sink: a JSON array of keys, or S3 `ListObjectsV2` XML.
use super::SinkError;
use crate::chars;
use crate::text;
use crate::texts;
use vstd::prelude::*;

verus! {

/// What `serde_json` reads from bytes that hold a JSON array: its strings in
/// place, `None` for any other item. `None` where the bytes hold none.
pub uninterp spec fn json_array_of(b: Seq<u8>) -> Option<Seq<Option<Seq<char>>>>;

/// The items of an array, as texts.
pub open spec fn items_say(r: Option<Vec<Option<String>>>) -> Option<Seq<Option<Seq<char>>>> {
    match r {
        Some(v) => Some(
            v@.map_values(
                |x: Option<String>|
                    match x {
                        Some(s) => Some(s@),
                        None => None,
                    },
            ),
        ),
        None => None,
    }
}

/// `serde_json::from_slice` into a `serde_json::Value`: the items of an array,
/// strings as such, under the name [`json_array_of`].
#[verifier::external_body]
fn json_array(bytes: &[u8]) -> (r: Option<Vec<Option<String>>>)
    ensures
        items_say(r) == json_array_of(bytes@),
{
    match serde_json::from_slice::<serde_json::Value>(bytes) {
        Ok(serde_json::Value::Array(items)) => Some(
            items.into_iter().map(
                |v| match v {
                    serde_json::Value::String(s) => Some(s),
                    _ => None,
                },
            ).collect(),
        ),
        Ok(_) => None,
        Err(_) => None,
    }
}

/// The strings among items.
pub open spec fn strings_of(items: Seq<Option<Seq<char>>>) -> Seq<Seq<char>>
    decreases items.len(),
{
    if items.len() == 0 {
        Seq::empty()
    } else {
        match items.last() {
            Some(s) => strings_of(items.drop_last()).push(s),
            None => strings_of(items.drop_last()),
        }
    }
}

/// What stands between `<Key>` and `</Key>`, as often as that occurs.
pub open spec fn tagged(s: Seq<char>) -> Seq<Seq<char>>
    decreases s.len(),
{
    match chars::first_place(s, "<Key>"@) {
        None => Seq::empty(),
        Some(i) => {
            let rest = s.skip(i as int + 5);
            match chars::first_place(rest, "</Key>"@) {
                None => Seq::empty(),
                Some(j) => {
                    proof {
                        reveal_strlit("<Key>");
                        reveal_strlit("</Key>");
                        chars::lemma_first_place(s, "<Key>"@);
                        chars::lemma_first_place(rest, "</Key>"@);
                    }
                    seq![rest.take(j as int)] + tagged(rest.skip(j as int + 6))
                },
            }
        },
    }
}

/// The texts that start with `prefix`.
pub open spec fn with_prefix(keys: Seq<Seq<char>>, prefix: Seq<char>) -> Seq<Seq<char>>
    decreases keys.len(),
{
    if keys.len() == 0 {
        Seq::empty()
    } else if chars::has_prefix(keys.last(), prefix) {
        with_prefix(keys.drop_last(), prefix).push(keys.last())
    } else {
        with_prefix(keys.drop_last(), prefix)
    }
}

/// The keys that a listing holds, given what it is as JSON.
pub open spec fn keys_in(array: Option<Seq<Option<Seq<char>>>>, b: Seq<u8>) -> Seq<Seq<char>> {
    match array {
        Some(items) => strings_of(items),
        None => tagged(text::lossy_text(b)),
    }
}

/// The keys of a listing that start with `prefix`, in order.
pub open spec fn listed(
    array: Option<Seq<Option<Seq<char>>>>,
    b: Seq<u8>,
    prefix: Seq<char>,
) -> Seq<Seq<char>> {
    texts::sorted(with_prefix(keys_in(array, b), prefix))
}

fn strings(items: Vec<Option<String>>) -> (r: Vec<String>)
    ensures
        texts::texts(r@) == strings_of(items_say(Some(items))->0),
{
    let ghost all = items_say(Some(items))->0;
    let mut out: Vec<String> = Vec::new();
    let mut i: usize = 0;
    assert(all.take(0) =~= Seq::empty());
    assert(texts::texts(out@) =~= strings_of(all.take(0)));
    while i < items.len()
        invariant
            0 <= i <= items.len(),
            all == items_say(Some(items))->0,
            texts::texts(out@) == strings_of(all.take(i as int)),
        decreases items.len() - i,
    {
        let ghost before = out@;
        assert(all.take(i as int + 1).drop_last() =~= all.take(i as int));
        match &items[i] {
            Some(s) => {
                out.push(s.clone());
                assert(texts::texts(out@) =~= texts::texts(before).push(s@));
            },
            None => {},
        }
        i += 1;
    }
    assert(all.take(i as int) =~= all);
    out
}

fn tagged_texts(s: &str) -> (r: Vec<String>)
    ensures
        texts::texts(r@) == tagged(s@),
{
    let cs = text::chars_of(s);
    let open_tag = text::chars_of("<Key>");
    let close_tag = text::chars_of("</Key>");
    let mut out: Vec<String> = Vec::new();
    let mut at: usize = 0;
    proof {
        reveal_strlit("<Key>");
        reveal_strlit("</Key>");
        assert(cs@.skip(0) =~= cs@);
        assert(texts::texts(out@) + tagged(cs@) =~= tagged(cs@));
    }
    while at <= cs.len()
        invariant
            0 <= at <= cs.len(),
            open_tag@ == "<Key>"@,
            close_tag@ == "</Key>"@,
            "<Key>"@.len() == 5,
            "</Key>"@.len() == 6,
            texts::texts(out@) + tagged(cs@.skip(at as int)) == tagged(s@),
        decreases cs.len() - at,
    {
        let ghost here = cs@.skip(at as int);
        let ghost before = texts::texts(out@);
        let start: usize = match chars::find_from(&cs, at, &open_tag) {
            Some(i) => i,
            None => {
                assert(before + tagged(here) =~= before);
                return out;
            },
        };
        let ghost rest = here.skip((start - at) + 5);
        assert(rest =~= cs@.skip(start + 5));
        let end: usize = match chars::find_from(&cs, start + 5, &close_tag) {
            Some(j) => j,
            None => {
                assert(before + tagged(here) =~= before);
                return out;
            },
        };
        let key = chars::string_of(&chars::piece(&cs, start + 5, end));
        let ghost j = end - (start + 5);
        assert(key@ =~= rest.take(j));
        assert(rest.skip(j + 6) =~= cs@.skip(end + 6));
        let ghost kept = key@;
        out.push(key);
        at = end + 6;
        proof {
            assert(texts::texts(out@) =~= before.push(kept));
            assert(before.push(kept) + tagged(cs@.skip(at as int)) =~= before + (seq![kept]
                + tagged(cs@.skip(at as int))));
        }
    }
    out
}

fn keep_prefix(keys: Vec<String>, prefix: &str) -> (r: Vec<String>)
    ensures
        texts::texts(r@) == with_prefix(texts::texts(keys@), prefix@),
{
    let ghost all = texts::texts(keys@);
    let mut out: Vec<String> = Vec::new();
    let mut i: usize = 0;
    assert(all.take(0) =~= Seq::empty());
    assert(texts::texts(out@) =~= with_prefix(all.take(0), prefix@));
    while i < keys.len()
        invariant
            0 <= i <= keys.len(),
            all == texts::texts(keys@),
            texts::texts(out@) == with_prefix(all.take(i as int), prefix@),
        decreases keys.len() - i,
    {
        let ghost before = out@;
        assert(all.take(i as int + 1).drop_last() =~= all.take(i as int));
        if chars::starts_with(keys[i].as_str(), prefix) {
            out.push(keys[i].clone());
            assert(texts::texts(out@) =~= texts::texts(before).push(all[i as int]));
        }
        i += 1;
    }
    assert(all.take(i as int) =~= all);
    out
}

/// The keys of a listing that start with `prefix_filter`, in order, given the
/// items of the JSON array that it is, if it is one.
pub fn select_keys(array: Option<Vec<Option<String>>>, bytes: &[u8], prefix_filter: &str) -> (r:
    Vec<String>)
    ensures
        texts::texts(r@) == listed(items_say(array), bytes@, prefix_filter@),
        texts::is_sorted(
            texts::texts(r@),
            with_prefix(keys_in(items_say(array), bytes@), prefix_filter@),
        ),
{
    let keys = match array {
        Some(items) => strings(items),
        None => tagged_texts(text::string_from_utf8_lossy(bytes).as_str()),
    };
    texts::sort_texts(keep_prefix(keys, prefix_filter))
}

/// Parses a JSON string array or S3 `ListObjectsV2` XML into object keys.
pub fn parse_listing(bytes: &[u8], prefix_filter: &str) -> (r: Result<Vec<String>, SinkError>)
    ensures
        r matches Ok(keys) && texts::texts(keys@) == listed(
            json_array_of(bytes@),
            bytes@,
            prefix_filter@,
        ),
{
    Ok(select_keys(json_array(bytes), bytes, prefix_filter))
}

/// Exactly the keys that start with the prefix are kept, in their order.
pub proof fn keys_with_the_prefix_are_kept(keys: Seq<Seq<char>>, prefix: Seq<char>)
    ensures
        with_prefix(keys, prefix) == keys.filter(
            |k: Seq<char>| k.len() >= prefix.len() && k.take(prefix.len() as int) == prefix,
        ),
    decreases keys.len(),
{
    reveal(Seq::filter);
    if keys.len() > 0 {
        keys_with_the_prefix_are_kept(keys.drop_last(), prefix);
    }
}

/// Exactly the strings of an array are keys, in their order.
pub proof fn strings_are_kept(items: Seq<Option<Seq<char>>>)
    ensures
        strings_of(items) == items.filter(|x: Option<Seq<char>>| x is Some).map_values(
            |x: Option<Seq<char>>| x->0,
        ),
    decreases items.len(),
{
    reveal(Seq::filter);
    let kept = items.filter(|x: Option<Seq<char>>| x is Some);
    if items.len() > 0 {
        strings_are_kept(items.drop_last());
        let before = items.drop_last().filter(|x: Option<Seq<char>>| x is Some);
        if items.last() is Some {
            assert(kept == before.push(items.last()));
            assert(kept.map_values(|x: Option<Seq<char>>| x->0) =~= before.map_values(
                |x: Option<Seq<char>>| x->0,
            ).push(items.last()->0));
        }
    } else {
        assert(kept.map_values(|x: Option<Seq<char>>| x->0) =~= Seq::<Seq<char>>::empty());
    }
}

/// A listing in XML holds what stands between `<Key>` and `</Key>`: the first
/// key is found behind the first opening tag, and the others behind it.
pub proof fn tagged_keys_are_found(before: Seq<char>, key: Seq<char>, rest: Seq<char>)
    requires
        chars::first_place(before + "<Key>"@ + key + "</Key>"@ + rest, "<Key>"@) == Some(
            before.len(),
        ),
        chars::first_place(key + "</Key>"@ + rest, "</Key>"@) == Some(key.len()),
    ensures
        tagged(before + "<Key>"@ + key + "</Key>"@ + rest) == seq![key] + tagged(rest),
{
    reveal_strlit("<Key>");
    reveal_strlit("</Key>");
    let s = before + "<Key>"@ + key + "</Key>"@ + rest;
    let behind = key + "</Key>"@ + rest;
    assert(s.skip(before.len() as int + 5) =~= behind);
    assert(behind.take(key.len() as int) =~= key);
    assert(behind.skip(key.len() as int + 6) =~= rest);
}

/// A listing without an opening tag holds no key.
pub proof fn untagged_texts_hold_no_key(s: Seq<char>)
    requires
        chars::first_place(s, "<Key>"@) is None,
    ensures
        tagged(s).len() == 0,
{
}

/// An array is read as an array, anything else as XML.
pub proof fn arrays_come_first(items: Seq<Option<Seq<char>>>, b: Seq<u8>)
    ensures
        keys_in(Some(items), b) == strings_of(items),
        keys_in(None, b) == tagged(text::lossy_text(b)),
{
}

} // verus!
