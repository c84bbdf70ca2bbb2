//! What a file-backed witness receiver decides.
//!
//! Objects can be put, fetched and listed, never deleted. A key that exists is
//! refused. Objects are written to a temporary file and then renamed, so that
//! an interrupted upload leaves no partial object.
use super::verify;
use super::verify::join_dir;
use super::witness;
use crate::chars;
use crate::chars::Class;
use crate::text;
use crate::texts;
use vstd::prelude::*;

verus! {

pub const CREATED: u16 = 201;

pub const BAD_REQUEST: u16 = 400;

pub const UNAUTHORIZED: u16 = 401;

pub const NOT_FOUND: u16 = 404;

pub const PRECONDITION_FAILED: u16 = 412;

pub const INTERNAL_SERVER_ERROR: u16 = 500;

/// Shared state for the receive server.
#[derive(Clone, Debug, PartialEq, Eq)]
pub struct ReceiveState {
    pub dir: String,
    pub token: String,
}

/// Lets a request pass that carries the token; `authorization` is the text of
/// the header, where there is one.
pub fn check_auth(authorization: Option<&str>, token: &str) -> (r: Result<(), u16>)
    ensures
        match r {
            Ok(_) => authorization matches Some(s) && s@ == "Bearer "@ + token@,
            Err(status) => status == UNAUTHORIZED && !(authorization matches Some(s) && s@
                == "Bearer "@ + token@),
        },
{
    match authorization {
        None => Err(UNAUTHORIZED),
        Some(s) => {
            let expected = text::join("Bearer ", token);
            if text::str_eq(s, expected.as_str()) {
                Ok(())
            } else {
                Err(UNAUTHORIZED)
            }
        },
    }
}

/// Keys that name no object: those that lead upwards, or start at the root.
pub open spec fn is_refused(key: Seq<char>) -> bool {
    chars::first_place(key, ".."@) is Some || (key.len() > 0 && key[0] == '/')
}

/// The file of a key.
pub fn safe_join(root: &str, key: &str) -> (r: Result<String, u16>)
    ensures
        match r {
            Ok(path) => !is_refused(key@) && path@ == verify::within_dir(root@, key@),
            Err(status) => is_refused(key@) && status == BAD_REQUEST,
        },
{
    let cs = text::chars_of(key);
    if chars::holds(key, "..") || (cs.len() > 0 && cs[0] == '/') {
        return Err(BAD_REQUEST);
    }
    Ok(join_dir(root, key))
}

/// How a request for a key is answered.
#[derive(Clone, Debug, PartialEq, Eq)]
pub enum GetPlan {
    /// With the keys under a prefix.
    List { prefix: String },
    /// With the object.
    Read,
    /// There is no such object.
    NotFound,
}

/// How to answer a request for a key, given what stands at its path.
pub fn get_plan(key: &str, is_dir: bool, is_file: bool) -> (r: GetPlan)
    ensures
        ((key@.len() > 0 && key@.last() == '/') || is_dir) ==> (r matches GetPlan::List { prefix }
            && prefix@ == chars::trimmed_start(key@, Class::Only('/'))),
        !((key@.len() > 0 && key@.last() == '/') || is_dir) ==> (r is Read <==> is_file) && (
        r is NotFound <==> !is_file),
{
    let cs = text::chars_of(key);
    if is_dir || (cs.len() > 0 && cs[cs.len() - 1] == '/') {
        let prefix = chars::string_of(&chars::trim_start(&cs, Class::Only('/')));
        return GetPlan::List { prefix };
    }
    if is_file {
        GetPlan::Read
    } else {
        GetPlan::NotFound
    }
}

/// The directory in which to look for keys under a prefix.
pub fn walk_root(root: &str, prefix: &str) -> (r: String)
    ensures
        r@ == if prefix@.len() == 0 {
            root@
        } else {
            verify::within_dir(root@, chars::trimmed_end(prefix@, Class::Only('/')))
        },
{
    let cs = text::chars_of(prefix);
    if cs.len() == 0 {
        return root.to_owned();
    }
    let cut = chars::string_of(&chars::trim_end(&cs, Class::Only('/')));
    join_dir(root, cut.as_str())
}

/// The name at the end of a path.
pub open spec fn file_name(path: Seq<char>) -> Seq<char> {
    chars::split(path, '/').last()
}

/// A name with something before its last dot and `tmp-` behind it.
pub open spec fn is_temp(path: Seq<char>) -> bool {
    let parts = chars::split(file_name(path), '.');
    parts.len() >= 2 && !(parts.len() == 2 && parts[0].len() == 0) && chars::has_prefix(
        parts.last(),
        "tmp-"@,
    )
}

/// Whether a file is one that an upload is being written to.
pub fn is_temp_name(path: &str) -> (r: bool)
    ensures
        r == is_temp(path@),
{
    let cs = text::chars_of(path);
    proof {
        chars::lemma_split_nonempty(path@, '/');
    }
    let segments = chars::split_at(&cs, '/');
    assert(segments@[segments@.len() - 1]@ == chars::views(segments@).last());
    let parts = chars::split_at(&segments[segments.len() - 1], '.');
    let ghost said = chars::views(parts@);
    let n: usize = parts.len();
    if n < 2 {
        return false;
    }
    assert(said[0] == parts@[0]@);
    assert(said.last() == parts@[n - 1]@);
    if n == 2 && parts[0].len() == 0 {
        return false;
    }
    let mark = text::chars_of("tmp-");
    assert(parts@[n - 1]@.skip(0) =~= parts@[n - 1]@);
    chars::stands_at(&parts[n - 1], 0, &mark)
}

/// The extension of the temporary file of an upload.
pub open spec fn temp_ending(pid: u32, nanos: u128) -> Seq<char> {
    "tmp-"@ + text::decimal(pid as nat) + "-"@ + text::decimal(nanos as nat)
}

/// The extension of the temporary file of an upload.
pub fn temp_extension(pid: u32, nanos: u128) -> (r: String)
    ensures
        r@ == temp_ending(pid, nanos),
{
    let mut s = text::join3("tmp-", text::decimal_string(pid as u64).as_str(), "-");
    text::push_decimal_wide(&mut s, nanos);
    s
}

/// The keys of files, in place: without those being written.
pub open spec fn keys_of(paths: Seq<Seq<char>>) -> Seq<Seq<char>>
    decreases paths.len(),
{
    if paths.len() == 0 {
        Seq::empty()
    } else if is_temp(paths.last()) {
        keys_of(paths.drop_last())
    } else {
        keys_of(paths.drop_last()).push(chars::swapped(paths.last(), '\\', '/'))
    }
}

/// The keys of the files found, given by their paths below the directory, in
/// order.
pub fn listed_keys(paths: &Vec<String>) -> (r: Vec<String>)
    ensures
        texts::texts(r@) == texts::sorted(keys_of(texts::texts(paths@))),
        texts::is_sorted(texts::texts(r@), keys_of(texts::texts(paths@))),
{
    let ghost all = texts::texts(paths@);
    let mut out: Vec<String> = Vec::new();
    let mut i: usize = 0;
    assert(all.take(0) =~= Seq::empty());
    assert(texts::texts(out@) =~= keys_of(all.take(0)));
    while i < paths.len()
        invariant
            0 <= i <= paths.len(),
            all == texts::texts(paths@),
            texts::texts(out@) == keys_of(all.take(i as int)),
        decreases paths.len() - i,
    {
        let ghost before = out@;
        assert(all.take(i as int + 1).drop_last() =~= all.take(i as int));
        if !is_temp_name(paths[i].as_str()) {
            let cs = text::chars_of(paths[i].as_str());
            let key = chars::string_of(&chars::swap_char(&cs, '\\', '/'));
            out.push(key);
            assert(texts::texts(out@) =~= texts::texts(before).push(
                chars::swapped(all[i as int], '\\', '/'),
            ));
        }
        i += 1;
    }
    assert(all.take(i as int) =~= all);
    texts::sort_texts(out)
}

/// Where an upload stands: what to do next.
#[derive(Clone, Copy, Debug, PartialEq, Eq)]
pub enum PutStep {
    /// Make the directories above the object.
    MakeDirs,
    /// See whether the object exists.
    CheckExists,
    /// Write the temporary file.
    WriteTemp,
    /// Rename the temporary file to the object.
    Rename,
    /// Remove the temporary file, then answer that it could not be written.
    Discard,
    /// Remove the temporary file, then see whether the object exists.
    DiscardAndCheck,
    /// Answer with a status.
    Answer(u16),
}

/// The step after one that gave `yes`: that it succeeded, or that the object
/// exists.
pub open spec fn step_after(step: PutStep, yes: bool) -> PutStep {
    match step {
        PutStep::MakeDirs => if yes {
            PutStep::CheckExists
        } else {
            PutStep::Answer(INTERNAL_SERVER_ERROR)
        },
        PutStep::CheckExists => if yes {
            PutStep::Answer(PRECONDITION_FAILED)
        } else {
            PutStep::WriteTemp
        },
        PutStep::WriteTemp => if yes {
            PutStep::Rename
        } else {
            PutStep::Discard
        },
        PutStep::Rename => if yes {
            PutStep::Answer(CREATED)
        } else {
            PutStep::DiscardAndCheck
        },
        PutStep::Discard => PutStep::Answer(INTERNAL_SERVER_ERROR),
        PutStep::DiscardAndCheck => if yes {
            PutStep::Answer(PRECONDITION_FAILED)
        } else {
            PutStep::Answer(INTERNAL_SERVER_ERROR)
        },
        PutStep::Answer(status) => PutStep::Answer(status),
    }
}

/// The step after one that gave `yes`.
pub fn next_put_step(step: PutStep, yes: bool) -> (r: PutStep)
    ensures
        r == step_after(step, yes),
{
    match step {
        PutStep::MakeDirs => if yes {
            PutStep::CheckExists
        } else {
            PutStep::Answer(INTERNAL_SERVER_ERROR)
        },
        PutStep::CheckExists => if yes {
            PutStep::Answer(PRECONDITION_FAILED)
        } else {
            PutStep::WriteTemp
        },
        PutStep::WriteTemp => if yes {
            PutStep::Rename
        } else {
            PutStep::Discard
        },
        PutStep::Rename => if yes {
            PutStep::Answer(CREATED)
        } else {
            PutStep::DiscardAndCheck
        },
        PutStep::Discard => PutStep::Answer(INTERNAL_SERVER_ERROR),
        PutStep::DiscardAndCheck => if yes {
            PutStep::Answer(PRECONDITION_FAILED)
        } else {
            PutStep::Answer(INTERNAL_SERVER_ERROR)
        },
        PutStep::Answer(status) => PutStep::Answer(status),
    }
}

/// Where an upload stands after what its steps gave.
pub open spec fn steps_after(gave: Seq<bool>) -> PutStep
    decreases gave.len(),
{
    if gave.len() == 0 {
        PutStep::MakeDirs
    } else {
        step_after(steps_after(gave.drop_last()), gave.last())
    }
}

/// The token in the text of a token file.
pub fn token_of(content: &str) -> (r: String)
    ensures
        r@ == chars::trimmed(content@, Class::Space),
{
    chars::trim_text(content)
}

/// The base address of a receiver.
pub fn base_url(local_addr: &str) -> (r: String)
    ensures
        r@ == "http://"@ + local_addr@,
{
    text::join("http://", local_addr)
}

/// A file of a key stays below the directory: no part of the key leads
/// upwards, and the key does not start at the root.
pub proof fn joined_stays_inside(key: Seq<char>)
    requires
        !is_refused(key),
    ensures
        forall|k: int|
            0 <= k < chars::split(key, '/').len() ==> #[trigger] chars::split(key, '/')[k] != ".."@,
        key.len() > 0 ==> key[0] != '/',
{
    assert forall|k: int| 0 <= k < chars::split(key, '/').len() implies #[trigger] chars::split(
        key,
        '/',
    )[k] != ".."@ by {
        chars::lemma_part_occurs(key, '/', k);
    }
}

/// Objects are never replaced: an upload is answered as created exactly when
/// the object did not exist and both the writing and the renaming succeeded;
/// where the object existed, the answer is a conflict.
pub proof fn uploads_never_replace(gave: Seq<bool>)
    ensures
        steps_after(gave) == PutStep::Answer(CREATED) <==> gave.len() >= 4 && gave[0] && !gave[1]
            && gave[2] && gave[3],
        gave.len() >= 2 && gave[0] && gave[1] ==> steps_after(gave) == PutStep::Answer(
            PRECONDITION_FAILED,
        ),
        gave.len() >= 5 ==> steps_after(gave) is Answer,
    decreases gave.len(),
{
    reveal_with_fuel(steps_after, 6);
    if gave.len() > 5 {
        let d = gave.drop_last();
        uploads_never_replace(d);
        assert(d[0] == gave[0] && d[1] == gave[1] && d[2] == gave[2] && d[3] == gave[3]);
    } else if gave.len() > 0 {
        let d = gave.drop_last();
        if d.len() > 0 {
            let e = d.drop_last();
            if e.len() > 0 {
                let f = e.drop_last();
                if f.len() > 0 {
                    let g = f.drop_last();
                }
            }
        }
    }
}

/// The temporary file of an upload is recognised as such.
pub proof fn temporary_files_are_recognised(above: Seq<char>, stem: Seq<char>, pid: u32, nanos: u128)
    requires
        stem.len() > 0,
        !stem.contains('/'),
    ensures
        is_temp(above + "/"@ + stem + "."@ + temp_ending(pid, nanos)),
{
    reveal_strlit("/");
    reveal_strlit(".");
    reveal_strlit("-");
    reveal_strlit("tmp-");
    let ending = temp_ending(pid, nanos);
    text::lemma_decimal(pid as nat);
    text::lemma_decimal(nanos as nat);
    assert(chars::has_prefix(ending, "tmp-"@)) by {
        assert(ending.take(4) =~= "tmp-"@);
    }
    assert forall|i: int| 0 <= i < ending.len() implies ending[i] != '.' && ending[i] != '/' by {
        let p = text::decimal(pid as nat);
        let q = text::decimal(nanos as nat);
        if i >= 4 && i < 4 + p.len() {
            assert(ending[i] == p[i - 4]);
        } else if i > 4 + p.len() {
            assert(ending[i] == q[i - 5 - p.len()]);
        }
    }
    let name = stem + seq!['.'] + ending;
    assert(!ending.contains('.'));
    chars::lemma_split_behind(stem, '.', ending);
    chars::lemma_last_part(stem, '.');
    assert forall|i: int| 0 <= i < name.len() implies name[i] != '/' by {
        if i < stem.len() {
            assert(stem.contains(stem[i]));
        }
    }
    assert(!name.contains('/'));
    chars::lemma_split_behind(above, '/', name);
    assert("/"@ =~= seq!['/']);
    assert("."@ =~= seq!['.']);
    assert(above + "/"@ + stem + "."@ + ending =~= above + seq!['/'] + name);
    assert(chars::split(name, '.')[0] == chars::split(stem, '.')[0]);
}

proof fn lemma_plain_name(above: Seq<char>, name: Seq<char>)
    requires
        !name.contains('/'),
        !name.contains('.'),
    ensures
        !is_temp(above + "/"@ + name),
{
    reveal_strlit("/");
    assert("/"@ =~= seq!['/']);
    chars::lemma_split_behind(above, '/', name);
    chars::lemma_split_whole(name, '.');
}

/// The objects that a gateway stores are never taken for temporary files.
pub proof fn stored_objects_are_listed(gateway_id: Seq<char>, file_ulid: Seq<u8>, sequence: u64)
    ensures
        !is_temp(witness::witness_name(gateway_id, file_ulid, sequence)),
        !is_temp(witness::retention_name(gateway_id, file_ulid)),
{
    reveal_strlit("/");
    reveal_strlit("/retention");
    reveal_strlit("retention");
    let above = gateway_id + "/"@ + super::naming::ulid_text(file_ulid);
    let digits = text::padded_decimal(sequence as nat, 20);
    witness::lemma_sequence_digits(sequence);
    assert forall|c: char| digits.contains(c) implies text::is_digit(c) by {
        let i = choose|i: int| 0 <= i < digits.len() && digits[i] == c;
        assert(text::is_digit(digits[i]));
    }
    lemma_plain_name(above, digits);
    let word = "retention"@;
    assert(!word.contains('/') && !word.contains('.'));
    lemma_plain_name(above, word);
    assert(above + "/"@ + word =~= witness::retention_name(gateway_id, file_ulid));
}

/// Exactly the keys with two dots in a row or a slash at their start are
/// refused.
pub proof fn only_such_keys_are_refused(key: Seq<char>)
    ensures
        is_refused(key) <==> (key.len() > 0 && key[0] == '/') || exists|i: int|
            0 <= i && i + 1 < key.len() && #[trigger] key[i] == '.' && key[i + 1] == '.',
{
    reveal_strlit("..");
    chars::lemma_first_place(key, ".."@);
    if chars::first_place(key, ".."@) is Some {
        let i = chars::first_place(key, ".."@)->0 as int;
        let p = key.subrange(i, i + 2);
        assert(p == ".."@);
        assert(p[0] == key[i] && p[1] == key[i + 1]);
    }
    if exists|i: int| 0 <= i && i + 1 < key.len() && #[trigger] key[i] == '.' && key[i + 1] == '.' {
        let i = choose|i: int|
            0 <= i && i + 1 < key.len() && #[trigger] key[i] == '.' && key[i + 1] == '.';
        assert(key.subrange(i, i + 2) =~= ".."@);
        chars::first_place_is_first(key, ".."@, i);
    }
}

/// How uploads that do not succeed are answered: a failure to make the
/// directories or to write is the receiver's fault, and a failure to rename is
/// a conflict if the object is there by then. Whatever was begun is removed
/// before the answer.
pub proof fn failed_uploads_clean_up(exists: bool)
    ensures
        steps_after(seq![]) == PutStep::MakeDirs,
        steps_after(seq![false]) == PutStep::Answer(500),
        steps_after(seq![true]) == PutStep::CheckExists,
        steps_after(seq![true, true]) == PutStep::Answer(412),
        steps_after(seq![true, false]) == PutStep::WriteTemp,
        steps_after(seq![true, false, true]) == PutStep::Rename,
        steps_after(seq![true, false, false]) == PutStep::Discard,
        steps_after(seq![true, false, false, exists]) == PutStep::Answer(500),
        steps_after(seq![true, false, true, true]) == PutStep::Answer(201),
        steps_after(seq![true, false, true, false]) == PutStep::DiscardAndCheck,
        steps_after(seq![true, false, true, false, exists]) == PutStep::Answer(
            if exists {
                412
            } else {
                500
            },
        ),
{
    reveal_with_fuel(steps_after, 6);
    let one = seq![true];
    let two = seq![true, false];
    let three = seq![true, false, true];
    let four = seq![true, false, true, false];
    assert(seq![false].drop_last() =~= seq![]);
    assert(one.drop_last() =~= seq![]);
    assert(seq![true, true].drop_last() =~= one);
    assert(two.drop_last() =~= one);
    assert(three.drop_last() =~= two);
    assert(seq![true, false, false].drop_last() =~= two);
    assert(seq![true, false, false, exists].drop_last() =~= seq![true, false, false]);
    assert(seq![true, false, true, true].drop_last() =~= three);
    assert(four.drop_last() =~= three);
    assert(seq![true, false, true, false, exists].drop_last() =~= four);
}

/// The statuses with which requests are answered.
pub proof fn statuses_are_these()
    ensures
        CREATED == 201,
        BAD_REQUEST == 400,
        UNAUTHORIZED == 401,
        NOT_FOUND == 404,
        PRECONDITION_FAILED == 412,
        INTERNAL_SERVER_ERROR == 500,
{
}

/// Exactly the files that are not being written are listed, in their order,
/// each under its path with slashes.
pub proof fn whole_files_are_listed(paths: Seq<Seq<char>>)
    ensures
        keys_of(paths) == paths.filter(|p: Seq<char>| !is_temp(p)).map_values(
            |p: Seq<char>|
                Seq::new(
                    p.len(),
                    |i: int|
                        if p[i] == '\\' {
                            '/'
                        } else {
                            p[i]
                        },
                ),
        ),
    decreases paths.len(),
{
    reveal(Seq::filter);
    let f = |p: Seq<char>|
        Seq::new(
            p.len(),
            |i: int|
                if p[i] == '\\' {
                    '/'
                } else {
                    p[i]
                },
        );
    let kept = paths.filter(|p: Seq<char>| !is_temp(p));
    if paths.len() > 0 {
        whole_files_are_listed(paths.drop_last());
        let before = paths.drop_last().filter(|p: Seq<char>| !is_temp(p));
        if !is_temp(paths.last()) {
            assert(kept == before.push(paths.last()));
            assert(f(paths.last()) =~= chars::swapped(paths.last(), '\\', '/'));
            assert(kept.map_values(f) =~= before.map_values(f).push(f(paths.last())));
        }
    } else {
        assert(kept.map_values(f) =~= Seq::<Seq<char>>::empty());
    }
}

} // verus!
