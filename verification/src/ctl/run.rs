//! `run`: invoking a tool locally.
use super::{Output, OutputModel};
use crate::audit::naming;
use crate::audit::naming::hex_encode;
use crate::caps::budget::{Ceilings, ResourceBudget};
use crate::caps::capability::CapabilitySet;
use crate::caps::ids::{Identity, RequestId, ToolDigest};
use crate::chars;
use crate::path::bytes_eq;
use crate::text;
use vstd::prelude::*;

verus! {

/// `run …`
#[derive(Clone, Debug, PartialEq, Eq)]
pub struct RunArgs {
    /// Wasm component path.
    pub wasm: String,
    /// JSON input payload.
    pub input: String,
    /// Capability set file.
    pub caps: Option<String>,
    /// Policy file.
    pub policy: Option<String>,
    /// Identity alias.
    pub identity: Option<String>,
    /// Tool alias.
    pub tool: Option<String>,
    /// Artifact directory.
    pub artifacts: Option<String>,
}

/// Where the capabilities of an invocation come from.
#[derive(Clone, Debug, PartialEq, Eq)]
pub enum RunMode {
    /// A file with a capability set.
    Caps { path: String },
    /// A policy, for an identity and a tool.
    Policy { path: String, identity: String, tool: String },
}

/// The budget where a capability file gives none.
pub fn default_budget() -> (r: ResourceBudget)
    ensures
        r@ == (Ceilings {
            preempt_ticks: 500,
            wall_clock_ms: 2000,
            memory_bytes: 67_108_864,
            output_bytes: 1_048_576,
            max_delegation_depth: 2,
            max_children: 8,
            max_concurrent_instances: 32,
        }),
{
    ResourceBudget::new(500, 2000, 67_108_864, 1_048_576, 2, 8, 32)
}

/// The budget of a capability file, or the default.
pub fn budget_or_default(budget: Option<ResourceBudget>) -> (r: ResourceBudget)
    ensures
        match budget {
            Some(b) => r == b,
            None => r@ == (Ceilings {
                preempt_ticks: 500,
                wall_clock_ms: 2000,
                memory_bytes: 67_108_864,
                output_bytes: 1_048_576,
                max_delegation_depth: 2,
                max_children: 8,
                max_concurrent_instances: 32,
            }),
        },
{
    match budget {
        Some(b) => b,
        None => default_budget(),
    }
}

/// Where the capabilities come from: a capability file before a policy with
/// identity and tool. Without either there is nothing to run.
pub fn select_mode(args: RunArgs) -> (r: Result<RunMode, Output>)
    ensures
        match r {
            Ok(RunMode::Caps { path }) => args.caps == Some(path),
            Ok(RunMode::Policy { path, identity, tool }) => args.caps is None && args.policy
                == Some(path) && args.identity == Some(identity) && args.tool == Some(tool),
            Err(o) => args.caps is None && (args.policy is None || args.identity is None
                || args.tool is None) && o@ == super::fails(
                "provide --caps <json> or --policy <file> --identity <name> --tool <alias>"@,
                2,
            ),
        },
{
    match args.caps {
        Some(path) => Ok(RunMode::Caps { path }),
        None => match (args.policy, args.identity, args.tool) {
            (Some(path), Some(identity), Some(tool)) => Ok(
                RunMode::Policy { path, identity, tool },
            ),
            _ => Err(
                Output::fail(
                    "provide --caps <json> or --policy <file> --identity <name> --tool <alias>".to_owned(),
                    2,
                ),
            ),
        },
    }
}

/// Why a policy does not let a tool run, if it does not.
pub open spec fn refusal(
    identity_alias: Seq<char>,
    identity: Option<Identity>,
    tool_alias: Seq<char>,
    table: Option<ToolDigest>,
    wasm: ToolDigest,
    granted: bool,
) -> Option<Seq<char>> {
    if identity is None {
        Some("unknown identity alias "@ + identity_alias)
    } else if table is None {
        Some("unknown tool alias "@ + tool_alias)
    } else if table->0@ != wasm@ {
        Some(
            "wasm digest mismatch for alias "@ + tool_alias + ": policy has "@ + naming::hex(
                table->0@,
            ) + ", file has "@ + naming::hex(wasm@),
        )
    } else if !granted {
        Some("no grant for "@ + identity_alias + " / "@ + tool_alias)
    } else {
        None
    }
}

/// What an identity may do with a tool, from what a policy says: who the
/// identity is, which digest the tool has, and what is granted. The file's
/// digest must be the tool's.
pub fn resolve_invoke(
    identity_alias: &str,
    identity: Option<Identity>,
    tool_alias: &str,
    table: Option<ToolDigest>,
    wasm: ToolDigest,
    grant: Option<(CapabilitySet, ResourceBudget)>,
) -> (r: Result<(Identity, CapabilitySet, ResourceBudget), String>)
    ensures
        match (
            r,
            refusal(identity_alias@, identity, tool_alias@, table, wasm, grant is Some),
        ) {
            (Ok((i, c, b)), None) => identity == Some(i) && grant == Some((c, b)),
            (Err(m), Some(f)) => m@ == f,
            _ => false,
        },
{
    let who = match identity {
        Some(i) => i,
        None => {
            return Err(text::join("unknown identity alias ", identity_alias));
        },
    };
    let digest = match table {
        Some(d) => d,
        None => {
            return Err(text::join("unknown tool alias ", tool_alias));
        },
    };
    if !bytes_eq(digest.as_bytes().as_slice(), wasm.as_bytes().as_slice()) {
        let mut s = text::join3("wasm digest mismatch for alias ", tool_alias, ": policy has ");
        s.append(hex_encode(digest.as_bytes().as_slice()).as_str());
        s.append(", file has ");
        s.append(hex_encode(wasm.as_bytes().as_slice()).as_str());
        return Err(s);
    }
    match grant {
        Some((caps, budget)) => Ok((who, caps, budget)),
        None => {
            let mut s = text::join3("no grant for ", identity_alias, " / ");
            s.append(tool_alias);
            Err(s)
        },
    }
}

/// A path whose extension is `wasm`.
pub open spec fn is_wasm(path: Seq<char>) -> bool {
    let parts = chars::split(chars::split(path, '/').last(), '.');
    parts.len() >= 2 && !(parts.len() == 2 && parts[0].len() == 0) && parts.last() == "wasm"@
}

/// Whether a file of an artifact directory is a component.
pub fn is_wasm_artifact(path: &str) -> (r: bool)
    ensures
        r == is_wasm(path@),
{
    let cs = text::chars_of(path);
    proof {
        chars::lemma_split_nonempty(path@, '/');
    }
    let segments = chars::split_at(&cs, '/');
    assert(segments@[segments@.len() - 1]@ == chars::views(segments@).last());
    let parts = chars::split_at(&segments[segments.len() - 1], '.');
    let ghost said = chars::views(parts@);
    let n: usize = parts.len();
    if n < 2 {
        return false;
    }
    assert(said[0] == parts@[0]@);
    assert(said.last() == parts@[n - 1]@);
    if n == 2 && parts[0].len() == 0 {
        return false;
    }
    let ending = chars::string_of(&parts[n - 1]);
    text::str_eq(ending.as_str(), "wasm")
}

/// A request id from the milliseconds since 1970 and a running number: the time
/// above sixteen bits of the number.
pub fn next_request_id(ms: u128, n: u64) -> (r: RequestId)
    ensures
        r@ == (ms % 0x1_0000_0000_0000_0000_0000_0000_0000u128) * 0x1_0000 + n % 0x1_0000,
{
    let low: u128 = n as u128 & 0xffff;
    let high: u128 = ms << 16;
    assert((ms << 16) == (ms % 0x1_0000_0000_0000_0000_0000_0000_0000u128) * 0x1_0000
        && ((ms << 16) | (n as u128 & 0xffff)) == (ms << 16) + (n % 0x1_0000)) by (bit_vector);
    RequestId::from_u128(high | low)
}

/// The text of optional text.
pub open spec fn text_says(r: Option<String>) -> Option<Seq<char>> {
    match r {
        Some(s) => Some(s@),
        None => None,
    }
}

/// What `serde_json::from_slice` reads from bytes, as the compact text of the
/// value.
pub uninterp spec fn compact_json_of(b: Seq<u8>) -> Option<Seq<char>>;

/// `serde_json::from_slice` into a `serde_json::Value`, and the text that the
/// value prints as, under the name [`compact_json_of`]; none where the bytes
/// are not JSON.
#[verifier::external_body]
fn compact_json(b: &[u8]) -> (r: Option<String>)
    ensures
        text_says(r) == compact_json_of(b@),
{
    match serde_json::from_slice::<serde_json::Value>(b) {
        Ok(v) => Some(v.to_string()),
        Err(_) => None,
    }
}

/// The line printed for the output of a tool: its JSON where it is JSON,
/// otherwise its text.
pub open spec fn success_line(json: Option<Seq<char>>, output: Seq<u8>) -> Seq<char> {
    match json {
        Some(s) => s,
        None => text::lossy_text(output),
    }
}

/// What `run` prints for the output of a tool that may be JSON.
pub fn output_as(json: Option<String>, output: &[u8]) -> (r: Output)
    ensures
        r@ == super::says(success_line(text_says(json), output@)),
{
    match json {
        Some(s) => Output::say(s),
        None => Output::say(text::string_from_utf8_lossy(output)),
    }
}

/// What `run` prints for the output of a tool.
pub fn success_output(output: &[u8]) -> (r: Output)
    ensures
        r@ == super::says(success_line(compact_json_of(output@), output@)),
{
    output_as(compact_json(output), output)
}

/// How an invocation ended.
#[derive(Clone, Debug, PartialEq, Eq)]
pub enum Outcome {
    /// With output.
    Success { output: Vec<u8> },
    /// With a recorded end that has output.
    Completed { output: Vec<u8> },
    /// With another recorded end.
    Terminal { kind: String },
    /// With an error and no recorded end.
    Error { message: String },
}

/// What `run` prints for how an invocation ended.
pub open spec fn outcome_says(o: Outcome) -> OutputModel {
    match o {
        Outcome::Success { output } => super::says(
            success_line(compact_json_of(output@), output@),
        ),
        Outcome::Completed { output } => OutputModel {
            code: 1,
            ..super::says(text::lossy_text(output@))
        },
        Outcome::Terminal { kind } => OutputModel { code: 1, ..super::says("terminal: "@ + kind@) },
        Outcome::Error { message } => OutputModel { code: 1, ..super::says("error: "@ + message@) },
    }
}

/// What `run` prints for how an invocation ended.
pub fn outcome_output(o: &Outcome) -> (r: Output)
    ensures
        r@ == outcome_says(*o),
{
    let line: String = match o {
        Outcome::Success { output } => {
            return success_output(output.as_slice());
        },
        Outcome::Completed { output } => text::string_from_utf8_lossy(output.as_slice()),
        Outcome::Terminal { kind } => text::join("terminal: ", kind.as_str()),
        Outcome::Error { message } => text::join("error: ", message.as_str()),
    };
    let mut r = Output::say(line);
    r.code = 1;
    r
}

/// Request ids of one process tell requests apart: in the same millisecond the
/// numbers count, as long as fewer than `0x1_0000` are given out, and a later
/// millisecond gives a larger id.
pub proof fn request_ids_ascend(ms: u128, n: u64, later_ms: u128, later_n: u64)
    requires
        later_ms < 0x1_0000_0000_0000_0000_0000_0000_0000,
        ms < later_ms || (ms == later_ms && n % 0x1_0000 < later_n % 0x1_0000),
    ensures
        (ms % 0x1_0000_0000_0000_0000_0000_0000_0000u128) * 0x1_0000 + n % 0x1_0000 < (later_ms
            % 0x1_0000_0000_0000_0000_0000_0000_0000u128) * 0x1_0000 + later_n % 0x1_0000,
{
}

/// A tool runs under a policy exactly when the policy knows the identity and
/// the tool, the file is the tool that the policy names, and something is
/// granted. What stands in the way first is reported.
pub proof fn tools_run_only_as_granted(
    identity_alias: Seq<char>,
    identity: Option<Identity>,
    tool_alias: Seq<char>,
    table: Option<ToolDigest>,
    wasm: ToolDigest,
    granted: bool,
)
    ensures
        ({
            let r = refusal(identity_alias, identity, tool_alias, table, wasm, granted);
            &&& r is None <==> identity is Some && table is Some && table->0@ == wasm@ && granted
            &&& identity is None ==> r == Some("unknown identity alias "@ + identity_alias)
            &&& identity is Some && table is None ==> r == Some(
                "unknown tool alias "@ + tool_alias,
            )
            &&& identity is Some && table is Some && table->0@ != wasm@ ==> r == Some(
                "wasm digest mismatch for alias "@ + tool_alias + ": policy has "@ + naming::hex(
                    table->0@,
                ) + ", file has "@ + naming::hex(wasm@),
            )
            &&& identity is Some && table is Some && table->0@ == wasm@ && !granted ==> r == Some(
                "no grant for "@ + identity_alias + " / "@ + tool_alias,
            )
        }),
{
}

/// A run succeeds exactly when the tool did, and prints one line and no error
/// whatever came of it.
pub proof fn only_success_is_success(o: Outcome)
    ensures
        outcome_says(o).code == 0 <==> o is Success,
        outcome_says(o).code == 0 || outcome_says(o).code == 1,
        outcome_says(o).out.len() == 1,
        outcome_says(o).err.len() == 0,
        o matches Outcome::Terminal { kind } ==> outcome_says(o).out[0] == "terminal: "@ + kind@,
        o matches Outcome::Error { message } ==> outcome_says(o).out[0] == "error: "@ + message@,
        o matches Outcome::Completed { output } ==> outcome_says(o).out[0] == text::lossy_text(
            output@,
        ),
        o matches Outcome::Success { output } ==> outcome_says(o).out[0] == match compact_json_of(
            output@,
        ) {
            Some(s) => s,
            None => text::lossy_text(output@),
        },
{
}

/// A component is a file whose name is something, a dot and `wasm`.
pub proof fn components_are_recognised(above: Seq<char>, stem: Seq<char>)
    requires
        stem.len() > 0,
        !stem.contains('/'),
    ensures
        is_wasm(above + "/"@ + stem + ".wasm"@),
{
    reveal_strlit("/");
    reveal_strlit(".wasm");
    reveal_strlit("wasm");
    let ending = "wasm"@;
    let name = stem + seq!['.'] + ending;
    assert(!ending.contains('.'));
    chars::lemma_split_behind(stem, '.', ending);
    chars::lemma_split_nonempty(stem, '.');
    chars::parts_make_the_text(stem, '.');
    assert forall|i: int| 0 <= i < name.len() implies name[i] != '/' by {
        if i < stem.len() {
            assert(stem.contains(stem[i]));
        }
    }
    assert(!name.contains('/'));
    chars::lemma_split_behind(above, '/', name);
    assert(above + "/"@ + stem + ".wasm"@ =~= above + seq!['/'] + name);
    let parts = chars::split(name, '.');
    assert(parts.len() >= 2);
    if parts.len() == 2 {
        assert(chars::split(stem, '.').len() == 1);
        assert(parts[0] == chars::split(stem, '.')[0]);
        assert(chars::split(stem, '.')[0] == stem);
    }
}

/// Nothing else is a component: its name ends in `.wasm`.
pub proof fn components_end_in_wasm(path: Seq<char>)
    requires
        is_wasm(path),
    ensures
        path.len() > 5,
        path.skip(path.len() - 5) == ".wasm"@,
{
    reveal_strlit(".wasm");
    reveal_strlit("wasm");
    let segments = chars::split(path, '/');
    chars::parts_make_the_text(path, '/');
    let name = segments.last();
    let parts = chars::split(name, '.');
    chars::parts_make_the_text(name, '.');
    let front = chars::with_between(parts.drop_last(), '.');
    assert(name == front + seq!['.'] + "wasm"@);
    if parts.len() == 2 {
        assert(parts.drop_last()[0] == parts[0]);
        assert(front == parts[0]);
    } else {
        assert(parts.drop_last().len() >= 2);
        assert(front.len() > 0);
    }
    assert(name.skip(name.len() - 5) =~= ".wasm"@);
    if segments.len() > 1 {
        let above = chars::with_between(segments.drop_last(), '/');
        assert(path == above + seq!['/'] + name);
    }
    assert(path.skip(path.len() - 5) =~= name.skip(name.len() - 5));
}

} // verus!
