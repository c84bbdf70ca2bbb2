//! `tool register`, `tool reregister-all` and `policy`.
use super::{Output, OutputModel};
use crate::audit::naming;
use crate::audit::naming::hex_encode;
use crate::caps::ids::ToolDigest;
use crate::text;
use crate::texts;
use vstd::prelude::*;

verus! {

/// `tool` subcommands.
#[derive(Clone, Debug, PartialEq, Eq)]
pub enum ToolCommand {
    /// Compile a component into the artifact cache.
    Register {
        wasm: String,
        artifacts: String,
        policy: Option<String>,
        max_concurrent_instances: u32,
        pool_max_memory_bytes: usize,
    },
    /// Recompile every component of the artifact directory.
    ReregisterAll {
        artifacts: String,
        max_concurrent_instances: u32,
        pool_max_memory_bytes: usize,
    },
}

/// `tool …`
#[derive(Clone, Debug, PartialEq, Eq)]
pub struct ToolArgs {
    pub command: ToolCommand,
}

/// `policy` subcommands.
#[derive(Clone, Debug, PartialEq, Eq)]
pub enum PolicyCommand {
    /// Validate a policy file.
    Check { file: String, artifacts: Option<String> },
    /// Print the effective capabilities and budget.
    Explain { identity: String, tool: String, policy: String, artifacts: Option<String> },
    /// Have a process reload its policy.
    Reload { pid: u32 },
}

/// `policy …`
#[derive(Clone, Debug, PartialEq, Eq)]
pub struct PolicyArgs {
    pub command: PolicyCommand,
}

/// The lines on tools that compiled.
pub open spec fn ok_lines(ok: Seq<ToolDigest>) -> Seq<Seq<char>> {
    Seq::new(ok.len(), |i: int| "  ok sha256:"@ + naming::hex(ok[i]@))
}

/// The lines on files that did not.
pub open spec fn fail_lines(errors: Seq<(String, String)>) -> Seq<Seq<char>> {
    Seq::new(errors.len(), |i: int| "  fail "@ + errors[i].0@ + ": "@ + errors[i].1@)
}

/// What `tool reregister-all` prints.
pub open spec fn reregister_says(ok: Seq<ToolDigest>, errors: Seq<(String, String)>) -> OutputModel {
    OutputModel {
        out: seq![
            "reregister-all: "@ + text::decimal(ok.len()) + " ok, "@ + text::decimal(errors.len())
                + " errors"@,
        ] + ok_lines(ok),
        err: fail_lines(errors),
        code: if errors.len() > 0 {
            1
        } else {
            0
        },
    }
}

/// What `tool reregister-all` prints for the tools that compiled and the files
/// that did not. It fails if any did not.
pub fn reregister_output(ok: &Vec<ToolDigest>, errors: &Vec<(String, String)>) -> (r: Output)
    ensures
        r@ == reregister_says(ok@, errors@),
{
    let mut top = text::join3(
        "reregister-all: ",
        text::decimal_string(ok.len() as u64).as_str(),
        " ok, ",
    );
    text::push_decimal(&mut top, errors.len() as u64);
    top.append(" errors");
    let ghost first = top@;
    let mut out: Vec<String> = Vec::new();
    out.push(top);
    let ghost lines = ok_lines(ok@);
    let mut i: usize = 0;
    assert(texts::texts(out@) =~= seq![first] + lines.take(0));
    while i < ok.len()
        invariant
            0 <= i <= ok.len(),
            lines == ok_lines(ok@),
            texts::texts(out@) == seq![first] + lines.take(i as int),
        decreases ok.len() - i,
    {
        let ghost held = out@;
        let line = text::join("  ok sha256:", hex_encode(ok[i].as_bytes().as_slice()).as_str());
        let ghost said = line@;
        out.push(line);
        proof {
            assert(said == lines[i as int]);
            assert(texts::texts(out@) =~= texts::texts(held).push(said));
            assert((seq![first] + lines.take(i as int)).push(said) =~= seq![first] + lines.take(
                i as int + 1,
            ));
        }
        i += 1;
    }
    assert(lines.take(i as int) =~= lines);
    let ghost bad = fail_lines(errors@);
    let mut err: Vec<String> = Vec::new();
    let mut k: usize = 0;
    assert(texts::texts(err@) =~= bad.take(0));
    while k < errors.len()
        invariant
            0 <= k <= errors.len(),
            bad == fail_lines(errors@),
            texts::texts(err@) == bad.take(k as int),
        decreases errors.len() - k,
    {
        let ghost held = err@;
        let mut line = text::join3("  fail ", errors[k].0.as_str(), ": ");
        line.append(errors[k].1.as_str());
        let ghost said = line@;
        err.push(line);
        proof {
            assert(said == bad[k as int]);
            assert(texts::texts(err@) =~= texts::texts(held).push(said));
            assert(bad.take(k as int).push(said) =~= bad.take(k as int + 1));
        }
        k += 1;
    }
    assert(bad.take(k as int) =~= bad);
    let code: i32 = if errors.len() > 0 {
        1
    } else {
        0
    };
    Output { out, err, code }
}

/// What `policy reload` prints.
pub fn reload_output(pid: u32, sent: &Result<(), String>) -> (r: Output)
    ensures
        r@ == match *sent {
            Ok(_) => super::says("sent SIGHUP to pid "@ + text::decimal(pid as nat)),
            Err(m) => super::fails("error: "@ + m@, 1),
        },
{
    match sent {
        Ok(_) => Output::say(
            text::join("sent SIGHUP to pid ", text::decimal_string(pid as u64).as_str()),
        ),
        Err(m) => Output::fail(text::join("error: ", m.as_str()), 1),
    }
}

/// Reregistering succeeds exactly when every file compiled; each tool and each
/// failure has its line.
pub proof fn reregistering_reports_every_file(ok: Seq<ToolDigest>, errors: Seq<(String, String)>)
    ensures
        ({
            let o = reregister_says(ok, errors);
            &&& o.code == 0 <==> errors.len() == 0
            &&& o.out.len() == ok.len() + 1
            &&& o.out[0] == "reregister-all: "@ + text::decimal(ok.len()) + " ok, "@
                + text::decimal(errors.len()) + " errors"@
            &&& forall|i: int|
                0 <= i < ok.len() ==> #[trigger] o.out[i + 1] == "  ok sha256:"@ + naming::hex(
                    ok[i]@,
                )
            &&& o.err.len() == errors.len()
            &&& forall|i: int|
                0 <= i < errors.len() ==> #[trigger] o.err[i] == "  fail "@ + errors[i].0@ + ": "@
                    + errors[i].1@
        }),
{
}

} // verus!
