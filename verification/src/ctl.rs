//! What the operator commands print, and how they end.
use crate::texts;
use vstd::prelude::*;

pub mod audit;
pub mod run;
pub mod tool;

verus! {

/// What a command prints, line by line, and its exit code.
#[derive(Clone, Debug, PartialEq, Eq)]
pub struct Output {
    pub out: Vec<String>,
    pub err: Vec<String>,
    pub code: i32,
}

/// What an [`Output`] says.
pub ghost struct OutputModel {
    pub out: Seq<Seq<char>>,
    pub err: Seq<Seq<char>>,
    pub code: i32,
}

impl View for Output {
    type V = OutputModel;

    open spec fn view(&self) -> OutputModel {
        OutputModel { out: texts::texts(self.out@), err: texts::texts(self.err@), code: self.code }
    }
}

/// One line printed, and success.
pub open spec fn says(line: Seq<char>) -> OutputModel {
    OutputModel { out: seq![line], err: Seq::empty(), code: 0 }
}

/// One line of error, and failure.
pub open spec fn fails(line: Seq<char>, code: i32) -> OutputModel {
    OutputModel { out: Seq::empty(), err: seq![line], code }
}

impl Output {
    /// One line printed, and success.
    pub fn say(line: String) -> (r: Output)
        ensures
            r@ == says(line@),
    {
        let mut out: Vec<String> = Vec::new();
        out.push(line);
        let r = Output { out, err: Vec::new(), code: 0 };
        assert(r@.out =~= seq![line@]);
        assert(r@.err =~= Seq::empty());
        r
    }

    /// One line of error, and failure.
    pub fn fail(line: String, code: i32) -> (r: Output)
        ensures
            r@ == fails(line@, code),
    {
        let mut err: Vec<String> = Vec::new();
        err.push(line);
        let r = Output { out: Vec::new(), err, code };
        assert(r@.out =~= Seq::empty());
        assert(r@.err =~= seq![line@]);
        r
    }
}

/// What is said goes to the output and succeeds; what fails goes to the errors
/// with its code.
pub proof fn saying_succeeds_and_failing_fails(line: Seq<char>, code: i32)
    ensures
        says(line).code == 0,
        says(line).out.len() == 1 && says(line).out[0] == line,
        says(line).err.len() == 0,
        fails(line, code).code == code,
        fails(line, code).err.len() == 1 && fails(line, code).err[0] == line,
        fails(line, code).out.len() == 0,
{
}

} // verus!
