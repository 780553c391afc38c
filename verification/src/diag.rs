//! What is wrong with a program, and where.

use vstd::prelude::*;

verus! {

/// A message at a place in the source text.
#[derive(Debug)]
pub struct Diag {
    pub line: u32,
    pub col: u32,
    pub msg: String,
}

/// A message as a value.
pub struct DiagV {
    pub line: u32,
    pub col: u32,
    pub msg: Seq<char>,
}

impl View for Diag {
    type V = DiagV;

    open spec fn view(&self) -> DiagV {
        DiagV { line: self.line, col: self.col, msg: self.msg@ }
    }
}

/// The message `msg` at `line:col`.
pub open spec fn fault<T>(line: u32, col: u32, msg: Seq<char>) -> Result<T, DiagV> {
    Err(DiagV { line, col, msg })
}

/// A message from a fixed text.
pub fn diag(line: u32, col: u32, msg: &str) -> (r: Diag)
    ensures
        r@ == (DiagV { line, col, msg: msg@ }),
{
    Diag { line, col, msg: msg.to_owned() }
}

} // verus!
