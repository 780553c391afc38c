//! From source to typed module.

use vstd::prelude::*;
use crate::diag::{Diag, DiagV};
use crate::grammar::s_parse;
use crate::ir::{Module, ModuleV};
use crate::lex::{lex, s_lex};
use crate::parse::parse;
use crate::types::check;
use crate::typing::s_check;

verus! {

/// The typed module of a source: its tokens, parsed, checked; or the first thing that is wrong.
pub open spec fn s_compile(src: Seq<char>) -> Result<ModuleV, DiagV> {
    match s_lex(src) {
        Err(d) => Err(d),
        Ok(toks) => match s_parse(toks) {
            Err(d) => Err(d),
            Ok(prog) => s_check(prog),
        },
    }
}

/// The typed module of a source, or the first thing that is wrong with it.
pub fn compile(src: &str) -> (r: Result<Module, Diag>)
    requires
        src@.len() < u32::MAX,
    ensures
        match r {
            Ok(m) => s_compile(src@) == Ok::<ModuleV, DiagV>(m@),
            Err(d) => s_compile(src@) == Err::<ModuleV, DiagV>(d@),
        },
{
    let toks = match lex(src) {
        Ok(t) => t,
        Err(d) => {
            return Err(d);
        },
    };
    let prog = match parse(toks) {
        Ok(p) => p,
        Err(d) => {
            return Err(d);
        },
    };
    check(&prog)
}

} // verus!
