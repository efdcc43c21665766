//! Build tools: which one runs, and the version it reports.
use vstd::prelude::*;

use crate::snapshot::{opt_view, ToolInfo};
use crate::text::{chars_of, line_list, lines, string_of};

verus! {

/// The first line of a tool's output, where there is one.
pub open spec fn first_line(output: Seq<char>) -> Option<Seq<char>> {
    if lines(output).len() > 0 {
        Some(lines(output)[0])
    } else {
        None
    }
}

pub fn first_line_of(output: &str) -> (r: Option<String>)
    ensures
        opt_view(r) == first_line(output@),
{
    let ls = line_list(&chars_of(output));
    assert(ls@.map_values(|p: Vec<char>| p@).len() == ls@.len());
    if ls.len() > 0 {
        assert(ls@.map_values(|p: Vec<char>| p@)[0] == ls@[0]@);
        Some(string_of(&ls[0]))
    } else {
        None
    }
}

/// What is recorded of a tool: every executable found for it, the first of
/// them as the one that runs, and the first line of what that one printed
/// when asked for its version (`output`, where it answered).
pub fn tool_info(candidates: Vec<String>, output: Option<String>) -> (r: ToolInfo)
    ensures
        r.candidates@ == candidates@,
        opt_view(r.path) == if candidates@.len() > 0 {
            Some(candidates@[0]@)
        } else {
            None::<Seq<char>>
        },
        opt_view(r.version) == if candidates@.len() > 0 {
            match output {
                Some(o) => first_line(o@),
                None => None,
            }
        } else {
            None::<Seq<char>>
        },
{
    let path = if candidates.len() > 0 {
        Some(candidates[0].clone())
    } else {
        None
    };
    let version = match (&path, &output) {
        (Some(_), Some(o)) => first_line_of(o.as_str()),
        _ => None,
    };
    ToolInfo { path, version, candidates }
}

} // verus!
