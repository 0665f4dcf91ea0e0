//! The message a library root that cannot be resolved is reported with.

use vstd::prelude::*;

use crate::text::{chars_of, string_of, push_str};

verus! {

/// A library root that could not be resolved: `path does not exist:
/// <root>` when it is missing, else `<root>: <error>`.
pub open spec fn root_error_spec(root: Seq<char>, not_found: bool, detail: Seq<char>) -> Seq<char> {
    if not_found {
        "path does not exist: "@ + root
    } else {
        root + ": "@ + detail
    }
}

pub fn root_error_message(root: &str, not_found: bool, detail: &str) -> (r: String)
    ensures
        r@ == root_error_spec(root@, not_found, detail@),
{
    let mut out: Vec<char> = Vec::new();
    if not_found {
        push_str(&mut out, "path does not exist: ");
        push_str(&mut out, root);
    } else {
        push_str(&mut out, root);
        push_str(&mut out, ": ");
        push_str(&mut out, detail);
    }
    string_of(&out)
}

} // verus!
