//! Binding a branch to its stack reference.

use vstd::prelude::*;
use crate::error::StackError;
use crate::text::{chars_of, string_of};

verus! {

/// Name of the command that creates a patch.
pub fn get_command() -> (r: &'static str)
    ensures
        r@ == "new"@,
{
    "new"
}

/// The reference that records the stack of branch `branch_shorthand`.
pub fn stack_refname_from_branch_shorthand(branch_shorthand: &str) -> (r: String)
    ensures
        r@ == "refs/stacks/"@ + branch_shorthand@,
{
    let mut c = chars_of("refs/stacks/");
    let mut b = chars_of(branch_shorthand);
    c.append(&mut b);
    string_of(c.as_slice())
}

/// The stack reference of the branch in use: `head_is_branch` says whether
/// `HEAD` names a branch (only asked when no branch was given), and
/// `shorthand` is the branch's short name where it is valid text.
pub fn stack_refname(branch_given: bool, head_is_branch: bool, shorthand: Option<&str>) -> (r: Result<String, StackError>)
    ensures
        !branch_given && !head_is_branch <==> r matches Err(StackError::HeadDetached),
        (branch_given || head_is_branch) && shorthand is None <==> r matches Err(StackError::NonTextBranchName),
        r matches Ok(n) ==> shorthand matches Some(s) && n@ == "refs/stacks/"@ + s@,
        r is Ok <==> (branch_given || head_is_branch) && shorthand is Some,
{
    if !branch_given && !head_is_branch {
        return Err(StackError::HeadDetached);
    }
    match shorthand {
        Some(s) => Ok(stack_refname_from_branch_shorthand(s)),
        None => Err(StackError::NonTextBranchName),
    }
}

/// Initializing is refused where the branch has a stack already.
pub fn check_not_initialized(stack_ref_exists: bool, shorthand: &str) -> (r: Result<(), StackError>)
    ensures
        r is Ok <==> !stack_ref_exists,
        r matches Err(e) ==> e == StackError::StackAlreadyInitialized(e->StackAlreadyInitialized_0) && e->StackAlreadyInitialized_0@ == shorthand@,
{
    if stack_ref_exists {
        Err(StackError::StackAlreadyInitialized(shorthand.to_owned()))
    } else {
        Ok(())
    }
}

/// Loading needs the stack reference to exist.
pub fn check_initialized(stack_ref_exists: bool, shorthand: &str) -> (r: Result<(), StackError>)
    ensures
        r is Ok <==> stack_ref_exists,
        r matches Err(e) ==> e == StackError::StackNotInitialized(e->StackNotInitialized_0) && e->StackNotInitialized_0@ == shorthand@,
{
    if stack_ref_exists {
        Ok(())
    } else {
        Err(StackError::StackNotInitialized(shorthand.to_owned()))
    }
}

} // verus!
