//! The fixed git operations of the workflow helpers, as argument lists for
//! the `git` program, and the sequences that commit and sync run.
use vstd::prelude::*;
use crate::settings::Settings;
use crate::text::{is_blank, is_blank_str};

verus! {

/// One git operation.
pub enum GitOp {
    /// Switch to a branch.
    Checkout(String),
    /// Pull the current branch.
    Pull,
    /// Push a branch to `origin`.
    Push(String),
    /// Merge a branch into the current one.
    Merge(String),
    /// Stage every change.
    Add,
    /// Commit with a message.
    Commit(String),
}

/// The arguments of `git` for an operation.
pub open spec fn op_args(op: GitOp) -> Seq<Seq<char>> {
    match op {
        GitOp::Checkout(b) => seq!["checkout"@, b@],
        GitOp::Pull => seq!["pull"@],
        GitOp::Push(b) => seq!["push"@, "origin"@, b@],
        GitOp::Merge(b) => seq!["merge"@, b@],
        GitOp::Add => seq!["add"@, "."@],
        GitOp::Commit(m) => seq!["commit"@, "-m"@, m@],
    }
}

/// The views of a list of strings.
pub open spec fn arg_views(v: Seq<String>) -> Seq<Seq<char>> {
    v.map_values(|x: String| x@)
}

/// The arguments of `git` that run `op`.
pub fn git_args(op: &GitOp) -> (r: Vec<String>)
    ensures
        arg_views(r@) == op_args(*op),
{
    let r = match op {
        GitOp::Checkout(b) => vec![String::from_str("checkout"), b.clone()],
        GitOp::Pull => vec![String::from_str("pull")],
        GitOp::Push(b) => vec![String::from_str("push"), String::from_str("origin"), b.clone()],
        GitOp::Merge(b) => vec![String::from_str("merge"), b.clone()],
        GitOp::Add => vec![String::from_str("add"), String::from_str(".")],
        GitOp::Commit(m) => vec![String::from_str("commit"), String::from_str("-m"), m.clone()],
    };
    assert(arg_views(r@) =~= op_args(*op));
    r
}

/// The views of a list of operations, as argument lists.
pub open spec fn ops_args(ops: Seq<GitOp>) -> Seq<Seq<Seq<char>>> {
    ops.map_values(|op: GitOp| op_args(op))
}

/// Committing with `message`: stage everything, then commit; nothing when
/// the message is blank.
pub fn commit_ops(message: &str) -> (r: Vec<GitOp>)
    ensures
        is_blank(message@) ==> r@.len() == 0,
        !is_blank(message@) ==> ops_args(r@) == seq![seq!["add"@, "."@], seq!["commit"@, "-m"@, message@]],
{
    if is_blank_str(message) {
        Vec::new()
    } else {
        let r = vec![GitOp::Add, GitOp::Commit(String::from_str(message))];
        assert(ops_args(r@) =~= seq![seq!["add"@, "."@], seq!["commit"@, "-m"@, message@]]);
        r
    }
}

/// Syncing branch `local` with branch `feature`: with `pull`, update the
/// feature branch and merge it into the local one; with `push`, then push the
/// local branch.
pub fn sync_ops(feature: &str, local: &str, pull: bool, push: bool) -> (r: Vec<GitOp>)
    ensures
        ops_args(r@) == (if pull {
            seq![
                seq!["checkout"@, feature@],
                seq!["pull"@],
                seq!["checkout"@, local@],
                seq!["merge"@, feature@],
            ]
        } else {
            seq![]
        }) + (if push {
            seq![seq!["push"@, "origin"@, local@]]
        } else {
            seq![]
        }),
{
    let mut r: Vec<GitOp> = Vec::new();
    if pull {
        r.push(GitOp::Checkout(String::from_str(feature)));
        r.push(GitOp::Pull);
        r.push(GitOp::Checkout(String::from_str(local)));
        r.push(GitOp::Merge(String::from_str(feature)));
    }
    if push {
        r.push(GitOp::Push(String::from_str(local)));
    }
    assert(ops_args(r@) =~= (if pull {
        seq![
            seq!["checkout"@, feature@],
            seq!["pull"@],
            seq!["checkout"@, local@],
            seq!["merge"@, feature@],
        ]
    } else {
        seq![]
    }) + (if push {
        seq![seq!["push"@, "origin"@, local@]]
    } else {
        seq![]
    }));
    r
}

/// The branch to use: the one given explicitly, else the setting `key`.
pub fn branch_or_setting(given: Option<String>, settings: &Settings, key: &str) -> (r: Option<
    String,
>)
    requires
        settings.wf(),
    ensures
        match given {
            Some(b) => r == Some(b),
            None => match r {
                Some(v) => settings@.contains_key(key@) && settings@[key@] == v@,
                None => !settings@.contains_key(key@),
            },
        },
{
    match given {
        Some(b) => Some(b),
        None => match settings.get(key) {
            Some(v) => Some(v.clone()),
            None => None,
        },
    }
}

} // verus!
