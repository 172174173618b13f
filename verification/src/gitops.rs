//! Construction of the engine command lines and classification of their
//! outcomes.  Every function here is pure: it builds the argument vector
//! for one logical engine operation (the leading `git` word is supplied by
//! the unverified shell that spawns the process) or inspects captured
//! engine output.  Nothing in this module performs I/O.

use vstd::prelude::*;
use crate::strutil::{contains_seq, spec_trim, str_contains, str_eq, str_trim};

verus! {

/// Arguments of `fetch <remote> <branch>`.
pub open spec fn fetch_args(remote: Seq<char>, branch: Seq<char>) -> Seq<Seq<char>> {
    seq!["fetch"@, remote, branch]
}

/// Arguments of `remote get-url <name>`, the query that `connect` issues
/// before deciding whether the remote must be added or re-pointed.
pub open spec fn remote_get_url_args(name: Seq<char>) -> Seq<Seq<char>> {
    seq!["remote"@, "get-url"@, name]
}

/// Arguments of `remote add <name> <url>`.
pub open spec fn remote_add_args(name: Seq<char>, url: Seq<char>) -> Seq<Seq<char>> {
    seq!["remote"@, "add"@, name, url]
}

/// Arguments of `remote set-url <name> <url>`.
pub open spec fn remote_set_url_args(name: Seq<char>, url: Seq<char>) -> Seq<Seq<char>> {
    seq!["remote"@, "set-url"@, name, url]
}

/// Arguments of a subtree operation `subtree <verb> --prefix <prefix>
/// <remote> <branch> [-m <message>]`, with `--squash` appended when asked
/// for (merges and imports squash, pushes do not).
pub open spec fn subtree_args(
    verb: Seq<char>,
    prefix: Seq<char>,
    remote: Seq<char>,
    branch: Seq<char>,
    message: Option<Seq<char>>,
    squash: bool,
) -> Seq<Seq<char>> {
    let base = seq!["subtree"@, verb, "--prefix"@, prefix, remote, branch];
    let with_message = match message {
        Some(m) => base + seq!["-m"@, m],
        None => base,
    };
    if squash {
        with_message + seq!["--squash"@]
    } else {
        with_message
    }
}

/// Arguments of the squashing subtree merge that an incremental pull
/// attempts first.
pub open spec fn subtree_pull_args(
    prefix: Seq<char>,
    remote: Seq<char>,
    branch: Seq<char>,
    message: Option<Seq<char>>,
) -> Seq<Seq<char>> {
    subtree_args("pull"@, prefix, remote, branch, message, true)
}

/// Arguments of the first-time subtree import that a pull falls back to.
pub open spec fn subtree_add_args(
    prefix: Seq<char>,
    remote: Seq<char>,
    branch: Seq<char>,
    message: Option<Seq<char>>,
) -> Seq<Seq<char>> {
    subtree_args("add"@, prefix, remote, branch, message, true)
}

/// Arguments of a subtree push.
pub open spec fn subtree_push_args(
    prefix: Seq<char>,
    remote: Seq<char>,
    branch: Seq<char>,
    message: Option<Seq<char>>,
) -> Seq<Seq<char>> {
    subtree_args("push"@, prefix, remote, branch, message, false)
}

/// Builds the argument vector that fetches `branch` from `remote`.
pub fn fetch(remote: &str, branch: &str) -> (args: Vec<String>)
    ensures
        args.deep_view() == fetch_args(remote@, branch@),
{
    let mut args: Vec<String> = Vec::new();
    args.push(String::from_str("fetch"));
    args.push(String::from_str(remote));
    args.push(String::from_str(branch));
    proof {
        assert(args.deep_view() =~~= fetch_args(remote@, branch@));
    }
    args
}

/// Builds the argument vector that queries the URL registered under
/// `name`.
pub fn remote_get_url(name: &str) -> (args: Vec<String>)
    ensures
        args.deep_view() == remote_get_url_args(name@),
{
    let mut args: Vec<String> = Vec::new();
    args.push(String::from_str("remote"));
    args.push(String::from_str("get-url"));
    args.push(String::from_str(name));
    proof {
        assert(args.deep_view() =~~= remote_get_url_args(name@));
    }
    args
}

/// Shared exec builder for the three subtree verbs.
fn subtree_command(
    verb: &str,
    prefix: &str,
    remote: &str,
    branch: &str,
    message: Option<&str>,
    squash: bool,
) -> (args: Vec<String>)
    ensures
        args.deep_view() == subtree_args(verb@, prefix@, remote@, branch@, message.deep_view(), squash),
{
    let mut args: Vec<String> = Vec::new();
    args.push(String::from_str("subtree"));
    args.push(String::from_str(verb));
    args.push(String::from_str("--prefix"));
    args.push(String::from_str(prefix));
    args.push(String::from_str(remote));
    args.push(String::from_str(branch));
    match message {
        Some(m) => {
            args.push(String::from_str("-m"));
            args.push(String::from_str(m));
        },
        None => {},
    }
    if squash {
        args.push(String::from_str("--squash"));
    }
    proof {
        assert(args.deep_view() =~~= subtree_args(
            verb@,
            prefix@,
            remote@,
            branch@,
            message.deep_view(),
            squash,
        ));
    }
    args
}

/// Builds the argument vector of the squashing subtree merge of `branch`
/// of `remote` into `prefix`; an incremental pull attempts this first.
pub fn subtree_pull(prefix: &str, remote: &str, branch: &str, message: Option<&str>) -> (args: Vec<
    String,
>)
    ensures
        args.deep_view() == subtree_pull_args(prefix@, remote@, branch@, message.deep_view()),
{
    subtree_command("pull", prefix, remote, branch, message, true)
}

/// Builds the argument vector of the first-time subtree import that a
/// pull retries with when no prior subtree history exists at `prefix`.
pub fn subtree_add(prefix: &str, remote: &str, branch: &str, message: Option<&str>) -> (args: Vec<
    String,
>)
    ensures
        args.deep_view() == subtree_add_args(prefix@, remote@, branch@, message.deep_view()),
{
    subtree_command("add", prefix, remote, branch, message, true)
}

/// Builds the argument vector that pushes the subtree history of `prefix`
/// to `branch` of `remote`.
pub fn subtree_push(prefix: &str, remote: &str, branch: &str, message: Option<&str>) -> (args: Vec<
    String,
>)
    ensures
        args.deep_view() == subtree_push_args(prefix@, remote@, branch@, message.deep_view()),
{
    subtree_command("push", prefix, remote, branch, message, false)
}

/// The engine diagnostic that identifies the one recoverable merge
/// failure: the target subdirectory has no prior subtree history, so the
/// pull must be retried as a first-time import.
pub open spec fn missing_subtree_diag() -> Seq<char> {
    "use 'git subtree add'"@
}

/// The single predicate behind the pull fallback: does the captured
/// engine output say that the subdirectory has never been subtree-merged?
/// The match is deliberately this narrow; any other failure is fatal.
pub fn is_missing_subtree_diag(stderr: &str) -> (r: bool)
    ensures
        r == contains_seq(stderr@, missing_subtree_diag()),
{
    str_contains(stderr, "use 'git subtree add'")
}

/// The command, if any, that makes the remote registered under `name`
/// point at `url`: register it when the engine knows no such remote
/// (`current` is the captured `remote get-url` answer, `None` when that
/// query failed), re-point it when the registered URL differs, and do
/// nothing when it already matches.
pub open spec fn ensure_remote_spec(
    name: Seq<char>,
    url: Seq<char>,
    current: Option<Seq<char>>,
) -> Option<Seq<Seq<char>>> {
    match current {
        None => Some(remote_add_args(name, url)),
        Some(cur) => if spec_trim(url) != spec_trim(cur) {
            Some(remote_set_url_args(name, url))
        } else {
            None
        },
    }
}

/// Decides how to bring the registration of remote `name` up to date,
/// given the engine's answer to `remote get-url <name>`.
pub fn ensure_remote(name: &str, url: &str, current: Option<&str>) -> (cmd: Option<Vec<String>>)
    ensures
        cmd.deep_view() == ensure_remote_spec(name@, url@, current.deep_view()),
{
    match current {
        None => {
            let mut args: Vec<String> = Vec::new();
            args.push(String::from_str("remote"));
            args.push(String::from_str("add"));
            args.push(String::from_str(name));
            args.push(String::from_str(url));
            proof {
                assert(args.deep_view() =~~= remote_add_args(name@, url@));
            }
            Some(args)
        },
        Some(cur) => {
            if str_eq(str_trim(url), str_trim(cur)) {
                None
            } else {
                let mut args: Vec<String> = Vec::new();
                args.push(String::from_str("remote"));
                args.push(String::from_str("set-url"));
                args.push(String::from_str(name));
                args.push(String::from_str(url));
                proof {
                    assert(args.deep_view() =~~= remote_set_url_args(name@, url@));
                }
                Some(args)
            }
        },
    }
}

}
