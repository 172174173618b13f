//! The sync orchestrator: translates a user intent (connect / pull /
//! push / list / remove) into the ordered sequence of engine commands and
//! classifies each outcome.  The orchestrator never spawns a process
//! itself: every operation either returns the commands outright or is a
//! small state machine whose `next_command` says what to run and whose
//! `on_result` folds in what the engine answered.  The unverified shell
//! around the crate runs that loop.

use vstd::prelude::*;
use crate::config::{Config, Mapping, MappingV, index_of_name, lemma_index_of_name, lemma_upsert_get, names_unique, spec_get, spec_upsert};
use crate::gitops::{ensure_remote_spec, fetch, fetch_args, is_missing_subtree_diag, missing_subtree_diag, remote_add_args, remote_set_url_args, subtree_add, subtree_add_args, subtree_pull, subtree_pull_args, subtree_push, subtree_push_args};
use crate::strutil::{contains_seq, last_index_of, lemma_last_index_of, rfind_char};

verus! {

/// Mathematical content of an orchestrator error.
pub ghost enum SyncErrorV {
    /// The operation referenced a name absent from the registry.
    NotConnected(Seq<char>),
    /// The engine failed; the payload is its diagnostic text.
    Engine(Seq<char>),
}

/// A fatal orchestrator error.  Unknown mappings are detected here; an
/// engine failure carries the engine's own diagnostic text verbatim so
/// the operator can act on it.
#[derive(Debug)]
pub enum SyncError {
    NotConnected(String),
    Engine(String),
}

impl View for SyncError {
    type V = SyncErrorV;

    open spec fn view(&self) -> SyncErrorV {
        match self {
            SyncError::NotConnected(n) => SyncErrorV::NotConnected(n@),
            SyncError::Engine(d) => SyncErrorV::Engine(d@),
        }
    }
}

impl SyncError {
    /// The operator-facing description of the error.
    pub fn message(&self) -> (r: String)
        ensures
            self@ matches SyncErrorV::NotConnected(n) ==> r@ == n + " not connected"@,
            self@ matches SyncErrorV::Engine(d) ==> r@ == d,
    {
        match self {
            SyncError::NotConnected(n) => {
                let mut r = n.clone();
                r.append(" not connected");
                r
            },
            SyncError::Engine(d) => d.clone(),
        }
    }
}

// ---------------------------------------------------------------------------
// Deriving the default remote name from the URL.
// ---------------------------------------------------------------------------
/// `s` without its trailing slashes.
pub open spec fn strip_trailing_slashes(s: Seq<char>) -> Seq<char>
    decreases s.len(),
{
    if s.len() > 0 && s.last() == '/' {
        strip_trailing_slashes(s.drop_last())
    } else {
        s
    }
}

/// The final path segment of `url`, trailing slashes ignored.
pub open spec fn last_segment(url: Seq<char>) -> Seq<char> {
    let t = strip_trailing_slashes(url);
    let k = last_index_of(t, '/');
    if k < 0 {
        t
    } else {
        t.skip(k + 1)
    }
}

/// The segment without a trailing version-control suffix: a final
/// `.git` is dropped when something precedes it; any other ending is
/// kept as it is.
pub open spec fn strip_vcs_suffix(seg: Seq<char>) -> Seq<char> {
    if seg.len() > 4 && seg.skip(seg.len() - 4) == ".git"@ {
        seg.take(seg.len() - 4)
    } else {
        seg
    }
}

/// The remote name that `connect` derives when none is supplied: the
/// URL's final path segment with a trailing version-control suffix
/// stripped.
pub open spec fn remote_name_of(url: Seq<char>) -> Seq<char> {
    strip_vcs_suffix(last_segment(url))
}

/// A name can be derived at all: the URL has a real final segment.
pub open spec fn has_remote_name(url: Seq<char>) -> bool {
    last_segment(url).len() > 0 && last_segment(url) != "."@ && last_segment(url) != ".."@
}

proof fn lemma_strip_slashes_take(s: Seq<char>, e: int)
    requires
        0 <= e <= s.len(),
        forall|i: int| e <= i < s.len() ==> s[i] == '/',
        e == 0 || s[e - 1] != '/',
    ensures
        strip_trailing_slashes(s) == s.take(e),
    decreases s.len(),
{
    if e == s.len() {
        assert(strip_trailing_slashes(s) =~= s.take(e)) by {
            if s.len() > 0 && s.last() == '/' {
                assert(false);
            } else {
                assert(s.take(e) =~= s);
            }
        }
    } else {
        let t = s.drop_last();
        assert(s.last() == '/');
        assert(forall|i: int| e <= i < t.len() ==> t[i] == s[i] && t[i] == '/');
        lemma_strip_slashes_take(t, e);
        assert(t.take(e) =~= s.take(e));
    }
}

/// The URL's final path segment, trailing slashes ignored.
fn url_last_segment(url: &str) -> (seg: &str)
    ensures
        seg@ == last_segment(url@),
{
    let n = url.unicode_len();
    let mut e: usize = n;
    let mut stop = false;
    while !stop && e > 0
        invariant
            n == url@.len(),
            0 <= e <= n,
            forall|i: int| e <= i < n ==> url@[i] == '/',
            stop ==> e > 0 && url@[e - 1] != '/',
        decreases e + if stop { 0int } else { 1int },
    {
        if url.get_char(e - 1) == '/' {
            e -= 1;
        } else {
            stop = true;
        }
    }
    proof {
        lemma_strip_slashes_take(url@, e as int);
    }
    let trimmed = url.substring_char(0, e);
    proof {
        assert(trimmed@ =~= url@.take(e as int));
        lemma_last_index_of(trimmed@, '/');
    }
    match rfind_char(trimmed, '/') {
        Some(k) => {
            let s = trimmed.substring_char(k + 1, e);
            proof {
                assert(s@ =~= trimmed@.skip(k + 1));
            }
            s
        },
        None => trimmed,
    }
}

/// Whether a default remote name can be derived from `url` at all; the
/// unverified shell asks this before deriving, and treats a refusal as
/// the fatal misuse it is.
pub fn can_derive_remote_name(url: &str) -> (r: bool)
    ensures
        r == has_remote_name(url@),
{
    let seg = url_last_segment(url);
    seg.unicode_len() > 0 && !crate::strutil::str_eq(seg, ".") && !crate::strutil::str_eq(
        seg,
        "..",
    )
}

/// Derives the default remote name from the URL's final path segment.
pub fn derive_remote_name(url: &str) -> (r: String)
    requires
        has_remote_name(url@),
    ensures
        r@ == remote_name_of(url@),
{
    let seg = url_last_segment(url);
    let n = seg.unicode_len();
    if n > 4 {
        let tail = seg.substring_char(n - 4, n);
        proof {
            assert(tail@ =~= seg@.skip(seg@.len() - 4));
        }
        if crate::strutil::str_eq(tail, ".git") {
            let stem = seg.substring_char(0, n - 4);
            proof {
                assert(stem@ =~= seg@.take(seg@.len() - 4));
            }
            return String::from_str(stem);
        }
    }
    String::from_str(seg)
}

/// The remote name a connect uses: the explicit one when supplied, else
/// the one derived from the URL.
pub fn resolve_remote_name(url: &str, explicit: Option<&str>) -> (r: String)
    requires
        explicit is None ==> has_remote_name(url@),
    ensures
        r@ == match explicit {
            Some(n) => n@,
            None => remote_name_of(url@),
        },
{
    match explicit {
        Some(n) => String::from_str(n),
        None => derive_remote_name(url),
    }
}

// ---------------------------------------------------------------------------
// connect
// ---------------------------------------------------------------------------
/// Commits a connect once the remote registration step has run: on
/// success the mapping is inserted (replacing any previous record under
/// the same subdirectory) and the caller persists the registry; on an
/// engine failure nothing is inserted, so no mapping can ever point at a
/// remote that was not registered.
pub fn connect_commit(
    cfg: &mut Config,
    subdir: &str,
    url: &str,
    branch: &str,
    remote_name: &str,
    registration_ok: bool,
    detail: &str,
) -> (r: Result<(), SyncError>)
    requires
        old(cfg).wf(),
    ensures
        final(cfg).wf(),
        registration_ok ==> r is Ok && final(cfg)@ == spec_upsert(
            old(cfg)@,
            MappingV { subdir: subdir@, remote: remote_name@, url: url@, branch: branch@ },
        ),
        !registration_ok ==> final(cfg)@ == old(cfg)@ && ((r matches Err(e) && e@
            == SyncErrorV::Engine(detail@))),
{
    if !registration_ok {
        return Err(SyncError::Engine(String::from_str(detail)));
    }
    let m = Mapping {
        subdir: String::from_str(subdir),
        remote: String::from_str(remote_name),
        url: String::from_str(url),
        branch: String::from_str(branch),
    };
    cfg.upsert(m);
    Ok(())
}

// ---------------------------------------------------------------------------
// pull
// ---------------------------------------------------------------------------
/// Mathematical phase of a pull in flight.
pub ghost enum PullPhaseV {
    Fetching,
    Merging,
    Importing,
    Done,
    Failed(Seq<char>),
}

/// Phase of a pull in flight: fetch the remote branch, attempt the
/// subtree merge, fall back to a first-time import when the engine says
/// no prior subtree history exists, and end done or failed.
#[derive(Debug)]
pub enum PullPhase {
    Fetching,
    Merging,
    Importing,
    Done,
    Failed(String),
}

impl View for PullPhase {
    type V = PullPhaseV;

    open spec fn view(&self) -> PullPhaseV {
        match self {
            PullPhase::Fetching => PullPhaseV::Fetching,
            PullPhase::Merging => PullPhaseV::Merging,
            PullPhase::Importing => PullPhaseV::Importing,
            PullPhase::Done => PullPhaseV::Done,
            PullPhase::Failed(d) => PullPhaseV::Failed(d@),
        }
    }
}

/// Mathematical content of a pull session.
#[verifier::ext_equal]
pub ghost struct PullSessionV {
    pub subdir: Seq<char>,
    pub remote: Seq<char>,
    pub branch: Seq<char>,
    pub message: Option<Seq<char>>,
    pub phase: PullPhaseV,
}

/// One pull in flight.  The orchestrator does not know whether the
/// subdirectory has ever been subtree-merged; it infers that from the
/// engine's answer to the merge attempt, one phase at a time.
#[derive(Debug)]
pub struct PullSession {
    pub subdir: String,
    pub remote: String,
    pub branch: String,
    pub message: Option<String>,
    pub phase: PullPhase,
}

impl View for PullSession {
    type V = PullSessionV;

    open spec fn view(&self) -> PullSessionV {
        PullSessionV {
            subdir: self.subdir@,
            remote: self.remote@,
            branch: self.branch@,
            message: self.message.deep_view(),
            phase: self.phase@,
        }
    }
}

/// The session a pull of mapping `m` starts in: the effective branch is
/// the explicit override when supplied, else the stored branch, and the
/// first step is the fetch.
pub open spec fn pull_init(
    m: MappingV,
    branch_override: Option<Seq<char>>,
    message: Option<Seq<char>>,
) -> PullSessionV {
    PullSessionV {
        subdir: m.subdir,
        remote: m.remote,
        branch: match branch_override {
            Some(b) => b,
            None => m.branch,
        },
        message,
        phase: PullPhaseV::Fetching,
    }
}

/// The engine command a session asks for next, if any.
pub open spec fn pull_command(s: PullSessionV) -> Option<Seq<Seq<char>>> {
    match s.phase {
        PullPhaseV::Fetching => Some(fetch_args(s.remote, s.branch)),
        PullPhaseV::Merging => Some(subtree_pull_args(s.subdir, s.remote, s.branch, s.message)),
        PullPhaseV::Importing => Some(subtree_add_args(s.subdir, s.remote, s.branch, s.message)),
        PullPhaseV::Done => None,
        PullPhaseV::Failed(_) => None,
    }
}

/// The failure detail a refused merge is reported with.
pub open spec fn merge_failure_detail(stderr: Seq<char>) -> Seq<char> {
    "git subtree pull failed: "@ + stderr
}

/// The transition a session makes on one engine result.  A fetch failure
/// is fatal with the engine's text verbatim.  A refused merge is retried
/// as a first-time import exactly when the diagnostic says no prior
/// subtree history exists; any other refusal is fatal.  A failed import
/// is fatal.  Finished sessions do not move.
pub open spec fn pull_step(s: PullSessionV, ok: bool, stderr: Seq<char>) -> PullSessionV {
    match s.phase {
        PullPhaseV::Fetching => if ok {
            PullSessionV { phase: PullPhaseV::Merging, ..s }
        } else {
            PullSessionV { phase: PullPhaseV::Failed(stderr), ..s }
        },
        PullPhaseV::Merging => if ok {
            PullSessionV { phase: PullPhaseV::Done, ..s }
        } else if contains_seq(stderr, missing_subtree_diag()) {
            PullSessionV { phase: PullPhaseV::Importing, ..s }
        } else {
            PullSessionV { phase: PullPhaseV::Failed(merge_failure_detail(stderr)), ..s }
        },
        PullPhaseV::Importing => if ok {
            PullSessionV { phase: PullPhaseV::Done, ..s }
        } else {
            PullSessionV { phase: PullPhaseV::Failed(stderr), ..s }
        },
        PullPhaseV::Done => s,
        PullPhaseV::Failed(_) => s,
    }
}

/// Starts a pull: looks the mapping up and resolves the effective
/// branch.  An unknown name is fatal, names the requested mapping, and
/// causes no engine command at all.
pub fn pull_start(cfg: &Config, name: &str, branch: Option<&str>, message: Option<&str>) -> (r:
    Result<PullSession, SyncError>)
    ensures
        match r {
            Ok(s) => spec_get(cfg@, name@) matches Some(m) && s@ == pull_init(
                m,
                branch.deep_view(),
                message.deep_view(),
            ),
            Err(e) => spec_get(cfg@, name@) is None && e@ == SyncErrorV::NotConnected(name@),
        },
{
    match cfg.get(name) {
        Some(m) => {
            let eff = match branch {
                Some(b) => String::from_str(b),
                None => m.branch.clone(),
            };
            let msg = match message {
                Some(t) => Some(String::from_str(t)),
                None => None,
            };
            let s = PullSession {
                subdir: m.subdir.clone(),
                remote: m.remote.clone(),
                branch: eff,
                message: msg,
                phase: PullPhase::Fetching,
            };
            proof {
                assert(s@ =~= pull_init(
                    spec_get(cfg@, name@)->Some_0,
                    branch.deep_view(),
                    message.deep_view(),
                ));
            }
            Ok(s)
        },
        None => Err(SyncError::NotConnected(String::from_str(name))),
    }
}

impl PullSession {
    /// The engine command to run next, or nothing once the session is
    /// done or failed.
    pub fn next_command(&self) -> (cmd: Option<Vec<String>>)
        ensures
            cmd.deep_view() == pull_command(self@),
    {
        let msg: Option<&str> = match &self.message {
            Some(s) => Some(s.as_str()),
            None => None,
        };
        proof {
            assert(msg.deep_view() == self.message.deep_view());
        }
        match &self.phase {
            PullPhase::Fetching => Some(fetch(self.remote.as_str(), self.branch.as_str())),
            PullPhase::Merging => Some(
                subtree_pull(self.subdir.as_str(), self.remote.as_str(), self.branch.as_str(), msg),
            ),
            PullPhase::Importing => Some(
                subtree_add(self.subdir.as_str(), self.remote.as_str(), self.branch.as_str(), msg),
            ),
            PullPhase::Done => None,
            PullPhase::Failed(_) => None,
        }
    }

    /// Folds one engine result into the session.
    pub fn on_result(&mut self, ok: bool, stderr: &str)
        ensures
            final(self)@ == pull_step(old(self)@, ok, stderr@),
    {
        let next: Option<PullPhase> = match &self.phase {
            PullPhase::Fetching => Some(
                if ok {
                    PullPhase::Merging
                } else {
                    PullPhase::Failed(String::from_str(stderr))
                },
            ),
            PullPhase::Merging => Some(
                if ok {
                    PullPhase::Done
                } else if is_missing_subtree_diag(stderr) {
                    PullPhase::Importing
                } else {
                    let mut d = String::from_str("git subtree pull failed: ");
                    d.append(stderr);
                    PullPhase::Failed(d)
                },
            ),
            PullPhase::Importing => Some(
                if ok {
                    PullPhase::Done
                } else {
                    PullPhase::Failed(String::from_str(stderr))
                },
            ),
            PullPhase::Done => None,
            PullPhase::Failed(_) => None,
        };
        match next {
            Some(p) => {
                self.phase = p;
            },
            None => {},
        }
        proof {
            assert(self@ =~= pull_step(old(self)@, ok, stderr@));
        }
    }

    /// Whether the session still asks for engine work.
    pub fn is_pending(&self) -> (r: bool)
        ensures
            r == (pull_command(self@) is Some),
    {
        match &self.phase {
            PullPhase::Fetching => true,
            PullPhase::Merging => true,
            PullPhase::Importing => true,
            PullPhase::Done => false,
            PullPhase::Failed(_) => false,
        }
    }
}

// ---------------------------------------------------------------------------
// push
// ---------------------------------------------------------------------------
/// A prepared push: the one engine command it takes, with the resolved
/// pieces for reporting.
#[derive(Debug)]
pub struct PushPlan {
    pub command: Vec<String>,
    pub subdir: String,
    pub remote: String,
    pub branch: String,
}

/// Starts a push: looks the mapping up, resolves the effective branch as
/// a pull does, and yields the subtree push command.  An unknown name is
/// fatal, names the requested mapping, and causes no engine command;
/// there is no fallback for a failed push.
pub fn push_start(cfg: &Config, name: &str, branch: Option<&str>, message: Option<&str>) -> (r:
    Result<PushPlan, SyncError>)
    ensures
        match r {
            Ok(p) => spec_get(cfg@, name@) matches Some(m) && {
                let eff = match branch {
                    Some(b) => b@,
                    None => m.branch,
                };
                p.command.deep_view() == subtree_push_args(
                    m.subdir,
                    m.remote,
                    eff,
                    message.deep_view(),
                ) && p.subdir@ == m.subdir && p.remote@ == m.remote && p.branch@ == eff
            },
            Err(e) => spec_get(cfg@, name@) is None && e@ == SyncErrorV::NotConnected(name@),
        },
{
    match cfg.get(name) {
        Some(m) => {
            let eff = match branch {
                Some(b) => String::from_str(b),
                None => m.branch.clone(),
            };
            let command = subtree_push(m.subdir.as_str(), m.remote.as_str(), eff.as_str(), message);
            Ok(
                PushPlan {
                    command,
                    subdir: m.subdir.clone(),
                    remote: m.remote.clone(),
                    branch: eff,
                },
            )
        },
        None => Err(SyncError::NotConnected(String::from_str(name))),
    }
}

/// Classifies the engine's answer to the push command: success, or a
/// fatal error carrying the diagnostic verbatim.
pub fn push_finish(ok: bool, stderr: &str) -> (r: Result<(), SyncError>)
    ensures
        ok ==> r is Ok,
        !ok ==> (r matches Err(e) && e@ == SyncErrorV::Engine(stderr@)),
{
    if ok {
        Ok(())
    } else {
        Err(SyncError::Engine(String::from_str(stderr)))
    }
}

// ---------------------------------------------------------------------------
// list
// ---------------------------------------------------------------------------
/// Enumerates the registry: every mapping in registry order, or an
/// explicit nothing-to-list so automation can tell "checked, found none"
/// from a broken invocation.
pub fn list_mappings(cfg: &Config) -> (r: Option<Vec<Mapping>>)
    ensures
        match r {
            Some(v) => cfg@.len() > 0 && v.deep_view() == cfg@,
            None => cfg@.len() == 0,
        },
{
    if cfg.is_empty() {
        return None;
    }
    let n = cfg.mappings.len();
    let mut out: Vec<Mapping> = Vec::new();
    let mut i: usize = 0;
    while i < n
        invariant
            n == cfg@.len(),
            0 <= i <= n,
            out.deep_view() =~= cfg@.take(i as int),
        decreases n - i,
    {
        let ghost pre = out.deep_view();
        out.push(cfg.mappings[i].clone());
        proof {
            assert(cfg@[i as int] == cfg.mappings@[i as int]@);
            assert(out.deep_view() =~= pre.push(cfg@[i as int]));
            assert(cfg@.take(i + 1) =~= cfg@.take(i as int).push(cfg@[i as int]));
        }
        i += 1;
    }
    proof {
        assert(cfg@.take(n as int) =~= cfg@);
    }
    Some(out)
}

// ---------------------------------------------------------------------------
// Laws of the protocol.
// ---------------------------------------------------------------------------
/// Idempotent connect: connecting twice with identical subdirectory, URL
/// and branch leaves exactly one mapping record — the registry after the
/// second upsert equals the registry after the first, which holds `m`
/// under its name — and the second ensure-remote step, seeing the URL it
/// itself registered, issues no command at all, while the first, seeing
/// no registration, registers exactly the supplied URL.
pub proof fn lemma_connect_idempotent(s: Seq<MappingV>, m: MappingV, url: Seq<char>)
    requires
        names_unique(s),
    ensures
        spec_upsert(spec_upsert(s, m), m) == spec_upsert(s, m),
        names_unique(spec_upsert(s, m)),
        spec_get(spec_upsert(s, m), m.subdir) == Some(m),
        ensure_remote_spec(m.remote, url, None) == Some(remote_add_args(m.remote, url)),
        ensure_remote_spec(m.remote, url, Some(url)) is None,
{
    lemma_upsert_get(s, m);
    let t = spec_upsert(s, m);
    lemma_index_of_name(t, m.subdir);
    let k = index_of_name(t, m.subdir);
    assert(k >= 0 && t[k] == m);
    assert(t.update(k, m) =~= t);
}

/// Remote registration converges: whatever is currently registered,
/// the ensure-remote step either issues a command that sets exactly the
/// supplied URL, or issues nothing because the registered URL already
/// matches it up to surrounding whitespace.  In particular a remote
/// registered under a different URL is re-pointed, never duplicated and
/// never an error.
pub proof fn lemma_ensure_remote_converges(
    name: Seq<char>,
    url: Seq<char>,
    current: Option<Seq<char>>,
)
    ensures
        match ensure_remote_spec(name, url, current) {
            Some(cmd) => cmd == remote_add_args(name, url) || cmd == remote_set_url_args(
                name,
                url,
            ),
            None => (current matches Some(cur) && crate::strutil::spec_trim(cur)
                == crate::strutil::spec_trim(url)),
        },
{
}

/// First-pull fallback: when the subdirectory has never been
/// subtree-merged, the merge attempt comes back refused with the
/// recognised diagnostic, the session then asks for the first-time
/// import — not another merge — and a successful import completes the
/// pull.
pub proof fn lemma_first_pull_fallback(m: MappingV, message: Option<Seq<char>>, diag: Seq<char>)
    requires
        contains_seq(diag, missing_subtree_diag()),
    ensures
        ({
            let s0 = pull_init(m, None, message);
            let s1 = pull_step(s0, true, Seq::<char>::empty());
            let s2 = pull_step(s1, false, diag);
            let s3 = pull_step(s2, true, Seq::<char>::empty());
            s0.phase == PullPhaseV::Fetching && pull_command(s0) == Some(
                fetch_args(m.remote, m.branch),
            ) && s1.phase == PullPhaseV::Merging && pull_command(s1) == Some(
                subtree_pull_args(m.subdir, m.remote, m.branch, message),
            ) && s2.phase == PullPhaseV::Importing && pull_command(s2) == Some(
                subtree_add_args(m.subdir, m.remote, m.branch, message),
            ) && s3.phase == PullPhaseV::Done
        }),
{
}

/// Incremental pull: once subtree history exists the merge succeeds, the
/// session completes at once, and no import is ever asked for.
pub proof fn lemma_incremental_pull_merges(m: MappingV, message: Option<Seq<char>>)
    ensures
        ({
            let s0 = pull_init(m, None, message);
            let s1 = pull_step(s0, true, Seq::<char>::empty());
            let s2 = pull_step(s1, true, Seq::<char>::empty());
            s1.phase == PullPhaseV::Merging && pull_command(s1) == Some(
                subtree_pull_args(m.subdir, m.remote, m.branch, message),
            ) && s2.phase == PullPhaseV::Done && pull_command(s2) is None
        }),
{
}

/// Branch override precedence: an explicit branch is the one fetched and
/// merged, even when the stored branch differs; without one the stored
/// branch is used.
pub proof fn lemma_branch_override(m: MappingV, b: Seq<char>, message: Option<Seq<char>>)
    ensures
        pull_init(m, Some(b), message).branch == b,
        pull_init(m, None, message).branch == m.branch,
        pull_command(pull_init(m, Some(b), message)) == Some(fetch_args(m.remote, b)),
        pull_command(pull_step(pull_init(m, Some(b), message), true, Seq::<char>::empty()))
            == Some(subtree_pull_args(m.subdir, m.remote, b, message)),
{
}

}
