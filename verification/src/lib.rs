//! Process supervision and session authorization: a registry of supervised
//! child processes with bounded console histories, and the session store and
//! scope checks that gate every operation on them.

pub mod authentication;
pub mod cache;
pub mod components;
pub mod configuration;
pub mod models;
pub mod process;
pub mod server_config;
pub mod servers;
pub mod token;

use crate::authentication::{
    resolve_spec, scope_allows, AuthModel, Authentication, Control, Scope, ScopeModel,
    SessionModel, Token, ViewPerm,
};
use crate::models::{GlobalStatus, InputCommandRequest, ServerOutput, ServerStatus, TokenRequest, TokenResponse};
use crate::process::{
    proc_eof, proc_killed, proc_line, proc_send, proc_started, stdin_payload, ProcModel, Process,
};
use crate::server_config::{ServerConfig, ServerInfo};
use vstd::prelude::*;
use vstd::string::{StrSliceExecFns, StringExecFns};

verus! {

/// How long a session lives, in seconds.
pub const SESSION_LENGTH: u64 = 7200;

/// The registry a sequence of id/handle pairs denotes.
pub open spec fn registry_map(s: Seq<(String, Process)>) -> Map<Seq<char>, ProcModel>
    decreases s.len(),
{
    if s.len() == 0 {
        Map::empty()
    } else {
        registry_map(s.drop_last()).insert(s.last().0@, s.last().1@)
    }
}

pub open spec fn registry_unique(s: Seq<(String, Process)>) -> bool {
    forall|i: int, j: int| 0 <= i < j < s.len() ==> s[i].0@ != s[j].0@
}

proof fn lemma_registry_map_dom(s: Seq<(String, Process)>, id: Seq<char>)
    ensures
        registry_map(s).contains_key(id) <==> exists|i: int| 0 <= i < s.len() && s[i].0@ == id,
    decreases s.len(),
{
    if s.len() > 0 {
        lemma_registry_map_dom(s.drop_last(), id);
        if s.last().0@ == id {
            assert(s[s.len() - 1].0@ == id);
        } else if registry_map(s).contains_key(id) {
            let i = choose|i: int| 0 <= i < s.drop_last().len() && s.drop_last()[i].0@ == id;
            assert(s[i].0@ == id);
        } else if exists|i: int| 0 <= i < s.len() && s[i].0@ == id {
            let i = choose|i: int| 0 <= i < s.len() && s[i].0@ == id;
            assert(s.drop_last()[i].0@ == id);
        }
    }
}

proof fn lemma_registry_map_index(s: Seq<(String, Process)>, i: int)
    requires
        registry_unique(s),
        0 <= i < s.len(),
    ensures
        registry_map(s).contains_key(s[i].0@),
        registry_map(s)[s[i].0@] == s[i].1@,
    decreases s.len(),
{
    if i < s.len() - 1 {
        lemma_registry_map_index(s.drop_last(), i);
        assert(s.drop_last()[i] == s[i]);
    }
}

proof fn lemma_registry_map_push(s: Seq<(String, Process)>, p: (String, Process))
    ensures
        registry_map(s.push(p)) == registry_map(s).insert(p.0@, p.1@),
{
    assert(s.push(p).drop_last() =~= s);
    assert(s.push(p).last() == p);
}

proof fn lemma_registry_map_update(s: Seq<(String, Process)>, i: int, p: (String, Process))
    requires
        registry_unique(s),
        0 <= i < s.len(),
        s[i].0@ == p.0@,
    ensures
        registry_map(s.update(i, p)) == registry_map(s).insert(p.0@, p.1@),
    decreases s.len(),
{
    if i == s.len() - 1 {
        assert(s.update(i, p).drop_last() =~= s.drop_last());
        assert(s.update(i, p).last() == p);
        assert(registry_map(s.drop_last()).insert(p.0@, p.1@) =~= registry_map(
            s.drop_last(),
        ).insert(s.last().0@, s.last().1@).insert(p.0@, p.1@));
    } else {
        lemma_registry_map_update(s.drop_last(), i, p);
        assert(s.update(i, p).drop_last() =~= s.drop_last().update(i, p));
        assert(s.update(i, p).last() == s.last());
        assert(s[i].0@ != s.last().0@);
        assert(registry_map(s.drop_last()).insert(p.0@, p.1@).insert(s.last().0@, s.last().1@)
            =~= registry_map(s.drop_last()).insert(s.last().0@, s.last().1@).insert(p.0@, p.1@));
    }
}

/// Whether the registry holds a handle for `id` whose process is live.
pub open spec fn running_in(m: Map<Seq<char>, ProcModel>, id: Seq<char>) -> bool {
    m.contains_key(id) && m[id].alive
}

/// The registry after a freshly spawned child is attached under `id`: the
/// handle is created on first use, and an existing handle keeps its console.
pub open spec fn attach_spec(m: Map<Seq<char>, ProcModel>, id: Seq<char>) -> Map<
    Seq<char>,
    ProcModel,
> {
    m.insert(
        id,
        proc_started(
            if m.contains_key(id) {
                m[id].console
            } else {
                Seq::<Seq<char>>::empty()
            },
        ),
    )
}

/// Whitespace as it separates the words of a start command.
pub open spec fn is_command_ws(c: char) -> bool {
    c == ' ' || c == '\t' || c == '\n' || c == '\r'
}

/// State of a left-to-right whitespace split: the finished words, and the
/// word in progress.
pub open spec fn split_state(s: Seq<char>) -> (Seq<Seq<char>>, Seq<char>)
    decreases s.len(),
{
    if s.len() == 0 {
        (Seq::<Seq<char>>::empty(), Seq::<char>::empty())
    } else {
        let st = split_state(s.drop_last());
        let c = s.last();
        if is_command_ws(c) {
            if st.1.len() > 0 {
                (st.0.push(st.1), Seq::<char>::empty())
            } else {
                st
            }
        } else {
            (st.0, st.1.push(c))
        }
    }
}

/// The whitespace-separated words of `s`, in order; words are maximal runs
/// of non-whitespace characters.
pub open spec fn split_whitespace_spec(s: Seq<char>) -> Seq<Seq<char>> {
    let st = split_state(s);
    if st.1.len() > 0 {
        st.0.push(st.1)
    } else {
        st.0
    }
}

proof fn lemma_push_deep_view(a: Seq<String>, b: Vec<String>, x: String)
    requires
        b@ == a.push(x),
    ensures
        b.deep_view() =~= Seq::new(a.len(), |i: int| a[i]@).push(x@),
{
    assert forall|j: int| 0 <= j < b@.len() implies b.deep_view()[j] == Seq::new(
        a.len(),
        |i: int| a[i]@,
    ).push(x@)[j] by {
        if j < a.len() {
            assert(b@[j] == a[j]);
        } else {
            assert(b@[j] == x);
        }
    }
}

/// Split a start command into its whitespace-separated words.
#[verifier::loop_isolation(false)]
pub fn split_command(s: &str) -> (r: Vec<String>)
    ensures
        r.deep_view() == split_whitespace_spec(s@),
{
    let n = s.unicode_len();
    let mut tokens: Vec<String> = Vec::new();
    let mut start: usize = 0;
    let mut i: usize = 0;
    while i < n
        invariant
            i <= n,
            start <= i,
            split_state(s@.take(i as int)) == (tokens.deep_view(), s@.subrange(
                start as int,
                i as int,
            )),
        decreases n - i,
    {
        let ghost pre_tokens = tokens@;
        let ghost pre_deep = tokens.deep_view();
        let c = s.get_char(i);
        proof {
            assert(s@.take(i + 1 as int).drop_last() =~= s@.take(i as int));
            assert(s@.take(i + 1 as int).last() == s@[i as int]);
        }
        if c == ' ' || c == '\t' || c == '\n' || c == '\r' {
            if start < i {
                let tok = s.substring_char(start, i).to_owned();
                proof {
                    assert(tok@ == s@.subrange(start as int, i as int));
                }
                tokens.push(tok);
                proof {
                    lemma_push_deep_view(pre_tokens, tokens, tok);
                    assert(Seq::new(pre_tokens.len(), |k: int| pre_tokens[k]@) =~= pre_deep);
                    assert(tokens.deep_view() =~= pre_deep.push(
                        s@.subrange(start as int, i as int),
                    ));
                }
            }
            start = i + 1;
            proof {
                assert(s@.subrange(start as int, i + 1 as int) =~= Seq::<char>::empty());
            }
        } else {
            proof {
                assert(s@.subrange(start as int, i + 1 as int) =~= s@.subrange(
                    start as int,
                    i as int,
                ).push(s@[i as int]));
            }
        }
        i = i + 1;
    }
    proof {
        assert(s@.take(n as int) =~= s@);
    }
    if start < n {
        let ghost pre_tokens = tokens@;
        let ghost pre_deep = tokens.deep_view();
        let tok = s.substring_char(start, n).to_owned();
        tokens.push(tok);
        proof {
            lemma_push_deep_view(pre_tokens, tokens, tok);
            assert(Seq::new(pre_tokens.len(), |k: int| pre_tokens[k]@) =~= pre_deep);
            assert(tokens.deep_view() =~= pre_deep.push(s@.subrange(start as int, n as int)));
        }
    } else {
        proof {
            assert(s@.subrange(start as int, n as int).len() == 0);
        }
    }
    tokens
}

/// The first configured server whose id is `id`.
pub open spec fn find_server(servers: Seq<ServerInfo>, id: Seq<char>) -> Option<ServerInfo>
    decreases servers.len(),
{
    if servers.len() == 0 {
        None
    } else if servers[0].id@ == id {
        Some(servers[0])
    } else {
        find_server(servers.drop_first(), id)
    }
}

proof fn lemma_find_server_at(servers: Seq<ServerInfo>, id: Seq<char>, i: int)
    requires
        0 <= i < servers.len(),
        servers[i].id@ == id,
        forall|j: int| 0 <= j < i ==> servers[j].id@ != id,
    ensures
        find_server(servers, id) == Some(servers[i]),
    decreases i,
{
    if i > 0 {
        lemma_find_server_at(servers.drop_first(), id, i - 1);
    }
}

proof fn lemma_find_server_none(servers: Seq<ServerInfo>, id: Seq<char>)
    requires
        forall|j: int| 0 <= j < servers.len() ==> servers[j].id@ != id,
    ensures
        find_server(servers, id) is None,
    decreases servers.len(),
{
    if servers.len() > 0 {
        lemma_find_server_none(servers.drop_first(), id);
    }
}

/// Registry of process handles, keyed by server id; entries are created
/// lazily on first start and never removed, so a stopped server's console
/// history survives.
pub struct ProcessManager(Vec<(String, Process)>);

impl View for ProcessManager {
    type V = Map<Seq<char>, ProcModel>;

    closed spec fn view(&self) -> Map<Seq<char>, ProcModel> {
        registry_map(self.0@)
    }
}

fn registry_index(entries: &Vec<(String, Process)>, id: &String) -> (r: Option<usize>)
    ensures
        match r {
            Some(i) => i < entries@.len() && entries@[i as int].0@ == id@,
            None => forall|i: int| 0 <= i < entries@.len() ==> entries@[i].0@ != id@,
        },
{
    let n = entries.len();
    let mut i: usize = 0;
    while i < n
        invariant
            n == entries@.len(),
            i <= n,
            forall|j: int| 0 <= j < i ==> entries@[j].0@ != id@,
        decreases n - i,
    {
        if entries[i].0 == *id {
            return Some(i);
        }
        i = i + 1;
    }
    None
}

fn entry_mut(entries: &mut Vec<(String, Process)>, i: usize) -> (p: &mut Process)
    requires
        i < old(entries).len(),
    ensures
        *p == old(entries)@[i as int].1,
        final(entries)@ == old(entries)@.update(
            i as int,
            (old(entries)@[i as int].0, *final(p)),
        ),
{
    &mut entries[i].1
}

impl ProcessManager {
    /// Every id has at most one handle, and every handle is well formed.
    pub closed spec fn wf(&self) -> bool {
        registry_unique(self.0@) && (forall|i: int|
            0 <= i < self.0@.len() ==> (#[trigger] self.0@[i].1).wf())
    }

    /// An empty registry.
    pub fn new() -> (r: ProcessManager)
        ensures
            r@ == Map::<Seq<char>, ProcModel>::empty(),
            r.wf(),
    {
        ProcessManager(Vec::new())
    }

    /// Whether `id` currently has a live process.
    pub fn is_running(&self, id: &String) -> (r: bool)
        requires
            self.wf(),
        ensures
            r == running_in(self@, id@),
    {
        proof {
            lemma_registry_map_dom(self.0@, id@);
        }
        match registry_index(&self.0, id) {
            Some(i) => {
                proof {
                    lemma_registry_map_index(self.0@, i as int);
                }
                self.0[i].1.is_alive()
            },
            None => false,
        }
    }

    /// Whether `id` has a handle with a child currently attached.
    pub fn is_attached(&self, id: &String) -> (r: bool)
        requires
            self.wf(),
        ensures
            r == (self@.contains_key(id@) && self@[id@].attached),
    {
        proof {
            lemma_registry_map_dom(self.0@, id@);
        }
        match registry_index(&self.0, id) {
            Some(i) => {
                proof {
                    lemma_registry_map_index(self.0@, i as int);
                }
                self.0[i].1.is_attached()
            },
            None => false,
        }
    }

    /// Borrow the handle registered under `id`, if any.
    pub fn get(&self, id: &String) -> (r: Option<&Process>)
        requires
            self.wf(),
        ensures
            match r {
                Some(p) => self@.contains_key(id@) && p@ == self@[id@] && p.wf(),
                None => !self@.contains_key(id@),
            },
    {
        proof {
            lemma_registry_map_dom(self.0@, id@);
        }
        match registry_index(&self.0, id) {
            Some(i) => {
                proof {
                    lemma_registry_map_index(self.0@, i as int);
                }
                Some(&self.0[i].1)
            },
            None => None,
        }
    }

    /// Record that a freshly spawned child now runs under `id`: reuses the
    /// existing handle (keeping its console) or creates one.
    pub fn attach(&mut self, id: &String)
        requires
            old(self).wf(),
        ensures
            final(self).wf(),
            final(self)@ == attach_spec(old(self)@, id@),
    {
        let ghost pre = self.0@;
        proof {
            lemma_registry_map_dom(pre, id@);
        }
        match registry_index(&self.0, id) {
            Some(i) => {
                proof {
                    lemma_registry_map_index(pre, i as int);
                }
                let handle = entry_mut(&mut self.0, i);
                handle.insert();
                proof {
                    let p = self.0@[i as int];
                    assert(self.0@ =~= pre.update(i as int, p));
                    lemma_registry_map_update(pre, i as int, p);
                    assert(forall|j: int|
                        0 <= j < self.0@.len() && j != i ==> self.0@[j] == pre[j]);
                }
            },
            None => {
                let fresh = Process::new();
                let key = id.clone();
                proof {
                    lemma_registry_map_push(pre, (key, fresh));
                }
                self.0.push((key, fresh));
                proof {
                    assert(forall|j: int| 0 <= j < pre.len() ==> self.0@[j] == pre[j]);
                }
            },
        }
    }
}

impl ProcessManager {
    /// Record one line the output pump drained from the child under `id`.
    pub fn pump_line(&mut self, id: &String, line: String)
        requires
            old(self).wf(),
        ensures
            final(self).wf(),
            old(self)@.contains_key(id@) ==> final(self)@ == old(self)@.insert(
                id@,
                proc_line(old(self)@[id@], line@),
            ),
            !old(self)@.contains_key(id@) ==> final(self)@ == old(self)@,
    {
        let ghost pre = self.0@;
        proof {
            lemma_registry_map_dom(pre, id@);
        }
        match registry_index(&self.0, id) {
            Some(i) => {
                proof {
                    lemma_registry_map_index(pre, i as int);
                }
                let handle = entry_mut(&mut self.0, i);
                handle.pump_line(line);
                proof {
                    let p = self.0@[i as int];
                    assert(self.0@ =~= pre.update(i as int, p));
                    lemma_registry_map_update(pre, i as int, p);
                    assert(forall|j: int|
                        0 <= j < self.0@.len() && j != i ==> self.0@[j] == pre[j]);
                }
            },
            None => {},
        }
    }

    /// Record that the output stream of the child under `id` has ended.
    pub fn pump_eof(&mut self, id: &String)
        requires
            old(self).wf(),
        ensures
            final(self).wf(),
            old(self)@.contains_key(id@) ==> final(self)@ == old(self)@.insert(
                id@,
                proc_eof(old(self)@[id@]),
            ),
            !old(self)@.contains_key(id@) ==> final(self)@ == old(self)@,
    {
        let ghost pre = self.0@;
        proof {
            lemma_registry_map_dom(pre, id@);
        }
        match registry_index(&self.0, id) {
            Some(i) => {
                proof {
                    lemma_registry_map_index(pre, i as int);
                }
                let handle = entry_mut(&mut self.0, i);
                handle.pump_eof();
                proof {
                    let p = self.0@[i as int];
                    assert(self.0@ =~= pre.update(i as int, p));
                    lemma_registry_map_update(pre, i as int, p);
                    assert(forall|j: int|
                        0 <= j < self.0@.len() && j != i ==> self.0@[j] == pre[j]);
                }
            },
            None => {},
        }
    }
}

/// What a start request decides before any process is spawned.
pub enum StartDecision {
    /// The id is outside the caller's control scope: 401.
    Denied,
    /// A live process already runs under this id: 200 with nothing to do.
    AlreadyRunning,
    /// No server with this id is configured: 404.
    UnknownId,
    /// The configured start command has no words: 500.
    InvalidCommand,
    /// Spawn `program` with `args` in the directory `dir`, then attach.
    Spawn { program: String, args: Vec<String>, dir: String },
}

/// Mathematical value of a [`StartDecision`].
pub ghost enum StartDecisionModel {
    Denied,
    AlreadyRunning,
    UnknownId,
    InvalidCommand,
    Spawn { program: Seq<char>, args: Seq<Seq<char>>, dir: Seq<char> },
}

impl View for StartDecision {
    type V = StartDecisionModel;

    open spec fn view(&self) -> StartDecisionModel {
        match self {
            StartDecision::Denied => StartDecisionModel::Denied,
            StartDecision::AlreadyRunning => StartDecisionModel::AlreadyRunning,
            StartDecision::UnknownId => StartDecisionModel::UnknownId,
            StartDecision::InvalidCommand => StartDecisionModel::InvalidCommand,
            StartDecision::Spawn { program, args, dir } => StartDecisionModel::Spawn {
                program: program@,
                args: args.deep_view(),
                dir: dir@,
            },
        }
    }
}

/// The decision a start request comes to: the scope check first, then
/// idempotent success on a live process, then configuration lookup and the
/// split of the start command.
pub open spec fn start_spec(
    servers: Seq<ServerInfo>,
    m: Map<Seq<char>, ProcModel>,
    scope: ScopeModel,
    id: Seq<char>,
    dir_base: Seq<char>,
) -> StartDecisionModel {
    if !scope_allows(scope, id) {
        StartDecisionModel::Denied
    } else if running_in(m, id) {
        StartDecisionModel::AlreadyRunning
    } else {
        match find_server(servers, id) {
            None => StartDecisionModel::UnknownId,
            Some(info) => {
                let words = split_whitespace_spec(info.start_command@);
                if words.len() == 0 {
                    StartDecisionModel::InvalidCommand
                } else {
                    StartDecisionModel::Spawn {
                        program: words[0],
                        args: words.drop_first(),
                        dir: dir_base + "/"@ + info.id@,
                    }
                }
            },
        }
    }
}

proof fn lemma_remove_front_deep_view(a: Seq<String>, b: Vec<String>)
    requires
        a.len() > 0,
        b@ == a.remove(0),
    ensures
        b.deep_view() =~= Seq::new(a.len(), |i: int| a[i]@).drop_first(),
{
    assert forall|j: int| 0 <= j < b@.len() implies b.deep_view()[j] == Seq::new(
        a.len(),
        |i: int| a[i]@,
    ).drop_first()[j] by {
        assert(b@[j] == a[j + 1]);
    }
}

/// Decide a start request. The caller performs the returned spawn, if any,
/// and records its outcome with [`start_attach`].
#[verifier::loop_isolation(false)]
pub fn start(
    config: &ServerConfig,
    running: &ProcessManager,
    scope: &Scope,
    server_id: &String,
) -> (r: StartDecision)
    requires
        running.wf(),
    ensures
        r@ == start_spec(config.servers@, running@, scope@, server_id@, config.server_directory@),
{
    if !scope.contains(server_id) {
        return StartDecision::Denied;
    }
    if running.is_running(server_id) {
        return StartDecision::AlreadyRunning;
    }
    let servers = &config.servers;
    let n = servers.len();
    let mut i: usize = 0;
    while i < n
        invariant
            n == servers@.len(),
            i <= n,
            forall|j: int| 0 <= j < i ==> servers@[j].id@ != server_id@,
        decreases n - i,
    {
        if servers[i].id == *server_id {
            proof {
                lemma_find_server_at(servers@, server_id@, i as int);
            }
            let ghost words = split_whitespace_spec(servers@[i as int].start_command@);
            let mut tokens = split_command(servers[i].start_command.as_str());
            if tokens.len() == 0 {
                return StartDecision::InvalidCommand;
            }
            let ghost pre_tokens = tokens@;
            let program = tokens.remove(0);
            proof {
                lemma_remove_front_deep_view(pre_tokens, tokens);
                assert(Seq::new(pre_tokens.len(), |k: int| pre_tokens[k]@) =~= words);
                assert(tokens.deep_view() =~= words.drop_first());
            }
            let mut dir = config.server_directory.clone();
            dir.append("/");
            dir.append(servers[i].id.as_str());
            return StartDecision::Spawn { program, args: tokens, dir };
        }
        i = i + 1;
    }
    proof {
        lemma_find_server_none(servers@, server_id@);
    }
    StartDecision::UnknownId
}

/// Record the outcome of the spawn a start decision asked for: on success
/// the child is attached under `server_id` and the request reports 200; a
/// failed spawn reports 500 and changes nothing.
pub fn start_attach(running: &mut ProcessManager, server_id: &String, spawned: bool) -> (r: u16)
    requires
        old(running).wf(),
    ensures
        final(running).wf(),
        spawned ==> r == 200 && final(running)@ == attach_spec(old(running)@, server_id@),
        !spawned ==> r == 500 && final(running)@ == old(running)@,
{
    if spawned {
        running.attach(server_id);
        200
    } else {
        500
    }
}

/// What a stop request decides.
#[derive(Debug, PartialEq, Eq, Structural)]
pub enum StopDecision {
    /// The id is outside the caller's control scope: 401.
    Denied,
    /// No child is attached under this id: 200 with nothing to do.
    Finished,
    /// A child is attached: terminate it, then record the outcome with
    /// [`stop_finish`].
    Kill,
}

/// The decision a stop request comes to: the scope check first, then whether
/// there is a child to terminate at all.
pub open spec fn stop_spec(
    m: Map<Seq<char>, ProcModel>,
    scope: ScopeModel,
    id: Seq<char>,
) -> StopDecision {
    if !scope_allows(scope, id) {
        StopDecision::Denied
    } else if m.contains_key(id) && m[id].attached {
        StopDecision::Kill
    } else {
        StopDecision::Finished
    }
}

/// Decide a stop request. The caller performs the OS-level termination when
/// the decision is `Kill`, and records its outcome with [`stop_finish`].
pub fn stop(running: &ProcessManager, scope: &Scope, server_id: &String) -> (r: StopDecision)
    requires
        running.wf(),
    ensures
        r == stop_spec(running@, scope@, server_id@),
    {
    if !scope.contains(server_id) {
        return StopDecision::Denied;
    }
    if running.is_attached(server_id) {
        StopDecision::Kill
    } else {
        StopDecision::Finished
    }
}

/// The registry after a successful kill of the child under `id`.
pub open spec fn kill_spec(m: Map<Seq<char>, ProcModel>, id: Seq<char>) -> Map<
    Seq<char>,
    ProcModel,
> {
    m.insert(id, proc_killed(m[id]))
}

/// Record the outcome of a kill: success clears the child reference and
/// reports 200; failure reports 500 and leaves the handle attached, so the
/// stop can be retried. With no child attached, reports 200 untouched.
pub fn stop_finish(running: &mut ProcessManager, server_id: &String, kill_ok: bool) -> (r: u16)
    requires
        old(running).wf(),
    ensures
        final(running).wf(),
        !(old(running)@.contains_key(server_id@) && old(running)@[server_id@].attached) ==> r
            == 200 && final(running)@ == old(running)@,
        old(running)@.contains_key(server_id@) && old(running)@[server_id@].attached && kill_ok
            ==> r == 200 && final(running)@ == kill_spec(old(running)@, server_id@),
        old(running)@.contains_key(server_id@) && old(running)@[server_id@].attached && !kill_ok
            ==> r == 500 && final(running)@ == old(running)@,
{
    let ghost pre = running.0@;
    proof {
        lemma_registry_map_dom(pre, server_id@);
    }
    match registry_index(&running.0, server_id) {
        Some(i) => {
            proof {
                lemma_registry_map_index(pre, i as int);
            }
            let handle = entry_mut(&mut running.0, i);
            let ok = handle.kill(kill_ok);
            proof {
                let p = running.0@[i as int];
                assert(running.0@ =~= pre.update(i as int, p));
                lemma_registry_map_update(pre, i as int, p);
                assert(forall|j: int|
                    0 <= j < running.0@.len() && j != i ==> running.0@[j] == pre[j]);
                if !pre[i as int].1@.attached || !kill_ok {
                    assert(registry_map(pre).insert(p.0@, p.1@) =~= registry_map(pre));
                }
            }
            if ok {
                200
            } else {
                500
            }
        },
        None => 200,
    }
}

/// Submit a console command: the scope check first; then, when a handle
/// exists, the command is recorded in its console with the operator's name
/// and the line to write to the child's standard input is handed back.
pub fn input(
    running: &mut ProcessManager,
    scope: &Scope,
    server_id: &String,
    command: InputCommandRequest,
    user: String,
) -> (r: (u16, Option<String>))
    requires
        old(running).wf(),
    ensures
        final(running).wf(),
        !scope_allows(scope@, server_id@) ==> r.0 == 401 && r.1 is None && final(running)@ == old(
            running,
        )@,
        scope_allows(scope@, server_id@) && !old(running)@.contains_key(server_id@) ==> r.0 == 200
            && r.1 is None && final(running)@ == old(running)@,
        scope_allows(scope@, server_id@) && old(running)@.contains_key(server_id@) ==> r.0 == 200
            && final(running)@ == old(running)@.insert(
            server_id@,
            proc_send(old(running)@[server_id@], command.command@, Some(user@)),
        ) && (old(running)@[server_id@].attached ==> (r.1 matches Some(p) && p@ == stdin_payload(
            command.command@,
        ))) && (!old(running)@[server_id@].attached ==> r.1 is None),
{
    if !scope.contains(server_id) {
        return (401, None);
    }
    let ghost pre = running.0@;
    proof {
        lemma_registry_map_dom(pre, server_id@);
    }
    match registry_index(&running.0, server_id) {
        Some(i) => {
            proof {
                lemma_registry_map_index(pre, i as int);
            }
            let handle = entry_mut(&mut running.0, i);
            let payload = handle.send(command.command, Some(user));
            proof {
                let p = running.0@[i as int];
                assert(running.0@ =~= pre.update(i as int, p));
                lemma_registry_map_update(pre, i as int, p);
                assert(forall|j: int|
                    0 <= j < running.0@.len() && j != i ==> running.0@[j] == pre[j]);
            }
            (200, payload)
        },
        None => (200, None),
    }
}

/// Read a server's recent console lines: nothing for a caller whose view
/// scope excludes the id (401); an empty report when the server has never
/// been started; otherwise the buffered lines, newest first.
pub fn get_output(running: &ProcessManager, scope: &Scope, server_id: &String) -> (r: Option<
    ServerOutput,
>)
    requires
        running.wf(),
    ensures
        (r is None) == !scope_allows(scope@, server_id@),
        r matches Some(o) ==> match o.output {
            Some(lines) => running@.contains_key(server_id@) && lines.deep_view()
                == running@[server_id@].console,
            None => !running@.contains_key(server_id@),
        },
{
    if !scope.contains(server_id) {
        return None;
    }
    match running.get(server_id) {
        Some(handle) => {
            let lines = handle.console_snapshot();
            Some(ServerOutput { output: Some(lines) })
        },
        None => Some(ServerOutput { output: None }),
    }
}

/// The id/liveness pairs a status report carries.
pub open spec fn status_view(s: Seq<ServerStatus>) -> Seq<(Seq<char>, bool)> {
    s.map_values(|st: ServerStatus| (st.id@, st.running))
}

/// The status report over a configured server list: every server within the
/// caller's view scope, in configuration order, with its liveness; a server
/// with no handle reports not running.
pub open spec fn status_list(
    servers: Seq<ServerInfo>,
    m: Map<Seq<char>, ProcModel>,
    scope: ScopeModel,
) -> Seq<(Seq<char>, bool)>
    decreases servers.len(),
{
    if servers.len() == 0 {
        Seq::<(Seq<char>, bool)>::empty()
    } else {
        let rest = status_list(servers.drop_last(), m, scope);
        let info = servers.last();
        if scope_allows(scope, info.id@) {
            rest.push((info.id@, running_in(m, info.id@)))
        } else {
            rest
        }
    }
}

/// Report the liveness of every configured server within the caller's view
/// scope.
#[verifier::loop_isolation(false)]
pub fn get_all_status(config: &ServerConfig, running: &ProcessManager, scope: &Scope) -> (r:
    GlobalStatus)
    requires
        running.wf(),
    ensures
        status_view(r.servers@) == status_list(config.servers@, running@, scope@),
{
    let servers = &config.servers;
    let n = servers.len();
    let mut out: Vec<ServerStatus> = Vec::new();
    let mut i: usize = 0;
    while i < n
        invariant
            i <= n,
            status_view(out@) =~= status_list(servers@.take(i as int), running@, scope@),
        decreases n - i,
    {
        let ghost pre = out@;
        proof {
            assert(servers@.take(i + 1 as int).drop_last() =~= servers@.take(i as int));
            assert(servers@.take(i + 1 as int).last() == servers@[i as int]);
        }
        let info = &servers[i];
        if scope.contains(&info.id) {
            let alive = running.is_running(&info.id);
            out.push(ServerStatus { id: info.id.clone(), running: alive });
            proof {
                assert(status_view(out@) =~= status_view(pre).push((info.id@, alive)));
            }
        }
        i = i + 1;
    }
    proof {
        assert(servers@.take(n as int) =~= servers@);
    }
    GlobalStatus { servers: out }
}

/// Handle a login: check the credentials, and on success issue a session
/// starting at time `now` whose token the response carries; on failure the
/// response carries no token and the store is untouched.
pub fn auth(authentication: &mut Authentication, request: &TokenRequest, now: u64) -> (r:
    TokenResponse)
    requires
        old(authentication).wf(),
    ensures
        final(authentication).wf(),
        final(authentication)@.users == old(authentication)@.users,
        ({
            let known = old(authentication)@.users.contains_key(request.username@) && old(
                authentication,
            )@.users[request.username@].password == request.password@;
            if known {
                (r.token matches Some(t) && final(authentication)@.sessions == old(
                    authentication,
                )@.sessions.insert(t, SessionModel { started: now, user_id: request.username@ }))
            } else {
                r.token is None && final(authentication)@.sessions == old(
                    authentication,
                )@.sessions
            }
        }),
{
    let user_id = match authentication.get_user(&request.username, &request.password) {
        Some(user) => user.user_id.clone(),
        None => {
            return TokenResponse { token: None };
        },
    };
    let token = authentication.create_session(user_id.as_str(), now);
    TokenResponse { token: Some(token) }
}

/// The user a request's bearer credential stands for: the one its token
/// resolves to, or nobody when the token is absent, malformed or unknown.
pub open spec fn gate(a: AuthModel, token: Option<Token>) -> Option<crate::authentication::UserModel> {
    match token {
        Some(t) => resolve_spec(a, t),
        None => None,
    }
}

/// The decision of a start request made with a bearer credential: identity
/// first, then the per-id scope check inside the start decision itself.
pub open spec fn handle_start_spec(
    a: AuthModel,
    token: Option<Token>,
    servers: Seq<ServerInfo>,
    m: Map<Seq<char>, ProcModel>,
    id: Seq<char>,
    dir_base: Seq<char>,
) -> StartDecisionModel {
    match gate(a, token) {
        None => StartDecisionModel::Denied,
        Some(u) => start_spec(servers, m, u.permissions.control, id, dir_base),
    }
}

/// Resolve a start request's bearer credential and decide the request.
pub fn handle_start(
    authentication: &Authentication,
    token: Option<Token>,
    config: &ServerConfig,
    running: &ProcessManager,
    server_id: &String,
) -> (r: StartDecision)
    requires
        authentication.wf(),
        running.wf(),
    ensures
        r@ == handle_start_spec(
            authentication@,
            token,
            config.servers@,
            running@,
            server_id@,
            config.server_directory@,
        ),
{
    let user = match token {
        Some(t) => authentication.resolve(t),
        None => None,
    };
    match user {
        Some(u) => {
            let Control(scope) = Control::get_permission(&u.permissions);
            start(config, running, &scope, server_id)
        },
        None => StartDecision::Denied,
    }
}

/// The decision of a stop request made with a bearer credential.
pub open spec fn handle_stop_spec(
    a: AuthModel,
    token: Option<Token>,
    m: Map<Seq<char>, ProcModel>,
    id: Seq<char>,
) -> StopDecision {
    match gate(a, token) {
        None => StopDecision::Denied,
        Some(u) => stop_spec(m, u.permissions.control, id),
    }
}

/// Resolve a stop request's bearer credential and decide the request.
pub fn handle_stop(
    authentication: &Authentication,
    token: Option<Token>,
    running: &ProcessManager,
    server_id: &String,
) -> (r: StopDecision)
    requires
        authentication.wf(),
        running.wf(),
    ensures
        r == handle_stop_spec(authentication@, token, running@, server_id@),
{
    let user = match token {
        Some(t) => authentication.resolve(t),
        None => None,
    };
    match user {
        Some(u) => {
            let Control(scope) = Control::get_permission(&u.permissions);
            stop(running, &scope, server_id)
        },
        None => StopDecision::Denied,
    }
}

/// Resolve a status request's bearer credential and report the liveness of
/// every configured server within the resolved user's view scope; an
/// unresolved credential reports nothing (401).
pub fn handle_status(
    authentication: &Authentication,
    token: Option<Token>,
    config: &ServerConfig,
    running: &ProcessManager,
) -> (r: Option<GlobalStatus>)
    requires
        authentication.wf(),
        running.wf(),
    ensures
        (r is None) == (gate(authentication@, token) is None),
        r matches Some(g) ==> (gate(authentication@, token) matches Some(u) && status_view(
            g.servers@,
        ) == status_list(config.servers@, running@, u.permissions.view)),
{
    let user = match token {
        Some(t) => authentication.resolve(t),
        None => None,
    };
    match user {
        Some(u) => {
            let ViewPerm(scope) = ViewPerm::get_permission(&u.permissions);
            Some(get_all_status(config, running, &scope))
        },
        None => None,
    }
}

/// Resolve an output request's bearer credential and read the server's
/// recent console lines; an unresolved credential, like an id outside the
/// resolved user's view scope, reads nothing (401).
pub fn handle_output(
    authentication: &Authentication,
    token: Option<Token>,
    running: &ProcessManager,
    server_id: &String,
) -> (r: Option<ServerOutput>)
    requires
        authentication.wf(),
        running.wf(),
    ensures
        (r is Some) == (gate(authentication@, token) matches Some(u) && scope_allows(
            u.permissions.view,
            server_id@,
        )),
        r matches Some(o) ==> match o.output {
            Some(lines) => running@.contains_key(server_id@) && lines.deep_view()
                == running@[server_id@].console,
            None => !running@.contains_key(server_id@),
        },
{
    let user = match token {
        Some(t) => authentication.resolve(t),
        None => None,
    };
    match user {
        Some(u) => {
            let ViewPerm(scope) = ViewPerm::get_permission(&u.permissions);
            get_output(running, &scope, server_id)
        },
        None => None,
    }
}

/// Resolve a command submission's bearer credential and submit the command,
/// attributed to the resolved user; approval needs the id inside the
/// resolved user's control scope.
pub fn handle_input(
    authentication: &Authentication,
    token: Option<Token>,
    running: &mut ProcessManager,
    server_id: &String,
    command: InputCommandRequest,
) -> (r: (u16, Option<String>))
    requires
        authentication.wf(),
        old(running).wf(),
    ensures
        final(running).wf(),
        ({
            let user = gate(authentication@, token);
            &&& (user is None ==> r.0 == 401 && r.1 is None && final(running)@ == old(running)@)
            &&& (user matches Some(u) ==> {
                &&& (!scope_allows(u.permissions.control, server_id@) ==> r.0 == 401 && r.1
                    is None && final(running)@ == old(running)@)
                &&& (scope_allows(u.permissions.control, server_id@) && !old(
                    running,
                )@.contains_key(server_id@) ==> r.0 == 200 && r.1 is None && final(running)@
                    == old(running)@)
                &&& (scope_allows(u.permissions.control, server_id@) && old(
                    running,
                )@.contains_key(server_id@) ==> r.0 == 200 && final(running)@ == old(
                    running,
                )@.insert(
                    server_id@,
                    proc_send(old(running)@[server_id@], command.command@, Some(u.user_id)),
                ))
            })
            &&& (r.0 == 200 ==> (user matches Some(u) && scope_allows(
                u.permissions.control,
                server_id@,
            )))
        }),
{
    let user = match token {
        Some(t) => authentication.resolve(t),
        None => None,
    };
    match user {
        Some(u) => {
            let user_id = u.user_id.clone();
            let Control(scope) = Control::get_permission(&u.permissions);
            input(running, &scope, server_id, command, user_id)
        },
        None => (401, None),
    }
}

/// An operation on a server id is approved only when the bearer token
/// resolves to a non-removed session and its user, and that user's scope for
/// the operation's category covers the id: the identity check and the per-id
/// scope check are both in force, and neither can be bypassed.
pub proof fn lemma_two_layer_authorization(
    a: AuthModel,
    token: Option<Token>,
    servers: Seq<ServerInfo>,
    m: Map<Seq<char>, ProcModel>,
    id: Seq<char>,
    dir_base: Seq<char>,
)
    ensures
        !(handle_start_spec(a, token, servers, m, id, dir_base) is Denied) ==> (gate(a, token)
            matches Some(u) && scope_allows(u.permissions.control, id)),
        handle_stop_spec(a, token, m, id) != StopDecision::Denied ==> (gate(a, token)
            matches Some(u) && scope_allows(u.permissions.control, id)),
        (gate(a, token) matches Some(u) && scope_allows(u.permissions.control, id)) ==> ({
            &&& token matches Some(t)
            &&& a.sessions.contains_key(t)
            &&& a.users.contains_key(a.sessions[t].user_id)
        }),
{
}

/// Starting a server that already runs reports success and asks for no
/// spawn, so a second start right after a successful one cannot attach a
/// second child.
pub proof fn lemma_start_idempotent(
    servers: Seq<ServerInfo>,
    m: Map<Seq<char>, ProcModel>,
    scope: ScopeModel,
    id: Seq<char>,
    dir_base: Seq<char>,
)
    requires
        scope_allows(scope, id),
    ensures
        running_in(attach_spec(m, id), id),
        start_spec(servers, attach_spec(m, id), scope, id, dir_base)
            == StartDecisionModel::AlreadyRunning,
{
}

} // verus!
