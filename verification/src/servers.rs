//! Client-side record of the servers the panel reported and their output.

use crate::models::{GlobalStatus, ServerStatus};
use vstd::prelude::*;

verus! {

/// One server as the client sees it: its id, whether it runs, and the console
/// lines fetched so far.
#[derive(Debug, Clone)]
pub struct Server {
    pub id: String,
    pub running: bool,
    pub output: Vec<String>,
}

/// Mathematical value of a [`Server`].
pub ghost struct ServerModel {
    pub id: Seq<char>,
    pub running: bool,
    pub output: Seq<Seq<char>>,
}

impl View for Server {
    type V = ServerModel;

    open spec fn view(&self) -> ServerModel {
        ServerModel { id: self.id@, running: self.running, output: self.output.deep_view() }
    }
}

impl DeepView for Server {
    type V = ServerModel;

    open spec fn deep_view(&self) -> ServerModel {
        self.view()
    }
}

impl Server {
    /// Take over the liveness reported by a fresh status, keeping the
    /// console lines.
    pub fn update(&mut self, server_status: ServerStatus)
        ensures
            final(self)@ == (ServerModel { running: server_status.running, ..old(self)@ }),
    {
        self.running = server_status.running;
    }
}

/// Whether a status report mentions the server id `id`.
pub open spec fn has_status(sts: Seq<ServerStatus>, id: Seq<char>) -> bool {
    exists|i: int| 0 <= i < sts.len() && sts[i].id@ == id
}

/// The liveness a status report gives the server id `id`; of repeated
/// entries, the last wins.
pub open spec fn status_running(sts: Seq<ServerStatus>, id: Seq<char>) -> bool
    decreases sts.len(),
{
    if sts.len() == 0 {
        false
    } else if sts.last().id@ == id {
        sts.last().running
    } else {
        status_running(sts.drop_last(), id)
    }
}

proof fn lemma_has_status_push(sts: Seq<ServerStatus>, st: ServerStatus, id: Seq<char>)
    ensures
        has_status(sts.push(st), id) == (has_status(sts, id) || st.id@ == id),
{
    if has_status(sts, id) {
        let i = choose|i: int| 0 <= i < sts.len() && sts[i].id@ == id;
        assert(sts.push(st)[i].id@ == id);
    }
    if st.id@ == id {
        assert(sts.push(st)[sts.len() as int].id@ == id);
    }
    if has_status(sts.push(st), id) && st.id@ != id {
        let i = choose|i: int| 0 <= i < sts.push(st).len() && sts.push(st)[i].id@ == id;
        assert(sts[i].id@ == id);
    }
}

/// The table a sequence of client-side servers denotes, keyed by id.
pub open spec fn servers_map(s: Seq<Server>) -> Map<Seq<char>, ServerModel>
    decreases s.len(),
{
    if s.len() == 0 {
        Map::empty()
    } else {
        servers_map(s.drop_last()).insert(s.last().id@, s.last()@)
    }
}

pub open spec fn servers_unique(s: Seq<Server>) -> bool {
    forall|i: int, j: int| 0 <= i < j < s.len() ==> s[i].id@ != s[j].id@
}

proof fn lemma_servers_map_dom(s: Seq<Server>, id: Seq<char>)
    ensures
        servers_map(s).contains_key(id) <==> exists|i: int| 0 <= i < s.len() && s[i].id@ == id,
    decreases s.len(),
{
    if s.len() > 0 {
        lemma_servers_map_dom(s.drop_last(), id);
        if s.last().id@ == id {
            assert(s[s.len() - 1].id@ == id);
        } else if servers_map(s).contains_key(id) {
            let i = choose|i: int| 0 <= i < s.drop_last().len() && s.drop_last()[i].id@ == id;
            assert(s[i].id@ == id);
        } else if exists|i: int| 0 <= i < s.len() && s[i].id@ == id {
            let i = choose|i: int| 0 <= i < s.len() && s[i].id@ == id;
            assert(s.drop_last()[i].id@ == id);
        }
    }
}

proof fn lemma_servers_map_index(s: Seq<Server>, i: int)
    requires
        servers_unique(s),
        0 <= i < s.len(),
    ensures
        servers_map(s).contains_key(s[i].id@),
        servers_map(s)[s[i].id@] == s[i]@,
    decreases s.len(),
{
    if i < s.len() - 1 {
        lemma_servers_map_index(s.drop_last(), i);
        assert(s.drop_last()[i] == s[i]);
    }
}

proof fn lemma_servers_map_push(s: Seq<Server>, v: Server)
    ensures
        servers_map(s.push(v)) == servers_map(s).insert(v.id@, v@),
{
    assert(s.push(v).drop_last() =~= s);
    assert(s.push(v).last() == v);
}

proof fn lemma_servers_map_self_keyed(s: Seq<Server>, id: Seq<char>)
    ensures
        servers_map(s).contains_key(id) ==> servers_map(s)[id].id == id,
    decreases s.len(),
{
    if s.len() > 0 {
        lemma_servers_map_self_keyed(s.drop_last(), id);
    }
}

proof fn lemma_servers_map_update(s: Seq<Server>, i: int, v: Server)
    requires
        servers_unique(s),
        0 <= i < s.len(),
        s[i].id@ == v.id@,
    ensures
        servers_map(s.update(i, v)) == servers_map(s).insert(v.id@, v@),
    decreases s.len(),
{
    if i == s.len() - 1 {
        assert(s.update(i, v).drop_last() =~= s.drop_last());
        assert(s.update(i, v).last() == v);
        assert(servers_map(s.drop_last()).insert(v.id@, v@) =~= servers_map(
            s.drop_last(),
        ).insert(s.last().id@, s.last()@).insert(v.id@, v@));
    } else {
        lemma_servers_map_update(s.drop_last(), i, v);
        assert(s.update(i, v).drop_last() =~= s.drop_last().update(i, v));
        assert(s.update(i, v).last() == s.last());
        assert(s[i].id@ != s.last().id@);
        assert(servers_map(s.drop_last()).insert(v.id@, v@).insert(s.last().id@, s.last()@)
            =~= servers_map(s.drop_last()).insert(s.last().id@, s.last()@).insert(v.id@, v@));
    }
}

/// The table after a status report is taken over: exactly the reported ids;
/// liveness as reported (last entry wins); console lines kept for servers
/// that were already known, empty for new ones.
pub open spec fn sync_spec(
    m: Map<Seq<char>, ServerModel>,
    sts: Seq<ServerStatus>,
) -> Map<Seq<char>, ServerModel> {
    Map::new(
        |id: Seq<char>| has_status(sts, id),
        |id: Seq<char>|
            ServerModel {
                id,
                running: status_running(sts, id),
                output: if m.contains_key(id) {
                    m[id].output
                } else {
                    Seq::<Seq<char>>::empty()
                },
            },
    )
}

/// `m` restricted to the ids a status report mentions.
spec fn restrict_map(
    m: Map<Seq<char>, ServerModel>,
    sts: Seq<ServerStatus>,
) -> Map<Seq<char>, ServerModel> {
    Map::new(|id: Seq<char>| m.contains_key(id) && has_status(sts, id), |id: Seq<char>| m[id])
}

/// The table midway through taking a report over: `base` with the first `j`
/// reported entries applied.
spec fn resync_map(
    base: Map<Seq<char>, ServerModel>,
    sts: Seq<ServerStatus>,
    j: int,
) -> Map<Seq<char>, ServerModel> {
    Map::new(
        |id: Seq<char>| base.contains_key(id) || has_status(sts.take(j), id),
        |id: Seq<char>|
            ServerModel {
                id,
                running: if has_status(sts.take(j), id) {
                    status_running(sts.take(j), id)
                } else {
                    base[id].running
                },
                output: if base.contains_key(id) {
                    base[id].output
                } else {
                    Seq::<Seq<char>>::empty()
                },
            },
    )
}

fn status_contains(sts: &Vec<ServerStatus>, id: &String) -> (r: bool)
    ensures
        r == has_status(sts@, id@),
{
    let n = sts.len();
    let mut i: usize = 0;
    while i < n
        invariant
            n == sts@.len(),
            i <= n,
            forall|j: int| 0 <= j < i ==> sts@[j].id@ != id@,
        decreases n - i,
    {
        if sts[i].id == *id {
            assert(sts@[i as int].id@ == id@);
            return true;
        }
        i = i + 1;
    }
    false
}

fn server_index(servers: &Vec<Server>, id: &String) -> (r: Option<usize>)
    ensures
        match r {
            Some(i) => i < servers@.len() && servers@[i as int].id@ == id@,
            None => forall|i: int| 0 <= i < servers@.len() ==> servers@[i].id@ != id@,
        },
{
    let n = servers.len();
    let mut i: usize = 0;
    while i < n
        invariant
            n == servers@.len(),
            i <= n,
            forall|j: int| 0 <= j < i ==> servers@[j].id@ != id@,
        decreases n - i,
    {
        if servers[i].id == *id {
            return Some(i);
        }
        i = i + 1;
    }
    None
}

fn server_mut(servers: &mut Vec<Server>, i: usize) -> (p: &mut Server)
    requires
        i < old(servers).len(),
    ensures
        *p == old(servers)@[i as int],
        final(servers)@ == old(servers)@.update(i as int, *final(p)),
{
    &mut servers[i]
}

fn clone_lines(v: &Vec<String>) -> (r: Vec<String>)
    ensures
        r.deep_view() == v.deep_view(),
{
    let copy = v.clone();
    proof {
        assert forall|i: int| 0 <= i < v@.len() implies copy.deep_view()[i]
            == v.deep_view()[i] by {
            assert(cloned::<String>(v@[i], copy@[i]));
        }
        assert(copy.deep_view() =~= v.deep_view());
    }
    copy
}

fn clone_server(s: &Server) -> (r: Server)
    ensures
        r@ == s@,
{
    Server { id: s.id.clone(), running: s.running, output: clone_lines(&s.output) }
}

/// The servers the client knows, in the order it first saw them, one per id.
#[derive(Debug, Clone)]
pub struct Servers {
    inner: Vec<Server>,
}

impl View for Servers {
    type V = Map<Seq<char>, ServerModel>;

    closed spec fn view(&self) -> Map<Seq<char>, ServerModel> {
        servers_map(self.inner@)
    }
}

impl Servers {
    /// One server per id.
    pub closed spec fn wf(&self) -> bool {
        servers_unique(self.inner@)
    }

    /// An empty record.
    pub fn new() -> (r: Servers)
        ensures
            r@ == Map::<Seq<char>, ServerModel>::empty(),
            r.wf(),
    {
        Servers { inner: Vec::new() }
    }

    /// Borrow the known servers, in insertion order.
    pub fn entries(&self) -> (r: &Vec<Server>)
        requires
            self.wf(),
        ensures
            forall|j: int| #![trigger r@[j]]
                0 <= j < r@.len() ==> self@.contains_key(r@[j].id@) && self@[r@[j].id@] == r@[j]@,
            forall|id: Seq<char>| self@.contains_key(id) ==> exists|j: int|
                0 <= j < r@.len() && r@[j].id@ == id,
    {
        proof {
            assert forall|j: int| 0 <= j < self.inner@.len() implies self@.contains_key(
                self.inner@[j].id@,
            ) && self@[self.inner@[j].id@] == self.inner@[j]@ by {
                lemma_servers_map_index(self.inner@, j);
            }
            assert forall|id: Seq<char>| self@.contains_key(id) implies exists|j: int|
                0 <= j < self.inner@.len() && self.inner@[j].id@ == id by {
                lemma_servers_map_dom(self.inner@, id);
            }
        }
        &self.inner
    }

    /// Store freshly fetched console lines for a known server; unknown ids
    /// are ignored.
    pub fn set_output(&mut self, id: &String, output: Vec<String>)
        requires
            old(self).wf(),
        ensures
            final(self).wf(),
            old(self)@.contains_key(id@) ==> final(self)@ == old(self)@.insert(
                id@,
                (ServerModel { output: output.deep_view(), ..old(self)@[id@] }),
            ),
            !old(self)@.contains_key(id@) ==> final(self)@ == old(self)@,
    {
        let ghost pre = self.inner@;
        proof {
            lemma_servers_map_dom(pre, id@);
        }
        match server_index(&self.inner, id) {
            Some(i) => {
                proof {
                    lemma_servers_map_index(pre, i as int);
                }
                let server = server_mut(&mut self.inner, i);
                server.output = output;
                proof {
                    let v = self.inner@[i as int];
                    assert(self.inner@ =~= pre.update(i as int, v));
                    lemma_servers_map_update(pre, i as int, v);
                    assert(forall|q: int|
                        0 <= q < self.inner@.len() && q != i ==> self.inner@[q] == pre[q]);
                }
            },
            None => {},
        }
    }

    /// Take a fresh status report over: servers the report no longer mentions
    /// are dropped, reported liveness is taken on, and newly reported servers
    /// are added with empty output.
    #[verifier::loop_isolation(false)]
    pub fn update(&mut self, global_status: GlobalStatus)
        requires
            old(self).wf(),
        ensures
            final(self).wf(),
            final(self)@ == sync_spec(old(self)@, global_status.servers@),
    {
        let ghost orig = self.inner@;
        let ghost sts = global_status.servers@;

        // Drop every server the report no longer mentions.
        let mut taken: Vec<Server> = Vec::new();
        core::mem::swap(&mut self.inner, &mut taken);
        let n = taken.len();
        let mut kept: Vec<Server> = Vec::new();
        let mut k: usize = 0;
        while k < n
            invariant
                taken@ == orig,
                k <= n,
                servers_unique(kept@),
                servers_map(kept@) == restrict_map(servers_map(orig.take(k as int)), sts),
            decreases n - k,
        {
            let ghost pre = kept@;
            let ghost prefix = orig.take(k as int);
            let ghost cid = orig[k as int].id@;
            let entry = &taken[k];
            let keep = status_contains(&global_status.servers, &entry.id);
            proof {
                assert(orig.take(k + 1 as int) =~= prefix.push(orig[k as int]));
                lemma_servers_map_push(prefix, orig[k as int]);
                lemma_servers_map_dom(prefix, cid);
                assert(forall|i: int|
                    0 <= i < prefix.len() ==> prefix[i] == orig[i] && prefix[i].id@ != cid);
                assert(!servers_map(prefix).contains_key(cid));
            }
            if keep {
                let copy = clone_server(entry);
                proof {
                    lemma_servers_map_push(pre, copy);
                    lemma_servers_map_dom(pre, cid);
                    assert(servers_map(pre.push(copy)) == servers_map(pre).insert(
                        cid,
                        orig[k as int]@,
                    ));
                    assert(restrict_map(servers_map(orig.take(k + 1 as int)), sts)
                        =~= servers_map(pre).insert(cid, orig[k as int]@));
                    assert(servers_unique(pre.push(copy)));
                }
                kept.push(copy);
            } else {
                proof {
                    assert(restrict_map(servers_map(orig.take(k + 1 as int)), sts)
                        =~= servers_map(pre));
                }
            }
            k = k + 1;
        }
        proof {
            assert(orig.take(n as int) =~= orig);
        }

        // Take every reported entry over: update a known server's liveness,
        // or add a new server with empty output.
        let ghost base = servers_map(kept@);
        proof {
            assert forall|id: Seq<char>| #[trigger] base.contains_key(id) implies base[id].id
                == id by {
                lemma_servers_map_self_keyed(kept@, id);
            }
            assert(sts.take(0) =~= Seq::<ServerStatus>::empty());
            assert(servers_map(kept@) =~= resync_map(base, sts, 0));
        }
        let statuses = &global_status.servers;
        let sn = statuses.len();
        let mut j: usize = 0;
        while j < sn
            invariant
                servers_unique(kept@),
                j <= sn,
                base == restrict_map(servers_map(orig), sts),
                forall|id: Seq<char>| #[trigger] base.contains_key(id) ==> base[id].id == id,
                servers_map(kept@) == resync_map(base, sts, j as int),
            decreases sn - j,
        {
            let ghost pre = kept@;
            let ghost prefix = sts.take(j as int);
            let ghost cid = sts[j as int].id@;
            let st = &statuses[j];
            proof {
                assert(sts.take(j + 1 as int) =~= prefix.push(sts[j as int]));
                assert forall|id: Seq<char>| #![auto] true implies has_status(
                    sts.take(j + 1 as int),
                    id,
                ) == (has_status(prefix, id) || cid == id) by {
                    lemma_has_status_push(prefix, sts[j as int], id);
                    assert(sts.take(j + 1 as int) =~= prefix.push(sts[j as int]));
                }
                assert(sts.take(j + 1 as int).last() == sts[j as int]);
                assert(sts.take(j + 1 as int).drop_last() =~= prefix);
            }
            match server_index(&kept, &st.id) {
                Some(i) => {
                    proof {
                        lemma_servers_map_index(pre, i as int);
                    }
                    let fresh_status = ServerStatus { id: st.id.clone(), running: st.running };
                    let server = server_mut(&mut kept, i);
                    server.update(fresh_status);
                    proof {
                        let v = kept@[i as int];
                        assert(kept@ =~= pre.update(i as int, v));
                        lemma_servers_map_update(pre, i as int, v);
                        assert(servers_map(kept@) == servers_map(pre).insert(cid, v@));
                        assert(v@ == (ServerModel { running: sts[j as int].running, ..pre[
                            i as int]@ }));
                        assert forall|id: Seq<char>| #![auto] true implies resync_map(
                            base,
                            sts,
                            j + 1,
                        ).contains_key(id) == servers_map(kept@).contains_key(id) && (
                        resync_map(base, sts, j + 1).contains_key(id) ==> resync_map(
                            base,
                            sts,
                            j + 1,
                        )[id] == servers_map(kept@)[id]) by {
                            if id == cid {
                                assert(has_status(sts.take(j + 1 as int), cid));
                                assert(status_running(sts.take(j + 1 as int), cid) == sts[
                                    j as int].running);
                                assert(resync_map(base, sts, j as int).contains_key(cid));
                                assert(pre[i as int]@ == resync_map(base, sts, j as int)[cid]);
                            }
                        }
                        assert(servers_map(kept@) =~= resync_map(base, sts, j + 1));
                    }
                },
                None => {
                    proof {
                        lemma_servers_map_dom(pre, cid);
                        assert(!servers_map(pre).contains_key(cid));
                        assert(!base.contains_key(cid)) by {
                            assert(resync_map(base, sts, j as int).contains_key(cid)
                                == servers_map(pre).contains_key(cid));
                        }
                    }
                    let fresh = Server {
                        id: st.id.clone(),
                        running: st.running,
                        output: Vec::new(),
                    };
                    proof {
                        lemma_servers_map_push(pre, fresh);
                        assert(fresh@.output =~= Seq::<Seq<char>>::empty());
                    }
                    kept.push(fresh);
                    proof {
                        assert(forall|q: int| 0 <= q < pre.len() ==> kept@[q] == pre[q]);
                        assert(servers_unique(kept@));
                        assert(servers_map(kept@) == servers_map(pre).insert(cid, fresh@));
                        assert forall|id: Seq<char>| #![auto] true implies resync_map(
                            base,
                            sts,
                            j + 1,
                        ).contains_key(id) == servers_map(kept@).contains_key(id) && (
                        resync_map(base, sts, j + 1).contains_key(id) ==> resync_map(
                            base,
                            sts,
                            j + 1,
                        )[id] == servers_map(kept@)[id]) by {
                            if id == cid {
                                assert(has_status(sts.take(j + 1 as int), cid));
                                assert(status_running(sts.take(j + 1 as int), cid) == sts[
                                    j as int].running);
                            }
                        }
                        assert(servers_map(kept@) =~= resync_map(base, sts, j + 1));
                    }
                },
            }
            j = j + 1;
        }
        proof {
            assert(sts.take(sn as int) =~= sts);
            assert forall|id: Seq<char>| #![auto] true implies sync_spec(
                servers_map(orig),
                sts,
            ).contains_key(id) == servers_map(kept@).contains_key(id) && (sync_spec(
                servers_map(orig),
                sts,
            ).contains_key(id) ==> sync_spec(servers_map(orig), sts)[id] == servers_map(
                kept@,
            )[id]) by {
                if has_status(sts, id) {
                    assert(base.contains_key(id) == servers_map(orig).contains_key(id));
                }
            }
            assert(servers_map(kept@) =~= sync_spec(servers_map(orig), sts));
        }
        self.inner = kept;
    }
}

} // verus!
