//! Users, permission scopes, session tokens and their store: issuance,
//! expiry sweep, and the resolution of a bearer token to a user.

use vstd::prelude::*;
use vstd::pervasive::VecAdditionalExecFns;

verus! {

pub type UserId = String;

pub type Password = String;

/// An opaque, unguessable session credential.
pub type Token = u128;

/// An authorization predicate over server ids: either every id, or exactly
/// the ids of an allow-list.
#[derive(Debug, PartialEq, Eq)]
pub enum Scope {
    All,
    Listed(Vec<String>),
}

/// Mathematical value of a [`Scope`].
pub ghost enum ScopeModel {
    All,
    Listed(Seq<Seq<char>>),
}

impl View for Scope {
    type V = ScopeModel;

    closed spec fn view(&self) -> ScopeModel {
        match self {
            Scope::All => ScopeModel::All,
            Scope::Listed(ids) => ScopeModel::Listed(ids.deep_view()),
        }
    }
}

/// Whether the scope `s` authorizes an operation on the server id `id`.
pub open spec fn scope_allows(s: ScopeModel, id: Seq<char>) -> bool {
    match s {
        ScopeModel::All => true,
        ScopeModel::Listed(ids) => ids.contains(id),
    }
}

impl Clone for Scope {
    fn clone(&self) -> (r: Self)
        ensures
            r@ == self@,
    {
        match self {
            Scope::All => Scope::All,
            Scope::Listed(ids) => {
                let copy = ids.clone();
                proof {
                    assert forall|i: int| 0 <= i < ids@.len() implies copy.deep_view()[i]
                        == ids.deep_view()[i] by {
                        assert(cloned::<String>(ids@[i], copy@[i]));
                    }
                    assert(copy.deep_view() =~= ids.deep_view());
                }
                Scope::Listed(copy)
            },
        }
    }
}

impl Default for Scope {
    /// The empty allow-list: authorizes nothing.
    fn default() -> (r: Self)
        ensures
            r@ == ScopeModel::Listed(Seq::<Seq<char>>::empty()),
    {
        let ids: Vec<String> = Vec::new();
        proof {
            assert(ids.deep_view() =~= Seq::<Seq<char>>::empty());
        }
        Scope::Listed(ids)
    }
}

impl Scope {
    /// Whether this scope authorizes an operation on `other`.
    #[verifier::loop_isolation(false)]
    pub fn contains(&self, other: &String) -> (r: bool)
        ensures
            r == scope_allows(self@, other@),
    {
        match self {
            Scope::All => true,
            Scope::Listed(ids) => {
                let n = ids.len();
                let mut i: usize = 0;
                while i < n
                    invariant
                        n == ids@.len(),
                        i <= n,
                        forall|j: int| 0 <= j < i ==> ids@[j]@ != other@,
                    decreases n - i,
                {
                    if ids[i] == *other {
                        proof {
                            assert(ids.deep_view()[i as int] == other@);
                            assert(ids.deep_view().contains(other@));
                        }
                        return true;
                    }
                    i = i + 1;
                }
                proof {
                    assert forall|j: int| 0 <= j < ids.deep_view().len() implies ids.deep_view()[j]
                        != other@ by {
                        assert(ids@[j]@ != other@);
                    }
                }
                false
            },
        }
    }
}

/// Per-user permission scopes, one per category of operation.
#[derive(Debug)]
pub struct Permissions {
    admin: bool,
    edit: Scope,
    view: Scope,
    control: Scope,
}

/// Mathematical value of a [`Permissions`].
pub ghost struct PermissionsModel {
    pub admin: bool,
    pub edit: ScopeModel,
    pub view: ScopeModel,
    pub control: ScopeModel,
}

/// The permissions a freshly provisioned user starts with: no flag and empty
/// scopes in every category.
pub open spec fn default_permissions() -> PermissionsModel {
    PermissionsModel {
        admin: false,
        edit: ScopeModel::Listed(Seq::<Seq<char>>::empty()),
        view: ScopeModel::Listed(Seq::<Seq<char>>::empty()),
        control: ScopeModel::Listed(Seq::<Seq<char>>::empty()),
    }
}

impl View for Permissions {
    type V = PermissionsModel;

    closed spec fn view(&self) -> PermissionsModel {
        PermissionsModel {
            admin: self.admin,
            edit: self.edit@,
            view: self.view@,
            control: self.control@,
        }
    }
}

impl Default for Permissions {
    fn default() -> (r: Self)
        ensures
            r@ == default_permissions(),
    {
        Permissions {
            admin: false,
            edit: Scope::default(),
            view: Scope::default(),
            control: Scope::default(),
        }
    }
}

impl Permissions {
    /// Assemble a permission set from one scope per category.
    pub fn new(admin: bool, edit: Scope, view: Scope, control: Scope) -> (r: Self)
        ensures
            r@ == (PermissionsModel { admin, edit: edit@, view: view@, control: control@ }),
    {
        Permissions { admin, edit, view, control }
    }

    pub(crate) fn admin() -> (r: Self)
        ensures
            r@ == default_permissions(),
    {
        Permissions::default()
    }
}

/// One account: identity, shared secret, and granted scopes.
#[derive(Debug)]
pub struct User {
    pub user_id: UserId,
    pub permissions: Permissions,
    pub password: String,
}

/// Mathematical value of a [`User`].
pub ghost struct UserModel {
    pub user_id: Seq<char>,
    pub permissions: PermissionsModel,
    pub password: Seq<char>,
}

impl View for User {
    type V = UserModel;

    open spec fn view(&self) -> UserModel {
        UserModel {
            user_id: self.user_id@,
            permissions: self.permissions@,
            password: self.password@,
        }
    }
}

/// A live credential: which user it stands for and when it was issued.
pub struct Session {
    started: u64,
    user_id: UserId,
}

/// Mathematical value of a [`Session`].
pub ghost struct SessionModel {
    pub started: u64,
    pub user_id: Seq<char>,
}

impl View for Session {
    type V = SessionModel;

    closed spec fn view(&self) -> SessionModel {
        SessionModel { started: self.started, user_id: self.user_id@ }
    }
}

impl Session {
    /// A session issued at time `now` for the given user.
    pub fn new(user_id: UserId, now: u64) -> (r: Session)
        ensures
            r@ == (SessionModel { started: now, user_id: user_id@ }),
    {
        Session { started: now, user_id }
    }
}

/// A session is expired at time `now` when at least `timeout` time units have
/// passed since it started.
pub open spec fn session_expired(s: SessionModel, timeout: u64, now: u64) -> bool {
    now >= s.started + timeout
}

/// The user table a sequence of accounts denotes, keyed by user id; a later
/// entry with the same id wins.
pub open spec fn users_map(s: Seq<User>) -> Map<Seq<char>, UserModel>
    decreases s.len(),
{
    if s.len() == 0 {
        Map::empty()
    } else {
        users_map(s.drop_last()).insert(s.last()@.user_id, s.last()@)
    }
}

/// The session table a sequence of token/session pairs denotes.
pub open spec fn sessions_map(s: Seq<(Token, Session)>) -> Map<Token, SessionModel>
    decreases s.len(),
{
    if s.len() == 0 {
        Map::empty()
    } else {
        sessions_map(s.drop_last()).insert(s.last().0, s.last().1@)
    }
}

pub open spec fn users_unique(s: Seq<User>) -> bool {
    forall|i: int, j: int| 0 <= i < j < s.len() ==> s[i]@.user_id != s[j]@.user_id
}

pub open spec fn sessions_unique(s: Seq<(Token, Session)>) -> bool {
    forall|i: int, j: int| 0 <= i < j < s.len() ==> s[i].0 != s[j].0
}

proof fn lemma_users_map_dom(s: Seq<User>, id: Seq<char>)
    ensures
        users_map(s).contains_key(id) <==> exists|i: int|
            0 <= i < s.len() && s[i]@.user_id == id,
    decreases s.len(),
{
    if s.len() > 0 {
        lemma_users_map_dom(s.drop_last(), id);
        if s.last()@.user_id == id {
            assert(s[s.len() - 1]@.user_id == id);
        } else if users_map(s).contains_key(id) {
            let i = choose|i: int| 0 <= i < s.drop_last().len() && s.drop_last()[i]@.user_id == id;
            assert(s[i]@.user_id == id);
        } else if exists|i: int| 0 <= i < s.len() && s[i]@.user_id == id {
            let i = choose|i: int| 0 <= i < s.len() && s[i]@.user_id == id;
            assert(s.drop_last()[i]@.user_id == id);
        }
    }
}

proof fn lemma_users_map_index(s: Seq<User>, i: int)
    requires
        users_unique(s),
        0 <= i < s.len(),
    ensures
        users_map(s).contains_key(s[i]@.user_id),
        users_map(s)[s[i]@.user_id] == s[i]@,
    decreases s.len(),
{
    if i < s.len() - 1 {
        lemma_users_map_index(s.drop_last(), i);
        assert(s.drop_last()[i] == s[i]);
    }
}

proof fn lemma_users_map_push(s: Seq<User>, u: User)
    ensures
        users_map(s.push(u)) == users_map(s).insert(u@.user_id, u@),
{
    assert(s.push(u).drop_last() =~= s);
    assert(s.push(u).last() == u);
}

proof fn lemma_sessions_map_dom(s: Seq<(Token, Session)>, t: Token)
    ensures
        sessions_map(s).contains_key(t) <==> exists|i: int| 0 <= i < s.len() && s[i].0 == t,
    decreases s.len(),
{
    if s.len() > 0 {
        lemma_sessions_map_dom(s.drop_last(), t);
        if s.last().0 == t {
            assert(s[s.len() - 1].0 == t);
        } else if sessions_map(s).contains_key(t) {
            let i = choose|i: int| 0 <= i < s.drop_last().len() && s.drop_last()[i].0 == t;
            assert(s[i].0 == t);
        } else if exists|i: int| 0 <= i < s.len() && s[i].0 == t {
            let i = choose|i: int| 0 <= i < s.len() && s[i].0 == t;
            assert(s.drop_last()[i].0 == t);
        }
    }
}

proof fn lemma_sessions_map_index(s: Seq<(Token, Session)>, i: int)
    requires
        sessions_unique(s),
        0 <= i < s.len(),
    ensures
        sessions_map(s).contains_key(s[i].0),
        sessions_map(s)[s[i].0] == s[i].1@,
    decreases s.len(),
{
    if i < s.len() - 1 {
        lemma_sessions_map_index(s.drop_last(), i);
        assert(s.drop_last()[i] == s[i]);
    }
}

proof fn lemma_sessions_map_push(s: Seq<(Token, Session)>, p: (Token, Session))
    ensures
        sessions_map(s.push(p)) == sessions_map(s).insert(p.0, p.1@),
{
    assert(s.push(p).drop_last() =~= s);
    assert(s.push(p).last() == p);
}

proof fn lemma_sessions_map_update(s: Seq<(Token, Session)>, i: int, p: (Token, Session))
    requires
        sessions_unique(s),
        0 <= i < s.len(),
        s[i].0 == p.0,
    ensures
        sessions_map(s.update(i, p)) == sessions_map(s).insert(p.0, p.1@),
    decreases s.len(),
{
    if i == s.len() - 1 {
        assert(s.update(i, p).drop_last() =~= s.drop_last());
        assert(s.update(i, p).last() == p);
        assert(sessions_map(s.drop_last()).insert(p.0, p.1@) =~= sessions_map(
            s.drop_last(),
        ).insert(s.last().0, s.last().1@).insert(p.0, p.1@));
    } else {
        lemma_sessions_map_update(s.drop_last(), i, p);
        assert(s.update(i, p).drop_last() =~= s.drop_last().update(i, p));
        assert(s.update(i, p).last() == s.last());
        assert(s[i].0 != s.last().0);
        assert(sessions_map(s.drop_last()).insert(p.0, p.1@).insert(s.last().0, s.last().1@)
            =~= sessions_map(s.drop_last()).insert(s.last().0, s.last().1@).insert(p.0, p.1@));
    }
}

/// Mathematical state of the store: the user table and the live sessions.
pub ghost struct AuthModel {
    pub users: Map<Seq<char>, UserModel>,
    pub sessions: Map<Token, SessionModel>,
}

/// The session table after an expiry sweep at time `now`: exactly the
/// sessions that are not yet expired, unchanged.
pub open spec fn sweep(
    sessions: Map<Token, SessionModel>,
    timeout: u64,
    now: u64,
) -> Map<Token, SessionModel> {
    Map::new(
        |t: Token| sessions.contains_key(t) && !session_expired(sessions[t], timeout, now),
        |t: Token| sessions[t],
    )
}

/// The resolution of a bearer token: the user of the session it names, if
/// both the session and that user exist.
pub open spec fn resolve_spec(a: AuthModel, token: Token) -> Option<UserModel> {
    if a.sessions.contains_key(token) && a.users.contains_key(a.sessions[token].user_id) {
        Some(a.users[a.sessions[token].user_id])
    } else {
        None
    }
}

/// The user table and the live session table.
pub struct Authentication {
    users: Vec<User>,
    sessions: Vec<(Token, Session)>,
}

impl View for Authentication {
    type V = AuthModel;

    closed spec fn view(&self) -> AuthModel {
        AuthModel { users: users_map(self.users@), sessions: sessions_map(self.sessions@) }
    }
}

fn find_user_index(users: &Vec<User>, id: &String) -> (r: Option<usize>)
    ensures
        match r {
            Some(i) => i < users@.len() && users@[i as int]@.user_id == id@,
            None => forall|i: int| 0 <= i < users@.len() ==> users@[i]@.user_id != id@,
        },
{
    let n = users.len();
    let mut i: usize = 0;
    while i < n
        invariant
            n == users@.len(),
            i <= n,
            forall|j: int| 0 <= j < i ==> users@[j]@.user_id != id@,
        decreases n - i,
    {
        if users[i].user_id == *id {
            return Some(i);
        }
        i = i + 1;
    }
    None
}

fn find_session_index(sessions: &Vec<(Token, Session)>, token: Token) -> (r: Option<usize>)
    ensures
        match r {
            Some(i) => i < sessions@.len() && sessions@[i as int].0 == token,
            None => forall|i: int| 0 <= i < sessions@.len() ==> sessions@[i].0 != token,
        },
{
    let n = sessions.len();
    let mut i: usize = 0;
    while i < n
        invariant
            n == sessions@.len(),
            i <= n,
            forall|j: int| 0 <= j < i ==> sessions@[j].0 != token,
        decreases n - i,
    {
        if sessions[i].0 == token {
            return Some(i);
        }
        i = i + 1;
    }
    None
}

impl Authentication {
    /// Key uniqueness of the backing tables.
    pub closed spec fn wf(&self) -> bool {
        users_unique(self.users@) && sessions_unique(self.sessions@)
    }

    /// The store a fresh installation starts with: the one provisional
    /// "admin" account and no sessions.
    pub fn template() -> (r: Authentication)
        ensures
            r.wf(),
            r@.users == Map::<Seq<char>, UserModel>::empty().insert(
                "admin"@,
                UserModel {
                    user_id: "admin"@,
                    permissions: default_permissions(),
                    password: "password"@,
                },
            ),
            r@.sessions == Map::<Token, SessionModel>::empty(),
    {
        let mut users: Vec<User> = Vec::new();
        let admin = User {
            user_id: "admin".to_owned(),
            permissions: Permissions::admin(),
            password: "password".to_owned(),
        };
        proof {
            lemma_users_map_push(users@, admin);
        }
        users.push(admin);
        Authentication { users, sessions: Vec::new() }
    }

    /// The store holding the given accounts and no sessions; of entries that
    /// share a user id, the first is kept.
    pub fn from_users(users: Vec<User>) -> (r: Authentication)
        ensures
            r.wf(),
            r@.sessions == Map::<Token, SessionModel>::empty(),
            forall|id: Seq<char>|
                r@.users.contains_key(id) <==> exists|i: int|
                    0 <= i < users@.len() && users@[i]@.user_id == id,
            forall|i: int|
                0 <= i < users@.len() && (forall|j: int|
                    0 <= j < i ==> users@[j]@.user_id != users@[i]@.user_id)
                    ==> r@.users[users@[i]@.user_id] == users@[i]@,
    {
        let n = users.len();
        let mut kept: Vec<User> = Vec::new();
        let mut k: usize = 0;
        while k < n
            invariant
                n == users@.len(),
                k <= n,
                users_unique(kept@),
                forall|id: Seq<char>|
                    users_map(kept@).contains_key(id) <==> exists|i: int|
                        0 <= i < k && users@[i]@.user_id == id,
                forall|i: int|
                    0 <= i < k && (forall|j: int|
                        0 <= j < i ==> users@[j]@.user_id != users@[i]@.user_id)
                        ==> users_map(kept@)[users@[i]@.user_id] == users@[i]@,
            decreases n - k,
        {
            let ghost pre = kept@;
            let ghost cid = users@[k as int]@.user_id;
            let candidate = &users[k];
            match find_user_index(&kept, &candidate.user_id) {
                Some(_) => {
                    proof {
                        lemma_users_map_dom(pre, cid);
                        assert(users_map(pre).contains_key(cid));
                        assert forall|id: Seq<char>| users_map(kept@).contains_key(id)
                            <==> exists|i: int| 0 <= i < k + 1 && users@[i]@.user_id == id by {
                            if users_map(kept@).contains_key(id) {
                                assert(exists|i: int| 0 <= i < k && users@[i]@.user_id == id);
                            } else {
                                assert(id != cid);
                            }
                        }
                        assert forall|i: int|
                            0 <= i < k + 1 && (forall|j: int|
                                0 <= j < i ==> users@[j]@.user_id != users@[i]@.user_id)
                            implies users_map(kept@)[users@[i]@.user_id] == users@[i]@ by {
                            if i == k {
                                let e = choose|e: int| 0 <= e < k && users@[e]@.user_id == cid;
                                assert(users@[e]@.user_id == users@[i]@.user_id);
                                assert(false);
                            }
                        }
                    }
                },
                None => {
                    let copy = clone_user(candidate);
                    proof {
                        lemma_users_map_dom(pre, cid);
                        lemma_users_map_push(pre, copy);
                        assert(!users_map(pre).contains_key(cid));
                        assert(users_map(kept@.push(copy)) == users_map(pre).insert(cid, users@[k as int]@));
                    }
                    kept.push(copy);
                    proof {
                        assert(users_unique(kept@)) by {
                            assert(forall|i: int|
                                0 <= i < pre.len() ==> kept@[i] == pre[i] && pre[i]@.user_id != cid);
                        }
                        assert forall|id: Seq<char>| users_map(kept@).contains_key(id)
                            <==> exists|i: int| 0 <= i < k + 1 && users@[i]@.user_id == id by {
                            if id == cid {
                                assert(users@[k as int]@.user_id == id);
                            } else if users_map(kept@).contains_key(id) {
                                assert(users_map(pre).contains_key(id));
                                assert(exists|i: int| 0 <= i < k && users@[i]@.user_id == id);
                            }
                        }
                        assert forall|i: int|
                            0 <= i < k + 1 && (forall|j: int|
                                0 <= j < i ==> users@[j]@.user_id != users@[i]@.user_id)
                            implies users_map(kept@)[users@[i]@.user_id] == users@[i]@ by {
                            if i == k {
                                assert(users_map(kept@)[cid] == users@[k as int]@);
                            } else {
                                if users@[i]@.user_id == cid {
                                    assert(users_map(pre).contains_key(cid)) by {
                                        lemma_users_map_dom(pre, cid);
                                        assert(users@[i]@.user_id == cid);
                                    }
                                    assert(false);
                                }
                                assert(users_map(kept@)[users@[i]@.user_id] == users_map(
                                    pre,
                                )[users@[i]@.user_id]);
                            }
                        }
                    }
                },
            }
            k = k + 1;
        }
        Authentication { users: kept, sessions: Vec::new() }
    }

    /// Look an account up by id and shared secret; the secret must match
    /// exactly.
    pub fn get_user(&self, user_id: &UserId, password: &Password) -> (r: Option<&User>)
        requires
            self.wf(),
        ensures
            match r {
                Some(u) => self@.users.contains_key(user_id@) && self@.users[user_id@].password
                    == password@ && u@ == self@.users[user_id@] && u@.user_id == user_id@,
                None => !(self@.users.contains_key(user_id@) && self@.users[user_id@].password
                    == password@),
            },
    {
        proof {
            lemma_users_map_dom(self.users@, user_id@);
        }
        match find_user_index(&self.users, user_id) {
            Some(i) => {
                proof {
                    lemma_users_map_index(self.users@, i as int);
                }
                if self.users[i].password == *password {
                    Some(&self.users[i])
                } else {
                    None
                }
            },
            None => None,
        }
    }

    /// Issue a session for `user_id` starting at time `now` and hand back its
    /// fresh random token.
    pub fn create_session(&mut self, user_id: &str, now: u64) -> (token: Token)
        requires
            old(self).wf(),
        ensures
            final(self).wf(),
            final(self)@.users == old(self)@.users,
            final(self)@.sessions == old(self)@.sessions.insert(
                token,
                SessionModel { started: now, user_id: user_id@ },
            ),
    {
        let token = crate::token::fresh_token();
        let session = Session::new(user_id.to_owned(), now);
        match find_session_index(&self.sessions, token) {
            Some(i) => {
                proof {
                    lemma_sessions_map_update(self.sessions@, i as int, (token, session));
                }
                self.sessions.set(i, (token, session));
            },
            None => {
                proof {
                    lemma_sessions_map_push(self.sessions@, (token, session));
                }
                self.sessions.push((token, session));
            },
        }
        token
    }

    /// Remove every session that is expired at time `now`; the user table and
    /// the remaining sessions are untouched.
    pub fn clean(&mut self, timeout: u64, now: u64)
        requires
            old(self).wf(),
        ensures
            final(self).wf(),
            final(self)@.users == old(self)@.users,
            final(self)@.sessions == sweep(old(self)@.sessions, timeout, now),
    {
        let ghost orig = self.sessions@;
        let mut taken: Vec<(Token, Session)> = Vec::new();
        core::mem::swap(&mut self.sessions, &mut taken);
        let n = taken.len();
        let mut kept: Vec<(Token, Session)> = Vec::new();
        let mut k: usize = 0;
        while k < n
            invariant
                n == orig.len(),
                taken@ == orig,
                k <= n,
                sessions_unique(orig),
                sessions_unique(kept@),
                sessions_map(kept@) == sweep(sessions_map(orig.take(k as int)), timeout, now),
            decreases n - k,
        {
            let ghost pre = kept@;
            let ghost prefix = orig.take(k as int);
            let ghost t = orig[k as int].0;
            let entry = &taken[k];
            let keep = !(now >= entry.1.started && now - entry.1.started >= timeout);
            proof {
                assert(keep == !session_expired(orig[k as int].1@, timeout, now));
                assert(orig.take(k + 1 as int) =~= prefix.push(orig[k as int]));
                lemma_sessions_map_push(prefix, orig[k as int]);
                lemma_sessions_map_dom(prefix, t);
                assert(forall|i: int|
                    0 <= i < prefix.len() ==> prefix[i] == orig[i] && prefix[i].0 != t);
                assert(!sessions_map(prefix).contains_key(t));
                assert(sessions_map(orig.take(k + 1 as int)) == sessions_map(prefix).insert(
                    t,
                    orig[k as int].1@,
                ));
            }
            if keep {
                let pair = (entry.0, clone_session(&entry.1));
                proof {
                    lemma_sessions_map_push(pre, pair);
                    lemma_sessions_map_dom(pre, t);
                    assert(!sessions_map(pre).contains_key(t));
                    assert(forall|i: int| 0 <= i < pre.len() ==> pre[i].0 != t);
                    assert(sweep(sessions_map(orig.take(k + 1 as int)), timeout, now)
                        =~= sweep(sessions_map(prefix), timeout, now).insert(
                        t,
                        orig[k as int].1@,
                    ));
                    assert(sessions_map(pre.push(pair)) == sessions_map(pre).insert(
                        t,
                        orig[k as int].1@,
                    ));
                    assert(forall|i: int| 0 <= i < pre.len() ==> pre.push(pair)[i] == pre[i]);
                    assert(sessions_unique(pre.push(pair)));
                }
                kept.push(pair);
            } else {
                proof {
                    assert(sweep(sessions_map(orig.take(k + 1 as int)), timeout, now)
                        =~= sweep(sessions_map(prefix), timeout, now));
                }
            }
            k = k + 1;
        }
        proof {
            assert(orig.take(n as int) =~= orig);
        }
        self.sessions = kept;
    }

    /// Resolve a bearer token to the user of its session; absence of the
    /// session and absence of the user are not distinguished.
    pub fn resolve(&self, token: Token) -> (r: Option<&User>)
        requires
            self.wf(),
        ensures
            match r {
                Some(u) => resolve_spec(self@, token) == Some(u@),
                None => resolve_spec(self@, token) is None,
            },
    {
        proof {
            lemma_sessions_map_dom(self.sessions@, token);
        }
        match find_session_index(&self.sessions, token) {
            Some(i) => {
                proof {
                    lemma_sessions_map_index(self.sessions@, i as int);
                    lemma_users_map_dom(self.users@, self.sessions@[i as int].1@.user_id);
                }
                match find_user_index(&self.users, &self.sessions[i].1.user_id) {
                    Some(j) => {
                        proof {
                            lemma_users_map_index(self.users@, j as int);
                        }
                        Some(&self.users[j])
                    },
                    None => None,
                }
            },
            None => None,
        }
    }
}

impl Default for Authentication {
    fn default() -> (r: Authentication)
        ensures
            r.wf(),
            r@.users == Map::<Seq<char>, UserModel>::empty().insert(
                "admin"@,
                UserModel {
                    user_id: "admin"@,
                    permissions: default_permissions(),
                    password: "password"@,
                },
            ),
            r@.sessions == Map::<Token, SessionModel>::empty(),
    {
        Authentication::template()
    }
}

/// A value resolved from a request's bearer credential.
pub struct Perm<T>(pub T);

/// The scope a user holds for edit operations.
pub struct Edit(pub Scope);

/// The scope a user holds for read-only status and output queries.
pub struct ViewPerm(pub Scope);

/// The scope a user holds for start, stop and command submission.
pub struct Control(pub Scope);

impl Edit {
    pub fn get_permission(permissions: &Permissions) -> (r: Self)
        ensures
            r.0@ == permissions@.edit,
    {
        Edit(permissions.edit.clone())
    }
}

impl ViewPerm {
    pub fn get_permission(permissions: &Permissions) -> (r: Self)
        ensures
            r.0@ == permissions@.view,
    {
        ViewPerm(permissions.view.clone())
    }
}

impl Control {
    pub fn get_permission(permissions: &Permissions) -> (r: Self)
        ensures
            r.0@ == permissions@.control,
    {
        Control(permissions.control.clone())
    }
}

/// An expiry sweep at time `now` removes a session exactly when at least
/// `timeout` time units have passed since it started, and leaves every
/// surviving session unchanged.
pub proof fn lemma_sweep_expiry(a: AuthModel, timeout: u64, now: u64, token: Token)
    ensures
        sweep(a.sessions, timeout, now).contains_key(token) <==> (a.sessions.contains_key(token)
            && !session_expired(a.sessions[token], timeout, now)),
        sweep(a.sessions, timeout, now).contains_key(token) ==> sweep(
            a.sessions,
            timeout,
            now,
        )[token] == a.sessions[token],
{
}

/// A session just issued for a known user resolves to exactly that user.
pub proof fn lemma_issued_session_resolves(a: AuthModel, token: Token, uid: Seq<char>, now: u64)
    requires
        a.users.contains_key(uid),
    ensures
        resolve_spec(
            AuthModel {
                sessions: a.sessions.insert(token, SessionModel { started: now, user_id: uid }),
                ..a
            },
            token,
        ) == Some(a.users[uid]),
{
}

/// A token still resolves after a sweep run strictly before its session's
/// expiry time, and no longer resolves after a sweep run at or past it.
pub proof fn lemma_resolve_around_expiry(a: AuthModel, timeout: u64, now: u64, token: Token)
    requires
        a.sessions.contains_key(token),
    ensures
        now < a.sessions[token].started + timeout ==> resolve_spec(
            AuthModel { sessions: sweep(a.sessions, timeout, now), ..a },
            token,
        ) == resolve_spec(a, token),
        now >= a.sessions[token].started + timeout ==> resolve_spec(
            AuthModel { sessions: sweep(a.sessions, timeout, now), ..a },
            token,
        ) is None,
{
}

fn clone_user(u: &User) -> (r: User)
    ensures
        r@ == u@,
{
    User {
        user_id: u.user_id.clone(),
        permissions: clone_permissions(&u.permissions),
        password: u.password.clone(),
    }
}

fn clone_permissions(p: &Permissions) -> (r: Permissions)
    ensures
        r@ == p@,
{
    Permissions {
        admin: p.admin,
        edit: p.edit.clone(),
        view: p.view.clone(),
        control: p.control.clone(),
    }
}

fn clone_session(s: &Session) -> (r: Session)
    ensures
        r@ == s@,
{
    Session { started: s.started, user_id: s.user_id.clone() }
}

} // verus!
