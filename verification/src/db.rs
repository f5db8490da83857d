//! The credential store: three collections — users keyed by identity,
//! tokens keyed by a store-assigned identifier, and an ordered expiry
//! index — maintained together so that every mutation leaves them linked:
//! every token has exactly one index entry keyed by its current deadline,
//! a user holds at most three tokens with no duplicates, and no two of a
//! user's tokens share a primary secret.

use vstd::prelude::*;

use crate::model::{pair_lt, Email, Token, TokenId, TokenModel, UpdateQueueItem, UpdateQueueKey,
    User, UserModel};

verus! {

/// The per-user credential quota: registering beyond it evicts the oldest.
pub const MAX_TOKENS_PER_USER: usize = 3;

/// The mathematical state of the store: user records, token records keyed
/// by identifier, the expiry index as a sorted sequence of
/// ((deadline, identifier), identifier) entries, the next identifier to
/// assign, and a generation counter bumped by every index mutation (the
/// change-notification signal).
#[verifier::ext_equal]
pub struct StoreModel {
    pub users: Seq<UserModel>,
    pub tokens: Seq<(u64, TokenModel)>,
    pub queue: Seq<((u64, u64), u64)>,
    pub next_id: u64,
    pub generation: u64,
}

/// Whether a token sequence holds an entry for `id`.
pub open spec fn seq_has_token(t: Seq<(u64, TokenModel)>, id: u64) -> bool {
    exists|i: int| 0 <= i < t.len() && t[i].0 == id
}

/// The record stored under `id` (meaningful when present and unique).
pub open spec fn seq_token_at(t: Seq<(u64, TokenModel)>, id: u64) -> TokenModel {
    t[choose|i: int| 0 <= i < t.len() && t[i].0 == id].1
}

/// A queue sequence is strictly sorted by (deadline, identifier).
pub open spec fn queue_sorted_seq(q: Seq<((u64, u64), u64)>) -> bool {
    forall|a: int, b: int| 0 <= a < b < q.len() ==> pair_lt(#[trigger] q[a].0, #[trigger] q[b].0)
}

impl StoreModel {
    pub open spec fn has_user(self, email: Seq<char>) -> bool {
        exists|u: int| 0 <= u < self.users.len() && self.users[u].email == email
    }

    pub open spec fn user_index(self, email: Seq<char>) -> int {
        choose|u: int| 0 <= u < self.users.len() && self.users[u].email == email
    }

    pub open spec fn has_token(self, id: u64) -> bool {
        seq_has_token(self.tokens, id)
    }

    pub open spec fn token_index(self, id: u64) -> int {
        choose|i: int| 0 <= i < self.tokens.len() && self.tokens[i].0 == id
    }

    pub open spec fn token_at(self, id: u64) -> TokenModel {
        seq_token_at(self.tokens, id)
    }

    pub open spec fn queue_has(self, key: (u64, u64)) -> bool {
        exists|q: int| 0 <= q < self.queue.len() && self.queue[q].0 == key
    }

    pub open spec fn queue_index(self, key: (u64, u64)) -> int {
        choose|q: int| 0 <= q < self.queue.len() && self.queue[q].0 == key
    }

    /// No two user records share an identity.
    pub open spec fn users_distinct(self) -> bool {
        forall|i: int, j: int|
            0 <= i < j < self.users.len() ==> (#[trigger] self.users[i]).email != (
            #[trigger] self.users[j]).email
    }

    /// No two token records share an identifier.
    pub open spec fn tokens_distinct(self) -> bool {
        forall|i: int, j: int|
            0 <= i < j < self.tokens.len() ==> (#[trigger] self.tokens[i]).0 != (
            #[trigger] self.tokens[j]).0
    }

    /// Every assigned identifier lies below the next one: identifiers are
    /// never reused.
    pub open spec fn ids_fresh(self) -> bool {
        forall|i: int| 0 <= i < self.tokens.len() ==> (#[trigger] self.tokens[i]).0 < self.next_id
    }

    /// A user's list is within quota, has no duplicates, and every listed
    /// token exists and names this user as owner; no two listed tokens
    /// share a primary secret.
    pub open spec fn user_list_wf(self, user: UserModel) -> bool {
        &&& user.tokens.len() <= MAX_TOKENS_PER_USER
        &&& forall|a: int, b: int|
            0 <= a < b < user.tokens.len() ==> user.tokens[a] != user.tokens[b]
        &&& forall|k: int|
            0 <= k < user.tokens.len() ==> self.has_token(#[trigger] user.tokens[k])
                && self.token_at(user.tokens[k]).owner == user.email
        &&& forall|a: int, b: int|
            0 <= a < b < user.tokens.len() ==> self.token_at(user.tokens[a]).moodle_session
                != self.token_at(user.tokens[b]).moodle_session
    }

    pub open spec fn users_wf(self) -> bool {
        forall|u: int| 0 <= u < self.users.len() ==> self.user_list_wf(#[trigger] self.users[u])
    }

    /// Every token is listed by the user it names as owner.
    pub open spec fn tokens_owned(self) -> bool {
        forall|i: int|
            0 <= i < self.tokens.len() ==> {
                let owner = (#[trigger] self.tokens[i]).1.owner;
                self.has_user(owner) && self.users[self.user_index(owner)].tokens.contains(
                    self.tokens[i].0,
                )
            }
    }

    /// Each index entry stores under its key the identifier the key encodes.
    pub open spec fn queue_values_wf(self) -> bool {
        forall|q: int| 0 <= q < self.queue.len() ==> (#[trigger] self.queue[q]).1 == self.queue[q].0.1
    }

    pub open spec fn queue_sorted(self) -> bool {
        queue_sorted_seq(self.queue)
    }

    /// Every index entry denotes a live token whose deadline matches the key.
    pub open spec fn queue_backed(self) -> bool {
        forall|q: int|
            0 <= q < self.queue.len() ==> self.has_token((#[trigger] self.queue[q]).0.1)
                && self.token_at(self.queue[q].0.1).deadline == self.queue[q].0.0
    }

    /// Every token has an index entry keyed by its current deadline.
    pub open spec fn queue_complete(self) -> bool {
        forall|i: int|
            0 <= i < self.tokens.len() ==> self.queue_has(
                ((#[trigger] self.tokens[i]).1.deadline, self.tokens[i].0),
            )
    }

    /// No identifier appears in two index entries.
    pub open spec fn queue_ids_distinct(self) -> bool {
        forall|a: int, b: int|
            0 <= a < b < self.queue.len() ==> (#[trigger] self.queue[a]).0.1 != (
            #[trigger] self.queue[b]).0.1
    }

    /// The store invariant, holding at the boundary of every operation.
    pub open spec fn wf(self) -> bool {
        &&& self.users_distinct()
        &&& self.tokens_distinct()
        &&& self.ids_fresh()
        &&& self.users_wf()
        &&& self.tokens_owned()
        &&& self.queue_values_wf()
        &&& self.queue_sorted()
        &&& self.queue_backed()
        &&& self.queue_complete()
        &&& self.queue_ids_distinct()
    }
}

/// The model of a raw user vector.
pub open spec fn users_view(u: Seq<User>) -> Seq<UserModel> {
    u.map_values(|x: User| x@)
}

/// The model of a raw token vector.
pub open spec fn tokens_view(t: Seq<(TokenId, Token)>) -> Seq<(u64, TokenModel)> {
    t.map_values(|p: (TokenId, Token)| (p.0@, p.1@))
}

/// The model of a raw expiry-index vector.
pub open spec fn queue_view(q: Seq<(UpdateQueueKey, UpdateQueueItem)>) -> Seq<((u64, u64), u64)> {
    q.map_values(|p: (UpdateQueueKey, UpdateQueueItem)| (p.0@, p.1@))
}

/// The embedded credential store. All mutating operations are atomic at
/// this interface: each one either applies its whole effect or none.
pub struct Database {
    users: Vec<User>,
    tokens: Vec<(TokenId, Token)>,
    update_queue: Vec<(UpdateQueueKey, UpdateQueueItem)>,
    next_id: u64,
    generation: u64,
}

impl View for Database {
    type V = StoreModel;

    closed spec fn view(&self) -> StoreModel {
        StoreModel {
            users: users_view(self.users@),
            tokens: tokens_view(self.tokens@),
            queue: queue_view(self.update_queue@),
            next_id: self.next_id,
            generation: self.generation,
        }
    }
}

impl Database {
    /// An empty store: no users, no tokens, an empty index, identifiers
    /// starting at zero.
    pub fn new() -> (r: Database)
        ensures
            r@.wf(),
            r@.users =~= Seq::<UserModel>::empty(),
            r@.tokens =~= Seq::<(u64, TokenModel)>::empty(),
            r@.queue =~= Seq::<((u64, u64), u64)>::empty(),
            r@.next_id == 0,
    {
        Database {
            users: Vec::new(),
            tokens: Vec::new(),
            update_queue: Vec::new(),
            next_id: 0,
            generation: 0,
        }
    }

    /// How many tokens the store currently tracks.
    pub fn get_token_count(&self) -> (r: usize)
        ensures
            r == self@.tokens.len(),
    {
        self.tokens.len()
    }

    /// The user records, for inspection.
    pub fn users(&self) -> (r: &Vec<User>)
        ensures
            users_view(r@) == self@.users,
    {
        &self.users
    }

    /// The token records, keyed by identifier, for inspection.
    pub fn tokens(&self) -> (r: &Vec<(TokenId, Token)>)
        ensures
            tokens_view(r@) == self@.tokens,
    {
        &self.tokens
    }

    /// The expiry index, in key order, for inspection.
    pub fn update_queue(&self) -> (r: &Vec<(UpdateQueueKey, UpdateQueueItem)>)
        ensures
            queue_view(r@) == self@.queue,
    {
        &self.update_queue
    }

    fn find_user(&self, email: &Email) -> (r: Option<usize>)
        ensures
            match r {
                Some(i) => i < self@.users.len() && self@.users[i as int].email == email@,
                None => !self@.has_user(email@),
            },
    {
        let mut i: usize = 0;
        while i < self.users.len()
            invariant
                i <= self.users.len(),
                forall|j: int| 0 <= j < i ==> users_view(self.users@)[j].email != email@,
            decreases self.users.len() - i,
        {
            if self.users[i].email.same_as(email) {
                return Some(i);
            }
            i += 1;
        }
        None
    }

    fn find_token(&self, id: u64) -> (r: Option<usize>)
        ensures
            match r {
                Some(i) => i < self@.tokens.len() && self@.tokens[i as int].0 == id,
                None => !self@.has_token(id),
            },
    {
        let mut i: usize = 0;
        while i < self.tokens.len()
            invariant
                i <= self.tokens.len(),
                forall|j: int| 0 <= j < i ==> tokens_view(self.tokens@)[j].0 != id,
            decreases self.tokens.len() - i,
        {
            if self.tokens[i].0.value() == id {
                return Some(i);
            }
            i += 1;
        }
        None
    }
}

/// A store operation's failure: the store cannot assign another token
/// identifier (the 64-bit space is exhausted).
#[derive(Clone, Copy, Debug, PartialEq, Eq, Structural)]
pub enum StoreError {
    IdSpaceExhausted,
}

/// A subscription to expiry-index changes: a cursor over the store's
/// generation counter. Polling it says whether the index changed since the
/// last poll; many changes collapse into one signal (latest-value-wins).
pub struct QueueWatch {
    seen: u64,
}

impl View for QueueWatch {
    type V = u64;

    closed spec fn view(&self) -> u64 {
        self.seen
    }
}

/// The generation counter after one more index mutation.
pub open spec fn bump(g: u64) -> u64 {
    if g == u64::MAX {
        0
    } else {
        (g + 1) as u64
    }
}

/// The index sequence with an entry for `key` inserted at its sorted
/// position (the entry's value is the identifier the key encodes).
pub open spec fn queue_insert_model(q: Seq<((u64, u64), u64)>, key: (u64, u64)) -> Seq<
    ((u64, u64), u64),
>
    decreases q.len(),
{
    if q.len() == 0 {
        seq![(key, key.1)]
    } else if pair_lt(key, q[0].0) {
        seq![(key, key.1)] + q
    } else {
        seq![q[0]] + queue_insert_model(q.drop_first(), key)
    }
}

impl StoreModel {
    /// Whether some token listed by `user` holds `ms` as its primary secret.
    pub open spec fn user_has_session(self, user: UserModel, ms: Seq<char>) -> bool {
        exists|k: int|
            0 <= k < user.tokens.len() && self.token_at(#[trigger] user.tokens[k]).moodle_session
                == ms
    }

    /// The position, in a user's token list, of the token with the smallest
    /// creation timestamp; the earliest position wins ties.
    pub open spec fn oldest_pos(self, ts: Seq<u64>) -> int
        decreases ts.len(),
    {
        if ts.len() <= 1 {
            0
        } else {
            let p = self.oldest_pos(ts.drop_last());
            if self.token_at(ts[p]).added <= self.token_at(ts.last()).added {
                p
            } else {
                ts.len() - 1
            }
        }
    }
}

/// The store after removing token `id`: its record, its index entry, and
/// its place in the owner's list all go in one step.
pub open spec fn remove_token_model(m: StoreModel, id: u64) -> StoreModel
    recommends
        m.wf(),
        m.has_token(id),
{
    let ti = m.token_index(id);
    let tok = m.tokens[ti].1;
    let ui = m.user_index(tok.owner);
    let user = m.users[ui];
    let ki = choose|k: int| 0 <= k < user.tokens.len() && user.tokens[k] == id;
    StoreModel {
        users: m.users.update(ui, UserModel { email: user.email, tokens: user.tokens.remove(ki) }),
        tokens: m.tokens.remove(ti),
        queue: m.queue.remove(m.queue_index((tok.deadline, id))),
        next_id: m.next_id,
        generation: bump(m.generation),
    }
}

/// The store after moving token `id` to a new deadline: the old index
/// entry leaves, a new one keyed by the new deadline enters, and the
/// token's deadline field follows, in one step.
pub open spec fn extend_token_model(m: StoreModel, id: u64, new_deadline: u64) -> StoreModel
    recommends
        m.wf(),
        m.has_token(id),
{
    let ti = m.token_index(id);
    let tok = m.tokens[ti].1;
    StoreModel {
        users: m.users,
        tokens: m.tokens.update(
            ti,
            (
                id,
                TokenModel {
                    owner: tok.owner,
                    moodle_session: tok.moodle_session,
                    csrf_session: tok.csrf_session,
                    deadline: new_deadline,
                    added: tok.added,
                },
            ),
        ),
        queue: queue_insert_model(
            m.queue.remove(m.queue_index((tok.deadline, id))),
            (new_deadline, id),
        ),
        next_id: m.next_id,
        generation: bump(m.generation),
    }
}

/// The store after giving user `u` a fresh token: deadline at the epoch
/// (already due, so the scheduler refreshes it at once), created `now`.
pub open spec fn insert_token_model(
    m: StoreModel,
    u: int,
    ms: Seq<char>,
    cs: Seq<char>,
    now: u64,
) -> StoreModel
    recommends
        m.wf(),
        0 <= u < m.users.len(),
        m.next_id < u64::MAX,
{
    let user = m.users[u];
    let id = m.next_id;
    let tok = TokenModel {
        owner: user.email,
        moodle_session: ms,
        csrf_session: cs,
        deadline: 0,
        added: now,
    };
    StoreModel {
        users: m.users.update(u, UserModel { email: user.email, tokens: user.tokens.push(id) }),
        tokens: m.tokens.push((id, tok)),
        queue: queue_insert_model(m.queue, (0, id)),
        next_id: (m.next_id + 1) as u64,
        generation: bump(m.generation),
    }
}

/// The store model with a fresh, empty user record for `email`.
pub open spec fn push_user_model(m: StoreModel, email: Seq<char>) -> StoreModel {
    StoreModel {
        users: m.users.push(UserModel { email, tokens: Seq::empty() }),
        tokens: m.tokens,
        queue: m.queue,
        next_id: m.next_id,
        generation: m.generation,
    }
}

/// What registering a credential does to the store: create the user if
/// absent; do nothing if the user already holds the primary secret; evict
/// the oldest token first if the user is at quota; then add the new token,
/// already due.
pub open spec fn register_model(
    m: StoreModel,
    email: Seq<char>,
    ms: Seq<char>,
    cs: Seq<char>,
    now: u64,
) -> StoreModel
    recommends
        m.wf(),
        m.next_id < u64::MAX,
{
    let m1 = if m.has_user(email) {
        m
    } else {
        push_user_model(m, email)
    };
    let u = m1.user_index(email);
    if m1.user_has_session(m1.users[u], ms) {
        m
    } else {
        let m2 = if m1.users[u].tokens.len() >= MAX_TOKENS_PER_USER {
            remove_token_model(m1, m1.users[u].tokens[m1.oldest_pos(m1.users[u].tokens)])
        } else {
            m1
        };
        insert_token_model(m2, m2.user_index(email), ms, cs, now)
    }
}

/// Under distinct identities, an index with a matching identity is the
/// user index.
pub proof fn lemma_user_index_unique(m: StoreModel, email: Seq<char>, u: int)
    requires
        m.users_distinct(),
        0 <= u < m.users.len(),
        m.users[u].email == email,
    ensures
        m.has_user(email),
        m.user_index(email) == u,
{
    assert(m.has_user(email));
    let w = m.user_index(email);
    if w != u {
        if w < u {
            assert(m.users[w].email != m.users[u].email);
        } else {
            assert(m.users[u].email != m.users[w].email);
        }
    }
}

/// Under distinct identifiers, an index with a matching identifier is the
/// token index.
pub proof fn lemma_token_index_unique(m: StoreModel, id: u64, i: int)
    requires
        m.tokens_distinct(),
        0 <= i < m.tokens.len(),
        m.tokens[i].0 == id,
    ensures
        m.has_token(id),
        m.token_index(id) == i,
        m.token_at(id) == m.tokens[i].1,
{
    assert(seq_has_token(m.tokens, id));
    let w = m.token_index(id);
    if w != i {
        if w < i {
            assert(m.tokens[w].0 != m.tokens[i].0);
        } else {
            assert(m.tokens[i].0 != m.tokens[w].0);
        }
    }
    let c = choose|k: int| 0 <= k < m.tokens.len() && m.tokens[k].0 == id;
    if c != i {
        if c < i {
            assert(m.tokens[c].0 != m.tokens[i].0);
        } else {
            assert(m.tokens[i].0 != m.tokens[c].0);
        }
    }
}

/// A sorted index has distinct keys, so a position with a matching key is
/// the queue index.
pub proof fn lemma_queue_index_unique(m: StoreModel, key: (u64, u64), q: int)
    requires
        m.queue_sorted(),
        0 <= q < m.queue.len(),
        m.queue[q].0 == key,
    ensures
        m.queue_has(key),
        m.queue_index(key) == q,
{
    assert(m.queue_has(key));
    let w = m.queue_index(key);
    if w != q {
        if w < q {
            assert(pair_lt(m.queue[w].0, m.queue[q].0));
        } else {
            assert(pair_lt(m.queue[q].0, m.queue[w].0));
        }
    }
}

impl Database {
    /// The expiry-index change stream: a pure observer of index mutations,
    /// used by the scheduler to interrupt its sleep.
    pub fn subscribe_queue_updates(&self) -> (w: QueueWatch)
        ensures
            w@ == self@.generation,
    {
        QueueWatch { seen: self.generation }
    }

    /// Whether the index changed since this watch last looked; the watch
    /// catches up in the same call, so a burst of changes reads as one.
    pub fn poll_queue_updates(&self, w: &mut QueueWatch) -> (changed: bool)
        ensures
            changed == (old(w)@ != self@.generation),
            final(w)@ == self@.generation,
    {
        let changed = w.seen != self.generation;
        w.seen = self.generation;
        changed
    }

    /// The soonest-expiring token: the one whose index entry has the least
    /// (deadline, identifier) key, together with its identifier. Empty only
    /// when the index (hence the store) is empty.
    pub fn get_most_urgent_token(&self) -> (r: Option<(TokenId, Token)>)
        requires
            self@.wf(),
        ensures
            match r {
                None => self@.queue.len() == 0 && self@.tokens.len() == 0,
                Some(p) => {
                    &&& self@.queue.len() > 0
                    &&& self@.queue[0].0 == (p.1@.deadline, p.0@)
                    &&& self@.has_token(p.0@)
                    &&& self@.token_at(p.0@) == p.1@
                    &&& forall|q: int|
                        0 <= q < self@.queue.len() ==> !pair_lt(
                            (#[trigger] self@.queue[q]).0,
                            (p.1@.deadline, p.0@),
                        )
                },
            },
    {
        let r = first_live_entry(&self.update_queue, &self.tokens);
        proof {
            match r {
                None => {
                    if self@.queue.len() > 0 {
                        assert(!seq_has_token(tokens_view(self.tokens@), self@.queue[0].0.1));
                        assert(self@.has_token(self@.queue[0].0.1));
                    }
                    if self@.tokens.len() > 0 {
                        assert(self@.queue_has((self@.tokens[0].1.deadline, self@.tokens[0].0)));
                    }
                },
                Some(ref p) => {
                    let q = choose|q: int|
                        0 <= q < queue_view(self.update_queue@).len() && (#[trigger] queue_view(
                            self.update_queue@,
                        )[q]).0.1 == p.0@ && seq_has_token(tokens_view(self.tokens@), p.0@)
                            && p.1@ == seq_token_at(tokens_view(self.tokens@), p.0@) && (forall|
                            j: int,
                        |
                            0 <= j < q ==> !seq_has_token(
                                tokens_view(self.tokens@),
                                (#[trigger] queue_view(self.update_queue@)[j]).0.1,
                            ));
                    if q != 0 {
                        assert(!seq_has_token(tokens_view(self.tokens@), self@.queue[0].0.1));
                        assert(self@.has_token(self@.queue[0].0.1));
                    }
                    assert(self@.queue[0].0.1 == p.0@);
                    assert(self@.token_at(p.0@).deadline == self@.queue[0].0.0);
                    assert(self@.queue[0].0 == (p.1@.deadline, p.0@));
                    assert forall|j: int| 0 <= j < self@.queue.len() implies !pair_lt(
                        (#[trigger] self@.queue[j]).0,
                        (p.1@.deadline, p.0@),
                    ) by {
                        if j > 0 {
                            assert(pair_lt(self@.queue[0].0, self@.queue[j].0));
                        }
                    }
                },
            }
        }
        r
    }
}

proof fn lemma_tokens_view_remove(t: Seq<(TokenId, Token)>, i: int)
    requires
        0 <= i < t.len(),
    ensures
        tokens_view(t.remove(i)) =~= tokens_view(t).remove(i),
{
    t.remove_ensures(i);
    tokens_view(t).remove_ensures(i);
}

proof fn lemma_queue_view_remove(q: Seq<(UpdateQueueKey, UpdateQueueItem)>, i: int)
    requires
        0 <= i < q.len(),
    ensures
        queue_view(q.remove(i)) =~= queue_view(q).remove(i),
{
    q.remove_ensures(i);
    queue_view(q).remove_ensures(i);
}

proof fn lemma_queue_view_insert(
    q: Seq<(UpdateQueueKey, UpdateQueueItem)>,
    i: int,
    e: (UpdateQueueKey, UpdateQueueItem),
)
    requires
        0 <= i <= q.len(),
    ensures
        queue_view(q.insert(i, e)) =~= queue_view(q).insert(i, (e.0@, e.1@)),
{
    q.insert_ensures(i, e);
    queue_view(q).insert_ensures(i, (e.0@, e.1@));
}

/// Removing a user record and putting a changed one back in its place is
/// an update of that position.
proof fn lemma_users_view_update(u: Seq<User>, i: int, x: User)
    requires
        0 <= i < u.len(),
    ensures
        users_view(u.remove(i).insert(i, x)) =~= users_view(u).update(i, x@),
{
    u.remove_ensures(i);
    u.remove(i).insert_ensures(i, x);
}

/// Whether an index sequence holds an entry under `key`.
pub open spec fn queue_seq_has(q: Seq<((u64, u64), u64)>, key: (u64, u64)) -> bool {
    exists|i: int| 0 <= i < q.len() && q[i].0 == key
}

/// Inserting a fresh identifier's entry into a sorted, well-valued index
/// keeps it sorted and well-valued, adds exactly that key, and keeps
/// identifiers distinct.
pub proof fn lemma_queue_insert_model_props(q: Seq<((u64, u64), u64)>, key: (u64, u64))
    requires
        queue_sorted_seq(q),
        forall|i: int| 0 <= i < q.len() ==> (#[trigger] q[i]).0.1 != key.1,
        forall|i: int| 0 <= i < q.len() ==> (#[trigger] q[i]).1 == q[i].0.1,
        forall|a: int, b: int| 0 <= a < b < q.len() ==> (#[trigger] q[a]).0.1 != (#[trigger] q[b]).0.1,
    ensures
        ({
            let r = queue_insert_model(q, key);
            &&& r.len() == q.len() + 1
            &&& queue_sorted_seq(r)
            &&& forall|i: int| 0 <= i < r.len() ==> (#[trigger] r[i]).1 == r[i].0.1
            &&& forall|a: int, b: int|
                0 <= a < b < r.len() ==> (#[trigger] r[a]).0.1 != (#[trigger] r[b]).0.1
            &&& forall|k2: (u64, u64)| queue_seq_has(r, k2) <==> (k2 == key || queue_seq_has(q, k2))
            &&& forall|i: int|
                0 <= i < r.len() ==> (#[trigger] r[i]) == (key, key.1) || q.contains(r[i])
        }),
    decreases q.len(),
{
    let e = (key, key.1);
    let r = queue_insert_model(q, key);
    if q.len() == 0 {
        assert(r =~= seq![e]);
        assert(r[0] == e);
        assert forall|k2: (u64, u64)| queue_seq_has(r, k2) implies (k2 == key || queue_seq_has(
            q,
            k2,
        )) by {
            let i = choose|i: int| 0 <= i < r.len() && r[i].0 == k2;
            assert(r[i] == e);
        }
        assert(queue_seq_has(r, key)) by {
            assert(r[0].0 == key);
        }
    } else if pair_lt(key, q[0].0) {
        assert(r =~= seq![e] + q);
        assert(r[0] == e);
        assert forall|i: int| 0 < i < r.len() implies r[i] == q[i - 1] by {}
        assert(queue_sorted_seq(r)) by {
            assert forall|a: int, b: int| 0 <= a < b < r.len() implies pair_lt(
                (r[a]).0,
                (r[b]).0,
            ) by {
                if a == 0 {
                    if b > 1 {
                        assert(pair_lt(q[0].0, q[b - 1].0));
                    }
                } else {
                    assert(pair_lt(q[a - 1].0, q[b - 1].0));
                }
            }
        }
        assert forall|k2: (u64, u64)| queue_seq_has(r, k2) implies (k2 == key || queue_seq_has(
            q,
            k2,
        )) by {
            let i = choose|i: int| 0 <= i < r.len() && r[i].0 == k2;
            if i > 0 {
                assert(q[i - 1].0 == k2);
            }
        }
        assert forall|k2: (u64, u64)| (k2 == key || queue_seq_has(q, k2)) implies queue_seq_has(
            r,
            k2,
        ) by {
            if k2 == key {
                assert(r[0].0 == key);
            } else {
                let i = choose|i: int| 0 <= i < q.len() && q[i].0 == k2;
                assert(r[i + 1].0 == k2);
            }
        }
        assert forall|i: int| 0 <= i < r.len() implies (r[i]) == e || q.contains(r[i]) by {
            if i > 0 {
                assert(r[i] == q[i - 1]);
            }
        }
    } else {
        let qt = q.drop_first();
        assert(q[0].0 != key);
        assert(pair_lt(q[0].0, key));
        assert forall|i: int| 0 <= i < qt.len() implies qt[i] == q[i + 1] by {}
        lemma_queue_insert_model_props(qt, key);
        let rt = queue_insert_model(qt, key);
        assert(r =~= seq![q[0]] + rt);
        assert(r[0] == q[0]);
        assert forall|i: int| 0 < i < r.len() implies r[i] == rt[i - 1] by {}
        assert(queue_sorted_seq(r)) by {
            assert forall|a: int, b: int| 0 <= a < b < r.len() implies pair_lt(
                (r[a]).0,
                (r[b]).0,
            ) by {
                if a == 0 {
                    assert(r[b] == rt[b - 1]);
                    if rt[b - 1] == e {
                        assert(pair_lt(q[0].0, key));
                    } else {
                        assert(qt.contains(rt[b - 1]));
                        let j = choose|j: int| 0 <= j < qt.len() && qt[j] == rt[b - 1];
                        assert(qt[j] == q[j + 1]);
                        assert(pair_lt(q[0].0, q[j + 1].0));
                    }
                } else {
                    assert(pair_lt(rt[a - 1].0, rt[b - 1].0));
                }
            }
        }
        assert forall|i: int| 0 <= i < r.len() implies (r[i]).1 == r[i].0.1 by {
            if i > 0 {
                assert(r[i] == rt[i - 1]);
            }
        }
        assert forall|a: int, b: int| 0 <= a < b < r.len() implies (r[a]).0.1 != (r[b]).0.1 by {
            if a == 0 {
                assert(r[b] == rt[b - 1]);
                if rt[b - 1] == e {
                    assert(q[0].0.1 != key.1);
                } else {
                    assert(qt.contains(rt[b - 1]));
                    let j = choose|j: int| 0 <= j < qt.len() && qt[j] == rt[b - 1];
                    assert(qt[j] == q[j + 1]);
                    assert(q[0].0.1 != q[j + 1].0.1);
                }
            } else {
                assert(rt[a - 1].0.1 != rt[b - 1].0.1);
            }
        }
        assert forall|k2: (u64, u64)| queue_seq_has(r, k2) implies (k2 == key || queue_seq_has(
            q,
            k2,
        )) by {
            let i = choose|i: int| 0 <= i < r.len() && r[i].0 == k2;
            if i == 0 {
                assert(q[0].0 == k2);
            } else {
                assert(rt[i - 1].0 == k2);
                assert(queue_seq_has(rt, k2));
                if k2 != key {
                    let j = choose|j: int| 0 <= j < qt.len() && qt[j].0 == k2;
                    assert(q[j + 1].0 == k2);
                }
            }
        }
        assert forall|k2: (u64, u64)| (k2 == key || queue_seq_has(q, k2)) implies queue_seq_has(
            r,
            k2,
        ) by {
            if k2 == key {
                assert(queue_seq_has(rt, key));
                let j = choose|j: int| 0 <= j < rt.len() && rt[j].0 == key;
                assert(r[j + 1].0 == key);
            } else {
                let i = choose|i: int| 0 <= i < q.len() && q[i].0 == k2;
                if i == 0 {
                    assert(r[0].0 == k2);
                } else {
                    assert(qt[i - 1].0 == k2);
                    assert(queue_seq_has(qt, k2));
                    assert(queue_seq_has(rt, k2));
                    let j = choose|j: int| 0 <= j < rt.len() && rt[j].0 == k2;
                    assert(r[j + 1].0 == k2);
                }
            }
        }
        assert forall|i: int| 0 <= i < r.len() implies (r[i]) == e || q.contains(r[i]) by {
            if i == 0 {
                assert(q.contains(q[0]));
            } else {
                assert(r[i] == rt[i - 1]);
                if rt[i - 1] != e {
                    assert(qt.contains(rt[i - 1]));
                    let j = choose|j: int| 0 <= j < qt.len() && qt[j] == rt[i - 1];
                    assert(q[j + 1] == rt[i - 1]);
                }
            }
        }
    }
}

/// When every entry below `p` is under the key and every entry from `p` on
/// is above it, the sorted insertion lands exactly at `p`.
pub proof fn lemma_queue_insert_model_at(q: Seq<((u64, u64), u64)>, key: (u64, u64), p: int)
    requires
        0 <= p <= q.len(),
        forall|j: int| 0 <= j < p ==> pair_lt((#[trigger] q[j]).0, key),
        forall|j: int| p <= j < q.len() ==> pair_lt(key, (#[trigger] q[j]).0),
    ensures
        queue_insert_model(q, key) =~= q.insert(p, (key, key.1)),
    decreases q.len(),
{
    let e = (key, key.1);
    q.insert_ensures(p, e);
    if q.len() == 0 {
        assert(queue_insert_model(q, key) =~= q.insert(0, e));
    } else if pair_lt(key, q[0].0) {
        assert(p == 0);
        assert(queue_insert_model(q, key) =~= q.insert(0, e));
    } else {
        assert(p != 0);
        let qt = q.drop_first();
        assert forall|i: int| 0 <= i < qt.len() implies qt[i] == q[i + 1] by {}
        lemma_queue_insert_model_at(qt, key, p - 1);
        qt.insert_ensures(p - 1, e);
        assert(queue_insert_model(q, key) =~= seq![q[0]] + qt.insert(p - 1, e));
        assert forall|i: int| 0 <= i < q.insert(p, e).len() implies (seq![q[0]] + qt.insert(
            p - 1,
            e,
        ))[i] == q.insert(p, e)[i] by {
            if i > 0 {
                if i < p {
                    assert(qt.insert(p - 1, e)[i - 1] == qt[i - 1]);
                } else if i == p {
                    assert(qt.insert(p - 1, e)[i - 1] == e);
                } else {
                    assert(qt.insert(p - 1, e)[i - 1] == qt[i - 2]);
                }
            }
        }
    }
}

/// Moving a token's deadline rekeys its single index entry and nothing
/// else: users are untouched, every other token and entry survives.
pub proof fn lemma_extend_model_wf(m: StoreModel, id: u64, nd: u64)
    requires
        m.wf(),
        m.has_token(id),
    ensures
        ({
            let r = extend_token_model(m, id, nd);
            &&& r.wf()
            &&& r.users == m.users
            &&& r.next_id == m.next_id
            &&& r.tokens.len() == m.tokens.len()
            &&& r.queue.len() == m.queue.len()
            &&& r.has_token(id)
            &&& r.token_at(id) == TokenModel {
                owner: m.token_at(id).owner,
                moodle_session: m.token_at(id).moodle_session,
                csrf_session: m.token_at(id).csrf_session,
                deadline: nd,
                added: m.token_at(id).added,
            }
            &&& forall|x: u64|
                x != id ==> ((r.has_token(x) <==> m.has_token(x)) && (m.has_token(x)
                    ==> r.token_at(x) == m.token_at(x)))
            &&& forall|key: (u64, u64)|
                r.queue_has(key) <==> (key == (nd, id) || (m.queue_has(key) && key != (
                m.token_at(id).deadline,
                id,
                )))
        }),
{
    let ti = m.token_index(id);
    assert(0 <= ti < m.tokens.len() && m.tokens[ti].0 == id);
    let tok = m.tokens[ti].1;
    assert(m.token_at(id) == tok) by {
        lemma_token_index_unique(m, id, ti);
    }
    assert(m.queue_has((tok.deadline, id)));
    let qi = m.queue_index((tok.deadline, id));
    assert(0 <= qi < m.queue.len() && m.queue[qi].0 == (tok.deadline, id));
    let r = extend_token_model(m, id, nd);
    let tok2 = TokenModel {
        owner: tok.owner,
        moodle_session: tok.moodle_session,
        csrf_session: tok.csrf_session,
        deadline: nd,
        added: tok.added,
    };
    let q1 = m.queue.remove(qi);
    m.queue.remove_ensures(qi);
    assert(r.tokens == m.tokens.update(ti, (id, tok2)));
    assert(r.queue == queue_insert_model(q1, (nd, id)));

    // every q1 entry maps back into m's queue, skipping qi
    assert forall|i: int| 0 <= i < q1.len() implies #[trigger] q1[i] == m.queue[if i < qi {
        i
    } else {
        i + 1
    }] by {}
    assert(queue_sorted_seq(q1)) by {
        assert forall|a: int, b: int| 0 <= a < b < q1.len() implies pair_lt(
            (q1[a]).0,
            (q1[b]).0,
        ) by {
            let ma: int = if a < qi {
                a
            } else {
                a + 1
            };
            let mb: int = if b < qi {
                b
            } else {
                b + 1
            };
            assert(pair_lt(m.queue[ma].0, m.queue[mb].0));
        }
    }
    assert forall|i: int| 0 <= i < q1.len() implies (#[trigger] q1[i]).0.1 != id by {
        let mi: int = if i < qi {
            i
        } else {
            i + 1
        };
        assert(q1[i] == m.queue[mi]);
        if mi < qi {
            assert(m.queue[mi].0.1 != m.queue[qi].0.1);
        } else {
            assert(m.queue[qi].0.1 != m.queue[mi].0.1);
        }
    }
    assert forall|i: int| 0 <= i < q1.len() implies (#[trigger] q1[i]).1 == q1[i].0.1 by {
        let mi: int = if i < qi {
            i
        } else {
            i + 1
        };
        assert(q1[i] == m.queue[mi]);
        assert(m.queue[mi].1 == m.queue[mi].0.1);
    }
    assert forall|a: int, b: int| 0 <= a < b < q1.len() implies (#[trigger] q1[a]).0.1 != (
    #[trigger] q1[b]).0.1 by {
        let ma: int = if a < qi {
            a
        } else {
            a + 1
        };
        let mb: int = if b < qi {
            b
        } else {
            b + 1
        };
        assert(q1[a] == m.queue[ma]);
        assert(q1[b] == m.queue[mb]);
        assert(m.queue[ma].0.1 != m.queue[mb].0.1);
    }
    // membership of q1 at key level
    assert forall|k2: (u64, u64)| queue_seq_has(q1, k2) <==> (m.queue_has(k2) && k2 != (
    tok.deadline,
    id,
    )) by {
        if queue_seq_has(q1, k2) {
            let i = choose|i: int| 0 <= i < q1.len() && q1[i].0 == k2;
            let mi: int = if i < qi {
                i
            } else {
                i + 1
            };
            assert(q1[i] == m.queue[mi]);
            assert(m.queue_has(k2));
            assert(q1[i].0.1 != id);
        }
        if m.queue_has(k2) && k2 != (tok.deadline, id) {
            let i = m.queue_index(k2);
            assert(0 <= i < m.queue.len() && m.queue[i].0 == k2);
            assert(i != qi);
            let rj: int = if i < qi {
                i
            } else {
                i - 1
            };
            assert(q1[rj] == m.queue[i]);
            assert(queue_seq_has(q1, k2));
        }
    }
    lemma_queue_insert_model_props(q1, (nd, id));

    // token facts
    assert(r.tokens_distinct()) by {
        assert forall|i: int, j: int| 0 <= i < j < r.tokens.len() implies (r.tokens[i]).0 != (
        r.tokens[j]).0 by {
            assert(r.tokens[i].0 == m.tokens[i].0);
            assert(r.tokens[j].0 == m.tokens[j].0);
            assert(m.tokens[i].0 != m.tokens[j].0);
        }
    }
    assert(r.has_token(id)) by {
        assert(r.tokens[ti].0 == id);
    }
    assert(r.token_at(id) == tok2) by {
        lemma_token_index_unique(r, id, ti);
    }
    assert forall|x: u64| x != id implies ((r.has_token(x) <==> m.has_token(x)) && (m.has_token(x)
        ==> r.token_at(x) == m.token_at(x))) by {
        if m.has_token(x) {
            let i = m.token_index(x);
            assert(0 <= i < m.tokens.len() && m.tokens[i].0 == x);
            assert(i != ti);
            assert(r.tokens[i] == m.tokens[i]);
            lemma_token_index_unique(r, x, i);
            lemma_token_index_unique(m, x, i);
        }
        if r.has_token(x) {
            let i = choose|k: int| 0 <= k < r.tokens.len() && r.tokens[k].0 == x;
            assert(r.tokens[i].0 == m.tokens[i].0);
            assert(seq_has_token(m.tokens, x));
        }
    }
    // wf conjuncts
    assert(r.users_distinct());
    assert(r.ids_fresh()) by {
        assert forall|i: int| 0 <= i < r.tokens.len() implies (r.tokens[i]).0 < r.next_id by {
            assert(r.tokens[i].0 == m.tokens[i].0);
            assert(m.tokens[i].0 < m.next_id);
        }
    }
    assert(r.users_wf()) by {
        assert forall|u: int| 0 <= u < r.users.len() implies r.user_list_wf(r.users[u]) by {
            assert(m.user_list_wf(m.users[u]));
            let list = m.users[u].tokens;
            assert forall|k: int| 0 <= k < list.len() implies r.has_token(#[trigger] list[k])
                && r.token_at(list[k]).owner == m.users[u].email by {
                assert(m.has_token(list[k]) && m.token_at(list[k]).owner == m.users[u].email);
                if list[k] == id {
                    assert(r.token_at(id) == tok2);
                } else {
                    assert(r.token_at(list[k]) == m.token_at(list[k]));
                }
            }
            assert forall|a: int, b: int| 0 <= a < b < list.len() implies r.token_at(
                list[a],
            ).moodle_session != r.token_at(list[b]).moodle_session by {
                assert(m.has_token(list[a]) && m.has_token(list[b]));
                assert(m.token_at(list[a]).moodle_session != m.token_at(list[b]).moodle_session);
                if list[a] == id {
                    assert(r.token_at(id).moodle_session == tok.moodle_session);
                } else {
                    assert(r.token_at(list[a]) == m.token_at(list[a]));
                }
                if list[b] == id {
                    assert(r.token_at(id).moodle_session == tok.moodle_session);
                } else {
                    assert(r.token_at(list[b]) == m.token_at(list[b]));
                }
            }
            assert(r.user_list_wf(r.users[u]));
        }
    }
    assert(r.tokens_owned()) by {
        assert forall|i: int| 0 <= i < r.tokens.len() implies {
            let owner = (#[trigger] r.tokens[i]).1.owner;
            r.has_user(owner) && r.users[r.user_index(owner)].tokens.contains(r.tokens[i].0)
        } by {
            if i == ti {
                assert(r.tokens[i] == (id, tok2));
                assert(tok2.owner == tok.owner);
                assert(m.has_user(tok.owner) && m.users[m.user_index(tok.owner)].tokens.contains(
                    id,
                ));
            } else {
                assert(r.tokens[i] == m.tokens[i]);
                assert(m.has_user(m.tokens[i].1.owner) && m.users[m.user_index(
                    m.tokens[i].1.owner,
                )].tokens.contains(m.tokens[i].0));
            }
        }
    }
    assert(r.queue_values_wf()) by {
        assert forall|q: int| 0 <= q < r.queue.len() implies (r.queue[q]).1 == r.queue[q].0.1 by {}
    }
    assert(r.queue_sorted());
    assert(r.queue_ids_distinct());
    assert(r.queue_backed()) by {
        assert forall|q: int| 0 <= q < r.queue.len() implies r.has_token((r.queue[q]).0.1)
            && r.token_at(r.queue[q].0.1).deadline == r.queue[q].0.0 by {
            if r.queue[q] == ((nd, id), id) {
                assert(r.token_at(id).deadline == nd);
            } else {
                assert(q1.contains(r.queue[q]));
                let j = choose|j: int| 0 <= j < q1.len() && q1[j] == r.queue[q];
                let x = q1[j].0.1;
                assert(x != id);
                let mj: int = if j < qi {
                    j
                } else {
                    j + 1
                };
                assert(q1[j] == m.queue[mj]);
                assert(m.has_token(m.queue[mj].0.1) && m.token_at(m.queue[mj].0.1).deadline
                    == m.queue[mj].0.0);
                assert(r.token_at(x) == m.token_at(x));
            }
        }
    }
    assert(r.queue_complete()) by {
        assert forall|i: int| 0 <= i < r.tokens.len() implies r.queue_has(
            ((r.tokens[i]).1.deadline, r.tokens[i].0),
        ) by {
            if i == ti {
                assert(r.tokens[i] == (id, tok2));
                assert(queue_seq_has(r.queue, (nd, id)));
            } else {
                assert(r.tokens[i] == m.tokens[i]);
                let x = m.tokens[i].0;
                assert(x != id) by {
                    assert(m.tokens[ti].0 == id);
                    if i < ti {
                        assert(m.tokens[i].0 != m.tokens[ti].0);
                    } else {
                        assert(m.tokens[ti].0 != m.tokens[i].0);
                    }
                }
                assert(m.queue_has((m.tokens[i].1.deadline, x)));
                assert((m.tokens[i].1.deadline, x) != (tok.deadline, id));
                assert(queue_seq_has(q1, (m.tokens[i].1.deadline, x)));
                assert(queue_seq_has(r.queue, (m.tokens[i].1.deadline, x)));
            }
        }
    }
    // queue membership for the ensures
    assert forall|key: (u64, u64)| r.queue_has(key) <==> (key == (nd, id) || (m.queue_has(key)
        && key != (tok.deadline, id))) by {
        assert(r.queue_has(key) <==> queue_seq_has(r.queue, key));
        assert(queue_seq_has(r.queue, key) <==> (key == (nd, id) || queue_seq_has(q1, key)));
    }
    assert(r.wf());
}

/// Removing a token leaves a well-formed store; the other tokens, the
/// other index entries, and every user identity survive unchanged.
pub proof fn lemma_remove_model_wf(m: StoreModel, id: u64)
    requires
        m.wf(),
        m.has_token(id),
    ensures
        ({
            let r = remove_token_model(m, id);
            &&& r.wf()
            &&& r.users.len() == m.users.len()
            &&& r.tokens.len() == m.tokens.len() - 1
            &&& r.queue.len() == m.queue.len() - 1
            &&& r.next_id == m.next_id
            &&& !r.has_token(id)
            &&& forall|x: u64|
                x != id ==> ((r.has_token(x) <==> m.has_token(x)) && (m.has_token(x)
                    ==> r.token_at(x) == m.token_at(x)))
            &&& forall|key: (u64, u64)|
                r.queue_has(key) <==> (m.queue_has(key) && key != (m.token_at(id).deadline, id))
            &&& forall|u: int| 0 <= u < m.users.len() ==> r.users[u].email == m.users[u].email
        }),
{
    let ti = m.token_index(id);
    assert(0 <= ti < m.tokens.len() && m.tokens[ti].0 == id);
    let tok = m.tokens[ti].1;
    assert(m.has_user(tok.owner) && m.users[m.user_index(tok.owner)].tokens.contains(id));
    let ui = m.user_index(tok.owner);
    assert(0 <= ui < m.users.len() && m.users[ui].email == tok.owner);
    let user = m.users[ui];
    let ki = choose|k: int| 0 <= k < user.tokens.len() && user.tokens[k] == id;
    assert(0 <= ki < user.tokens.len() && user.tokens[ki] == id);
    assert(m.queue_has((tok.deadline, id)));
    let qi = m.queue_index((tok.deadline, id));
    assert(0 <= qi < m.queue.len() && m.queue[qi].0 == (tok.deadline, id));
    assert(m.token_at(id) == tok) by {
        lemma_token_index_unique(m, id, ti);
    }
    let r = remove_token_model(m, id);
    m.tokens.remove_ensures(ti);
    m.queue.remove_ensures(qi);
    user.tokens.remove_ensures(ki);
    let user2 = UserModel { email: user.email, tokens: user.tokens.remove(ki) };
    assert(r.users == m.users.update(ui, user2));
    assert(r.tokens == m.tokens.remove(ti));
    assert(r.queue == m.queue.remove(qi));

    // identities survive
    assert forall|u: int| 0 <= u < m.users.len() implies r.users[u].email == m.users[u].email by {
        if u != ui {
            assert(r.users[u] == m.users[u]);
        }
    }
    // only the owner's list changes, and only by dropping position ki
    assert forall|u: int| 0 <= u < m.users.len() && u != ui implies r.users[u]
        == m.users[u] by {}

    assert(r.users_distinct()) by {
        assert forall|i: int, j: int| 0 <= i < j < r.users.len() implies (r.users[i]).email != (
        r.users[j]).email by {
            assert(m.users[i].email != m.users[j].email);
        }
    }
    assert(r.tokens_distinct()) by {
        assert forall|i: int, j: int| 0 <= i < j < r.tokens.len() implies (r.tokens[i]).0 != (
        r.tokens[j]).0 by {
            let mi: int = if i < ti {
                i
            } else {
                i + 1
            };
            let mj: int = if j < ti {
                j
            } else {
                j + 1
            };
            assert(r.tokens[i] == m.tokens[mi]);
            assert(r.tokens[j] == m.tokens[mj]);
            assert(m.tokens[mi].0 != m.tokens[mj].0);
        }
    }
    assert(r.ids_fresh()) by {
        assert forall|i: int| 0 <= i < r.tokens.len() implies (r.tokens[i]).0 < r.next_id by {
            let mi: int = if i < ti {
                i
            } else {
                i + 1
            };
            assert(r.tokens[i] == m.tokens[mi]);
        }
    }
    // token membership and content, for identifiers other than the removed
    assert(!seq_has_token(r.tokens, id)) by {
        if seq_has_token(r.tokens, id) {
            let i = choose|i: int| 0 <= i < r.tokens.len() && r.tokens[i].0 == id;
            let mi: int = if i < ti {
                i
            } else {
                i + 1
            };
            assert(r.tokens[i] == m.tokens[mi]);
            assert(mi != ti);
            if mi < ti {
                assert(m.tokens[mi].0 != m.tokens[ti].0);
            } else {
                assert(m.tokens[ti].0 != m.tokens[mi].0);
            }
        }
    }
    assert forall|x: u64| x != id implies ((r.has_token(x) <==> m.has_token(x)) && (m.has_token(x)
        ==> r.token_at(x) == m.token_at(x))) by {
        if m.has_token(x) {
            let i = m.token_index(x);
            assert(0 <= i < m.tokens.len() && m.tokens[i].0 == x);
            assert(i != ti);
            let rj: int = if i < ti {
                i
            } else {
                i - 1
            };
            assert(r.tokens[rj] == m.tokens[i]);
            assert(seq_has_token(r.tokens, x));
            // the record is the same on both sides
            let c = choose|k: int| 0 <= k < r.tokens.len() && r.tokens[k].0 == x;
            let mc: int = if c < ti {
                c
            } else {
                c + 1
            };
            assert(r.tokens[c] == m.tokens[mc]);
            if mc != i {
                if mc < i {
                    assert(m.tokens[mc].0 != m.tokens[i].0);
                } else {
                    assert(m.tokens[i].0 != m.tokens[mc].0);
                }
            }
            let cm = choose|k: int| 0 <= k < m.tokens.len() && m.tokens[k].0 == x;
            if cm != i {
                if cm < i {
                    assert(m.tokens[cm].0 != m.tokens[i].0);
                } else {
                    assert(m.tokens[i].0 != m.tokens[cm].0);
                }
            }
            assert(r.token_at(x) == m.token_at(x));
        }
        if r.has_token(x) {
            let i = choose|k: int| 0 <= k < r.tokens.len() && r.tokens[k].0 == x;
            let mi: int = if i < ti {
                i
            } else {
                i + 1
            };
            assert(r.tokens[i] == m.tokens[mi]);
            assert(seq_has_token(m.tokens, x));
        }
    }
    // queue membership
    assert forall|key: (u64, u64)| r.queue_has(key) <==> (m.queue_has(key) && key != (
    tok.deadline,
    id,
    )) by {
        if r.queue_has(key) {
            let i = choose|k: int| 0 <= k < r.queue.len() && r.queue[k].0 == key;
            let mi: int = if i < qi {
                i
            } else {
                i + 1
            };
            assert(r.queue[i] == m.queue[mi]);
            assert(m.queue_has(key));
            if key == (tok.deadline, id) {
                assert(mi != qi);
                if mi < qi {
                    assert(pair_lt(m.queue[mi].0, m.queue[qi].0));
                } else {
                    assert(pair_lt(m.queue[qi].0, m.queue[mi].0));
                }
            }
        }
        if m.queue_has(key) && key != (tok.deadline, id) {
            let i = m.queue_index(key);
            assert(0 <= i < m.queue.len() && m.queue[i].0 == key);
            assert(i != qi);
            let rj: int = if i < qi {
                i
            } else {
                i - 1
            };
            assert(r.queue[rj] == m.queue[i]);
            assert(r.queue_has(key));
        }
    }
    assert(r.queue_values_wf()) by {
        assert forall|q: int| 0 <= q < r.queue.len() implies (r.queue[q]).1 == r.queue[q].0.1 by {
            let mq: int = if q < qi {
                q
            } else {
                q + 1
            };
            assert(r.queue[q] == m.queue[mq]);
            assert(m.queue[mq].1 == m.queue[mq].0.1);
        }
    }
    assert(r.queue_sorted()) by {
        assert forall|a: int, b: int| 0 <= a < b < r.queue.len() implies pair_lt(
            (r.queue[a]).0,
            (r.queue[b]).0,
        ) by {
            let ma: int = if a < qi {
                a
            } else {
                a + 1
            };
            let mb: int = if b < qi {
                b
            } else {
                b + 1
            };
            assert(r.queue[a] == m.queue[ma]);
            assert(r.queue[b] == m.queue[mb]);
            assert(pair_lt(m.queue[ma].0, m.queue[mb].0));
        }
    }
    assert(r.queue_ids_distinct()) by {
        assert forall|a: int, b: int| 0 <= a < b < r.queue.len() implies (r.queue[a]).0.1 != (
        r.queue[b]).0.1 by {
            let ma: int = if a < qi {
                a
            } else {
                a + 1
            };
            let mb: int = if b < qi {
                b
            } else {
                b + 1
            };
            assert(r.queue[a] == m.queue[ma]);
            assert(r.queue[b] == m.queue[mb]);
            assert(m.queue[ma].0.1 != m.queue[mb].0.1);
        }
    }
    assert(r.queue_backed()) by {
        assert forall|q: int| 0 <= q < r.queue.len() implies r.has_token((r.queue[q]).0.1)
            && r.token_at(r.queue[q].0.1).deadline == r.queue[q].0.0 by {
            let mq: int = if q < qi {
                q
            } else {
                q + 1
            };
            assert(r.queue[q] == m.queue[mq]);
            assert(m.has_token(m.queue[mq].0.1) && m.token_at(m.queue[mq].0.1).deadline
                == m.queue[mq].0.0);
            assert(mq != qi);
            // the entry's identifier is not the removed one
            if mq < qi {
                assert(m.queue[mq].0.1 != m.queue[qi].0.1);
            } else {
                assert(m.queue[qi].0.1 != m.queue[mq].0.1);
            }
            assert(m.queue[qi].0.1 == id);
        }
    }
    assert(r.queue_complete()) by {
        assert forall|i: int| 0 <= i < r.tokens.len() implies r.queue_has(
            ((r.tokens[i]).1.deadline, r.tokens[i].0),
        ) by {
            let mi: int = if i < ti {
                i
            } else {
                i + 1
            };
            assert(r.tokens[i] == m.tokens[mi]);
            assert(m.queue_has((m.tokens[mi].1.deadline, m.tokens[mi].0)));
            assert(mi != ti);
            if mi < ti {
                assert(m.tokens[mi].0 != m.tokens[ti].0);
            } else {
                assert(m.tokens[ti].0 != m.tokens[mi].0);
            }
            assert((m.tokens[mi].1.deadline, m.tokens[mi].0) != (tok.deadline, id));
        }
    }
    // user lists
    assert(r.users_wf()) by {
        assert forall|u: int| 0 <= u < r.users.len() implies r.user_list_wf(r.users[u]) by {
            assert(m.user_list_wf(m.users[u]));
            let old_list = m.users[u].tokens;
            if u != ui {
                assert(r.users[u] == m.users[u]);
                // no listed token is the removed one: its owner is another user
                assert forall|k: int| 0 <= k < old_list.len() implies old_list[k] != id by {
                    assert(m.has_token(old_list[k]) && m.token_at(old_list[k]).owner
                        == m.users[u].email);
                    if old_list[k] == id {
                        if u < ui {
                            assert(m.users[u].email != m.users[ui].email);
                        } else {
                            assert(m.users[ui].email != m.users[u].email);
                        }
                    }
                }
                assert forall|k: int| 0 <= k < old_list.len() implies r.has_token(
                    #[trigger] old_list[k],
                ) && r.token_at(old_list[k]).owner == m.users[u].email by {
                    assert(m.has_token(old_list[k]));
                }
                assert forall|a: int, b: int| 0 <= a < b < old_list.len() implies r.token_at(
                    old_list[a],
                ).moodle_session != r.token_at(old_list[b]).moodle_session by {
                    assert(m.has_token(old_list[a]) && m.has_token(old_list[b]));
                    assert(m.token_at(old_list[a]).moodle_session != m.token_at(
                        old_list[b],
                    ).moodle_session);
                }
                assert(r.user_list_wf(r.users[u]));
            } else {
                let nl = user.tokens.remove(ki);
                assert(r.users[u] == user2);
                assert forall|k: int| 0 <= k < nl.len() implies nl[k] != id && (exists|k2: int|
                    0 <= k2 < old_list.len() && old_list[k2] == #[trigger] nl[k] && k2 != ki) by {
                    let mk: int = if k < ki {
                        k
                    } else {
                        k + 1
                    };
                    assert(nl[k] == old_list[mk]);
                    assert(mk != ki);
                    if mk < ki {
                        assert(old_list[mk] != old_list[ki]);
                    } else {
                        assert(old_list[ki] != old_list[mk]);
                    }
                }
                assert(nl.len() <= MAX_TOKENS_PER_USER);
                assert forall|a: int, b: int| 0 <= a < b < nl.len() implies nl[a] != nl[b] by {
                    let ma: int = if a < ki {
                        a
                    } else {
                        a + 1
                    };
                    let mb: int = if b < ki {
                        b
                    } else {
                        b + 1
                    };
                    assert(nl[a] == old_list[ma]);
                    assert(nl[b] == old_list[mb]);
                    assert(old_list[ma] != old_list[mb]);
                }
                assert forall|k: int| 0 <= k < nl.len() implies r.has_token(#[trigger] nl[k])
                    && r.token_at(nl[k]).owner == user2.email by {
                    let mk: int = if k < ki {
                        k
                    } else {
                        k + 1
                    };
                    assert(nl[k] == old_list[mk]);
                    assert(m.has_token(old_list[mk]) && m.token_at(old_list[mk]).owner
                        == user.email);
                    if mk < ki {
                        assert(old_list[mk] != old_list[ki]);
                    } else if mk > ki {
                        assert(old_list[ki] != old_list[mk]);
                    }
                }
                assert forall|a: int, b: int| 0 <= a < b < nl.len() implies r.token_at(
                    nl[a],
                ).moodle_session != r.token_at(nl[b]).moodle_session by {
                    let ma: int = if a < ki {
                        a
                    } else {
                        a + 1
                    };
                    let mb: int = if b < ki {
                        b
                    } else {
                        b + 1
                    };
                    assert(nl[a] == old_list[ma]);
                    assert(nl[b] == old_list[mb]);
                    assert(m.token_at(old_list[ma]).moodle_session != m.token_at(
                        old_list[mb],
                    ).moodle_session);
                    if ma < ki {
                        assert(old_list[ma] != old_list[ki]);
                    } else if ma > ki {
                        assert(old_list[ki] != old_list[ma]);
                    }
                    if mb < ki {
                        assert(old_list[mb] != old_list[ki]);
                    } else if mb > ki {
                        assert(old_list[ki] != old_list[mb]);
                    }
                }
                assert(r.user_list_wf(r.users[u]));
            }
        }
    }
    // ownership
    assert(r.tokens_owned()) by {
        assert forall|i: int| 0 <= i < r.tokens.len() implies {
            let owner = (#[trigger] r.tokens[i]).1.owner;
            r.has_user(owner) && r.users[r.user_index(owner)].tokens.contains(r.tokens[i].0)
        } by {
            let mi: int = if i < ti {
                i
            } else {
                i + 1
            };
            assert(r.tokens[i] == m.tokens[mi]);
            let owner = m.tokens[mi].1.owner;
            let x = m.tokens[mi].0;
            assert(m.has_user(owner) && m.users[m.user_index(owner)].tokens.contains(x));
            let mu = m.user_index(owner);
            assert(0 <= mu < m.users.len() && m.users[mu].email == owner);
            assert(r.users[mu].email == owner);
            assert(r.has_user(owner));
            assert(r.users_distinct());
            lemma_user_index_unique(r, owner, mu);
            assert(mi != ti);
            if mi < ti {
                assert(m.tokens[mi].0 != m.tokens[ti].0);
            } else {
                assert(m.tokens[ti].0 != m.tokens[mi].0);
            }
            if mu != ui {
                assert(r.users[mu] == m.users[mu]);
            } else {
                let k2 = choose|k2: int|
                    0 <= k2 < user.tokens.len() && user.tokens[k2] == x;
                assert(0 <= k2 < user.tokens.len() && user.tokens[k2] == x);
                assert(k2 != ki);
                let rk: int = if k2 < ki {
                    k2
                } else {
                    k2 - 1
                };
                assert(user.tokens.remove(ki)[rk] == user.tokens[k2]);
                assert(r.users[mu].tokens.contains(x));
            }
        }
    }
    assert(r.wf());
}

impl Database {
    fn queue_find(&self, deadline: u64, id: u64) -> (r: Option<usize>)
        ensures
            match r {
                Some(q) => q < self@.queue.len() && self@.queue[q as int].0 == (deadline, id),
                None => !self@.queue_has((deadline, id)),
            },
    {
        let mut q: usize = 0;
        while q < self.update_queue.len()
            invariant
                q <= self.update_queue.len(),
                forall|j: int|
                    0 <= j < q ==> (#[trigger] queue_view(self.update_queue@)[j]).0 != (
                    deadline,
                    id,
                ),
            decreases self.update_queue.len() - q,
        {
            proof {
                assert(queue_view(self.update_queue@)[q as int] == (
                    self.update_queue@[q as int].0@,
                    self.update_queue@[q as int].1@,
                ));
            }
            let d = self.update_queue[q].0.deadline_millis();
            let t = self.update_queue[q].0.token_id().value();
            if d == deadline && t == id {
                proof {
                    assert(queue_view(self.update_queue@)[q as int].0 =~= (deadline, id));
                }
                return Some(q);
            }
            proof {
                assert(queue_view(self.update_queue@)[q as int].0 != (deadline, id));
            }
            q += 1;
        }
        None
    }

    fn queue_insert_pos(&self, deadline: u64, id: u64) -> (p: usize)
        requires
            self@.queue_sorted(),
        ensures
            p <= self@.queue.len(),
            forall|j: int| 0 <= j < p ==> pair_lt((#[trigger] self@.queue[j]).0, (deadline, id)),
            forall|j: int|
                p <= j < self@.queue.len() ==> !pair_lt(
                    (#[trigger] self@.queue[j]).0,
                    (deadline, id),
                ),
    {
        let mut p: usize = 0;
        while p < self.update_queue.len()
            invariant
                p <= self.update_queue.len(),
                self@.queue_sorted(),
                forall|j: int|
                    0 <= j < p ==> pair_lt((#[trigger] queue_view(self.update_queue@)[j]).0, (
                    deadline,
                    id,
                    )),
            decreases self.update_queue.len() - p,
        {
            proof {
                assert(queue_view(self.update_queue@)[p as int] == (
                    self.update_queue@[p as int].0@,
                    self.update_queue@[p as int].1@,
                ));
            }
            let d = self.update_queue[p].0.deadline_millis();
            let t = self.update_queue[p].0.token_id().value();
            if !(d < deadline || (d == deadline && t < id)) {
                proof {
                    assert(!pair_lt(self@.queue[p as int].0, (deadline, id)));
                    assert forall|j: int| p <= j < self@.queue.len() implies !pair_lt(
                        (#[trigger] self@.queue[j]).0,
                        (deadline, id),
                    ) by {
                        if j > p {
                            assert(pair_lt(self@.queue[p as int].0, self@.queue[j].0));
                        }
                    }
                }
                return p;
            }
            p += 1;
        }
        p
    }

    /// Move the token to a new deadline, `now + new_time_left`
    /// (milliseconds): its old index entry leaves, a new one keyed by the
    /// new deadline enters, and the deadline field follows, in one step. A
    /// no-op when the identifier no longer resolves: the caller's view may
    /// be stale by design.
    pub fn update_token(&mut self, token_id: TokenId, new_time_left: u64, now: u64) -> (r: Result<
        (),
        StoreError,
    >)
        requires
            old(self)@.wf(),
            now + new_time_left <= u64::MAX,
        ensures
            r is Ok,
            final(self)@.wf(),
            !old(self)@.has_token(token_id@) ==> final(self)@ =~= old(self)@,
            old(self)@.has_token(token_id@) ==> final(self)@ =~= extend_token_model(
                old(self)@,
                token_id@,
                (now + new_time_left) as u64,
            ),
    {
        let idv = token_id.value();
        let ti = match self.find_token(idv) {
            None => {
                return Ok(());
            },
            Some(i) => i,
        };
        proof {
            lemma_token_index_unique(self@, idv, ti as int);
            assert(tokens_view(self.tokens@)[ti as int] == (
                self.tokens@[ti as int].0@,
                self.tokens@[ti as int].1@,
            ));
        }
        let old_deadline = self.tokens[ti].1.deadline;
        let new_deadline = now + new_time_left;
        let qi = match self.queue_find(old_deadline, idv) {
            Some(q) => q,
            None => {
                proof {
                    assert(self@.queue_has((old_deadline, idv)));
                    assert(false);
                }
                0
            },
        };
        proof {
            lemma_queue_index_unique(self@, (old_deadline, idv), qi as int);
        }
        let ghost pre = self@;
        self.update_queue.remove(qi);
        proof {
            lemma_queue_view_remove(old(self).update_queue@, qi as int);
            assert(self@.queue =~= pre.queue.remove(qi as int));
            // the shrunken index is still sorted, and the identifier is gone from it
            pre.queue.remove_ensures(qi as int);
            assert forall|a: int, b: int| 0 <= a < b < self@.queue.len() implies pair_lt(
                (#[trigger] self@.queue[a]).0,
                (#[trigger] self@.queue[b]).0,
            ) by {
                let ma: int = if a < qi {
                    a
                } else {
                    a + 1
                };
                let mb: int = if b < qi {
                    b
                } else {
                    b + 1
                };
                assert(self@.queue[a] == pre.queue[ma]);
                assert(self@.queue[b] == pre.queue[mb]);
                assert(pair_lt(pre.queue[ma].0, pre.queue[mb].0));
            }
            assert forall|j: int| 0 <= j < self@.queue.len() implies (
            #[trigger] self@.queue[j]).0.1 != idv by {
                let mj: int = if j < qi {
                    j
                } else {
                    j + 1
                };
                assert(self@.queue[j] == pre.queue[mj]);
                if mj < qi {
                    assert(pre.queue[mj].0.1 != pre.queue[qi as int].0.1);
                } else if mj > qi {
                    assert(pre.queue[qi as int].0.1 != pre.queue[mj].0.1);
                }
            }
        }
        let p = self.queue_insert_pos(new_deadline, idv);
        let ghost mid = self@;
        let new_key = UpdateQueueKey::new(new_deadline, token_id);
        self.update_queue.insert(p, (new_key, UpdateQueueItem { token: token_id }));
        proof {
            lemma_queue_view_insert(
                old(self).update_queue@.remove(qi as int),
                p as int,
                (new_key, UpdateQueueItem { token: token_id }),
            );
            assert(self@.queue =~= mid.queue.insert(p as int, ((new_deadline, idv), idv)));
            assert forall|j: int| p <= j < mid.queue.len() implies pair_lt(
                (new_deadline, idv),
                (#[trigger] mid.queue[j]).0,
            ) by {
                assert(!pair_lt(mid.queue[j].0, (new_deadline, idv)));
                assert(mid.queue[j].0.1 != idv);
            }
            lemma_queue_insert_model_at(mid.queue, (new_deadline, idv), p as int);
            assert(self@.queue =~= queue_insert_model(
                pre.queue.remove(pre.queue_index((old_deadline, idv))),
                (new_deadline, idv),
            ));
        }
        let mut entry = self.tokens.remove(ti);
        entry.1.deadline = new_deadline;
        self.tokens.insert(ti, entry);
        self.generation = if self.generation == u64::MAX {
            0
        } else {
            self.generation + 1
        };
        proof {
            let m = pre;
            let r = extend_token_model(m, idv, new_deadline);
            assert(m.token_index(idv) == ti);
            assert(m.tokens[ti as int].1.deadline == old_deadline);
            old(self).tokens@.remove_ensures(ti as int);
            old(self).tokens@.remove(ti as int).insert_ensures(ti as int, entry);
            tokens_view(old(self).tokens@).remove_ensures(ti as int);
            assert(self@.tokens =~= tokens_view(old(self).tokens@).update(
                ti as int,
                (idv, entry.1@),
            )) by {
                assert forall|j: int| 0 <= j < self@.tokens.len() implies tokens_view(
                    self.tokens@,
                )[j] == tokens_view(old(self).tokens@).update(ti as int, (idv, entry.1@))[j] by {
                    assert(tokens_view(self.tokens@)[j] == (
                        self.tokens@[j].0@,
                        self.tokens@[j].1@,
                    ));
                    if j != ti {
                        assert(self.tokens@[j] == old(self).tokens@[j]);
                        assert(tokens_view(old(self).tokens@)[j] == (
                            old(self).tokens@[j].0@,
                            old(self).tokens@[j].1@,
                        ));
                    }
                }
            }
            assert(self@.tokens =~= r.tokens);
            assert(self@.queue =~= r.queue);
            assert(self@.users =~= r.users);
            assert(self@ =~= r);
            lemma_extend_model_wf(m, idv, new_deadline);
        }
        Ok(())
    }

    /// Register a credential for an identity: create the user record if
    /// the identity is unseen; do nothing if the user already holds this
    /// primary secret; evict the token with the smallest creation
    /// timestamp first when the user is at quota; then store the new token
    /// with its deadline at the epoch — already due, so the scheduler
    /// picks it up for an immediate refresh. All of it is one atomic step.
    /// Fails only when the identifier space is exhausted.
    #[verifier::rlimit(100)]
    pub fn add_token(
        &mut self,
        email: &Email,
        moodle_session: &str,
        csrf_session: &str,
        now: u64,
    ) -> (r: Result<(), StoreError>)
        requires
            old(self)@.wf(),
        ensures
            final(self)@.wf(),
            ({
                let m = old(self)@;
                let noop = m.has_user(email@) && m.user_has_session(
                    m.users[m.user_index(email@)],
                    moodle_session@,
                );
                &&& (noop ==> r is Ok && final(self)@ =~= m)
                &&& (!noop && m.next_id == u64::MAX ==> r == Err::<(), StoreError>(
                    StoreError::IdSpaceExhausted,
                ) && final(self)@ =~= m)
                &&& (!noop && m.next_id < u64::MAX ==> r is Ok && final(self)@ =~= register_model(
                    m,
                    email@,
                    moodle_session@,
                    csrf_session@,
                    now,
                ))
            }),
    {
        let ms = String::from_str(moodle_session);
        let cs = String::from_str(csrf_session);
        let pre_user = self.find_user(email);
        if let Some(ui0) = pre_user {
            proof {
                lemma_user_index_unique(self@, email@, ui0 as int);
            }
            let n = self.users[ui0].tokens.len();
            proof {
                assert(self@.users[ui0 as int] == self.users@[ui0 as int]@);
            }
            let mut k: usize = 0;
            while k < n
                invariant
                    self@ == old(self)@,
                    self@.wf(),
                    ui0 < self@.users.len(),
                    self@.users[ui0 as int].email == email@,
                    self@.users[ui0 as int] == self.users@[ui0 as int]@,
                    n == self@.users[ui0 as int].tokens.len(),
                    ms@ == moodle_session@,
                    k <= n,
                    forall|j: int|
                        0 <= j < k ==> self@.token_at(
                            #[trigger] self@.users[ui0 as int].tokens[j],
                        ).moodle_session != ms@,
                decreases n - k,
            {
                proof {
                    assert(self@.users[ui0 as int].tokens[k as int] == self.users@[ui0 as int].tokens@[k as int]@);
                }
                let tid = self.users[ui0].tokens[k].value();
                proof {
                    assert(self@.has_token(tid));
                }
                let tix = match self.find_token(tid) {
                    Some(i) => i,
                    None => {
                        proof {
                            assert(false);
                        }
                        0
                    },
                };
                proof {
                    lemma_token_index_unique(self@, tid, tix as int);
                    assert(self@.tokens[tix as int] == (
                        self.tokens@[tix as int].0@,
                        self.tokens@[tix as int].1@,
                    ));
                }
                if self.tokens[tix].1.moodle_session == ms {
                    proof {
                        assert(self@.token_at(self@.users[ui0 as int].tokens[k as int]).moodle_session
                            == ms@);
                        assert(self@.user_has_session(self@.users[ui0 as int], ms@));
                    }
                    return Ok(());
                }
                k += 1;
            }
            proof {
                if self@.user_has_session(self@.users[ui0 as int], ms@) {
                    let j = choose|j: int|
                        0 <= j < self@.users[ui0 as int].tokens.len() && self@.token_at(
                            #[trigger] self@.users[ui0 as int].tokens[j],
                        ).moodle_session == ms@;
                    assert(false);
                }
            }
        }
        if self.next_id == u64::MAX {
            return Err(StoreError::IdSpaceExhausted);
        }
        let ui = match pre_user {
            Some(u) => u,
            None => {
                let ghost m0 = self@;
                let ghost uv0 = self.users@;
                self.users.push(User { email: Email(email.0.clone()), tokens: Vec::new() });
                proof {
                    let pushed = self.users@[uv0.len() as int]@;
                    assert(pushed.tokens =~= Seq::<u64>::empty());
                    assert(pushed =~= UserModel { email: email@, tokens: Seq::empty() });
                    assert forall|j: int| 0 <= j < users_view(self.users@).len() implies
                        users_view(self.users@)[j] == m0.users.push(
                        UserModel { email: email@, tokens: Seq::empty() },
                    )[j] by {
                        assert(users_view(self.users@)[j] == self.users@[j]@);
                        if j < uv0.len() {
                            assert(self.users@[j] == uv0[j]);
                            assert(m0.users[j] == uv0[j]@);
                        }
                    }
                    assert(users_view(self.users@) =~= m0.users.push(
                        UserModel { email: email@, tokens: Seq::empty() },
                    ));
                    assert(self@ =~= push_user_model(m0, email@));
                    lemma_push_user_wf(m0, email@);
                }
                self.users.len() - 1
            },
        };
        proof {
            lemma_user_index_unique(self@, email@, ui as int);
        }
        let ghost m1 = self@;
        let at_cap = self.users[ui].tokens.len() >= MAX_TOKENS_PER_USER;
        if at_cap {
            let ghost list = m1.users[ui as int].tokens;
            let list_len = self.users[ui].tokens.len();
            proof {
                assert(self@.users[ui as int] == self.users@[ui as int]@);
                assert(list[0] == self.users@[ui as int].tokens@[0]@);
            }
            let first_tid = self.users[ui].tokens[0].value();
            let fi = match self.find_token(first_tid) {
                Some(i) => i,
                None => {
                    proof {
                        assert(false);
                    }
                    0
                },
            };
            proof {
                lemma_token_index_unique(self@, first_tid, fi as int);
                assert(self@.tokens[fi as int] == (
                    self.tokens@[fi as int].0@,
                    self.tokens@[fi as int].1@,
                ));
            }
            let mut best: usize = 0;
            let mut best_added: u64 = self.tokens[fi].1.added;
            proof {
                assert(list.take(1).len() == 1);
                assert(m1.oldest_pos(list.take(1)) == 0);
                assert(list.take(1)[0] == list[0]);
            }
            let mut k: usize = 1;
            while k < list_len
                invariant
                    self@ == m1,
                    m1.wf(),
                    ui < m1.users.len(),
                    list == m1.users[ui as int].tokens,
                    self@.users[ui as int] == self.users@[ui as int]@,
                    list_len == list.len(),
                    1 <= k <= list_len,
                    best < k,
                    best_added == m1.token_at(list[best as int]).added,
                    best as int == m1.oldest_pos(list.take(k as int)),
                decreases list_len - k,
            {
                proof {
                    assert(list[k as int] == self.users@[ui as int].tokens@[k as int]@);
                }
                let tid = self.users[ui].tokens[k].value();
                proof {
                    assert(self@.has_token(tid));
                }
                let tix = match self.find_token(tid) {
                    Some(i) => i,
                    None => {
                        proof {
                            assert(false);
                        }
                        0
                    },
                };
                proof {
                    lemma_token_index_unique(self@, tid, tix as int);
                    assert(self@.tokens[tix as int] == (
                        self.tokens@[tix as int].0@,
                        self.tokens@[tix as int].1@,
                    ));
                }
                let a = self.tokens[tix].1.added;
                proof {
                    assert(a == m1.token_at(list[k as int]).added);
                    let tk1 = list.take(k + 1);
                    assert(tk1.drop_last() =~= list.take(k as int));
                    assert(tk1.last() == list[k as int]);
                    assert(tk1[m1.oldest_pos(list.take(k as int))] == list[m1.oldest_pos(
                        list.take(k as int),
                    )]) by {
                        lemma_oldest_pos(m1, list.take(k as int));
                    }
                }
                if a < best_added {
                    best = k;
                    best_added = a;
                }
                k += 1;
            }
            proof {
                assert(list.take(list_len as int) =~= list);
            }
            let victim = self.users[ui].tokens[best];
            proof {
                assert(victim@ == list[best as int]);
                assert(self@.has_token(victim@));
            }
            let _ = self.remove_token(victim);
            proof {
                assert(self@ =~= remove_token_model(m1, list[best as int]));
                lemma_remove_model_wf(m1, list[best as int]);
            }
        }
        let ghost m2 = self@;
        proof {
            assert(m2.wf());
            assert(m2.users[ui as int].email == email@) by {
                if at_cap {
                    lemma_remove_model_wf(m1, m1.users[ui as int].tokens[m1.oldest_pos(
                        m1.users[ui as int].tokens,
                    )]);
                }
            }
            lemma_user_index_unique(m2, email@, ui as int);
            assert(m2.next_id == m1.next_id && m1.next_id == old(self)@.next_id);
        }
        let id = TokenId::from_u64(self.next_id);
        let idv = self.next_id;
        let ghost uvec = self.users@;
        let mut user = self.users.remove(ui);
        user.tokens.push(id);
        proof {
            lemma_users_view_update(uvec, ui as int, user);
            assert(user@.tokens =~= m2.users[ui as int].tokens.push(idv)) by {
                assert(uvec[ui as int]@ == m2.users[ui as int]);
            }
        }
        self.users.insert(ui, user);
        let new_token = Token {
            owner: Email(email.0.clone()),
            moodle_session: ms,
            csrf_session: cs,
            deadline: 0,
            added: now,
        };
        let ghost tvec = self.tokens@;
        let ghost ntm = new_token@;
        self.tokens.push((id, new_token));
        proof {
            assert forall|j: int| 0 <= j < tokens_view(self.tokens@).len() implies tokens_view(
                self.tokens@,
            )[j] == tokens_view(tvec).push((idv, ntm))[j] by {
                assert(tokens_view(self.tokens@)[j] == (self.tokens@[j].0@, self.tokens@[j].1@));
                if j < tvec.len() {
                    assert(self.tokens@[j] == tvec[j]);
                    assert(tokens_view(tvec)[j] == (tvec[j].0@, tvec[j].1@));
                }
            }
            assert(tokens_view(self.tokens@) =~= tokens_view(tvec).push((idv, ntm)));
        }
        let p = self.queue_insert_pos(0, idv);
        let new_entry = (UpdateQueueKey::new(0, id), UpdateQueueItem { token: id });
        let ghost qvec = self.update_queue@;
        self.update_queue.insert(p, new_entry);
        self.next_id = self.next_id + 1;
        self.generation = if self.generation == u64::MAX {
            0
        } else {
            self.generation + 1
        };
        proof {
            let user0 = m2.users[ui as int];
            // the vector surgery is the model's update-and-push
            assert(self@.users =~= m2.users.update(
                ui as int,
                UserModel { email: user0.email, tokens: user0.tokens.push(idv) },
            )) by {
                assert(users_view(uvec) == m2.users);
                assert(user@ =~= UserModel { email: user0.email, tokens: user0.tokens.push(idv) });
            }
            assert(self@.tokens =~= m2.tokens.push(
                (
                    idv,
                    TokenModel {
                        owner: email@,
                        moodle_session: moodle_session@,
                        csrf_session: csrf_session@,
                        deadline: 0,
                        added: now,
                    },
                ),
            )) by {
                assert(tokens_view(tvec) == m2.tokens);
                assert(ntm =~= TokenModel {
                    owner: email@,
                    moodle_session: moodle_session@,
                    csrf_session: csrf_session@,
                    deadline: 0,
                    added: now,
                });
            }
            // the index entry lands at its sorted position
            assert forall|j: int| p <= j < m2.queue.len() implies pair_lt(
                (0u64, idv),
                (#[trigger] m2.queue[j]).0,
            ) by {
                assert(!pair_lt(m2.queue[j].0, (0u64, idv)));
                assert(m2.has_token(m2.queue[j].0.1));
                let i = choose|i: int|
                    0 <= i < m2.tokens.len() && m2.tokens[i].0 == m2.queue[j].0.1;
                assert(m2.tokens[i].0 < m2.next_id);
            }
            lemma_queue_insert_model_at(m2.queue, (0u64, idv), p as int);
            lemma_queue_view_insert(qvec, p as int, new_entry);
            assert(self@.queue =~= queue_insert_model(m2.queue, (0u64, idv)));
            assert(self@ =~= insert_token_model(m2, ui as int, moodle_session@, csrf_session@, now))
                by {
                assert(user0.email == email@);
            }
            // quota and secret preconditions of the insertion
            assert(m2.users[ui as int].tokens.len() < MAX_TOKENS_PER_USER && !m2.user_has_session(
                m2.users[ui as int],
                moodle_session@,
            )) by {
                let m = old(self)@;
                if at_cap {
                    let list = m1.users[ui as int].tokens;
                    let op = m1.oldest_pos(list);
                    lemma_oldest_pos(m1, list);
                    let victim = list[op];
                    lemma_remove_model_wf(m1, victim);
                    let ki = choose|w: int| 0 <= w < list.len() && list[w] == victim;
                    assert(0 <= ki < list.len() && list[ki] == victim);
                    assert(m2.users[ui as int].tokens =~= list.remove(ki));
                    list.remove_ensures(ki);
                    assert(m2.users[ui as int].tokens.len() < MAX_TOKENS_PER_USER);
                    if m2.user_has_session(m2.users[ui as int], moodle_session@) {
                        let j = choose|j: int|
                            0 <= j < m2.users[ui as int].tokens.len() && m2.token_at(
                                #[trigger] m2.users[ui as int].tokens[j],
                            ).moodle_session == moodle_session@;
                        let mj: int = if j < ki {
                            j
                        } else {
                            j + 1
                        };
                        assert(m2.users[ui as int].tokens[j] == list[mj]);
                        assert(mj != ki);
                        if mj < ki {
                            assert(list[mj] != list[ki]);
                        } else {
                            assert(list[ki] != list[mj]);
                        }
                        assert(m2.token_at(list[mj]) == m1.token_at(list[mj]));
                        assert(m1.token_at(list[mj]).moodle_session != moodle_session@) by {
                            assert(m1 == m);
                        }
                        assert(false);
                    }
                } else {
                    if m2.user_has_session(m2.users[ui as int], moodle_session@) {
                        let j = choose|j: int|
                            0 <= j < m2.users[ui as int].tokens.len() && m2.token_at(
                                #[trigger] m2.users[ui as int].tokens[j],
                            ).moodle_session == moodle_session@;
                        if m.has_user(email@) {
                            assert(m2 == m);
                            assert(false);
                        } else {
                            assert(m2.users[ui as int].tokens.len() == 0);
                            assert(false);
                        }
                    }
                }
            }
            lemma_insert_model_wf(m2, ui as int, moodle_session@, csrf_session@, now);
            // and the whole step is the registration transform
            let m = old(self)@;
            assert(self@ =~= register_model(m, email@, moodle_session@, csrf_session@, now)) by {
                let mm1 = if m.has_user(email@) {
                    m
                } else {
                    push_user_model(m, email@)
                };
                assert(mm1 == m1);
                assert(mm1.user_index(email@) == ui as int);
                assert(!mm1.user_has_session(mm1.users[ui as int], moodle_session@)) by {
                    if m.has_user(email@) {
                        assert(mm1 == m);
                    } else {
                        assert(mm1.users[ui as int].tokens.len() == 0);
                        if mm1.user_has_session(mm1.users[ui as int], moodle_session@) {
                            let j = choose|j: int|
                                0 <= j < mm1.users[ui as int].tokens.len() && mm1.token_at(
                                    #[trigger] mm1.users[ui as int].tokens[j],
                                ).moodle_session == moodle_session@;
                            assert(false);
                        }
                    }
                }
                let mm2 = if mm1.users[ui as int].tokens.len() >= MAX_TOKENS_PER_USER {
                    remove_token_model(
                        mm1,
                        mm1.users[ui as int].tokens[mm1.oldest_pos(mm1.users[ui as int].tokens)],
                    )
                } else {
                    mm1
                };
                assert(mm2 == m2);
                assert(mm2.user_index(email@) == ui as int);
            }
        }
        Ok(())
    }

    /// Remove the token, its expiry-index entry, and its place in the
    /// owning user's list, in one step. A no-op when the identifier no
    /// longer resolves: the caller's view may be stale by design.
    pub fn remove_token(&mut self, token_id: TokenId) -> (r: Result<(), StoreError>)
        requires
            old(self)@.wf(),
        ensures
            r is Ok,
            final(self)@.wf(),
            !old(self)@.has_token(token_id@) ==> final(self)@ =~= old(self)@,
            old(self)@.has_token(token_id@) ==> final(self)@ =~= remove_token_model(
                old(self)@,
                token_id@,
            ),
    {
        let idv = token_id.value();
        let ti = match self.find_token(idv) {
            None => {
                return Ok(());
            },
            Some(i) => i,
        };
        proof {
            lemma_token_index_unique(self@, idv, ti as int);
            assert(tokens_view(self.tokens@)[ti as int] == (
                self.tokens@[ti as int].0@,
                self.tokens@[ti as int].1@,
            ));
        }
        let deadline = self.tokens[ti].1.deadline;
        let owner = Email(self.tokens[ti].1.owner.0.clone());
        proof {
            assert(owner@ == self@.tokens[ti as int].1.owner);
            assert(self@.has_user(owner@) && self@.users[self@.user_index(owner@)].tokens.contains(
                idv,
            ));
        }
        let ui = match self.find_user(&owner) {
            Some(u) => u,
            None => {
                proof {
                    assert(false);
                }
                0
            },
        };
        proof {
            lemma_user_index_unique(self@, owner@, ui as int);
        }
        let mut ki: usize = 0;
        let mut found: bool = false;
        while ki < self.users[ui].tokens.len() && !found
            invariant
                old(self) == self,
                old(self)@.wf(),
                ui < self.users.len(),
                self@.users[ui as int] == users_view(self.users@)[ui as int],
                users_view(self.users@)[ui as int].tokens == self.users@[ui as int].tokens@.map_values(
                    |t: TokenId| t@,
                ),
                ki <= self.users@[ui as int].tokens.len(),
                found ==> ki < self.users@[ui as int].tokens.len()
                    && self@.users[ui as int].tokens[ki as int] == idv,
                !found ==> forall|j: int|
                    0 <= j < ki ==> self@.users[ui as int].tokens[j] != idv,
            decreases self.users@[ui as int].tokens@.len() - ki + (if found {
                0int
            } else {
                1int
            }),
        {
            if self.users[ui].tokens[ki].value() == idv {
                found = true;
            } else {
                ki += 1;
            }
        }
        proof {
            if !found {
                assert(!self@.users[ui as int].tokens.contains(idv));
                assert(false);
            }
        }
        let qi = match self.queue_find(deadline, idv) {
            Some(q) => q,
            None => {
                proof {
                    assert(self@.queue_has((deadline, idv)));
                    assert(false);
                }
                0
            },
        };
        proof {
            lemma_queue_index_unique(self@, (deadline, idv), qi as int);
        }
        let ghost pre = self@;
        let mut user = self.users.remove(ui);
        user.tokens.remove(ki);
        self.users.insert(ui, user);
        self.tokens.remove(ti);
        self.update_queue.remove(qi);
        self.generation = if self.generation == u64::MAX {
            0
        } else {
            self.generation + 1
        };
        proof {
            let m = pre;
            let r = remove_token_model(m, idv);
            // the spec's indices are the ones found
            assert(m.token_index(idv) == ti);
            assert(m.tokens[ti as int].1.deadline == deadline);
            assert(m.user_index(m.tokens[ti as int].1.owner) == ui);
            assert(m.queue_index((deadline, idv)) == qi);
            let user0 = m.users[ui as int];
            let kic = choose|k: int| 0 <= k < user0.tokens.len() && user0.tokens[k] == idv;
            assert(0 <= kic < user0.tokens.len() && user0.tokens[kic] == idv);
            if kic != ki {
                if kic < ki {
                    assert(user0.tokens[kic] != user0.tokens[ki as int]);
                } else {
                    assert(user0.tokens[ki as int] != user0.tokens[kic]);
                }
            }
            // the vector surgery matches the model surgery
            lemma_users_view_update(old(self).users@, ui as int, user);
            assert(user@ =~= UserModel {
                email: user0.email,
                tokens: user0.tokens.remove(ki as int),
            }) by {
                old(self).users@[ui as int].tokens@.map_values(
                    |t: TokenId| t@,
                ).remove_ensures(ki as int);
                old(self).users@[ui as int].tokens@.remove_ensures(ki as int);
                assert(user.tokens@ =~= old(self).users@[ui as int].tokens@.remove(ki as int));
                assert(user@.tokens =~= user0.tokens.remove(ki as int));
            }
            lemma_tokens_view_remove(old(self).tokens@, ti as int);
            lemma_queue_view_remove(old(self).update_queue@, qi as int);
            assert(self@.users =~= r.users);
            assert(self@.tokens =~= r.tokens);
            assert(self@.queue =~= r.queue);
            assert(self@ =~= r);
            lemma_remove_model_wf(m, idv);
        }
        Ok(())
    }
}

/// Creating an empty record for an unseen identity disturbs nothing.
pub proof fn lemma_push_user_wf(m: StoreModel, email: Seq<char>)
    requires
        m.wf(),
        !m.has_user(email),
    ensures
        ({
            let r = push_user_model(m, email);
            &&& r.wf()
            &&& r.users.len() == m.users.len() + 1
            &&& r.has_user(email)
            &&& r.user_index(email) == m.users.len()
            &&& r.users[m.users.len() as int].tokens.len() == 0
        }),
{
    let r = push_user_model(m, email);
    let n = m.users.len() as int;
    assert(r.users[n].email == email);
    assert(r.users_distinct()) by {
        assert forall|i: int, j: int| 0 <= i < j < r.users.len() implies (r.users[i]).email != (
        r.users[j]).email by {
            if j < n {
                assert(m.users[i].email != m.users[j].email);
            } else {
                assert(r.users[i] == m.users[i]);
                if m.users[i].email == email {
                    assert(m.has_user(email));
                }
            }
        }
    }
    lemma_user_index_unique(r, email, n);
    assert(r.users_wf()) by {
        assert forall|u: int| 0 <= u < r.users.len() implies r.user_list_wf(r.users[u]) by {
            if u < n {
                assert(r.users[u] == m.users[u]);
                assert(m.user_list_wf(m.users[u]));
                let list = m.users[u].tokens;
                assert forall|k: int| 0 <= k < list.len() implies r.has_token(#[trigger] list[k])
                    && r.token_at(list[k]).owner == m.users[u].email by {
                    assert(m.has_token(list[k]) && m.token_at(list[k]).owner == m.users[u].email);
                }
                assert forall|a: int, b: int| 0 <= a < b < list.len() implies r.token_at(
                    list[a],
                ).moodle_session != r.token_at(list[b]).moodle_session by {
                    assert(m.token_at(list[a]).moodle_session != m.token_at(
                        list[b],
                    ).moodle_session);
                }
            }
        }
    }
    assert(r.tokens_owned()) by {
        assert forall|i: int| 0 <= i < r.tokens.len() implies {
            let owner = (#[trigger] r.tokens[i]).1.owner;
            r.has_user(owner) && r.users[r.user_index(owner)].tokens.contains(r.tokens[i].0)
        } by {
            let owner = m.tokens[i].1.owner;
            assert(m.has_user(owner) && m.users[m.user_index(owner)].tokens.contains(
                m.tokens[i].0,
            ));
            let mu = m.user_index(owner);
            assert(0 <= mu < m.users.len() && m.users[mu].email == owner);
            assert(r.users[mu] == m.users[mu]);
            lemma_user_index_unique(r, owner, mu);
        }
    }
    assert(r.wf());
}

/// The oldest position really is one: its token's creation timestamp is a
/// minimum of the list, and it is the earliest position achieving it.
pub proof fn lemma_oldest_pos(m: StoreModel, ts: Seq<u64>)
    requires
        ts.len() > 0,
    ensures
        ({
            let p = m.oldest_pos(ts);
            &&& 0 <= p < ts.len()
            &&& forall|k: int|
                0 <= k < ts.len() ==> m.token_at(ts[p]).added <= m.token_at(
                    #[trigger] ts[k],
                ).added
            &&& forall|k: int|
                0 <= k < p ==> m.token_at(#[trigger] ts[k]).added > m.token_at(ts[p]).added
        }),
    decreases ts.len(),
{
    let p = m.oldest_pos(ts);
    if ts.len() > 1 {
        lemma_oldest_pos(m, ts.drop_last());
        let q = m.oldest_pos(ts.drop_last());
        assert forall|k: int| 0 <= k < ts.len() - 1 implies ts.drop_last()[k] == ts[k] by {}
    }
}

/// Giving a below-quota user a fresh token, under a primary secret the
/// user does not hold, keeps the store well-formed.
pub proof fn lemma_insert_model_wf(
    m: StoreModel,
    u: int,
    ms: Seq<char>,
    cs: Seq<char>,
    now: u64,
)
    requires
        m.wf(),
        0 <= u < m.users.len(),
        m.users[u].tokens.len() < MAX_TOKENS_PER_USER,
        m.next_id < u64::MAX,
        !m.user_has_session(m.users[u], ms),
    ensures
        ({
            let r = insert_token_model(m, u, ms, cs, now);
            let id = m.next_id;
            &&& r.wf()
            &&& r.has_token(id)
            &&& r.token_at(id) == TokenModel {
                owner: m.users[u].email,
                moodle_session: ms,
                csrf_session: cs,
                deadline: 0,
                added: now,
            }
            &&& forall|x: u64|
                x != id ==> ((r.has_token(x) <==> m.has_token(x)) && (m.has_token(x)
                    ==> r.token_at(x) == m.token_at(x)))
            &&& forall|key: (u64, u64)| r.queue_has(key) <==> (key == (0u64, id) || m.queue_has(key))
        }),
{
    let r = insert_token_model(m, u, ms, cs, now);
    let id = m.next_id;
    let user = m.users[u];
    let tok = TokenModel {
        owner: user.email,
        moodle_session: ms,
        csrf_session: cs,
        deadline: 0,
        added: now,
    };
    let n = m.tokens.len() as int;
    assert(r.tokens[n] == (id, tok));
    assert forall|i: int| 0 <= i < n implies #[trigger] r.tokens[i] == m.tokens[i] by {}
    // the fresh identifier is in no token and no index entry
    assert(!m.has_token(id)) by {
        if m.has_token(id) {
            let i = m.token_index(id);
            assert(0 <= i < m.tokens.len() && m.tokens[i].0 == id);
        }
    }
    assert forall|q: int| 0 <= q < m.queue.len() implies (#[trigger] m.queue[q]).0.1 != id by {
        assert(m.has_token(m.queue[q].0.1));
        let i = choose|i: int| 0 <= i < m.tokens.len() && m.tokens[i].0 == m.queue[q].0.1;
        assert(m.tokens[i].0 < m.next_id);
    }
    lemma_queue_insert_model_props(m.queue, (0, id));
    assert(r.queue == queue_insert_model(m.queue, (0, id)));
    // token identity and lookup facts
    assert(r.tokens_distinct()) by {
        assert forall|i: int, j: int| 0 <= i < j < r.tokens.len() implies (r.tokens[i]).0 != (
        r.tokens[j]).0 by {
            if j < n {
                assert(m.tokens[i].0 != m.tokens[j].0);
            } else {
                assert(r.tokens[i] == m.tokens[i]);
                assert(m.tokens[i].0 < id);
            }
        }
    }
    assert(r.has_token(id)) by {
        assert(r.tokens[n].0 == id);
    }
    assert(r.token_at(id) == tok) by {
        lemma_token_index_unique(r, id, n);
    }
    assert forall|x: u64| x != id && m.has_token(x) implies r.has_token(x) && r.token_at(x)
        == m.token_at(x) by {
        let i = m.token_index(x);
        assert(0 <= i < m.tokens.len() && m.tokens[i].0 == x);
        assert(r.tokens[i] == m.tokens[i]);
        lemma_token_index_unique(r, x, i);
        lemma_token_index_unique(m, x, i);
    }
    assert forall|x: u64| x != id && r.has_token(x) implies m.has_token(x) by {
        let i = choose|k: int| 0 <= k < r.tokens.len() && r.tokens[k].0 == x;
        assert(i != n);
        assert(r.tokens[i] == m.tokens[i]);
        assert(seq_has_token(m.tokens, x));
    }
    assert(r.ids_fresh()) by {
        assert forall|i: int| 0 <= i < r.tokens.len() implies (r.tokens[i]).0 < r.next_id by {
            if i < n {
                assert(m.tokens[i].0 < m.next_id);
            }
        }
    }
    assert(r.users_distinct()) by {
        assert forall|i: int, j: int| 0 <= i < j < r.users.len() implies (r.users[i]).email != (
        r.users[j]).email by {
            assert(r.users[i].email == m.users[i].email);
            assert(r.users[j].email == m.users[j].email);
            assert(m.users[i].email != m.users[j].email);
        }
    }
    // the enlarged list is well-formed
    let nl = user.tokens.push(id);
    assert(r.users[u].tokens == nl);
    assert forall|k: int| 0 <= k < user.tokens.len() implies #[trigger] nl[k]
        == user.tokens[k] by {}
    assert(nl[user.tokens.len() as int] == id);
    assert forall|k: int| 0 <= k < user.tokens.len() implies user.tokens[k] != id by {
        assert(m.has_token(#[trigger] user.tokens[k]));
        let i = choose|i: int| 0 <= i < m.tokens.len() && m.tokens[i].0 == user.tokens[k];
        assert(m.tokens[i].0 < m.next_id);
    }
    assert(r.users_wf()) by {
        assert forall|w: int| 0 <= w < r.users.len() implies r.user_list_wf(r.users[w]) by {
            assert(m.user_list_wf(m.users[w]));
            if w != u {
                assert(r.users[w] == m.users[w]);
                let list = m.users[w].tokens;
                assert forall|k: int| 0 <= k < list.len() implies r.has_token(#[trigger] list[k])
                    && r.token_at(list[k]).owner == m.users[w].email by {
                    assert(m.has_token(list[k]) && m.token_at(list[k]).owner == m.users[w].email);
                    assert(list[k] != id) by {
                        let i = choose|i: int|
                            0 <= i < m.tokens.len() && m.tokens[i].0 == list[k];
                        assert(m.tokens[i].0 < m.next_id);
                    }
                }
                assert forall|a: int, b: int| 0 <= a < b < list.len() implies r.token_at(
                    list[a],
                ).moodle_session != r.token_at(list[b]).moodle_session by {
                    assert(m.token_at(list[a]).moodle_session != m.token_at(
                        list[b],
                    ).moodle_session);
                    assert(list[a] != id && list[b] != id) by {
                        assert(m.has_token(list[a]) && m.has_token(list[b]));
                        let i = choose|i: int|
                            0 <= i < m.tokens.len() && m.tokens[i].0 == list[a];
                        assert(m.tokens[i].0 < m.next_id);
                        let j = choose|j: int|
                            0 <= j < m.tokens.len() && m.tokens[j].0 == list[b];
                        assert(m.tokens[j].0 < m.next_id);
                    }
                }
            } else {
                assert(r.users[u] == UserModel { email: user.email, tokens: nl });
                assert(nl.len() <= MAX_TOKENS_PER_USER);
                assert forall|a: int, b: int| 0 <= a < b < nl.len() implies nl[a] != nl[b] by {
                    if b < user.tokens.len() {
                        assert(user.tokens[a] != user.tokens[b]);
                    } else {
                        assert(nl[a] == user.tokens[a]);
                        assert(user.tokens[a] != id);
                    }
                }
                assert forall|k: int| 0 <= k < nl.len() implies r.has_token(#[trigger] nl[k])
                    && r.token_at(nl[k]).owner == user.email by {
                    if k < user.tokens.len() {
                        assert(m.has_token(nl[k]) && m.token_at(nl[k]).owner == user.email);
                        assert(nl[k] != id);
                    } else {
                        assert(nl[k] == id);
                    }
                }
                assert forall|a: int, b: int| 0 <= a < b < nl.len() implies r.token_at(
                    nl[a],
                ).moodle_session != r.token_at(nl[b]).moodle_session by {
                    if b < user.tokens.len() {
                        assert(m.token_at(nl[a]).moodle_session != m.token_at(
                            nl[b],
                        ).moodle_session);
                        assert(nl[a] != id && nl[b] != id);
                    } else {
                        // the new secret differs from every listed one
                        assert(nl[b] == id);
                        assert(nl[a] == user.tokens[a]);
                        assert(nl[a] != id);
                        assert(m.has_token(nl[a]));
                        assert(m.token_at(user.tokens[a]).moodle_session != ms);
                        assert(r.token_at(nl[a]) == m.token_at(nl[a]));
                        assert(r.token_at(id).moodle_session == ms);
                    }
                }
                assert(r.user_list_wf(r.users[u]));
            }
        }
    }
    assert(r.tokens_owned()) by {
        assert forall|i: int| 0 <= i < r.tokens.len() implies {
            let owner = (#[trigger] r.tokens[i]).1.owner;
            r.has_user(owner) && r.users[r.user_index(owner)].tokens.contains(r.tokens[i].0)
        } by {
            if i < n {
                let owner = m.tokens[i].1.owner;
                assert(m.has_user(owner) && m.users[m.user_index(owner)].tokens.contains(
                    m.tokens[i].0,
                ));
                let mu = m.user_index(owner);
                assert(0 <= mu < m.users.len() && m.users[mu].email == owner);
                assert(r.users[mu].email == owner);
                assert(r.users_distinct());
                lemma_user_index_unique(r, owner, mu);
                if mu == u {
                    let k2 = choose|k2: int|
                        0 <= k2 < user.tokens.len() && user.tokens[k2] == m.tokens[i].0;
                    assert(nl[k2] == m.tokens[i].0);
                    assert(r.users[mu].tokens.contains(m.tokens[i].0));
                } else {
                    assert(r.users[mu] == m.users[mu]);
                }
            } else {
                assert(r.tokens[i] == (id, tok));
                assert(r.users[u].email == user.email);
                lemma_user_index_unique(r, user.email, u);
                assert(nl[user.tokens.len() as int] == id);
                assert(r.users[u].tokens.contains(id));
            }
        }
    }
    assert(r.queue_values_wf()) by {
        assert forall|q: int| 0 <= q < r.queue.len() implies (r.queue[q]).1 == r.queue[q].0.1 by {}
    }
    assert(r.queue_sorted());
    assert(r.queue_ids_distinct());
    assert(r.queue_backed()) by {
        assert forall|q: int| 0 <= q < r.queue.len() implies r.has_token((r.queue[q]).0.1)
            && r.token_at(r.queue[q].0.1).deadline == r.queue[q].0.0 by {
            if r.queue[q] == ((0u64, id), id) {
                assert(r.token_at(id).deadline == 0);
            } else {
                assert(m.queue.contains(r.queue[q]));
                let j = choose|j: int| 0 <= j < m.queue.len() && m.queue[j] == r.queue[q];
                let x = m.queue[j].0.1;
                assert(m.has_token(x) && m.token_at(x).deadline == m.queue[j].0.0);
                assert(x != id);
                assert(r.token_at(x) == m.token_at(x));
            }
        }
    }
    assert(r.queue_complete()) by {
        assert forall|i: int| 0 <= i < r.tokens.len() implies r.queue_has(
            ((r.tokens[i]).1.deadline, r.tokens[i].0),
        ) by {
            if i < n {
                assert(r.tokens[i] == m.tokens[i]);
                assert(m.queue_has((m.tokens[i].1.deadline, m.tokens[i].0)));
                assert(queue_seq_has(m.queue, (m.tokens[i].1.deadline, m.tokens[i].0)));
                assert(queue_seq_has(r.queue, (m.tokens[i].1.deadline, m.tokens[i].0)));
            } else {
                assert(r.tokens[i] == (id, tok));
                assert(queue_seq_has(r.queue, (0, id)));
            }
        }
    }
    assert(r.wf());
    assert forall|key: (u64, u64)| r.queue_has(key) <==> (key == (0u64, id) || m.queue_has(
        key,
    )) by {
        assert(r.queue_has(key) <==> queue_seq_has(r.queue, key));
        assert(m.queue_has(key) <==> queue_seq_has(m.queue, key));
    }
}

/// Registration keeps the store well-formed and leaves the identity
/// holding the primary secret it registered.
pub proof fn lemma_register_model_props(
    m: StoreModel,
    email: Seq<char>,
    ms: Seq<char>,
    cs: Seq<char>,
    now: u64,
)
    requires
        m.wf(),
        m.next_id < u64::MAX,
    ensures
        ({
            let r = register_model(m, email, ms, cs, now);
            &&& r.wf()
            &&& r.has_user(email)
            &&& r.user_has_session(r.users[r.user_index(email)], ms)
        }),
{
    let r = register_model(m, email, ms, cs, now);
    let m1 = if m.has_user(email) {
        m
    } else {
        push_user_model(m, email)
    };
    if !m.has_user(email) {
        lemma_push_user_wf(m, email);
    }
    let u = m1.user_index(email);
    assert(0 <= u < m1.users.len() && m1.users[u].email == email) by {
        if m.has_user(email) {
            let w = choose|w: int| 0 <= w < m.users.len() && m.users[w].email == email;
            lemma_user_index_unique(m, email, w);
        }
    }
    if m1.user_has_session(m1.users[u], ms) {
        // the call was a no-op, and the secret was already held
        assert(m.has_user(email));
        assert(m1 == m);
        assert(r == m);
    } else {
        let list = m1.users[u].tokens;
        let at_cap = list.len() >= MAX_TOKENS_PER_USER;
        let m2 = if at_cap {
            remove_token_model(m1, list[m1.oldest_pos(list)])
        } else {
            m1
        };
        let u2 = m2.user_index(email);
        if at_cap {
            lemma_oldest_pos(m1, list);
            let op = m1.oldest_pos(list);
            let victim = list[op];
            assert(m1.user_list_wf(m1.users[u]));
            assert(m1.has_token(victim));
            lemma_remove_model_wf(m1, victim);
            // the registering user is the owner, so it is their list that shrinks
            let ti = m1.token_index(victim);
            assert(0 <= ti < m1.tokens.len() && m1.tokens[ti].0 == victim);
            assert(m1.token_at(victim).owner == email) by {
                lemma_token_index_unique(m1, victim, ti);
            }
            assert(m1.tokens[ti].1.owner == email) by {
                lemma_token_index_unique(m1, victim, ti);
            }
            assert(m1.user_index(m1.tokens[ti].1.owner) == u);
            assert(m2.users == m1.users.update(
                u,
                UserModel {
                    email,
                    tokens: list.remove(
                        choose|k: int| 0 <= k < list.len() && list[k] == victim,
                    ),
                },
            ));
            let ki = choose|k: int| 0 <= k < list.len() && list[k] == victim;
            assert(0 <= ki < list.len() && list[ki] == victim);
            if ki != op {
                if ki < op {
                    assert(list[ki] != list[op]);
                } else {
                    assert(list[op] != list[ki]);
                }
            }
            assert(m2.users[u].email == email);
            lemma_user_index_unique(m2, email, u);
            assert(u2 == u);
            list.remove_ensures(op);
            assert(m2.users[u].tokens.len() < MAX_TOKENS_PER_USER);
            assert(!m2.user_has_session(m2.users[u2], ms)) by {
                if m2.user_has_session(m2.users[u2], ms) {
                    let j = choose|j: int|
                        0 <= j < m2.users[u2].tokens.len() && m2.token_at(
                            #[trigger] m2.users[u2].tokens[j],
                        ).moodle_session == ms;
                    let mj: int = if j < op {
                        j
                    } else {
                        j + 1
                    };
                    assert(m2.users[u2].tokens[j] == list[mj]);
                    assert(mj != op);
                    if mj < op {
                        assert(list[mj] != list[op]);
                    } else {
                        assert(list[op] != list[mj]);
                    }
                    assert(m1.has_token(list[mj]));
                    assert(m2.token_at(list[mj]) == m1.token_at(list[mj]));
                    assert(m1.token_at(list[mj]).moodle_session != ms);
                    assert(false);
                }
            }
        } else {
            assert(m2 == m1);
            assert(u2 == u);
            assert(!m2.user_has_session(m2.users[u2], ms));
        }
        assert(m2.wf());
        assert(m2.next_id == m.next_id);
        lemma_insert_model_wf(m2, u2, ms, cs, now);
        assert(r == insert_token_model(m2, u2, ms, cs, now));
        assert(r.wf());
        let id = m2.next_id;
        assert(r.users[u2].email == email);
        assert(r.has_user(email));
        lemma_user_index_unique(r, email, u2);
        let nl = m2.users[u2].tokens.push(id);
        assert(r.users[u2].tokens == nl);
        assert(nl[m2.users[u2].tokens.len() as int] == id);
        assert(r.token_at(id).moodle_session == ms);
        assert(r.user_has_session(r.users[u2], ms));
    }
}

/// Registering the same identity and primary secret twice: the first call
/// leaves the user holding the secret, so the second call is a no-op and
/// the store is exactly what the first call made of it, whenever the
/// second call runs.
pub proof fn lemma_register_idempotent(
    m: StoreModel,
    email: Seq<char>,
    ms: Seq<char>,
    cs: Seq<char>,
    now1: u64,
    now2: u64,
)
    requires
        m.wf(),
        m.next_id < u64::MAX,
    ensures
        register_model(register_model(m, email, ms, cs, now1), email, ms, cs, now2)
            == register_model(m, email, ms, cs, now1),
{
    lemma_register_model_props(m, email, ms, cs, now1);
    let r1 = register_model(m, email, ms, cs, now1);
    assert(register_model(r1, email, ms, cs, now2) == r1) by {
        assert(r1.has_user(email));
        let u = r1.user_index(email);
        assert(r1.user_has_session(r1.users[u], ms));
    }
}

/// Registering a fourth, distinct-secret credential for a user at quota
/// with distinct creation timestamps evicts exactly the strictly oldest
/// token: it and its index entry are gone, the user's other tokens
/// survive untouched, and the fresh token joins the list.
pub proof fn lemma_register_evicts_oldest(
    m: StoreModel,
    email: Seq<char>,
    ms: Seq<char>,
    cs: Seq<char>,
    now: u64,
)
    requires
        m.wf(),
        m.next_id < u64::MAX,
        m.has_user(email),
        m.users[m.user_index(email)].tokens.len() == MAX_TOKENS_PER_USER,
        !m.user_has_session(m.users[m.user_index(email)], ms),
        forall|a: int, b: int|
            0 <= a < b < m.users[m.user_index(email)].tokens.len() ==> m.token_at(
                #[trigger] m.users[m.user_index(email)].tokens[a],
            ).added != m.token_at(#[trigger] m.users[m.user_index(email)].tokens[b]).added,
    ensures
        ({
            let u = m.user_index(email);
            let list = m.users[u].tokens;
            let op = m.oldest_pos(list);
            let victim = list[op];
            let r = register_model(m, email, ms, cs, now);
            &&& 0 <= op < list.len()
            &&& forall|k: int|
                0 <= k < list.len() && k != op ==> m.token_at(victim).added < m.token_at(
                    #[trigger] list[k],
                ).added
            &&& !r.has_token(victim)
            &&& !r.queue_has((m.token_at(victim).deadline, victim))
            &&& forall|k: int|
                0 <= k < list.len() && k != op ==> r.has_token(#[trigger] list[k]) && r.token_at(
                    list[k],
                ) == m.token_at(list[k])
            &&& r.has_token(m.next_id)
            &&& r.users[u].tokens =~= list.remove(op).push(m.next_id)
        }),
{
    let u = m.user_index(email);
    assert(0 <= u < m.users.len() && m.users[u].email == email) by {
        let w = choose|w: int| 0 <= w < m.users.len() && m.users[w].email == email;
        lemma_user_index_unique(m, email, w);
    }
    let list = m.users[u].tokens;
    lemma_oldest_pos(m, list);
    let op = m.oldest_pos(list);
    let victim = list[op];
    assert(m.user_list_wf(m.users[u]));
    assert(m.has_token(victim));
    // strict minimality under distinct timestamps
    assert forall|k: int| 0 <= k < list.len() && k != op implies m.token_at(victim).added
        < m.token_at(#[trigger] list[k]).added by {
        assert(m.token_at(victim).added <= m.token_at(list[k]).added);
        if k < op {
            assert(m.token_at(list[k]).added != m.token_at(list[op]).added);
        } else {
            assert(m.token_at(list[op]).added != m.token_at(list[k]).added);
        }
    }
    let r = register_model(m, email, ms, cs, now);
    let m2 = remove_token_model(m, victim);
    lemma_remove_model_wf(m, victim);
    let ti = m.token_index(victim);
    assert(0 <= ti < m.tokens.len() && m.tokens[ti].0 == victim);
    assert(m.token_at(victim).owner == email && m.token_at(victim) == m.tokens[ti].1) by {
        lemma_token_index_unique(m, victim, ti);
    }
    assert(m.user_index(m.tokens[ti].1.owner) == u);
    let ki = choose|k: int| 0 <= k < list.len() && list[k] == victim;
    assert(0 <= ki < list.len() && list[ki] == victim);
    if ki != op {
        if ki < op {
            assert(list[ki] != list[op]);
        } else {
            assert(list[op] != list[ki]);
        }
    }
    assert(m2.users == m.users.update(u, UserModel { email, tokens: list.remove(op) }));
    assert(m2.users[u].email == email);
    lemma_user_index_unique(m2, email, u);
    list.remove_ensures(op);
    assert(!m2.user_has_session(m2.users[u], ms)) by {
        if m2.user_has_session(m2.users[u], ms) {
            let j = choose|j: int|
                0 <= j < m2.users[u].tokens.len() && m2.token_at(
                    #[trigger] m2.users[u].tokens[j],
                ).moodle_session == ms;
            let mj: int = if j < op {
                j
            } else {
                j + 1
            };
            assert(m2.users[u].tokens[j] == list[mj]);
            assert(mj != op);
            if mj < op {
                assert(list[mj] != list[op]);
            } else {
                assert(list[op] != list[mj]);
            }
            assert(m.has_token(list[mj]));
            assert(m2.token_at(list[mj]) == m.token_at(list[mj]));
            assert(m.token_at(list[mj]).moodle_session != ms);
            assert(false);
        }
    }
    lemma_insert_model_wf(m2, u, ms, cs, now);
    assert(r == insert_token_model(m2, u, ms, cs, now)) by {
        assert(!m.user_has_session(m.users[u], ms));
    }
    let id = m.next_id;
    // the evicted token is gone for good: the fresh identifier differs
    assert(victim < id);
    assert(!m2.has_token(victim));
    assert(!r.has_token(victim));
    assert(!r.queue_has((m.token_at(victim).deadline, victim))) by {
        assert(!m2.queue_has((m.token_at(victim).deadline, victim)));
        assert((m.token_at(victim).deadline, victim) != (0u64, id));
    }
    // the user's other tokens survive with their records
    assert forall|k: int| 0 <= k < list.len() && k != op implies r.has_token(#[trigger] list[k])
        && r.token_at(list[k]) == m.token_at(list[k]) by {
        assert(m.has_token(list[k]));
        if k < op {
            assert(list[k] != list[op]);
        } else {
            assert(list[op] != list[k]);
        }
        assert(m2.has_token(list[k]) && m2.token_at(list[k]) == m.token_at(list[k]));
        assert(list[k] != id) by {
            let i = choose|i: int| 0 <= i < m.tokens.len() && m.tokens[i].0 == list[k];
            assert(m.tokens[i].0 < m.next_id);
        }
    }
    assert(r.has_token(id));
    assert(r.users[u].tokens =~= list.remove(op).push(id));
}

/// Resolve the lowest-keyed expiry-index entry that still denotes a live
/// token. The index and the token collection are handed in as two separate
/// reads, so an entry may be stale — left behind by a removal committed
/// between the two reads; such entries are skipped, never returned. This is
/// the read-retry demanded of `MostUrgent`: the result is either empty or a
/// token that exists, with every entry below it known stale.
pub fn first_live_entry(queue: &Vec<(UpdateQueueKey, UpdateQueueItem)>, tokens: &Vec<
    (TokenId, Token),
>) -> (r: Option<(TokenId, Token)>)
    requires
        forall|i: int, j: int|
            0 <= i < j < tokens_view(tokens@).len() ==> (#[trigger] tokens_view(tokens@)[i]).0 != (
            #[trigger] tokens_view(tokens@)[j]).0,
    ensures
        match r {
            None => forall|q: int|
                0 <= q < queue_view(queue@).len() ==> !seq_has_token(
                    tokens_view(tokens@),
                    (#[trigger] queue_view(queue@)[q]).0.1,
                ),
            Some(p) => exists|q: int|
                0 <= q < queue_view(queue@).len() && (#[trigger] queue_view(queue@)[q]).0.1
                    == p.0@ && seq_has_token(tokens_view(tokens@), p.0@) && p.1@ == seq_token_at(
                    tokens_view(tokens@),
                    p.0@,
                ) && (forall|j: int|
                    0 <= j < q ==> !seq_has_token(
                        tokens_view(tokens@),
                        (#[trigger] queue_view(queue@)[j]).0.1,
                    )),
        },
{
    let mut q: usize = 0;
    while q < queue.len()
        invariant
            q <= queue.len(),
            forall|i: int, j: int|
                0 <= i < j < tokens_view(tokens@).len() ==> (#[trigger] tokens_view(
                    tokens@,
                )[i]).0 != (#[trigger] tokens_view(tokens@)[j]).0,
            forall|j: int|
                0 <= j < q ==> !seq_has_token(
                    tokens_view(tokens@),
                    (#[trigger] queue_view(queue@)[j]).0.1,
                ),
        decreases queue.len() - q,
    {
        let id = queue[q].0.token_id();
        let idv = id.value();
        proof {
            assert(queue_view(queue@)[q as int] == (queue@[q as int].0@, queue@[q as int].1@));
        }
        let mut t: usize = 0;
        while t < tokens.len()
            invariant
                t <= tokens.len(),
                q < queue.len(),
                idv == id@,
                id@ == queue_view(queue@)[q as int].0.1,
                forall|i: int, j: int|
                    0 <= i < j < tokens_view(tokens@).len() ==> (#[trigger] tokens_view(
                        tokens@,
                    )[i]).0 != (#[trigger] tokens_view(tokens@)[j]).0,
                forall|j: int|
                    0 <= j < q ==> !seq_has_token(
                        tokens_view(tokens@),
                        (#[trigger] queue_view(queue@)[j]).0.1,
                    ),
                forall|j: int| 0 <= j < t ==> (#[trigger] tokens_view(tokens@)[j]).0 != id@,
            decreases tokens.len() - t,
        {
            proof {
                assert(tokens_view(tokens@)[t as int] == (
                    tokens@[t as int].0@,
                    tokens@[t as int].1@,
                ));
            }
            if tokens[t].0.value() == idv {
                let tok = tokens[t].1.duplicate();
                proof {
                    assert(tokens_view(tokens@)[t as int].0 == id@);
                    assert(seq_has_token(tokens_view(tokens@), id@));
                    let w = choose|i: int|
                        0 <= i < tokens_view(tokens@).len() && tokens_view(tokens@)[i].0 == id@;
                    assert(tokens_view(tokens@)[w].0 == id@);
                    assert(w == t as int);
                    assert(tok@ == seq_token_at(tokens_view(tokens@), id@));
                }
                return Some((id, tok));
            }
            t += 1;
        }
        proof {
            assert(!seq_has_token(tokens_view(tokens@), queue_view(queue@)[q as int].0.1));
        }
        q += 1;
    }
    None
}

} // verus!
