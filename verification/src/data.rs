//! The storage core: a per-user partitioned store of unread entries (the
//! stash) and read entries (the archive).
//!
//! Every user owns two logical partitions, isolated from every other
//! user's: no operation reads or writes across a partition boundary. An
//! entry is created or refreshed in the stash by an upsert keyed on its URI;
//! it leaves the stash exactly once, by an atomic move into the archive.
//! Listing returns an ordered, paginated slice of one stash partition.
//!
//! The store is modelled by two maps keyed on (user id, URI) — see
//! [`DataManager::stashMap`] and [`DataManager::archiveMap`] — together with
//! the per-user row sequence [`DataManager::stashSeq`] that listing is
//! specified against.

use vstd::multiset::Multiset;
use vstd::prelude::*;

use crate::error::Error;
use crate::rows::KeyedRow;
use crate::rows::key_count;
use crate::rows::lemma_key_count_exists;
use crate::rows::lemma_row_map_absent;
use crate::rows::lemma_row_map_index;
use crate::rows::lemma_rows_push;
use crate::rows::lemma_rows_remove;
use crate::rows::row_map;
use crate::rows::rows_unique;
use crate::rows::user_rows;

verus! {

/// A user of the store. Identity is opaque to the core: it is created once
/// and immutable thereafter.
pub struct User {
    pub id: i64,
    pub name: String,
}

impl User {
    pub fn new(id: i64, name: String) -> (r: User)
        ensures
            r.id == id,
            r.name@ == name@,
    {
        Self { id: id, name: name }
    }
}

/// The order in which a stash partition is listed: newest first (descending
/// `time_add`) or oldest first (ascending).
#[derive(Clone, Copy)]
pub enum EntryOrder {
    NewFirst,
    OldFirst,
}

/// An unread entry in a user's stash partition. `time_add` is epoch seconds.
pub struct Entry {
    pub uri: String,
    pub title: String,
    pub time_add: i64,
}

/// The mathematical reading of an [`Entry`].
pub ghost struct EntryModel {
    pub uri: Seq<char>,
    pub title: Seq<char>,
    pub time_add: int,
}

impl View for Entry {
    type V = EntryModel;

    open spec fn view(&self) -> EntryModel {
        EntryModel { uri: self.uri@, title: self.title@, time_add: self.time_add as int }
    }
}

impl Clone for Entry {
    fn clone(&self) -> (r: Self)
        ensures
            r == *self,
    {
        Entry { uri: self.uri.clone(), title: self.title.clone(), time_add: self.time_add }
    }
}

/// A read entry in a user's archive partition. Both timestamps are epoch
/// seconds.
pub struct ReadEntry {
    pub uri: String,
    pub title: String,
    pub time_add: i64,
    pub time_read: i64,
}

/// Where the backing store lives: a durable file or process memory.
#[derive(Clone)]
pub enum SqliteFilename {
    InMemory,
    File(String),
}

struct StashRow {
    user_id: i64,
    uri: String,
    title: String,
    time_add: i64,
}

struct ArchiveRow {
    user_id: i64,
    uri: String,
    title: String,
    time_add: i64,
    time_read: i64,
}

/// The storage core. Owns the user catalog and every user's stash and
/// archive partition.
pub struct DataManager {
    filename: SqliteFilename,
    connected: bool,
    catalog_ready: bool,
    next_user_id: i64,
    users: Vec<User>,
    stash: Vec<StashRow>,
    archive: Vec<ArchiveRow>,
}

/// The catalog's invariant: every issued id lies below the next one, and
/// ids and names are unique.
pub open spec fn catalog_wf(users: Seq<(int, Seq<char>)>, next: int) -> bool {
    &&& forall|i: int| 0 <= i < users.len() ==> (#[trigger] users[i]).0 < next
    &&& forall|i: int, j: int|
        0 <= i < users.len() && 0 <= j < users.len() && i != j ==> (#[trigger] users[i]).0 != (
        #[trigger] users[j]).0
    &&& forall|i: int, j: int|
        0 <= i < users.len() && 0 <= j < users.len() && i != j ==> (#[trigger] users[i]).1 != (
        #[trigger] users[j]).1
}

spec fn users_seq_of(s: Seq<User>) -> Seq<(int, Seq<char>)> {
    Seq::new(s.len(), |i: int| (s[i].id as int, s[i].name@))
}

/// The reading of one stash row for the partition model.
spec fn stash_row_model(r: StashRow) -> KeyedRow<(Seq<char>, int)> {
    KeyedRow { uid: r.user_id as int, key: r.uri@, val: (r.title@, r.time_add as int) }
}

spec fn stash_rows_of(s: Seq<StashRow>) -> Seq<KeyedRow<(Seq<char>, int)>> {
    Seq::new(s.len(), |i: int| stash_row_model(s[i]))
}

/// The reading of one archive row for the partition model.
spec fn archive_row_model(r: ArchiveRow) -> KeyedRow<(Seq<char>, int, int)> {
    KeyedRow {
        uid: r.user_id as int,
        key: r.uri@,
        val: (r.title@, r.time_add as int, r.time_read as int),
    }
}

spec fn archive_rows_of(s: Seq<ArchiveRow>) -> Seq<KeyedRow<(Seq<char>, int, int)>> {
    Seq::new(s.len(), |i: int| archive_row_model(s[i]))
}

proof fn lemma_stash_rows_of_push(s: Seq<StashRow>, r: StashRow)
    ensures
        stash_rows_of(s.push(r)) == stash_rows_of(s).push(stash_row_model(r)),
{
    assert(stash_rows_of(s.push(r)) =~= stash_rows_of(s).push(stash_row_model(r)));
}

proof fn lemma_stash_rows_of_remove(s: Seq<StashRow>, i: int)
    requires
        0 <= i < s.len(),
    ensures
        stash_rows_of(s.remove(i)) == stash_rows_of(s).remove(i),
{
    assert forall|j: int| 0 <= j < s.len() - 1 implies stash_rows_of(s.remove(i))[j]
        == stash_rows_of(s).remove(i)[j] by {
        if j < i {
            assert(s.remove(i)[j] == s[j]);
            assert(stash_rows_of(s).remove(i)[j] == stash_rows_of(s)[j]);
        } else {
            assert(s.remove(i)[j] == s[j + 1]);
            assert(stash_rows_of(s).remove(i)[j] == stash_rows_of(s)[j + 1]);
        }
    }
    assert(stash_rows_of(s.remove(i)) =~= stash_rows_of(s).remove(i));
}

proof fn lemma_archive_rows_of_push(s: Seq<ArchiveRow>, r: ArchiveRow)
    ensures
        archive_rows_of(s.push(r)) == archive_rows_of(s).push(archive_row_model(r)),
{
    assert(archive_rows_of(s.push(r)) =~= archive_rows_of(s).push(archive_row_model(r)));
}

proof fn lemma_archive_rows_of_remove(s: Seq<ArchiveRow>, i: int)
    requires
        0 <= i < s.len(),
    ensures
        archive_rows_of(s.remove(i)) == archive_rows_of(s).remove(i),
{
    assert forall|j: int| 0 <= j < s.len() - 1 implies archive_rows_of(s.remove(i))[j]
        == archive_rows_of(s).remove(i)[j] by {
        if j < i {
            assert(s.remove(i)[j] == s[j]);
            assert(archive_rows_of(s).remove(i)[j] == archive_rows_of(s)[j]);
        } else {
            assert(s.remove(i)[j] == s[j + 1]);
            assert(archive_rows_of(s).remove(i)[j] == archive_rows_of(s)[j + 1]);
        }
    }
    assert(archive_rows_of(s.remove(i)) =~= archive_rows_of(s).remove(i));
}

/// Compares two string slices character by character.
#[verifier::loop_isolation(false)]
    pub(crate) fn str_eq(a: &str, b: &str) -> (r: bool)
    ensures
        r == (a@ == b@),
{
    let la = a.unicode_len();
    let lb = b.unicode_len();
    if la != lb {
        proof {
            if a@ == b@ {
                assert(a@.len() == b@.len());
            }
        }
        return false;
    }
    let mut i: usize = 0;
    while i < la
        invariant
            i <= la,
            la == a@.len(),
            lb == b@.len(),
            la == lb,
            forall|j: int| 0 <= j < i ==> a@[j] == b@[j],
        decreases la - i,
    {
        if a.get_char(i) != b.get_char(i) {
            return false;
        }
        i += 1;
    }
    proof {
        assert(a@ =~= b@);
    }
    true
}


/// The smaller of two mathematical integers.
pub open spec fn min_int(a: int, b: int) -> int {
    if a <= b {
        a
    } else {
        b
    }
}

/// The listing comparison: for `NewFirst`, `a` may stand before `b` when its
/// `time_add` is no smaller (descending); for `OldFirst`, when it is no
/// larger (ascending).
pub open spec fn time_le(order: EntryOrder, a: int, b: int) -> bool {
    match order {
        EntryOrder::NewFirst => a >= b,
        EntryOrder::OldFirst => a <= b,
    }
}

/// The pair an entry contributes to the partition model: (URI, (title,
/// time_add)).
pub open spec fn entry_pair(e: Entry) -> (Seq<char>, (Seq<char>, int)) {
    (e.uri@, (e.title@, e.time_add as int))
}

/// A sequence of entries, read as partition-model pairs.
pub open spec fn entry_pairs(s: Seq<Entry>) -> Seq<(Seq<char>, (Seq<char>, int))> {
    Seq::new(s.len(), |i: int| entry_pair(s[i]))
}

/// Whether a sequence of partition-model pairs is sorted for the given
/// order on `time_add`.
pub open spec fn sorted_for(order: EntryOrder, s: Seq<(Seq<char>, (Seq<char>, int))>) -> bool {
    forall|i: int, j: int|
        0 <= i < j < s.len() ==> time_le(order, (#[trigger] s[i]).1.1, (#[trigger] s[j]).1.1)
}

/// Relies on chrono::Utc::now for the current time; returns it as epoch
/// seconds. Nothing is promised of the value: callers state what holds of
/// every outcome.
#[verifier::external_body]
fn now_epoch() -> i64 {
    chrono::Utc::now().timestamp()
}

/// The index of a `time_le`-minimal element for the given order: the newest
/// entry for `NewFirst`, the oldest for `OldFirst`.
#[verifier::loop_isolation(false)]
fn pickIndex(v: &Vec<Entry>, order: EntryOrder) -> (m: usize)
    requires
        v@.len() > 0,
    ensures
        m < v@.len(),
        forall|r: int|
            0 <= r < v@.len() ==> time_le(
                order,
                v@[m as int].time_add as int,
                (#[trigger] v@[r]).time_add as int,
            ),
{
    let mut m: usize = 0;
    let mut i: usize = 1;
    while i < v.len()
        invariant
            m < i <= v@.len(),
            forall|r: int|
                0 <= r < i ==> time_le(
                    order,
                    v@[m as int].time_add as int,
                    (#[trigger] v@[r]).time_add as int,
                ),
        decreases v@.len() - i,
    {
        let better = match order {
            EntryOrder::NewFirst => v[i].time_add > v[m].time_add,
            EntryOrder::OldFirst => v[i].time_add < v[m].time_add,
        };
        if better {
            m = i;
        }
        i += 1;
    }
    m
}

/// Sort entries for the given order on `time_add`, keeping exactly the same
/// entries (as a multiset of partition-model pairs).
#[verifier::loop_isolation(false)]
fn sortEntries(v: &mut Vec<Entry>, order: EntryOrder)
    ensures
        entry_pairs(final(v)@).to_multiset() == entry_pairs(old(v)@).to_multiset(),
        sorted_for(order, entry_pairs(final(v)@)),
{
    broadcast use vstd::seq_lib::group_to_multiset_ensures;

    let ghost orig = entry_pairs(old(v)@).to_multiset();
    let mut out: Vec<Entry> = Vec::new();
    proof {
        assert(entry_pairs(out@) =~= Seq::<(Seq<char>, (Seq<char>, int))>::empty());
        assert(entry_pairs(out@).to_multiset().add(entry_pairs(v@).to_multiset())
            =~= entry_pairs(v@).to_multiset());
    }
    while v.len() > 0
        invariant
            entry_pairs(out@).to_multiset().add(entry_pairs(v@).to_multiset()) == orig,
            sorted_for(order, entry_pairs(out@)),
            forall|a: int, b: int|
                0 <= a < out@.len() && 0 <= b < v@.len() ==> time_le(
                    order,
                    (#[trigger] entry_pairs(out@)[a]).1.1,
                    (#[trigger] entry_pairs(v@)[b]).1.1,
                ),
        decreases v@.len(),
    {
        let m = pickIndex(v, order);
        let ghost pre_v = v@;
        let ghost pre_out = out@;
        let e = v.remove(m);
        out.push(e);
        proof {
            assert(entry_pairs(v@) =~= entry_pairs(pre_v).remove(m as int));
            assert(entry_pairs(out@) =~= entry_pairs(pre_out).push(entry_pair(e)));
            assert(entry_pairs(pre_v)[m as int] == entry_pair(e));
            assert(entry_pairs(out@).to_multiset() =~= entry_pairs(pre_out).to_multiset().insert(
                entry_pair(e),
            ));
            assert(entry_pairs(v@).to_multiset() =~= entry_pairs(pre_v).to_multiset().remove(
                entry_pair(e),
            ));
            assert(entry_pairs(pre_v).to_multiset().count(entry_pair(e)) > 0);
            assert(entry_pairs(out@).to_multiset().add(entry_pairs(v@).to_multiset()) =~= orig);
        }
    }
    proof {
        assert(entry_pairs(v@).to_multiset() =~= Multiset::<(Seq<char>, (Seq<char>, int))>::empty());
        assert(entry_pairs(out@).to_multiset().add(entry_pairs(v@).to_multiset())
            =~= entry_pairs(out@).to_multiset());
    }
    *v = out;
}

impl DataManager {
    /// Whether the connection layer has been initialized.
    pub closed spec fn connected(self) -> bool {
        self.connected
    }

    /// Whether the global user catalog has been created.
    pub closed spec fn catalogReady(self) -> bool {
        self.catalog_ready
    }

    /// The id the next created user will receive.
    pub closed spec fn nextId(self) -> int {
        self.next_user_id as int
    }

    /// The user catalog: (id, name) in creation order.
    pub closed spec fn usersSeq(self) -> Seq<(int, Seq<char>)> {
        users_seq_of(self.users@)
    }

    /// Whether a user with this id is in the catalog (and so owns
    /// provisioned partitions).
    pub open spec fn hasUser(self, uid: int) -> bool {
        exists|i: int| 0 <= i < self.usersSeq().len() && (#[trigger] self.usersSeq()[i]).0 == uid
    }

    /// Whether a user with this name is in the catalog.
    pub open spec fn hasUserNamed(self, name: Seq<char>) -> bool {
        exists|i: int| 0 <= i < self.usersSeq().len() && (#[trigger] self.usersSeq()[i]).1 == name
    }

    spec fn stash_rows(self) -> Seq<KeyedRow<(Seq<char>, int)>> {
        stash_rows_of(self.stash@)
    }

    spec fn archive_rows(self) -> Seq<KeyedRow<(Seq<char>, int, int)>> {
        archive_rows_of(self.archive@)
    }

    /// Every stash partition, read as one map from (user id, URI) to
    /// (title, time_add).
    pub closed spec fn stashMap(self) -> Map<(int, Seq<char>), (Seq<char>, int)> {
        row_map(self.stash_rows())
    }

    /// One user's stash partition in storage order: (URI, (title, time_add)).
    pub closed spec fn stashSeq(self, uid: int) -> Seq<(Seq<char>, (Seq<char>, int))> {
        user_rows(self.stash_rows(), uid)
    }

    /// How many stash rows of one user carry a given URI. Unique keying
    /// makes this 0 or 1 — see [`DataManager::wf`].
    pub closed spec fn stashCount(self, uid: int, uri: Seq<char>) -> nat {
        key_count(self.stash_rows(), uid, uri)
    }

    /// Every archive partition, read as one map from (user id, URI) to
    /// (title, time_add, time_read).
    pub closed spec fn archiveMap(self) -> Map<(int, Seq<char>), (Seq<char>, int, int)> {
        row_map(self.archive_rows())
    }

    /// The store's invariant: each partition keys its rows uniquely on the
    /// URI, user ids and names are unique in the catalog, and every issued
    /// id is below the next one.
    pub closed spec fn wf(self) -> bool {
        &&& rows_unique(self.stash_rows())
        &&& rows_unique(self.archive_rows())
        &&& self.next_user_id >= 1
        &&& catalog_wf(self.usersSeq(), self.nextId())
    }

    /// What an upsert of entry `e` into user `uid`'s stash partition does:
    /// that partition gains or refreshes the row under `e.uri` — afterwards
    /// exactly one row of the partition carries `e.uri` — and nothing else
    /// changes; in particular every other user's stash partition, every
    /// archive partition, and the catalog are untouched.
    pub open spec fn upsert_post(pre: Self, post: Self, uid: int, e: EntryModel) -> bool {
        &&& post.wf()
        &&& post.connected() == pre.connected()
        &&& post.catalogReady() == pre.catalogReady()
        &&& post.nextId() == pre.nextId()
        &&& post.usersSeq() == pre.usersSeq()
        &&& post.stashMap() == pre.stashMap().insert((uid, e.uri), (e.title, e.time_add))
        &&& post.stashCount(uid, e.uri) == 1
        &&& forall|u: int, k: Seq<char>|
            !(u == uid && k == e.uri) ==> #[trigger] post.stashCount(u, k) == pre.stashCount(u, k)
        &&& forall|u: int| u != uid ==> #[trigger] post.stashSeq(u) == pre.stashSeq(u)
        &&& post.archiveMap() == pre.archiveMap()
    }

    /// What moving entry `e` of user `uid` into the archive at time `t`
    /// does: one atomic step after which the entry is gone from the stash
    /// partition and stands in the archive partition under its URI, with its
    /// title and `time_add` kept and `time_read = t`; nothing else changes.
    pub open spec fn move_post(pre: Self, post: Self, uid: int, e: EntryModel, t: int) -> bool {
        &&& post.wf()
        &&& post.connected() == pre.connected()
        &&& post.catalogReady() == pre.catalogReady()
        &&& post.nextId() == pre.nextId()
        &&& post.usersSeq() == pre.usersSeq()
        &&& post.stashMap() == pre.stashMap().remove((uid, e.uri))
        &&& post.stashCount(uid, e.uri) == 0
        &&& pre.stashCount(uid, e.uri) == 0 ==> post.stashSeq(uid) == pre.stashSeq(uid)
        &&& forall|u: int, k: Seq<char>|
            !(u == uid && k == e.uri) ==> #[trigger] post.stashCount(u, k) == pre.stashCount(u, k)
        &&& forall|u: int| u != uid ==> #[trigger] post.stashSeq(u) == pre.stashSeq(u)
        &&& post.archiveMap() == pre.archiveMap().insert((uid, e.uri), (e.title, e.time_add, t))
    }

    /// A store over the given backing location, not yet connected, with an
    /// empty catalog and empty partitions.
    pub fn new(f: SqliteFilename) -> (r: Self)
        ensures
            r.wf(),
            !r.connected(),
            !r.catalogReady(),
            r.nextId() == 1,
            r.usersSeq() == Seq::<(int, Seq<char>)>::empty(),
            r.stashMap() == Map::<(int, Seq<char>), (Seq<char>, int)>::empty(),
            r.archiveMap() == Map::<(int, Seq<char>), (Seq<char>, int, int)>::empty(),
            forall|u: int| #[trigger] r.stashSeq(u) == Seq::<(Seq<char>, (Seq<char>, int))>::empty(),
    {
        let r = Self {
            filename: f,
            connected: false,
            catalog_ready: false,
            next_user_id: 1,
            users: Vec::new(),
            stash: Vec::new(),
            archive: Vec::new(),
        };
        proof {
            assert(r.stash_rows() =~= Seq::<KeyedRow<(Seq<char>, int)>>::empty());
            assert(r.archive_rows() =~= Seq::<KeyedRow<(Seq<char>, int, int)>>::empty());
            assert(r.usersSeq() =~= Seq::<(int, Seq<char>)>::empty());
        }
        r
    }

    /// A store backed by the database file at the given path.
    pub fn newWithFilename(f: &str) -> (r: Self)
        ensures
            r.wf(),
            !r.connected(),
            !r.catalogReady(),
            r.nextId() == 1,
            r.usersSeq() == Seq::<(int, Seq<char>)>::empty(),
            r.stashMap() == Map::<(int, Seq<char>), (Seq<char>, int)>::empty(),
            r.archiveMap() == Map::<(int, Seq<char>), (Seq<char>, int, int)>::empty(),
            forall|u: int| #[trigger] r.stashSeq(u) == Seq::<(Seq<char>, (Seq<char>, int))>::empty(),
    {
        Self::new(SqliteFilename::File(f.to_owned()))
    }

    /// Connect to the backing store, creating it if absent. Every other
    /// operation requires this to have succeeded first.
    pub fn connect(&mut self) -> (r: Result<(), Error>)
        requires
            old(self).wf(),
        ensures
            r is Ok,
            final(self).wf(),
            final(self).connected(),
            final(self).catalogReady() == old(self).catalogReady(),
            final(self).nextId() == old(self).nextId(),
            final(self).usersSeq() == old(self).usersSeq(),
            final(self).stashMap() == old(self).stashMap(),
            final(self).archiveMap() == old(self).archiveMap(),
            forall|u: int| #[trigger] final(self).stashSeq(u) == old(self).stashSeq(u),
            forall|u: int, k: Seq<char>| #[trigger] final(self).stashCount(u, k) == old(
                self,
            ).stashCount(u, k),
    {
        self.connected = true;
        Ok(())
    }

    /// Idempotently create the global user catalog. Fails only when the
    /// store is not connected.
    pub fn init(&mut self) -> (r: Result<(), Error>)
        requires
            old(self).wf(),
        ensures
            final(self).wf(),
            !old(self).connected() ==> (r matches Err(Error::PoolUnavailable)) && *final(self)
                == *old(self),
            old(self).connected() ==> {
                &&& r is Ok
                &&& final(self).catalogReady()
                &&& final(self).connected()
                &&& final(self).nextId() == old(self).nextId()
                &&& final(self).usersSeq() == old(self).usersSeq()
                &&& final(self).stashMap() == old(self).stashMap()
                &&& final(self).archiveMap() == old(self).archiveMap()
                &&& forall|u: int| #[trigger] final(self).stashSeq(u) == old(self).stashSeq(u)
            },
    {
        if !self.connected {
            return Err(Error::PoolUnavailable);
        }
        self.catalog_ready = true;
        Ok(())
    }

    /// Look the user with this name up in the catalog. Absence is a valid,
    /// non-error outcome.
    #[verifier::loop_isolation(false)]
    pub fn findUser(&self, name: &str) -> (r: Result<Option<User>, Error>)
        requires
            self.wf(),
        ensures
            !self.connected() ==> r matches Err(Error::PoolUnavailable),
            self.connected() && !self.catalogReady() ==> (r matches Err(e) && e is Storage),
            self.connected() && self.catalogReady() ==> {
                &&& r is Ok
                &&& (r matches Ok(Some(u)) ==> u.name@ == name@ && self.hasUserNamed(name@)
                    && exists|i: int|
                    0 <= i < self.usersSeq().len() && #[trigger] self.usersSeq()[i] == (
                    u.id as int,
                    name@,
                ))
                &&& (r matches Ok(None) ==> !self.hasUserNamed(name@))
            },
    {
        if !self.connected {
            return Err(Error::PoolUnavailable);
        }
        if !self.catalog_ready {
            return Err(Error::Storage("user catalog missing".to_owned()));
        }
        let mut i: usize = 0;
        while i < self.users.len()
            invariant
                i <= self.users@.len(),
                forall|j: int| 0 <= j < i ==> (#[trigger] self.usersSeq()[j]).1 != name@,
            decreases self.users@.len() - i,
        {
            if str_eq(self.users[i].name.as_str(), name) {
                proof {
                    assert(self.usersSeq()[i as int] == (self.users@[i as int].id as int, name@));
                }
                return Ok(Some(User::new(self.users[i].id, self.users[i].name.clone())));
            }
            i += 1;
        }
        Ok(None)
    }

    /// Create a user: assign the next id, record (id, name) in the catalog,
    /// and provision the user's two partitions. A duplicate name, like any
    /// failure to provision, is surfaced as a storage error.
    #[verifier::loop_isolation(false)]
    pub fn createUser(&mut self, user: User) -> (r: Result<User, Error>)
        requires
            old(self).wf(),
        ensures
            final(self).wf(),
            !old(self).connected() ==> (r matches Err(Error::PoolUnavailable)) && *final(self)
                == *old(self),
            old(self).connected() && !old(self).catalogReady() ==> (r matches Err(e)
                && e is Storage) && *final(self) == *old(self),
            old(self).connected() && old(self).catalogReady() && old(self).hasUserNamed(user.name@)
                ==> (r matches Err(e) && e is Storage) && *final(self) == *old(self),
            old(self).connected() && old(self).catalogReady() && !old(self).hasUserNamed(
                user.name@,
            ) && old(self).nextId() < i64::MAX ==> {
                &&& r matches Ok(u) && u.id as int == old(self).nextId() && u.name@ == user.name@
                &&& final(self).usersSeq() == old(self).usersSeq().push(
                    (old(self).nextId(), user.name@),
                )
                &&& final(self).nextId() == old(self).nextId() + 1
                &&& final(self).hasUser(old(self).nextId())
                &&& final(self).connected() && final(self).catalogReady()
                &&& final(self).stashMap() == old(self).stashMap()
                &&& final(self).archiveMap() == old(self).archiveMap()
                &&& forall|u2: int| #[trigger] final(self).stashSeq(u2) == old(self).stashSeq(u2)
            },
    {
        if !self.connected {
            return Err(Error::PoolUnavailable);
        }
        if !self.catalog_ready {
            return Err(Error::Storage("user catalog missing".to_owned()));
        }
        let mut i: usize = 0;
        while i < self.users.len()
            invariant
                i <= self.users@.len(),
                forall|j: int| 0 <= j < i ==> (#[trigger] self.usersSeq()[j]).1 != user.name@,
            decreases self.users@.len() - i,
        {
            if str_eq(self.users[i].name.as_str(), user.name.as_str()) {
                proof {
                    assert((self.usersSeq()[i as int]).1 == user.name@);
                }
                return Err(Error::Storage("user name already exists".to_owned()));
            }
            i += 1;
        }
        if self.next_user_id == i64::MAX {
            return Err(Error::Storage("user ids exhausted".to_owned()));
        }
        let id = self.next_user_id;
        self.next_user_id = id + 1;
        let name = user.name;
        let result = User::new(id, name.clone());
        let ghost pre_users = self.usersSeq();
        self.users.push(User { id: id, name: name });
        proof {
            assert(self.usersSeq() =~= pre_users.push((id as int, result.name@)));
            assert(self.stash_rows() == old(self).stash_rows());
            assert(self.archive_rows() == old(self).archive_rows());
            assert(self.usersSeq()[pre_users.len() as int].0 == id as int);
        }
        Ok(result)
    }

    /// Whether the given id is in the user catalog.
    #[verifier::loop_isolation(false)]
    fn hasUserExec(&self, uid: i64) -> (r: bool)
        ensures
            r == self.hasUser(uid as int),
    {
        let mut i: usize = 0;
        while i < self.users.len()
            invariant
                i <= self.users@.len(),
                forall|j: int| 0 <= j < i ==> (#[trigger] self.usersSeq()[j]).0 != uid as int,
            decreases self.users@.len() - i,
        {
            if self.users[i].id == uid {
                proof {
                    assert((self.usersSeq()[i as int]).0 == uid as int);
                }
                return true;
            }
            i += 1;
        }
        false
    }

    /// Insert `item` into `user`'s stash partition, or — when a row with the
    /// same URI is already there — refresh that row's title and `time_add`
    /// to the new values. See [`DataManager::upsert_post`].
    #[verifier::loop_isolation(false)]
    pub fn addEntry(&mut self, user: &User, item: Entry) -> (r: Result<(), Error>)
        requires
            old(self).wf(),
        ensures
            final(self).wf(),
            !old(self).connected() ==> (r matches Err(Error::PoolUnavailable)) && *final(self)
                == *old(self),
            old(self).connected() && !old(self).hasUser(user.id as int) ==> (r matches Err(e)
                && e is Storage) && *final(self) == *old(self),
            old(self).connected() && old(self).hasUser(user.id as int) ==> r is Ok
                && Self::upsert_post(*old(self), *final(self), user.id as int, item@),
    {
        if !self.connected {
            return Err(Error::PoolUnavailable);
        }
        if !self.hasUserExec(user.id) {
            return Err(Error::Storage("no stash partition for this user".to_owned()));
        }
        let uid = user.id;
        let mut i: usize = 0;
        let mut found: Option<usize> = None;
        while i < self.stash.len()
            invariant
                i <= self.stash@.len(),
                found is None ==> forall|j: int|
                    0 <= j < i ==> !((#[trigger] self.stash_rows()[j]).uid == uid as int
                        && self.stash_rows()[j].key == item.uri@),
                found matches Some(fi) ==> fi < self.stash@.len() && self.stash_rows()[
                    fi as int
                ].uid == uid as int && self.stash_rows()[fi as int].key == item.uri@,
            decreases self.stash@.len() - i,
        {
            if self.stash[i].user_id == uid && str_eq(self.stash[i].uri.as_str(), item.uri.as_str()) {
                proof {
                    assert(self.stash_rows()[i as int].uid == uid as int);
                    assert(self.stash_rows()[i as int].key == item.uri@);
                }
                found = Some(i);
                break ;
            }
            i += 1;
        }
        let ghost pre = *self;
        match found {
            Some(fi) => {
                let removed = self.stash.remove(fi);
                proof {
                    lemma_stash_rows_of_remove(pre.stash@, fi as int);
                    lemma_rows_remove(pre.stash_rows(), fi as int);
                }
                let ghost mid = *self;
                let row = StashRow {
                    user_id: uid,
                    uri: item.uri,
                    title: item.title,
                    time_add: item.time_add,
                };
                proof {
                    lemma_key_count_exists(mid.stash_rows(), uid as int, item.uri@);
                }
                self.stash.push(row);
                proof {
                    lemma_stash_rows_of_push(mid.stash@, row);
                    lemma_rows_push(mid.stash_rows(), stash_row_model(row));
                    assert(self.stashMap() =~= pre.stashMap().insert(
                        (uid as int, item.uri@),
                        (item.title@, item.time_add as int),
                    ));
                    assert(self.usersSeq() =~= pre.usersSeq());
                    assert(self.archive_rows() == pre.archive_rows());
                }
            },
            None => {
                let row = StashRow {
                    user_id: uid,
                    uri: item.uri,
                    title: item.title,
                    time_add: item.time_add,
                };
                proof {
                    lemma_key_count_exists(pre.stash_rows(), uid as int, item.uri@);
                }
                self.stash.push(row);
                proof {
                    lemma_stash_rows_of_push(pre.stash@, row);
                    lemma_rows_push(pre.stash_rows(), stash_row_model(row));
                    assert(self.usersSeq() =~= pre.usersSeq());
                    assert(self.archive_rows() == pre.archive_rows());
                }
            },
        }
        Ok(())
    }

    /// Point lookup of a URI in `user`'s stash partition alone. `Ok(None)`
    /// means the URI is not stashed there — a valid outcome, not an error.
    #[verifier::loop_isolation(false)]
    pub fn findEntryByURI(&self, user: &User, uri: &str) -> (r: Result<Option<Entry>, Error>)
        requires
            self.wf(),
        ensures
            !self.connected() ==> r matches Err(Error::PoolUnavailable),
            self.connected() && !self.hasUser(user.id as int) ==> (r matches Err(e)
                && e is Storage),
            self.connected() && self.hasUser(user.id as int) ==> match r {
                Ok(Some(e)) => self.stashMap().contains_key((user.id as int, uri@)) && e.uri@
                    == uri@ && self.stashMap()[(user.id as int, uri@)] == (
                    e.title@,
                    e.time_add as int,
                ),
                Ok(None) => !self.stashMap().contains_key((user.id as int, uri@)),
                Err(_) => false,
            },
    {
        if !self.connected {
            return Err(Error::PoolUnavailable);
        }
        if !self.hasUserExec(user.id) {
            return Err(Error::Storage("no stash partition for this user".to_owned()));
        }
        let uid = user.id;
        let mut i: usize = 0;
        while i < self.stash.len()
            invariant
                i <= self.stash@.len(),
                forall|j: int|
                    0 <= j < i ==> !((#[trigger] self.stash_rows()[j]).uid == uid as int
                        && self.stash_rows()[j].key == uri@),
            decreases self.stash@.len() - i,
        {
            if self.stash[i].user_id == uid && str_eq(self.stash[i].uri.as_str(), uri) {
                proof {
                    assert(self.stash_rows()[i as int].uid == uid as int);
                    assert(self.stash_rows()[i as int].key == uri@);
                    lemma_row_map_index(self.stash_rows(), i as int);
                }
                return Ok(
                    Some(
                        Entry {
                            uri: self.stash[i].uri.clone(),
                            title: self.stash[i].title.clone(),
                            time_add: self.stash[i].time_add,
                        },
                    ),
                );
            }
            i += 1;
        }
        proof {
            lemma_row_map_absent(self.stash_rows(), uid as int, uri@);
        }
        Ok(None)
    }


    /// All of `user`'s stash rows, in storage order.
    #[verifier::loop_isolation(false)]
    fn collectEntries(&self, uid: i64) -> (r: Vec<Entry>)
        ensures
            entry_pairs(r@) == self.stashSeq(uid as int),
    {
        let mut out: Vec<Entry> = Vec::new();
        proof {
            assert(entry_pairs(out@) =~= user_rows(
                self.stash_rows().take(0),
                uid as int,
            ));
        }
        let mut i: usize = 0;
        while i < self.stash.len()
            invariant
                i <= self.stash@.len(),
                entry_pairs(out@) == user_rows(self.stash_rows().take(i as int), uid as int),
            decreases self.stash@.len() - i,
        {
            let ghost rows = self.stash_rows();
            proof {
                assert(rows.take(i as int + 1).drop_last() =~= rows.take(i as int));
                assert(rows.take(i as int + 1).last() == rows[i as int]);
            }
            if self.stash[i].user_id == uid {
                let e = Entry {
                    uri: self.stash[i].uri.clone(),
                    title: self.stash[i].title.clone(),
                    time_add: self.stash[i].time_add,
                };
                let ghost pre_out = out@;
                out.push(e);
                proof {
                    assert(entry_pair(e) == (rows[i as int].key, rows[i as int].val));
                    assert(entry_pairs(out@) =~= entry_pairs(pre_out).push(entry_pair(e)));
                }
            }
            i += 1;
        }
        proof {
            assert(self.stash_rows().take(self.stash@.len() as int) =~= self.stash_rows());
        }
        out
    }

    /// A page of `user`'s stash partition: the rows sorted for `order` on
    /// `time_add`, with the first `start_index` rows of that ordered set
    /// skipped and at most `count` rows returned. Ordering and pagination
    /// never leave the queried partition.
    #[verifier::loop_isolation(false)]
    pub fn getEntries(&self, user: &User, start_index: u64, count: u64, order: EntryOrder) -> (r:
        Result<Vec<Entry>, Error>)
        requires
            self.wf(),
        ensures
            !self.connected() ==> (r matches Err(Error::PoolUnavailable)),
            self.connected() && !self.hasUser(user.id as int) ==> (r matches Err(e)
                && e is Storage),
            self.connected() && self.hasUser(user.id as int) ==> (r matches Ok(page)
                && exists|perm: Seq<(Seq<char>, (Seq<char>, int))>|
                {
                    &&& perm.to_multiset() == self.stashSeq(user.id as int).to_multiset()
                    &&& sorted_for(order, perm)
                    &&& entry_pairs(page@) == perm.subrange(
                        min_int(start_index as int, perm.len() as int),
                        min_int(start_index as int + count as int, perm.len() as int),
                    )
                }),
    {
        if !self.connected {
            return Err(Error::PoolUnavailable);
        }
        if !self.hasUserExec(user.id) {
            return Err(Error::Storage("no stash partition for this user".to_owned()));
        }
        let mut all = self.collectEntries(user.id);
        sortEntries(&mut all, order);
        let ghost perm = entry_pairs(all@);
        let mut page: Vec<Entry> = Vec::new();
        proof {
            assert(entry_pairs(page@) =~= perm.subrange(
                min_int(start_index as int, 0),
                min_int(start_index as int + count as int, 0),
            ));
        }
        let mut i: usize = 0;
        while i < all.len()
            invariant
                i <= all@.len(),
                perm == entry_pairs(all@),
                entry_pairs(page@) == perm.subrange(
                    min_int(start_index as int, i as int),
                    min_int(start_index as int + count as int, i as int),
                ),
            decreases all@.len() - i,
        {
            let ghost pre_page = page@;
            if (i as u64) >= start_index && (page.len() as u64) < count {
                proof {
                    assert(pre_page.len() == i - start_index);
                }
                page.push(all[i].clone());
                proof {
                    assert(entry_pairs(page@) =~= entry_pairs(pre_page).push(entry_pair(
                        all@[i as int],
                    )));
                    assert(entry_pairs(page@) =~= perm.subrange(
                        min_int(start_index as int, i as int + 1),
                        min_int(start_index as int + count as int, i as int + 1),
                    ));
                }
            } else {
                proof {
                    assert(entry_pairs(page@) =~= perm.subrange(
                        min_int(start_index as int, i as int + 1),
                        min_int(start_index as int + count as int, i as int + 1),
                    ));
                }
            }
            i += 1;
        }
        proof {
            assert(entry_pairs(page@) == perm.subrange(
                min_int(start_index as int, perm.len() as int),
                min_int(start_index as int + count as int, perm.len() as int),
            ));
        }
        Ok(page)
    }

    /// Move `item` from `user`'s stash partition into the archive, stamping
    /// `time_read` with the current clock. See [`DataManager::readEntryAt`]
    /// for the exact effect at a given time.
    pub fn readEntry(&mut self, user: &User, item: &Entry) -> (r: Result<(), Error>)
        requires
            old(self).wf(),
        ensures
            final(self).wf(),
            !old(self).connected() ==> (r matches Err(Error::PoolUnavailable)) && *final(self)
                == *old(self),
            old(self).connected() && !old(self).hasUser(user.id as int) ==> (r matches Err(e)
                && e is Storage) && *final(self) == *old(self),
            old(self).connected() && old(self).hasUser(user.id as int) ==> r is Ok && (exists|
                t: int,
            | Self::move_post(*old(self), *final(self), user.id as int, item@, t)),
    {
        let t = now_epoch();
        self.readEntryAt(user, item, t)
    }

    /// Move `item` from `user`'s stash partition into the archive partition,
    /// recording `time_read` as the given time: one atomic step that upserts
    /// the archive row and deletes the stash row. See
    /// [`DataManager::move_post`].
    #[verifier::loop_isolation(false)]
    pub fn readEntryAt(&mut self, user: &User, item: &Entry, time_read: i64) -> (r: Result<
        (),
        Error,
    >)
        requires
            old(self).wf(),
        ensures
            final(self).wf(),
            !old(self).connected() ==> (r matches Err(Error::PoolUnavailable)) && *final(self)
                == *old(self),
            old(self).connected() && !old(self).hasUser(user.id as int) ==> (r matches Err(e)
                && e is Storage) && *final(self) == *old(self),
            old(self).connected() && old(self).hasUser(user.id as int) ==> r is Ok
                && Self::move_post(
                *old(self),
                *final(self),
                user.id as int,
                item@,
                time_read as int,
            ),
    {
        if !self.connected {
            return Err(Error::PoolUnavailable);
        }
        if !self.hasUserExec(user.id) {
            return Err(Error::Storage("no partitions for this user".to_owned()));
        }
        let uid = user.id;
        // Upsert into the archive partition.
        let mut i: usize = 0;
        let mut found: Option<usize> = None;
        while i < self.archive.len()
            invariant
                i <= self.archive@.len(),
                found is None ==> forall|j: int|
                    0 <= j < i ==> !((#[trigger] self.archive_rows()[j]).uid == uid as int
                        && self.archive_rows()[j].key == item.uri@),
                found matches Some(fi) ==> fi < self.archive@.len() && self.archive_rows()[
                    fi as int
                ].uid == uid as int && self.archive_rows()[fi as int].key == item.uri@,
            decreases self.archive@.len() - i,
        {
            if self.archive[i].user_id == uid && str_eq(
                self.archive[i].uri.as_str(),
                item.uri.as_str(),
            ) {
                proof {
                    assert(self.archive_rows()[i as int].uid == uid as int);
                    assert(self.archive_rows()[i as int].key == item.uri@);
                }
                found = Some(i);
                break ;
            }
            i += 1;
        }
        let ghost pre = *self;
        if let Some(fi) = found {
            let removed = self.archive.remove(fi);
            proof {
                lemma_archive_rows_of_remove(pre.archive@, fi as int);
                lemma_rows_remove(pre.archive_rows(), fi as int);
            }
        }
        let ghost mid = *self;
        let row = ArchiveRow {
            user_id: uid,
            uri: item.uri.clone(),
            title: item.title.clone(),
            time_add: item.time_add,
            time_read: time_read,
        };
        proof {
            lemma_key_count_exists(mid.archive_rows(), uid as int, item.uri@);
        }
        self.archive.push(row);
        proof {
            lemma_archive_rows_of_push(mid.archive@, row);
            lemma_rows_push(mid.archive_rows(), archive_row_model(row));
            assert(self.archiveMap() =~= pre.archiveMap().insert(
                (uid as int, item.uri@),
                (item.title@, item.time_add as int, time_read as int),
            ));
            assert(self.stash_rows() == pre.stash_rows());
            assert(self.usersSeq() =~= pre.usersSeq());
        }
        // Delete from the stash partition.
        let ghost pre2 = *self;
        let mut i2: usize = 0;
        while i2 < self.stash.len()
            invariant
                i2 <= self.stash@.len(),
                *self == pre2,
                forall|j: int|
                    0 <= j < i2 ==> !((#[trigger] self.stash_rows()[j]).uid == uid as int
                        && self.stash_rows()[j].key == item.uri@),
            decreases self.stash@.len() - i2,
        {
            if self.stash[i2].user_id == uid && str_eq(self.stash[i2].uri.as_str(), item.uri.as_str())
             {
                proof {
                    assert(self.stash_rows()[i2 as int].uid == uid as int);
                    assert(self.stash_rows()[i2 as int].key == item.uri@);
                }
                proof {
                    lemma_key_count_exists(pre2.stash_rows(), uid as int, item.uri@);
                }
                let removed = self.stash.remove(i2);
                proof {
                    lemma_stash_rows_of_remove(pre2.stash@, i2 as int);
                    lemma_rows_remove(pre2.stash_rows(), i2 as int);
                    assert(self.archive_rows() == pre2.archive_rows());
                    assert(self.usersSeq() =~= pre2.usersSeq());
                }
                return Ok(());
            }
            i2 += 1;
        }
        proof {
            lemma_row_map_absent(self.stash_rows(), uid as int, item.uri@);
            assert(self.stashMap() =~= self.stashMap().remove((uid as int, item.uri@)));
            lemma_key_count_exists(self.stash_rows(), uid as int, item.uri@);
        }
        Ok(())
    }
}


/// Law: upserting the same URI twice into one user's stash partition yields
/// exactly one row under that URI, whose title and `time_add` are the second
/// call's values; the partition map is the original with that one binding.
pub proof fn lemma_upsert_twice(
    d0: DataManager,
    d1: DataManager,
    d2: DataManager,
    uid: int,
    e1: EntryModel,
    e2: EntryModel,
)
    requires
        DataManager::upsert_post(d0, d1, uid, e1),
        DataManager::upsert_post(d1, d2, uid, e2),
        e1.uri == e2.uri,
    ensures
        d2.stashMap() == d0.stashMap().insert((uid, e2.uri), (e2.title, e2.time_add)),
        d2.stashCount(uid, e2.uri) == 1,
        d2.stashMap()[(uid, e2.uri)] == (e2.title, e2.time_add),
        forall|u: int| u != uid ==> #[trigger] d2.stashSeq(u) == d0.stashSeq(u),
{
    assert(d2.stashMap() =~= d0.stashMap().insert((uid, e2.uri), (e2.title, e2.time_add)));
}

/// Law: moving an entry to the archive is idempotent in the observable
/// state. One move leaves the entry absent from the stash partition — so a
/// stash lookup of its URI finds nothing — and present in the archive
/// partition; a second move changes neither of those facts, and the stash
/// partitions are left exactly as the first move left them.
pub proof fn lemma_move_idempotent(
    d0: DataManager,
    d1: DataManager,
    d2: DataManager,
    uid: int,
    e: EntryModel,
    t1: int,
    t2: int,
)
    requires
        DataManager::move_post(d0, d1, uid, e, t1),
        DataManager::move_post(d1, d2, uid, e, t2),
    ensures
        !d1.stashMap().contains_key((uid, e.uri)),
        d1.stashCount(uid, e.uri) == 0,
        d1.archiveMap().contains_key((uid, e.uri)),
        d1.archiveMap()[(uid, e.uri)] == (e.title, e.time_add, t1),
        d2.stashMap() == d1.stashMap(),
        !d2.stashMap().contains_key((uid, e.uri)),
        d2.archiveMap().contains_key((uid, e.uri)),
        d2.archiveMap()[(uid, e.uri)] == (e.title, e.time_add, t2),
        forall|u: int| #[trigger] d2.stashSeq(u) == d1.stashSeq(u),
{
    assert(d2.stashMap() =~= d1.stashMap());
}

/// Law: partition isolation. An upsert under user A is invisible to every
/// other user B: B's stash rows (which listing reads), B's bindings in the
/// stash map (which URI lookup reads), and the archive bindings are exactly
/// as before.
pub proof fn lemma_partition_isolation(
    d0: DataManager,
    d1: DataManager,
    uidA: int,
    e: EntryModel,
    uidB: int,
)
    requires
        DataManager::upsert_post(d0, d1, uidA, e),
        uidA != uidB,
    ensures
        d1.stashSeq(uidB) == d0.stashSeq(uidB),
        forall|k: Seq<char>| #[trigger] d1.stashMap().contains_key((uidB, k))
            == d0.stashMap().contains_key((uidB, k)),
        forall|k: Seq<char>|
            d0.stashMap().contains_key((uidB, k)) ==> #[trigger] d1.stashMap()[(uidB, k)]
                == d0.stashMap()[(uidB, k)],
        d1.archiveMap() == d0.archiveMap(),
{
}

} // verus!
