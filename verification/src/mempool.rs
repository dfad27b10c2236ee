//! The mempool: a bounded staging area for pending message transactions
//! with time-to-live eviction. Transactions are keyed by a fresh UUID;
//! ids are unique, and the store transiently holds at most one entry
//! over its configured bound.
use vstd::prelude::*;

verus! {

/// The mathematical value of a transaction.
pub struct TxModel {
    pub id: Seq<char>,
    pub message: Seq<char>,
    pub timestamp: i64,
    pub submitted_at: i64,
}

/// A user's message, minted into a transaction with a fresh id.
#[derive(Debug)]
pub struct MessageTransaction {
    pub id: String,
    pub message: String,
    pub timestamp: i64,
    pub submitted_at: i64,
}

impl View for MessageTransaction {
    type V = TxModel;

    open spec fn view(&self) -> TxModel {
        TxModel {
            id: self.id@,
            message: self.message@,
            timestamp: self.timestamp,
            submitted_at: self.submitted_at,
        }
    }
}

impl DeepView for MessageTransaction {
    type V = TxModel;

    open spec fn deep_view(&self) -> TxModel {
        self@
    }
}

impl Clone for MessageTransaction {
    fn clone(&self) -> (r: Self)
        ensures
            r@ == self@,
    {
        MessageTransaction {
            id: self.id.clone(),
            message: self.message.clone(),
            timestamp: self.timestamp,
            submitted_at: self.submitted_at,
        }
    }
}

/// The mathematical value of a mempool slot: the transaction and its
/// arrival time.
pub struct EntryModel {
    pub tx: TxModel,
    pub added_at: i64,
}

/// A mempool slot: a pending transaction and when it arrived.
#[derive(Debug)]
pub struct PoolEntry {
    pub tx: MessageTransaction,
    pub added_at: i64,
}

impl View for PoolEntry {
    type V = EntryModel;

    open spec fn view(&self) -> EntryModel {
        EntryModel { tx: self.tx@, added_at: self.added_at }
    }
}

impl DeepView for PoolEntry {
    type V = EntryModel;

    open spec fn deep_view(&self) -> EntryModel {
        self@
    }
}

impl Clone for PoolEntry {
    fn clone(&self) -> (r: Self)
        ensures
            r@ == self@,
    {
        PoolEntry { tx: self.tx.clone(), added_at: self.added_at }
    }
}

/// A criterion for which entries a filtering pass keeps.
pub enum Criterion {
    /// Keep entries whose id differs from the given one.
    NotId(Seq<char>),
    /// Keep entries whose id occurs nowhere in the given list.
    NotIn(Seq<Seq<char>>),
    /// Keep entries not expired at the given instant and timeout.
    Fresh(i64, u64),
}

/// Whether a filtering pass under `c` keeps the entry `e`.
pub open spec fn kept(c: Criterion, e: EntryModel) -> bool {
    match c {
        Criterion::NotId(id) => e.tx.id != id,
        Criterion::NotIn(ids) => !ids.contains(e.tx.id),
        Criterion::Fresh(now, timeout) => !is_expired(e, now, timeout),
    }
}

/// The entries of `s` kept under `c`, in order.
pub open spec fn keep(s: Seq<EntryModel>, c: Criterion) -> Seq<EntryModel>
    decreases s.len(),
{
    if s.len() == 0 {
        Seq::empty()
    } else if kept(c, s[0]) {
        seq![s[0]] + keep(s.drop_first(), c)
    } else {
        keep(s.drop_first(), c)
    }
}

/// No two entries share an id.
pub open spec fn ids_distinct(s: Seq<EntryModel>) -> bool {
    forall|i: int, j: int| 0 <= i < j < s.len() ==> s[i].tx.id != s[j].tx.id
}

/// Some entry carries `id`.
pub open spec fn contains_id(s: Seq<EntryModel>, id: Seq<char>) -> bool {
    exists|i: int| 0 <= i < s.len() && s[i].tx.id == id
}

/// The entry `e` has outlived `timeout` seconds at time `now`.
pub open spec fn is_expired(e: EntryModel, now: i64, timeout: u64) -> bool {
    now - e.added_at > timeout
}

/// `s` without the entries carrying `id`.
pub open spec fn remove_id(s: Seq<EntryModel>, id: Seq<char>) -> Seq<EntryModel> {
    keep(s, Criterion::NotId(id))
}

/// `s` without the entries whose id occurs in `ids`.
pub open spec fn remove_ids(s: Seq<EntryModel>, ids: Seq<Seq<char>>) -> Seq<EntryModel> {
    keep(s, Criterion::NotIn(ids))
}

/// `s` without the entries that have expired by `now`.
pub open spec fn clean(s: Seq<EntryModel>, now: i64, timeout: u64) -> Seq<EntryModel> {
    keep(s, Criterion::Fresh(now, timeout))
}

/// What the store holds once the capacity check has run: cleaned when it
/// stood over the bound, untouched otherwise.
pub open spec fn maybe_cleaned(s: Seq<EntryModel>, max: int, now: i64, timeout: u64) -> Seq<
    EntryModel,
> {
    if s.len() > max {
        clean(s, now, timeout)
    } else {
        s
    }
}

/// Filtering keeps order, length, the predicate, membership, and id
/// uniqueness.
pub proof fn lemma_keep_facts(s: Seq<EntryModel>, c: Criterion)
    ensures
        keep(s, c).len() <= s.len(),
        forall|k: int| 0 <= k < keep(s, c).len() ==> kept(c, #[trigger] keep(s, c)[k]),
        forall|k: int|
            0 <= k < keep(s, c).len() ==> exists|j: int|
                0 <= j < s.len() && s[j] == #[trigger] keep(s, c)[k],
        ids_distinct(s) ==> ids_distinct(keep(s, c)),
    decreases s.len(),
{
    if s.len() == 0 {
    } else {
        let rest = s.drop_first();
        lemma_keep_facts(rest, c);
        assert(forall|j: int| 0 <= j < rest.len() ==> rest[j] == s[j + 1]);
        if ids_distinct(s) {
            assert(ids_distinct(rest));
        }
        if kept(c, s[0]) {
            let r = keep(s, c);
            assert(r == seq![s[0]] + keep(rest, c));
            assert(forall|k: int| 1 <= k < r.len() ==> r[k] == keep(rest, c)[k - 1]);
            if ids_distinct(s) {
                assert forall|i: int, j: int| 0 <= i < j < r.len() implies r[i].tx.id
                    != r[j].tx.id by {
                    if i == 0 {
                        let q = keep(rest, c);
                        assert(q[j - 1] == r[j]);
                        let m = choose|m: int| 0 <= m < rest.len() && rest[m] == q[j - 1];
                        assert(s[m + 1] == q[j - 1]);
                        assert(s[0].tx.id != s[m + 1].tx.id);
                    }
                }
            }
        }
    }
}

/// Filtering a sequence that already satisfies the predicate changes
/// nothing.
pub proof fn lemma_keep_all(s: Seq<EntryModel>, c: Criterion)
    requires
        forall|k: int| 0 <= k < s.len() ==> kept(c, #[trigger] s[k]),
    ensures
        keep(s, c) == s,
    decreases s.len(),
{
    if s.len() == 0 {
        assert(keep(s, c) =~= s);
    } else {
        let rest = s.drop_first();
        assert(forall|k: int| 0 <= k < rest.len() ==> kept(c, #[trigger] rest[k]));
        lemma_keep_all(rest, c);
        assert(keep(s, c) =~= s);
    }
}

/// Expiry eviction is idempotent: cleaning an already-cleaned store at
/// the same instant changes nothing.
pub proof fn lemma_clean_idempotent(s: Seq<EntryModel>, now: i64, timeout: u64)
    ensures
        clean(clean(s, now, timeout), now, timeout) == clean(s, now, timeout),
{
    let c = Criterion::Fresh(now, timeout);
    lemma_keep_facts(s, c);
    lemma_keep_all(keep(s, c), c);
}

/// After removing a present id from a store holding at most one entry
/// over the bound, an insertion is owed: the capacity check passes
/// without cleaning.
pub proof fn lemma_remove_then_add_succeeds(
    s: Seq<EntryModel>,
    id: Seq<char>,
    max: int,
    now: i64,
    timeout: u64,
)
    requires
        ids_distinct(s),
        contains_id(s, id),
        s.len() <= max + 1,
    ensures
        remove_id(s, id).len() <= max,
        maybe_cleaned(remove_id(s, id), max, now, timeout) == remove_id(s, id),
{
    lemma_remove_id_drops_one(s, id);
}

/// Removing a present id shortens the store.
proof fn lemma_remove_id_drops_one(s: Seq<EntryModel>, id: Seq<char>)
    requires
        contains_id(s, id),
    ensures
        remove_id(s, id).len() < s.len(),
    decreases s.len(),
{
    let c = Criterion::NotId(id);
    lemma_keep_facts(s, c);
    let rest = s.drop_first();
    if s[0].tx.id == id {
        lemma_keep_facts(rest, c);
    } else {
        let i = choose|i: int| 0 <= i < s.len() && s[i].tx.id == id;
        assert(rest[i - 1] == s[i]);
        assert(contains_id(rest, id));
        lemma_remove_id_drops_one(rest, id);
    }
}

/// Relies on chrono's `Utc::now`: the current Unix time in seconds.
/// Nothing is assumed of the value.
#[verifier::external_body]
pub fn now_ts() -> i64 {
    chrono::Utc::now().timestamp()
}

/// Relies on uuid's `Uuid::new_v4`: a random version-4 UUID, rendered
/// in its hyphenated form. Nothing is assumed of the value.
#[verifier::external_body]
pub fn new_uuid() -> String {
    uuid::Uuid::new_v4().to_string()
}

impl MessageTransaction {
    /// Mints a transaction around `message` with a fresh id, stamped
    /// with the current time.
    pub fn new(message: String) -> (r: Self)
        ensures
            r@.message == message@,
            r@.timestamp == r@.submitted_at,
    {
        let id = new_uuid();
        let now = now_ts();
        MessageTransaction { id, message, timestamp: now, submitted_at: now }
    }
}

/// The bounded, time-expiring store of pending transactions.
#[derive(Debug)]
pub struct Mempool {
    pub pending_messages: Vec<PoolEntry>,
    pub max_size: usize,
    pub message_timeout: u64,
}

impl View for Mempool {
    type V = Seq<EntryModel>;

    open spec fn view(&self) -> Seq<EntryModel> {
        self.pending_messages.deep_view()
    }
}

impl Clone for Mempool {
    fn clone(&self) -> (r: Self)
        ensures
            r@ == self@,
            r.max_size == self.max_size,
            r.message_timeout == self.message_timeout,
    {
        let mut pending: Vec<PoolEntry> = Vec::new();
        let mut i: usize = 0;
        while i < self.pending_messages.len()
            invariant
                i <= self.pending_messages@.len(),
                pending@.len() == i,
                forall|j: int| 0 <= j < i ==> pending@[j]@ == self.pending_messages@[j]@,
            decreases self.pending_messages@.len() - i,
        {
            let e = self.pending_messages[i].clone();
            pending.push(e);
            i += 1;
        }
        proof {
            assert forall|j: int| 0 <= j < self.pending_messages@.len() implies pending.deep_view()[j]
                == self.pending_messages.deep_view()[j] by {
                assert(pending.deep_view()[j] == pending@[j]@);
                assert(self.pending_messages.deep_view()[j] == self.pending_messages@[j]@);
            }
            assert(pending.deep_view() =~= self.pending_messages.deep_view());
        }
        Mempool {
            pending_messages: pending,
            max_size: self.max_size,
            message_timeout: self.message_timeout,
        }
    }
}

impl Mempool {
    /// An empty store with the given bound and time-to-live (seconds).
    pub fn new(max_size: usize, timeout_secs: u64) -> (r: Self)
        ensures
            r@ == Seq::<EntryModel>::empty(),
            r.max_size == max_size,
            r.message_timeout == timeout_secs,
    {
        let r = Mempool { pending_messages: Vec::new(), max_size, message_timeout: timeout_secs };
        proof {
            assert(r@ =~= Seq::<EntryModel>::empty());
        }
        r
    }

    /// How many transactions are pending.
    pub fn pending_count(&self) -> (r: usize)
        ensures
            r == self@.len(),
    {
        self.pending_messages.len()
    }

    /// Up to `limit` pending transactions, oldest arrivals first.
    pub fn get_pending_messages(&self, limit: usize) -> (r: Vec<MessageTransaction>)
        ensures
            r@.len() == if limit <= self@.len() {
                limit as int
            } else {
                self@.len() as int
            },
            forall|i: int| 0 <= i < r@.len() ==> r.deep_view()[i] == self@[i].tx,
    {
        let mut out: Vec<MessageTransaction> = Vec::new();
        let mut i: usize = 0;
        while i < limit && i < self.pending_messages.len()
            invariant
                i <= limit,
                i <= self.pending_messages@.len(),
                out@.len() == i,
                forall|j: int| 0 <= j < i ==> out@[j]@ == self@[j].tx,
            decreases self.pending_messages@.len() - i,
        {
            let e = self.pending_messages[i].tx.clone();
            out.push(e);
            i += 1;
        }
        proof {
            assert forall|j: int| 0 <= j < out@.len() implies out.deep_view()[j] == self@[j].tx by {
                assert(out.deep_view()[j] == out@[j]@);
            }
        }
        out
    }

    /// Removes every entry whose id occurs in `ids`; missing ids are
    /// ignored.
    pub fn remove_messages(&mut self, ids: &Vec<String>)
        ensures
            final(self)@ == remove_ids(old(self)@, ids.deep_view()),
            final(self).max_size == old(self).max_size,
            final(self).message_timeout == old(self).message_timeout,
            ids_distinct(old(self)@) ==> ids_distinct(final(self)@),
    {
        let ghost c = Criterion::NotIn(ids.deep_view());
        let ghost src = self.pending_messages.deep_view();
        let mut out: Vec<PoolEntry> = Vec::new();
        let mut i: usize = 0;
        while i < self.pending_messages.len()
            invariant
                i <= self.pending_messages@.len(),
                c == Criterion::NotIn(ids.deep_view()),
                src == self.pending_messages.deep_view(),
                out.deep_view() == keep(src.take(i as int), c),
            decreases self.pending_messages@.len() - i,
        {
            let ghost pre = out.deep_view();
            let e = &self.pending_messages[i];
            if !contains_string(ids, &e.tx.id) {
                out.push(e.clone());
                proof {
                    assert forall|j: int| 0 <= j < out@.len() implies out.deep_view()[j]
                        == pre.push(src[i as int])[j] by {
                        assert(out.deep_view()[j] == out@[j]@);
                    }
                    assert(out.deep_view() =~= pre.push(src[i as int]));
                }
            }
            proof {
                assert(src[i as int] == self.pending_messages@[i as int]@);
                lemma_keep_take_step(src, c, i as int);
            }
            i += 1;
        }
        proof {
            assert(src.take(src.len() as int) =~= src);
            lemma_keep_facts(src, c);
        }
        self.pending_messages = out;
    }

    /// Removes every entry that has expired by `now`.
    pub fn clean_expired_at(&mut self, now: i64)
        ensures
            final(self)@ == clean(old(self)@, now, old(self).message_timeout),
            final(self).max_size == old(self).max_size,
            final(self).message_timeout == old(self).message_timeout,
            ids_distinct(old(self)@) ==> ids_distinct(final(self)@),
    {
        let timeout = self.message_timeout;
        let ghost c = Criterion::Fresh(now, timeout);
        let ghost src = self.pending_messages.deep_view();
        let mut out: Vec<PoolEntry> = Vec::new();
        let mut i: usize = 0;
        while i < self.pending_messages.len()
            invariant
                i <= self.pending_messages@.len(),
                c == Criterion::Fresh(now, old(self).message_timeout),
                timeout == old(self).message_timeout,
                src == self.pending_messages.deep_view(),
                out.deep_view() == keep(src.take(i as int), c),
            decreases self.pending_messages@.len() - i,
        {
            let ghost pre = out.deep_view();
            let e = &self.pending_messages[i];
            let expired = (now as i128) - (e.added_at as i128) > (timeout as i128);
            if !expired {
                out.push(e.clone());
                proof {
                    assert forall|j: int| 0 <= j < out@.len() implies out.deep_view()[j]
                        == pre.push(src[i as int])[j] by {
                        assert(out.deep_view()[j] == out@[j]@);
                    }
                    assert(out.deep_view() =~= pre.push(src[i as int]));
                }
            }
            proof {
                assert(src[i as int] == self.pending_messages@[i as int]@);
                lemma_keep_take_step(src, c, i as int);
            }
            i += 1;
        }
        proof {
            assert(src.take(src.len() as int) =~= src);
            lemma_keep_facts(src, c);
        }
        self.pending_messages = out;
    }

    /// Removes every entry that has expired by the current clock. The
    /// store afterwards is the old one cleaned at some instant.
    pub fn clean_expired_messages(&mut self)
        ensures
            exists|now: i64|
                final(self)@ == clean(old(self)@, now, old(self).message_timeout),
            final(self).max_size == old(self).max_size,
            final(self).message_timeout == old(self).message_timeout,
            ids_distinct(old(self)@) ==> ids_distinct(final(self)@),
    {
        let now = now_ts();
        self.clean_expired_at(now);
    }

    /// The deterministic core of an insertion: runs the capacity check
    /// (cleaning when over the bound), then mints and stores the
    /// transaction under `id` at time `now`. A stored entry with the
    /// same id is displaced.
    pub fn add_message_at(&mut self, message: String, id: String, now: i64) -> (r: Result<
        MessageTransaction,
        String,
    >)
        ensures
            final(self).max_size == old(self).max_size,
            final(self).message_timeout == old(self).message_timeout,
            ids_distinct(old(self)@) ==> ids_distinct(final(self)@),
            match r {
                Ok(tx) => {
                    &&& maybe_cleaned(
                        old(self)@,
                        old(self).max_size as int,
                        now,
                        old(self).message_timeout,
                    ).len() <= old(self).max_size
                    &&& tx@ == (TxModel {
                        id: id@,
                        message: message@,
                        timestamp: now,
                        submitted_at: now,
                    })
                    &&& final(self)@ == remove_id(
                        maybe_cleaned(
                            old(self)@,
                            old(self).max_size as int,
                            now,
                            old(self).message_timeout,
                        ),
                        id@,
                    ).push(EntryModel { tx: tx@, added_at: now })
                },
                Err(e) => {
                    &&& maybe_cleaned(
                        old(self)@,
                        old(self).max_size as int,
                        now,
                        old(self).message_timeout,
                    ).len() > old(self).max_size
                    &&& final(self)@ == maybe_cleaned(
                        old(self)@,
                        old(self).max_size as int,
                        now,
                        old(self).message_timeout,
                    )
                    &&& e@ == "Mempool is full"@
                },
            },
    {
        if self.pending_messages.len() > self.max_size {
            self.clean_expired_at(now);
            if self.pending_messages.len() > self.max_size {
                return Err(String::from_str("Mempool is full"));
            }
        }
        let tx = MessageTransaction {
            id,
            message,
            timestamp: now,
            submitted_at: now,
        };
        self.remove_by_id(&tx.id);
        let entry = PoolEntry { tx: tx.clone(), added_at: now };
        self.pending_messages.push(entry);
        proof {
            if ids_distinct(old(self)@) {
                let mc = maybe_cleaned(
                    old(self)@,
                    old(self).max_size as int,
                    now,
                    old(self).message_timeout,
                );
                lemma_keep_facts(old(self)@, Criterion::Fresh(now, old(self).message_timeout));
                assert(ids_distinct(mc));
                lemma_keep_facts(mc, Criterion::NotId(tx.id@));
                let q = remove_id(mc, tx.id@);
                let pushed = q.push(EntryModel { tx: tx@, added_at: now });
                assert forall|i: int, j: int| 0 <= i < j < pushed.len() implies pushed[i].tx.id
                    != pushed[j].tx.id by {
                    if j < q.len() {
                        assert(pushed[i] == q[i] && pushed[j] == q[j]);
                    } else {
                        assert(pushed[j].tx.id == tx.id@);
                        assert(pushed[i] == q[i]);
                        assert(kept(Criterion::NotId(tx.id@), q[i]));
                    }
                }
                assert(ids_distinct(pushed));
            }
            assert(self@ =~= remove_id(
                maybe_cleaned(
                    old(self)@,
                    old(self).max_size as int,
                    now,
                    old(self).message_timeout,
                ),
                tx.id@,
            ).push(EntryModel { tx: tx@, added_at: now }));
        }
        Ok(tx)
    }

    /// Mints a fresh transaction for `message` and stores it, failing
    /// when the store is over its bound even after eviction.
    pub fn add_message(&mut self, message: String) -> (r: Result<MessageTransaction, String>)
        ensures
            final(self).max_size == old(self).max_size,
            final(self).message_timeout == old(self).message_timeout,
            ids_distinct(old(self)@) ==> ids_distinct(final(self)@),
            match r {
                Ok(tx) => {
                    &&& tx@.message == message@
                    &&& tx@.timestamp == tx@.submitted_at
                    &&& final(self)@.len() <= old(self).max_size + 1
                    &&& final(self)@.len() >= 1
                    &&& final(self)@.last().tx == tx@
                    &&& exists|now: i64|
                        {
                            &&& maybe_cleaned(
                                old(self)@,
                                old(self).max_size as int,
                                now,
                                old(self).message_timeout,
                            ).len() <= old(self).max_size
                            &&& final(self)@ == #[trigger] remove_id(
                                maybe_cleaned(
                                    old(self)@,
                                    old(self).max_size as int,
                                    now,
                                    old(self).message_timeout,
                                ),
                                tx@.id,
                            ).push(EntryModel { tx: tx@, added_at: now })
                        }
                },
                Err(e) => {
                    &&& final(self)@.len() > old(self).max_size
                    &&& e@ == "Mempool is full"@
                    &&& exists|now: i64|
                        final(self)@ == #[trigger] maybe_cleaned(
                            old(self)@,
                            old(self).max_size as int,
                            now,
                            old(self).message_timeout,
                        )
                },
            },
    {
        let id = new_uuid();
        let now = now_ts();
        proof {
            lemma_keep_facts(
                maybe_cleaned(self@, self.max_size as int, now, self.message_timeout),
                Criterion::NotId(id@),
            );
        }
        let r = self.add_message_at(message, id, now);
        proof {
            match &r {
                Ok(tx) => {
                    assert(maybe_cleaned(
                        old(self)@,
                        old(self).max_size as int,
                        now,
                        old(self).message_timeout,
                    ).len() <= old(self).max_size);
                    assert(self@ == remove_id(
                        maybe_cleaned(
                            old(self)@,
                            old(self).max_size as int,
                            now,
                            old(self).message_timeout,
                        ),
                        tx@.id,
                    ).push(EntryModel { tx: tx@, added_at: now }));
                },
                Err(_) => {
                    assert(self@ == maybe_cleaned(
                        old(self)@,
                        old(self).max_size as int,
                        now,
                        old(self).message_timeout,
                    ));
                },
            }
        }
        r
    }

    /// Removes every entry carrying `id`.
    fn remove_by_id(&mut self, id: &String)
        ensures
            final(self)@ == remove_id(old(self)@, id@),
            final(self).max_size == old(self).max_size,
            final(self).message_timeout == old(self).message_timeout,
    {
        let ghost c = Criterion::NotId(id@);
        let ghost src = self.pending_messages.deep_view();
        let mut out: Vec<PoolEntry> = Vec::new();
        let mut i: usize = 0;
        while i < self.pending_messages.len()
            invariant
                i <= self.pending_messages@.len(),
                c == Criterion::NotId(id@),
                src == self.pending_messages.deep_view(),
                out.deep_view() == keep(src.take(i as int), c),
            decreases self.pending_messages@.len() - i,
        {
            let ghost pre = out.deep_view();
            let e = &self.pending_messages[i];
            if !(e.tx.id == *id) {
                out.push(e.clone());
                proof {
                    assert forall|j: int| 0 <= j < out@.len() implies out.deep_view()[j]
                        == pre.push(src[i as int])[j] by {
                        assert(out.deep_view()[j] == out@[j]@);
                    }
                    assert(out.deep_view() =~= pre.push(src[i as int]));
                }
            }
            proof {
                assert(src[i as int] == self.pending_messages@[i as int]@);
                lemma_keep_take_step(src, c, i as int);
            }
            i += 1;
        }
        proof {
            assert(src.take(src.len() as int) =~= src);
        }
        self.pending_messages = out;
    }
}

/// Whether some element of `v` equals `s`.
fn contains_string(v: &Vec<String>, s: &String) -> (r: bool)
    ensures
        r == v.deep_view().contains(s@),
{
    let mut i: usize = 0;
    while i < v.len()
        invariant
            i <= v@.len(),
            forall|j: int| 0 <= j < i ==> v.deep_view()[j] != s@,
        decreases v@.len() - i,
    {
        if v[i] == *s {
            proof {
                assert(v.deep_view()[i as int] == s@);
            }
            return true;
        }
        i += 1;
    }
    false
}

/// One step of filtering a prefix: the filtered take grows by the new
/// element exactly when the predicate holds of it.
pub proof fn lemma_keep_take_step(s: Seq<EntryModel>, c: Criterion, i: int)
    requires
        0 <= i < s.len(),
    ensures
        keep(s.take(i + 1), c) == if kept(c, s[i]) {
            keep(s.take(i), c).push(s[i])
        } else {
            keep(s.take(i), c)
        },
{
    lemma_keep_snoc(s.take(i + 1), c);
    assert(s.take(i + 1).drop_last() =~= s.take(i));
    assert(s.take(i + 1).last() == s[i]);
}

/// Filtering splits over a final element.
proof fn lemma_keep_snoc(s: Seq<EntryModel>, c: Criterion)
    requires
        s.len() >= 1,
    ensures
        keep(s, c) == if kept(c, s.last()) {
            keep(s.drop_last(), c).push(s.last())
        } else {
            keep(s.drop_last(), c)
        },
    decreases s.len(),
{
    let last = s.last();
    if s.len() == 1 {
        assert(s.drop_first().len() == 0);
        assert(keep(s.drop_first(), c) =~= Seq::<EntryModel>::empty());
        assert(s.drop_last().len() == 0);
        assert(keep(s.drop_last(), c) =~= Seq::<EntryModel>::empty());
        assert(s[0] == last);
        if kept(c, last) {
            assert(keep(s, c) =~= keep(s.drop_last(), c).push(last));
        } else {
            assert(keep(s, c) =~= keep(s.drop_last(), c));
        }
    } else {
        let rest = s.drop_first();
        let dl = s.drop_last();
        lemma_keep_snoc(rest, c);
        assert(rest.drop_last() =~= dl.drop_first());
        assert(rest.last() == last);
        assert(dl[0] == s[0]);
        assert(keep(s, c) == if kept(c, s[0]) {
            seq![s[0]] + keep(rest, c)
        } else {
            keep(rest, c)
        });
        assert(keep(dl, c) == if kept(c, dl[0]) {
            seq![dl[0]] + keep(dl.drop_first(), c)
        } else {
            keep(dl.drop_first(), c)
        });
        assert(keep(dl.drop_first(), c) == keep(rest.drop_last(), c));
        if kept(c, last) {
            assert(keep(rest, c) == keep(rest.drop_last(), c).push(last));
            assert(keep(s, c) =~= keep(dl, c).push(last));
        } else {
            assert(keep(rest, c) == keep(rest.drop_last(), c));
            assert(keep(s, c) =~= keep(dl, c));
        }
    }
}

} // verus!
