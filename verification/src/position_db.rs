//! Sharded store of position values.
//!
//! Each key belongs to one of 16 shards, which the leading nibble of its hash
//! names. A shard keeps one row for each key hash and version; rows are ordered
//! by hash, and the rows of one hash from the latest version to the earliest.
//!
//! The shards' databases read and write. What to ask of them, and what their
//! replies mean, is decided here.

use crate::error;
use crate::hash_value::HashValue;
use crate::merkle_node::Version;
use crate::position_rows;
use vstd::prelude::*;
use vstd::string::StringExecFns;

verus! {

/// Number of shards.
pub const NUM_NATIVE_VALUE_SHARDS: usize = 16;

/// The column families of each shard. Only shard 0 writes to `db_metadata`.
pub const POSITION_DB_COLUMN_FAMILIES: [&'static str; 4] = [
    "default",
    "db_metadata",
    "position_value",
    "stale_position_value_index",
];

/// A state key with the hash that is cached beside it.
#[derive(Debug, PartialEq, Eq)]
pub struct StateKey<K> {
    pub key: K,
    pub hash: HashValue,
}

/// Key of a row: the hash of a state key, and the version that wrote the row.
pub type RowKey = (HashValue, Version);

/// What a seek for the first row from a key on finds: the row, or the failure to
/// read it; nothing, where no row follows; or the failure to seek.
pub type SeekReply<V, E> = Result<Option<Result<(RowKey, Option<V>), E>>, E>;

/// A seek in a shard's rows: for the first row from `key` on.
#[derive(Debug, PartialEq, Eq)]
pub struct SeekRequest<'a, D> {
    pub db: &'a D,
    pub key: RowKey,
}

/// A piece of a batch of writes.
#[derive(Debug, PartialEq, Eq)]
pub enum WriteAction<V> {
    /// Add a row to the shard's batch. The value of a deleted position is `None`.
    Put { shard: usize, key: RowKey, value: Option<V> },
    /// Write the shard's batch at once.
    Commit { shard: usize },
}

/// The shard of a hash.
pub open spec fn shard_of(state_key_hash: HashValue) -> usize {
    state_key_hash.leading_nibble() as usize
}

/// The put for one write of a batch at `version`.
pub open spec fn put_of<V>(version: Version, write: (HashValue, Option<V>)) -> WriteAction<V> {
    WriteAction::Put { shard: shard_of(write.0), key: (write.0, version), value: write.1 }
}

/// The puts of a batch, in its order.
pub open spec fn puts_of<V>(version: Version, writes: Seq<(HashValue, Option<V>)>) -> Seq<
    WriteAction<V>,
> {
    writes.map_values(|write: (HashValue, Option<V>)| put_of(version, write))
}

/// Some write of the batch goes to the shard.
pub open spec fn touches<V>(writes: Seq<(HashValue, Option<V>)>, shard: int) -> bool {
    exists|i: int| 0 <= i < writes.len() && shard_of((#[trigger] writes[i]).0) == shard
}

/// The commits of those of the first `shards` shards that the batch writes to, in
/// the order of the shards.
pub open spec fn commits_of<V>(writes: Seq<(HashValue, Option<V>)>, shards: nat) -> Seq<
    WriteAction<V>,
>
    decreases shards,
{
    if shards == 0 {
        Seq::empty()
    } else {
        let earlier = commits_of(writes, (shards - 1) as nat);
        if touches(writes, shards - 1) {
            earlier.push(WriteAction::Commit { shard: (shards - 1) as usize })
        } else {
            earlier
        }
    }
}

/// What a batch of writes does: all puts, in the order of the writes, and then the
/// commits of the shards that it writes to.
pub open spec fn write_actions<V>(version: Version, writes: Seq<(HashValue, Option<V>)>) -> Seq<
    WriteAction<V>,
> {
    puts_of(version, writes) + commits_of(writes, 16)
}

/// The row that a seek found, if it is one of the sought hash.
pub open spec fn row_of_hash<V, E>(
    state_key_hash: HashValue,
    found: Option<Result<(RowKey, Option<V>), E>>,
) -> Option<(Version, Option<V>)> {
    match found {
        Some(Ok((key, value))) => if key.0 == state_key_hash {
            Some((key.1, value))
        } else {
            None
        },
        _ => None,
    }
}

/// The value of a position, from what a seek found: none where the row is not of
/// the position, or is a deletion.
pub open spec fn value_from<V, E>(
    state_key_hash: HashValue,
    found: Option<Result<(RowKey, Option<V>), E>>,
) -> Option<V> {
    match row_of_hash(state_key_hash, found) {
        Some((_, value)) => value,
        None => None,
    }
}

/// The version of a position's row, from what a seek found.
pub open spec fn version_from<V, E>(
    state_key_hash: HashValue,
    found: Option<Result<(RowKey, Option<V>), E>>,
) -> Option<Version> {
    match row_of_hash(state_key_hash, found) {
        Some((row_version, _)) => Some(row_version),
        None => None,
    }
}

/// The name of a shard's directory.
pub open spec fn shard_directory(shard: nat) -> Seq<char> {
    "shard_"@ + error::decimal(shard)
}

/// Handles to the databases of the 16 shards.
#[derive(Debug)]
pub struct PositionDb<D> {
    shards: [D; 16],
}

impl<D> PositionDb<D> {
    /// The handles, in the order of the shards.
    pub closed spec fn handles(self) -> [D; 16] {
        self.shards
    }

    /// The store over one handle for each shard.
    pub fn new(shards: [D; 16]) -> (r: Self)
        ensures
            r.handles() == shards,
    {
        PositionDb { shards }
    }

    /// The store with one database in the place of all shards.
    pub fn new_uniform_for_test(db: D) -> (r: Self) where D: Clone
        ensures
            forall|i: int| 0 <= i < 16 ==> cloned(db, #[trigger] r.handles()[i]),
    {
        let shards = [
            db.clone(), db.clone(), db.clone(), db.clone(),
            db.clone(), db.clone(), db.clone(), db.clone(),
            db.clone(), db.clone(), db.clone(), db.clone(),
            db.clone(), db.clone(), db.clone(), db.clone(),
        ];
        PositionDb { shards }
    }

    /// The name of the store.
    pub fn name() -> (r: &'static str)
        ensures
            r@ == "position_db"@,
    {
        "position_db"
    }

    /// The column families of each shard.
    pub fn column_families() -> (r: [&'static str; 4])
        ensures
            r == POSITION_DB_COLUMN_FAMILIES,
            r[0]@ == "default"@,
            r[1]@ == "db_metadata"@,
            r[2]@ == "position_value"@,
            r[3]@ == "stale_position_value_index"@,
    {
        POSITION_DB_COLUMN_FAMILIES
    }

    /// The handle of one shard.
    pub fn shard(&self, idx: usize) -> (r: &D)
        requires
            idx < NUM_NATIVE_VALUE_SHARDS,
        ensures
            *r == self.handles()[idx as int],
    {
        &self.shards[idx]
    }

    /// The handles of all shards.
    pub fn shards(&self) -> (r: &[D; 16])
        ensures
            *r == self.handles(),
    {
        &self.shards
    }

    /// The shard of a state key: that of its hash.
    pub fn shard_of_state_key<K>(state_key: &StateKey<K>) -> (r: usize)
        ensures
            r == shard_of(state_key.hash),
            r == state_key.hash.bytes[0] / 16,
            r < NUM_NATIVE_VALUE_SHARDS,
    {
        Self::shard_of_hash(state_key.hash)
    }

    /// The shard of a state key's hash: the leading nibble.
    pub fn shard_of_hash(state_key_hash: HashValue) -> (r: usize)
        ensures
            r == shard_of(state_key_hash),
            r == state_key_hash.bytes[0] / 16,
            r < NUM_NATIVE_VALUE_SHARDS,
    {
        state_key_hash.get_leading_nibble() as usize
    }

    /// The seek that answers what value a position has at `version`.
    pub fn get_position_value_request<'a>(
        &'a self,
        state_key_hash: HashValue,
        version: Version,
    ) -> (r: SeekRequest<'a, D>)
        ensures
            *r.db == self.handles()[shard_of(state_key_hash) as int],
            *r.db == self.handles()[state_key_hash.bytes[0] as int / 16],
            r.key == (state_key_hash, version),
    {
        SeekRequest {
            db: self.shard(Self::shard_of_hash(state_key_hash)),
            key: (state_key_hash, version),
        }
    }

    /// The value of a position, from the first row at or before the version in
    /// question. There is none where the row belongs to another position, where
    /// it is a deletion, and where no row could be read. A failed seek is handed on.
    pub fn get_position_value<V, E>(
        &self,
        state_key_hash: HashValue,
        reply: SeekReply<V, E>,
    ) -> (r: Result<Option<V>, E>)
        ensures
            match reply {
                Err(e) => r == Err::<Option<V>, E>(e),
                Ok(found) => r == Ok::<Option<V>, E>(value_from(state_key_hash, found)),
            },
            match reply {
                Err(e) => r == Err::<Option<V>, E>(e),
                Ok(Some(Ok(row))) => r == Ok::<Option<V>, E>(
                    if row.0.0 == state_key_hash {
                        row.1
                    } else {
                        None
                    },
                ),
                Ok(_) => r == Ok::<Option<V>, E>(None),
            },
    {
        match reply {
            Err(e) => Err(e),
            Ok(Some(Ok((key, value)))) => {
                if key.0 == state_key_hash {
                    Ok(value)
                } else {
                    Ok(None)
                }
            },
            Ok(_) => Ok(None),
        }
    }

    /// The seek that answers when a position was last written before
    /// `at_version`. Nothing was written before version 0.
    pub fn find_prior_version_request<'a>(
        &'a self,
        state_key_hash: HashValue,
        at_version: Version,
    ) -> (r: Option<SeekRequest<'a, D>>)
        ensures
            at_version == 0 ==> r is None,
            at_version > 0 ==> {
                &&& r matches Some(request)
                &&& *request.db == self.handles()[shard_of(state_key_hash) as int]
                &&& *request.db == self.handles()[state_key_hash.bytes[0] as int / 16]
                &&& request.key == (state_key_hash, (at_version - 1) as Version)
            },
    {
        if at_version == 0 {
            return None;
        }
        Some(
            SeekRequest {
                db: self.shard(Self::shard_of_hash(state_key_hash)),
                key: (state_key_hash, at_version - 1),
            },
        )
    }

    /// The version at which a position was last written, from the first row
    /// before the version in question.
    pub fn find_prior_version<V, E>(
        &self,
        state_key_hash: HashValue,
        at_version: Version,
        reply: SeekReply<V, E>,
    ) -> (r: Result<Option<Version>, E>)
        ensures
            at_version == 0 ==> r == Ok::<Option<Version>, E>(None),
            at_version > 0 ==> match reply {
                Err(e) => r == Err::<Option<Version>, E>(e),
                Ok(found) => r == Ok::<Option<Version>, E>(version_from(state_key_hash, found)),
            },
            at_version > 0 ==> match reply {
                Err(e) => r == Err::<Option<Version>, E>(e),
                Ok(Some(Ok(row))) => r == Ok::<Option<Version>, E>(
                    if row.0.0 == state_key_hash {
                        Some(row.0.1)
                    } else {
                        None
                    },
                ),
                Ok(_) => r == Ok::<Option<Version>, E>(None),
            },
    {
        if at_version == 0 {
            return Ok(None);
        }
        match reply {
            Err(e) => Err(e),
            Ok(Some(Ok((key, _)))) => {
                if key.0 == state_key_hash {
                    Ok(Some(key.1))
                } else {
                    Ok(None)
                }
            },
            Ok(_) => Ok(None),
        }
    }

    /// The actions that write a batch at `version`. They are to be taken in order,
    /// up to the first that fails.
    pub fn write_position_batch<V>(
        &self,
        version: Version,
        writes: Vec<(HashValue, Option<V>)>,
    ) -> (r: Vec<WriteAction<V>>)
        ensures
            r@ == write_actions(version, writes@),
            r@.len() >= writes@.len(),
            forall|i: int|
                0 <= i < writes@.len() ==> #[trigger] r@[i] == (WriteAction::Put {
                    shard: (writes@[i].0.bytes[0] / 16) as usize,
                    key: (writes@[i].0, version),
                    value: writes@[i].1,
                }),
            forall|i: int, j: int|
                writes@.len() <= i < j < r@.len() ==> (#[trigger] r@[i])->Commit_shard < (
                #[trigger] r@[j])->Commit_shard,
            forall|i: int|
                writes@.len() <= i < r@.len() ==> (#[trigger] r@[i]) is Commit && exists|k: int|
                    0 <= k < writes@.len() && (#[trigger] writes@[k]).0.bytes[0] / 16
                        == r@[i]->Commit_shard,
            forall|k: int|
                0 <= k < writes@.len() ==> (#[trigger] writes@[k]).0.bytes[0] / 16 < 16
                    && exists|i: int|
                    writes@.len() <= i < r@.len() && (#[trigger] r@[i])->Commit_shard
                        == writes@[k].0.bytes[0] / 16,
    {
        let ghost all = writes@;
        let mut touched: [bool; 16] = [false; 16];
        let mut actions: Vec<WriteAction<V>> = Vec::new();
        assert(actions@ =~= puts_of(version, all.take(0)));
        for write in rest: writes
            invariant
                rest.seq() == all,
                actions@ == puts_of(version, all.take(rest.index() as int)),
                forall|s: int|
                    0 <= s < 16 ==> touched[s] == touches(all.take(rest.index() as int), s),
        {
            let ghost done = all.take(rest.index() as int);
            let ghost pushed = write;
            let (state_key_hash, value) = write;
            let shard = Self::shard_of_hash(state_key_hash);
            touched[shard] = true;
            actions.push(WriteAction::Put { shard, key: (state_key_hash, version), value });
            proof {
                assert(all.take(rest.index() + 1) =~= done.push(pushed));
                assert(actions@ =~= puts_of(version, done.push(pushed)));
                assert forall|s: int| 0 <= s < 16 implies touched[s] == touches(
                    done.push(pushed),
                    s,
                ) by {
                    lemma_touches_push(done, pushed, s);
                }
            }
        }
        assert(all.take(all.len() as int) =~= all);
        let mut shard: usize = 0;
        assert(actions@ =~= puts_of(version, all) + commits_of(all, 0));
        while shard < NUM_NATIVE_VALUE_SHARDS
            invariant
                shard <= 16,
                forall|s: int| 0 <= s < 16 ==> touched[s] == touches(all, s),
                actions@ == puts_of(version, all) + commits_of(all, shard as nat),
            decreases 16 - shard,
        {
            if touched[shard] {
                actions.push(WriteAction::Commit { shard });
            }
            shard += 1;
            assert(actions@ =~= puts_of(version, all) + commits_of(all, shard as nat));
        }
        proof {
            position_rows::law_batch_puts_then_commits(version, all);
        }
        actions
    }
}

proof fn lemma_touches_push<V>(
    writes: Seq<(HashValue, Option<V>)>,
    write: (HashValue, Option<V>),
    shard: int,
)
    ensures
        touches(writes.push(write), shard) == (touches(writes, shard) || shard_of(write.0)
            == shard),
{
    let more = writes.push(write);
    if touches(writes, shard) {
        let i = choose|i: int|
            0 <= i < writes.len() && shard_of((#[trigger] writes[i]).0) == shard;
        assert(more[i] == writes[i]);
    }
    if shard_of(write.0) == shard {
        assert(more[writes.len() as int] == write);
    }
    if touches(more, shard) && shard_of(write.0) != shard {
        let i = choose|i: int| 0 <= i < more.len() && shard_of((#[trigger] more[i]).0) == shard;
        assert(more[i] == writes[i]);
    }
}

/// The name of a shard's directory: `shard_` and the shard's number.
pub fn shard_directory_name(shard: usize) -> (r: String)
    ensures
        r@ == shard_directory(shard as nat),
        r@ == "shard_"@ + error::decimal(shard as nat),
{
    let mut name = String::from_str("shard_");
    error::append_decimal(&mut name, shard);
    name
}

/// The course of opening the shards one after the other.
pub enum Opening<D, E> {
    /// These shards are open, and the next one is to be opened.
    Waiting(Seq<D>),
    /// All shards are open.
    Opened(Seq<D>),
    /// A shard failed to open. No other shard is opened.
    Failed(E),
}

impl<D, E> Opening<D, E> {
    /// The opening that is waited for: the directory's name and the shard's number.
    pub open spec fn request(self) -> Option<(Seq<char>, nat)> {
        match self {
            Opening::Waiting(opened) => Some((shard_directory(opened.len()), opened.len())),
            _ => None,
        }
    }

    /// The course after the opening that is waited for had the result.
    pub open spec fn after(self, reply: Result<D, E>) -> Self {
        match (self, reply) {
            (Opening::Waiting(_), Err(e)) => Opening::Failed(e),
            (Opening::Waiting(opened), Ok(db)) => if opened.len() + 1 < 16 {
                Opening::Waiting(opened.push(db))
            } else {
                Opening::Opened(opened.push(db))
            },
            _ => self,
        }
    }

    /// The course, where the opening of each shard has the result given for it.
    pub open spec fn run(replies: Seq<Result<D, E>>) -> Self
        decreases replies.len(),
    {
        if replies.len() == 0 {
            Opening::Waiting(Seq::empty())
        } else {
            Self::run(replies.drop_last()).after(replies.last())
        }
    }

    /// The openings that are asked for in that course, in their order.
    pub open spec fn requests(replies: Seq<Result<D, E>>) -> Seq<(Seq<char>, nat)>
        decreases replies.len(),
    {
        if replies.len() == 0 {
            Seq::empty()
        } else {
            let earlier = Self::requests(replies.drop_last());
            match Self::run(replies.drop_last()).request() {
                Some(request) => earlier.push(request),
                None => earlier,
            }
        }
    }
}

/// The openings of the first `shards` shards, in their order.
pub open spec fn openings(shards: nat) -> Seq<(Seq<char>, nat)> {
    Seq::new(shards, |shard: int| (shard_directory(shard as nat), shard as nat))
}

proof fn lemma_opening_prefix<D, E>(replies: Seq<Result<D, E>>)
    requires
        replies.len() <= 16,
        forall|i: int| 0 <= i < replies.len() ==> (#[trigger] replies[i]) is Ok,
    ensures
        Opening::requests(replies) == openings(replies.len()),
        Opening::run(replies) == if replies.len() < 16 {
            Opening::<D, E>::Waiting(replies.map_values(|reply: Result<D, E>| reply->Ok_0))
        } else {
            Opening::Opened(replies.map_values(|reply: Result<D, E>| reply->Ok_0))
        },
    decreases replies.len(),
{
    let handle = |reply: Result<D, E>| reply->Ok_0;
    if replies.len() == 0 {
        assert(replies.map_values(handle) =~= Seq::empty());
        assert(openings(0) =~= Seq::empty());
    } else {
        let fewer = replies.drop_last();
        assert forall|i: int| 0 <= i < fewer.len() implies (#[trigger] fewer[i]) is Ok by {
            assert(fewer[i] == replies[i]);
        }
        lemma_opening_prefix(fewer);
        assert(replies[replies.len() - 1] is Ok);
        assert(replies.map_values(handle) =~= fewer.map_values(handle).push(handle(replies.last())));
        assert(openings(replies.len()) =~= openings(fewer.len()).push(
            (shard_directory(fewer.len()), fewer.len()),
        ));
    }
}

/// Where every shard opens, the shards are opened once each, in ascending order, and
/// the store has their handles in that order.
pub proof fn law_opening_opens_each_shard_once<D, E>(replies: Seq<Result<D, E>>)
    requires
        replies.len() == 16,
        forall|i: int| 0 <= i < 16 ==> (#[trigger] replies[i]) is Ok,
    ensures
        Opening::requests(replies) == openings(16),
        Opening::run(replies) == Opening::<D, E>::Opened(
            replies.map_values(|reply: Result<D, E>| reply->Ok_0),
        ),
{
    lemma_opening_prefix(replies);
}

/// The first shard that fails to open ends the opening with its error: the shards up
/// to it are opened once each, in ascending order, and no other is.
pub proof fn law_opening_stops_at_first_failure<D, E>(replies: Seq<Result<D, E>>, failed: int)
    requires
        0 <= failed < replies.len() <= 16,
        replies[failed] is Err,
        forall|i: int| 0 <= i < failed ==> (#[trigger] replies[i]) is Ok,
    ensures
        Opening::requests(replies) == openings((failed + 1) as nat),
        Opening::run(replies) == Opening::<D, E>::Failed(replies[failed]->Err_0),
    decreases replies.len(),
{
    let fewer = replies.drop_last();
    if failed < replies.len() - 1 {
        assert forall|i: int| 0 <= i < failed implies (#[trigger] fewer[i]) is Ok by {
            assert(fewer[i] == replies[i]);
        }
        law_opening_stops_at_first_failure(fewer, failed);
    } else {
        assert forall|i: int| 0 <= i < fewer.len() implies (#[trigger] fewer[i]) is Ok by {
            assert(fewer[i] == replies[i]);
        }
        lemma_opening_prefix(fewer);
        assert(openings(replies.len()) =~= openings(fewer.len()).push(
            (shard_directory(fewer.len()), fewer.len()),
        ));
    }
}

/// The opening of the shards, before all of them are open.
pub struct OpenStage<D> {
    opened: Vec<D>,
}

/// What the opening of the shards does next.
pub enum OpenStep<D> {
    /// Open the shard of [`OpenStage::request`], then go on with
    /// [`OpenStage::shard_opened`].
    Open(OpenStage<D>),
    /// Open no more: the store over all shards.
    Done(PositionDb<D>),
}

/// Starts to open the shards: none is open yet.
pub fn open_shards<D>() -> (r: OpenStage<D>)
    ensures
        r.opened() == Seq::<D>::empty(),
{
    OpenStage { opened: Vec::new() }
}

impl<D> OpenStage<D> {
    /// Some shard is not open.
    #[verifier::type_invariant]
    spec fn inv(self) -> bool {
        self.opened@.len() < 16
    }

    /// The handles of the shards that are open, in the order of the shards.
    pub closed spec fn opened(self) -> Seq<D> {
        self.opened@
    }

    /// The shard to open, which is the first that is not open: the name of its
    /// directory and its number.
    pub fn request(&self) -> (r: (String, usize))
        ensures
            self.opened().len() < 16,
            r.0@ == shard_directory(self.opened().len()),
            r.0@ == "shard_"@ + error::decimal(self.opened().len()),
            r.1 == self.opened().len(),
    {
        proof {
            use_type_invariant(self);
        }
        let shard: usize = self.opened.len();
        (shard_directory_name(shard), shard)
    }

    /// Goes on after the shard was opened, or failed to open. A failure is handed on.
    pub fn shard_opened<E>(self, reply: Result<D, E>) -> (r: Result<OpenStep<D>, E>)
        ensures
            match Opening::Waiting(self.opened()).after(reply) {
                Opening::Waiting(opened) => {
                    &&& r matches Ok(OpenStep::Open(next))
                    &&& next.opened() == opened
                },
                Opening::Opened(opened) => {
                    &&& r matches Ok(OpenStep::Done(store))
                    &&& store.handles()@ == opened
                },
                Opening::Failed(e) => r == Err::<OpenStep<D>, E>(e),
            },
            self.opened().len() < 16,
            match reply {
                Err(e) => r == Err::<OpenStep<D>, E>(e),
                Ok(db) => if self.opened().len() < 15 {
                    &&& r matches Ok(OpenStep::Open(next))
                    &&& next.opened() == self.opened().push(db)
                } else {
                    &&& r matches Ok(OpenStep::Done(store))
                    &&& store.handles()@ == self.opened().push(db)
                },
            },
    {
        proof {
            use_type_invariant(&self);
        }
        let OpenStage { mut opened } = self;
        match reply {
            Err(e) => Err(e),
            Ok(db) => {
                opened.push(db);
                if opened.len() < NUM_NATIVE_VALUE_SHARDS {
                    Ok(OpenStep::Open(OpenStage { opened }))
                } else {
                    Ok(OpenStep::Done(PositionDb::new(array_of(opened))))
                }
            },
        }
    }
}

/// The elements of a vector of 16, as an array.
fn array_of<D>(v: Vec<D>) -> (r: [D; 16])
    requires
        v@.len() == 16,
    ensures
        r@ == v@,
{
    let ghost all = v@;
    let mut v = v;
    let d15 = v.pop().unwrap();
    let d14 = v.pop().unwrap();
    let d13 = v.pop().unwrap();
    let d12 = v.pop().unwrap();
    let d11 = v.pop().unwrap();
    let d10 = v.pop().unwrap();
    let d9 = v.pop().unwrap();
    let d8 = v.pop().unwrap();
    let d7 = v.pop().unwrap();
    let d6 = v.pop().unwrap();
    let d5 = v.pop().unwrap();
    let d4 = v.pop().unwrap();
    let d3 = v.pop().unwrap();
    let d2 = v.pop().unwrap();
    let d1 = v.pop().unwrap();
    let d0 = v.pop().unwrap();
    let r = [d0, d1, d2, d3, d4, d5, d6, d7, d8, d9, d10, d11, d12, d13, d14, d15];
    assert(r@ =~= all);
    r
}

/// The name of a shard's directory ends in the shard's number, and so no two shards
/// share a directory.
pub proof fn law_directories_are_numbered(shard: nat, other: nat)
    ensures
        shard_directory(shard).take(6) == "shard_"@,
        error::spelled(shard_directory(shard).skip(6)) == shard,
        shard_directory(shard) == shard_directory(other) ==> shard == other,
{
    reveal_strlit("shard_");
    error::law_decimal_spells_number(shard);
    error::law_decimal_spells_number(other);
    assert(shard_directory(shard).take(6) =~= "shard_"@);
    assert(shard_directory(shard).skip(6) =~= error::decimal(shard));
    assert(shard_directory(other).skip(6) =~= error::decimal(other));
}

} // verus!
