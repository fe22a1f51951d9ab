//! What reads and writes of [`crate::position_db`] mean for the rows of the shards.

use crate::hash_value;
use crate::hash_value::HashValue;
use crate::merkle_node::Version;
use crate::position_db;
use crate::position_db::{RowKey, WriteAction};
use vstd::prelude::*;

verus! {

/// Row `a` stands at or after row `b`: hashes ascend, and the versions of one
/// hash descend.
pub open spec fn at_or_after(a: RowKey, b: RowKey) -> bool {
    b.0.before(a.0) || (a.0 == b.0 && a.1 <= b.1)
}

/// `found` is the first of the rows that stand at or after `key`.
pub open spec fn answers_seek<V>(
    rows: Map<RowKey, Option<V>>,
    key: RowKey,
    found: Option<(RowKey, Option<V>)>,
) -> bool {
    match found {
        Some((first, value)) => {
            &&& rows.contains_key(first)
            &&& rows[first] == value
            &&& at_or_after(first, key)
            &&& forall|other: RowKey| #[trigger]
                rows.contains_key(other) && at_or_after(other, key) ==> at_or_after(other, first)
        },
        None => forall|other: RowKey| #[trigger]
            rows.contains_key(other) ==> !at_or_after(other, key),
    }
}

/// What a seek that found `found` without a failure hands back.
pub open spec fn found_row<V, E>(found: Option<(RowKey, Option<V>)>) -> Option<
    Result<(RowKey, Option<V>), E>,
> {
    match found {
        Some(row) => Some(Ok(row)),
        None => None,
    }
}

/// `latest` is the last version up to `version` at which the hash was written.
pub open spec fn is_latest<V>(
    rows: Map<RowKey, Option<V>>,
    hash: HashValue,
    version: Version,
    latest: Version,
) -> bool {
    &&& rows.contains_key((hash, latest))
    &&& latest <= version
    &&& forall|other: Version| #[trigger]
        rows.contains_key((hash, other)) && other <= version ==> other <= latest
}

/// The value of a position at a version: what was last written up to it; none
/// where nothing was, or where it was a deletion.
pub open spec fn value_at<V>(
    rows: Map<RowKey, Option<V>>,
    hash: HashValue,
    version: Version,
) -> Option<V> {
    if exists|latest: Version| is_latest(rows, hash, version, latest) {
        rows[(hash, choose|latest: Version| is_latest(rows, hash, version, latest))]
    } else {
        None
    }
}

/// The last version before `at_version` at which a position was written.
pub open spec fn written_before<V>(
    rows: Map<RowKey, Option<V>>,
    hash: HashValue,
    at_version: Version,
) -> Option<Version> {
    let up_to = (at_version - 1) as Version;
    if at_version > 0 && exists|latest: Version| is_latest(rows, hash, up_to, latest) {
        Some(choose|latest: Version| is_latest(rows, hash, up_to, latest))
    } else {
        None
    }
}

/// A seek at a hash and version finds the latest row up to the version, if the
/// hash has one.
proof fn lemma_seek_finds_latest<V>(
    rows: Map<RowKey, Option<V>>,
    hash: HashValue,
    version: Version,
    found: Option<(RowKey, Option<V>)>,
)
    requires
        answers_seek(rows, (hash, version), found),
    ensures
        match found {
            Some((key, _)) => if key.0 == hash {
                is_latest(rows, hash, version, key.1)
            } else {
                forall|latest: Version| !is_latest(rows, hash, version, latest)
            },
            None => forall|latest: Version| !is_latest(rows, hash, version, latest),
        },
{
    if let Some((key, _)) = found {
        if key.0 == hash {
            if hash.before(hash) {
                hash_value::lemma_asymmetric(hash, hash);
            }
            assert forall|other: Version| #[trigger]
                rows.contains_key((hash, other)) && other <= version implies other <= key.1 by {
                assert(at_or_after((hash, other), key));
            }
        } else {
            assert forall|latest: Version| !is_latest(rows, hash, version, latest) by {
                if is_latest(rows, hash, version, latest) {
                    assert(at_or_after((hash, latest), key));
                    hash_value::lemma_asymmetric(hash, key.0);
                }
            }
        }
    }
}

/// The latest version is unique.
proof fn lemma_latest_unique<V>(
    rows: Map<RowKey, Option<V>>,
    hash: HashValue,
    version: Version,
    a: Version,
    b: Version,
)
    requires
        is_latest(rows, hash, version, a),
        is_latest(rows, hash, version, b),
    ensures
        a == b,
{
}

/// A read gives the value that was last written to the position up to the
/// version, and none if that was a deletion or if there was no such write.
pub proof fn law_read_gives_latest_value<V, E>(
    rows: Map<RowKey, Option<V>>,
    hash: HashValue,
    version: Version,
    found: Option<(RowKey, Option<V>)>,
)
    requires
        answers_seek(rows, (hash, version), found),
    ensures
        position_db::value_from::<V, E>(hash, found_row(found)) == value_at(rows, hash, version),
{
    lemma_seek_finds_latest(rows, hash, version, found);
    if let Some((key, _)) = found {
        if key.0 == hash {
            let latest = choose|latest: Version| is_latest(rows, hash, version, latest);
            lemma_latest_unique(rows, hash, version, latest, key.1);
            assert((hash, latest) == key);
        }
    }
}

/// The prior version of a position is the last one before the given version at
/// which it was written, if there is one.
pub proof fn law_prior_version_is_last_write_before<V, E>(
    rows: Map<RowKey, Option<V>>,
    hash: HashValue,
    at_version: Version,
    found: Option<(RowKey, Option<V>)>,
)
    requires
        at_version > 0,
        answers_seek(rows, (hash, (at_version - 1) as Version), found),
    ensures
        position_db::version_from::<V, E>(hash, found_row(found)) == written_before(
            rows,
            hash,
            at_version,
        ),
        written_before(rows, hash, at_version) matches Some(prior) ==> {
            &&& prior < at_version
            &&& rows.contains_key((hash, prior))
            &&& forall|other: Version| #[trigger]
                rows.contains_key((hash, other)) && other < at_version ==> other <= prior
        },
        written_before(rows, hash, at_version) is None ==> forall|other: Version| #[trigger]
            rows.contains_key((hash, other)) ==> at_version <= other,
{
    let up_to = (at_version - 1) as Version;
    lemma_seek_finds_latest(rows, hash, up_to, found);
    if let Some((key, _)) = found {
        if key.0 == hash {
            let latest = choose|latest: Version| is_latest(rows, hash, up_to, latest);
            lemma_latest_unique(rows, hash, up_to, latest, key.1);
        }
    }
    assert forall|other: Version|
        written_before(rows, hash, at_version) is None && #[trigger] rows.contains_key(
            (hash, other),
        ) implies at_version <= other by {
        if other < at_version {
            assert(at_or_after((hash, other), (hash, up_to)));
            lemma_latest_exists(rows, hash, up_to, other);
        }
    }
}

/// Where a hash was written up to a version, one of the writes is the latest.
proof fn lemma_latest_exists<V>(
    rows: Map<RowKey, Option<V>>,
    hash: HashValue,
    version: Version,
    some: Version,
)
    requires
        rows.contains_key((hash, some)),
        some <= version,
    ensures
        exists|latest: Version| is_latest(rows, hash, version, latest),
    decreases version - some,
{
    if exists|later: Version| #[trigger]
        rows.contains_key((hash, later)) && some < later <= version {
        let later = choose|later: Version| #[trigger]
            rows.contains_key((hash, later)) && some < later <= version;
        lemma_latest_exists(rows, hash, version, later);
    } else {
        assert(is_latest(rows, hash, version, some));
    }
}

/// The rows of the shards, and the batches that are gathered for them.
#[verifier::ext_equal]
pub struct Shards<V> {
    pub rows: Seq<Map<RowKey, Option<V>>>,
    pub batches: Seq<Seq<(RowKey, Option<V>)>>,
}

/// Rows after a batch is written to them, the last row under a key staying.
pub open spec fn with_batch<V>(
    rows: Map<RowKey, Option<V>>,
    batch: Seq<(RowKey, Option<V>)>,
) -> Map<RowKey, Option<V>>
    decreases batch.len(),
{
    if batch.len() == 0 {
        rows
    } else {
        with_batch(rows, batch.drop_last()).insert(batch.last().0, batch.last().1)
    }
}

impl<V> Shards<V> {
    /// There are 16 shards.
    pub open spec fn wf(self) -> bool {
        self.rows.len() == 16 && self.batches.len() == 16
    }

    /// No batch is begun.
    pub open spec fn idle(rows: Seq<Map<RowKey, Option<V>>>) -> Self {
        Shards { rows, batches: Seq::new(16, |shard: int| Seq::empty()) }
    }

    /// The shards after one action.
    pub open spec fn after(self, action: WriteAction<V>) -> Self {
        match action {
            WriteAction::Put { shard, key, value } => Shards {
                batches: self.batches.update(
                    shard as int,
                    self.batches[shard as int].push((key, value)),
                ),
                ..self
            },
            WriteAction::Commit { shard } => Shards {
                rows: self.rows.update(
                    shard as int,
                    with_batch(self.rows[shard as int], self.batches[shard as int]),
                ),
                batches: self.batches.update(shard as int, Seq::empty()),
            },
        }
    }

    /// The shards after actions one after the other.
    pub open spec fn after_all(self, actions: Seq<WriteAction<V>>) -> Self
        decreases actions.len(),
    {
        if actions.len() == 0 {
            self
        } else {
            self.after_all(actions.drop_last()).after(actions.last())
        }
    }

    /// Every row stands in the shard of its hash.
    pub open spec fn rows_in_place(self) -> bool {
        forall|shard: int, key: RowKey|
            0 <= shard < 16 && #[trigger] self.rows[shard].contains_key(key)
                ==> position_db::shard_of(key.0) == shard
    }
}

/// The rows that the writes of a batch put into one shard, in their order.
pub open spec fn batch_of_shard<V>(
    version: Version,
    writes: Seq<(HashValue, Option<V>)>,
    shard: int,
) -> Seq<(RowKey, Option<V>)>
    decreases writes.len(),
{
    if writes.len() == 0 {
        Seq::empty()
    } else {
        let earlier = batch_of_shard(version, writes.drop_last(), shard);
        let (hash, value) = writes.last();
        if position_db::shard_of(hash) == shard {
            earlier.push(((hash, version), value))
        } else {
            earlier
        }
    }
}

/// The puts of a batch leave the rows as they are, and gather each shard's batch.
proof fn lemma_after_puts<V>(
    rows: Seq<Map<RowKey, Option<V>>>,
    version: Version,
    writes: Seq<(HashValue, Option<V>)>,
)
    requires
        rows.len() == 16,
    ensures
        ({
            let shards = Shards::idle(rows).after_all(position_db::puts_of(version, writes));
            &&& shards.wf()
            &&& shards.rows == rows
            &&& forall|shard: int|
                0 <= shard < 16 ==> #[trigger] shards.batches[shard] == batch_of_shard(
                    version,
                    writes,
                    shard,
                )
        }),
    decreases writes.len(),
{
    let puts = position_db::puts_of(version, writes);
    if writes.len() > 0 {
        lemma_after_puts(rows, version, writes.drop_last());
        assert(puts.drop_last() =~= position_db::puts_of(version, writes.drop_last()));
    }
}

/// Actions one after the other, in two parts.
proof fn lemma_after_all_add<V>(
    shards: Shards<V>,
    first: Seq<WriteAction<V>>,
    second: Seq<WriteAction<V>>,
)
    ensures
        shards.after_all(first + second) == shards.after_all(first).after_all(second),
    decreases second.len(),
{
    if second.len() == 0 {
        assert(first + second =~= first);
    } else {
        assert((first + second).drop_last() =~= first + second.drop_last());
        lemma_after_all_add(shards, first, second.drop_last());
    }
}

/// The actions are commits of different shards.
pub open spec fn distinct_commits<V>(actions: Seq<WriteAction<V>>) -> bool {
    &&& forall|i: int|
        0 <= i < actions.len() ==> (#[trigger] actions[i]) is Commit && actions[i]->Commit_shard
            < 16
    &&& forall|i: int, j: int|
        0 <= i < j < actions.len() ==> (#[trigger] actions[i])->Commit_shard < (
        #[trigger] actions[j])->Commit_shard
}

/// One of the actions commits the shard.
pub open spec fn commits<V>(actions: Seq<WriteAction<V>>, shard: int) -> bool {
    exists|i: int|
        0 <= i < actions.len() && (#[trigger] actions[i]) is Commit && actions[i]->Commit_shard
            == shard
}

/// Commits write the batches of their shards and leave the other shards alone.
proof fn lemma_after_commits<V>(shards: Shards<V>, actions: Seq<WriteAction<V>>)
    requires
        shards.wf(),
        distinct_commits(actions),
    ensures
        ({
            let after = shards.after_all(actions);
            &&& after.wf()
            &&& forall|shard: int|
                0 <= shard < 16 ==> #[trigger] after.rows[shard] == if commits(actions, shard) {
                    with_batch(shards.rows[shard], shards.batches[shard])
                } else {
                    shards.rows[shard]
                }
            &&& forall|shard: int|
                0 <= shard < 16 ==> #[trigger] after.batches[shard] == if commits(actions, shard) {
                    Seq::empty()
                } else {
                    shards.batches[shard]
                }
        }),
    decreases actions.len(),
{
    if actions.len() > 0 {
        let fewer = actions.drop_last();
        assert(distinct_commits(fewer)) by {
            assert forall|i: int| 0 <= i < fewer.len() implies (#[trigger] fewer[i]) is Commit
                && fewer[i]->Commit_shard < 16 by {
                assert(fewer[i] == actions[i]);
            }
            assert forall|i: int, j: int| 0 <= i < j < fewer.len() implies (
            #[trigger] fewer[i])->Commit_shard < (#[trigger] fewer[j])->Commit_shard by {
                assert(fewer[i] == actions[i] && fewer[j] == actions[j]);
            }
        }
        lemma_after_commits(shards, fewer);
        let last = actions.last()->Commit_shard as int;
        assert(actions[actions.len() - 1] == actions.last());
        assert(!commits(fewer, last)) by {
            if commits(fewer, last) {
                let i = choose|i: int|
                    0 <= i < fewer.len() && (#[trigger] fewer[i]) is Commit
                        && fewer[i]->Commit_shard == last;
                assert(actions[i]->Commit_shard < actions[actions.len() - 1]->Commit_shard);
            }
        }
        assert forall|shard: int| commits(actions, shard) == (commits(fewer, shard) || shard
            == last) by {
            if commits(fewer, shard) {
                let i = choose|i: int|
                    0 <= i < fewer.len() && (#[trigger] fewer[i]) is Commit
                        && fewer[i]->Commit_shard == shard;
                assert(actions[i] == fewer[i]);
            }
            if commits(actions, shard) && shard != last {
                let i = choose|i: int|
                    0 <= i < actions.len() && (#[trigger] actions[i]) is Commit
                        && actions[i]->Commit_shard == shard;
                assert(fewer[i] == actions[i]);
            }
        }
    }
}

/// The commits of a batch are those of the shards that it writes to, once each, in
/// the order of the shards.
proof fn lemma_commits_of<V>(writes: Seq<(HashValue, Option<V>)>, shards: nat)
    requires
        shards <= 16,
    ensures
        distinct_commits(position_db::commits_of(writes, shards)),
        forall|i: int|
            0 <= i < position_db::commits_of(writes, shards).len()
                ==> (#[trigger] position_db::commits_of(writes, shards)[i])->Commit_shard < shards,
        forall|shard: int|
            0 <= shard < shards ==> #[trigger] commits(
                position_db::commits_of(writes, shards),
                shard,
            ) == position_db::touches(writes, shard),
        forall|shard: int|
            shards <= shard ==> !#[trigger] commits(
                position_db::commits_of(writes, shards),
                shard,
            ),
    decreases shards,
{
    if shards > 0 {
        lemma_commits_of(writes, (shards - 1) as nat);
        let earlier = position_db::commits_of(writes, (shards - 1) as nat);
        let now = position_db::commits_of(writes, shards);
        assert forall|shard: int| #[trigger] commits(now, shard) == (commits(earlier, shard) || (
        shard == shards - 1 && position_db::touches(writes, shard))) by {
            if commits(earlier, shard) {
                let i = choose|i: int|
                    0 <= i < earlier.len() && (#[trigger] earlier[i]) is Commit
                        && earlier[i]->Commit_shard == shard;
                assert(now[i] == earlier[i]);
            }
            if shard == shards - 1 && position_db::touches(writes, shard) {
                assert(now[earlier.len() as int] is Commit);
            }
            if commits(now, shard) && !commits(earlier, shard) {
                let i = choose|i: int|
                    0 <= i < now.len() && (#[trigger] now[i]) is Commit && now[i]->Commit_shard
                        == shard;
                if i < earlier.len() {
                    assert(earlier[i] == now[i]);
                }
            }
        }
    }
}

/// The shards after a whole batch of writes.
pub open spec fn after_batch<V>(
    rows: Seq<Map<RowKey, Option<V>>>,
    version: Version,
    writes: Seq<(HashValue, Option<V>)>,
) -> Shards<V> {
    Shards::idle(rows).after_all(position_db::write_actions(version, writes))
}

/// Some write of the batch is to the hash.
pub open spec fn writes_to<V>(writes: Seq<(HashValue, Option<V>)>, hash: HashValue) -> bool {
    exists|i: int| 0 <= i < writes.len() && (#[trigger] writes[i]).0 == hash
}

/// Write `i` of the batch is the last one to its hash.
pub open spec fn last_write<V>(writes: Seq<(HashValue, Option<V>)>, i: int) -> bool {
    &&& 0 <= i < writes.len()
    &&& forall|j: int| i < j < writes.len() ==> (#[trigger] writes[j]).0 != writes[i].0
}

/// The batch writes the row of the key, and does so in the shard.
pub open spec fn lands_in<V>(
    version: Version,
    writes: Seq<(HashValue, Option<V>)>,
    shard: int,
    key: RowKey,
) -> bool {
    key.1 == version && position_db::shard_of(key.0) == shard && writes_to(writes, key.0)
}

/// The hashes that a batch writes to, without its last write.
proof fn lemma_writes_to_drop_last<V>(writes: Seq<(HashValue, Option<V>)>, hash: HashValue)
    requires
        writes.len() > 0,
    ensures
        writes_to(writes, hash) == (writes_to(writes.drop_last(), hash) || hash
            == writes.last().0),
{
    let fewer = writes.drop_last();
    if writes_to(fewer, hash) {
        let i = choose|i: int| 0 <= i < fewer.len() && (#[trigger] fewer[i]).0 == hash;
        assert(writes[i] == fewer[i]);
    }
    assert(writes[writes.len() - 1] == writes.last());
    if writes_to(writes, hash) && hash != writes.last().0 {
        let i = choose|i: int| 0 <= i < writes.len() && (#[trigger] writes[i]).0 == hash;
        assert(fewer[i] == writes[i]);
    }
}

/// What the batch of one shard does to the rows of the shard.
proof fn lemma_with_batch_of_shard<V>(
    rows: Map<RowKey, Option<V>>,
    version: Version,
    writes: Seq<(HashValue, Option<V>)>,
    shard: int,
)
    ensures
        ({
            let after = with_batch(rows, batch_of_shard(version, writes, shard));
            &&& forall|key: RowKey| #[trigger]
                after.contains_key(key) <==> rows.contains_key(key) || lands_in(
                    version,
                    writes,
                    shard,
                    key,
                )
            &&& forall|key: RowKey| #[trigger]
                rows.contains_key(key) && !lands_in(version, writes, shard, key) ==> after[key]
                    == rows[key]
            &&& forall|i: int|
                last_write(writes, i) && position_db::shard_of((#[trigger] writes[i]).0) == shard
                    ==> after[(writes[i].0, version)] == writes[i].1
        }),
    decreases writes.len(),
{
    if writes.len() > 0 {
        let fewer = writes.drop_last();
        let batch = batch_of_shard(version, writes, shard);
        let between = with_batch(rows, batch_of_shard(version, fewer, shard));
        let after = with_batch(rows, batch);
        let (hash, value) = writes.last();
        lemma_with_batch_of_shard(rows, version, fewer, shard);
        if position_db::shard_of(hash) == shard {
            assert(batch.drop_last() =~= batch_of_shard(version, fewer, shard));
            assert(after == between.insert((hash, version), value));
        } else {
            assert(after == between);
        }
        assert forall|key: RowKey| #[trigger]
            after.contains_key(key) <==> rows.contains_key(key) || lands_in(
                version,
                writes,
                shard,
                key,
            ) by {
            lemma_writes_to_drop_last(writes, key.0);
            assert(between.contains_key(key) <==> rows.contains_key(key) || lands_in(
                version,
                fewer,
                shard,
                key,
            ));
        }
        assert forall|key: RowKey| #[trigger]
            rows.contains_key(key) && !lands_in(version, writes, shard, key) implies after[key]
            == rows[key] by {
            lemma_writes_to_drop_last(writes, key.0);
        }
        assert forall|i: int|
            last_write(writes, i) && position_db::shard_of((#[trigger] writes[i]).0)
                == shard implies after[(writes[i].0, version)] == writes[i].1 by {
            if i < writes.len() - 1 {
                assert(writes[writes.len() - 1].0 != writes[i].0);
                assert(fewer[i] == writes[i]);
                assert forall|j: int| i < j < fewer.len() implies (#[trigger] fewer[j]).0
                    != fewer[i].0 by {
                    assert(writes[j].0 != writes[i].0);
                }
                assert(last_write(fewer, i));
            }
        }
    }
}

/// A shard that a batch does not write to has nothing gathered for it.
proof fn lemma_untouched<V>(version: Version, writes: Seq<(HashValue, Option<V>)>, shard: int)
    requires
        !position_db::touches(writes, shard),
    ensures
        batch_of_shard(version, writes, shard) == Seq::<(RowKey, Option<V>)>::empty(),
    decreases writes.len(),
{
    if writes.len() > 0 {
        assert(writes[writes.len() - 1] == writes.last());
        let fewer = writes.drop_last();
        if position_db::touches(fewer, shard) {
            let i = choose|i: int|
                0 <= i < fewer.len() && position_db::shard_of((#[trigger] fewer[i]).0) == shard;
            assert(writes[i] == fewer[i]);
        }
        lemma_untouched(version, fewer, shard);
    }
}

/// A whole batch of writes leaves each shard with its own batch written.
proof fn lemma_after_batch<V>(
    rows: Seq<Map<RowKey, Option<V>>>,
    version: Version,
    writes: Seq<(HashValue, Option<V>)>,
)
    requires
        rows.len() == 16,
    ensures
        after_batch(rows, version, writes).wf(),
        forall|shard: int|
            0 <= shard < 16 ==> #[trigger] after_batch(rows, version, writes).rows[shard]
                == with_batch(rows[shard], batch_of_shard(version, writes, shard)),
        forall|shard: int|
            0 <= shard < 16 ==> #[trigger] after_batch(rows, version, writes).batches[shard]
                == Seq::<(RowKey, Option<V>)>::empty(),
{
    let puts = position_db::puts_of(version, writes);
    let ends = position_db::commits_of(writes, 16);
    lemma_after_puts(rows, version, writes);
    lemma_after_all_add(Shards::idle(rows), puts, ends);
    lemma_commits_of(writes, 16);
    let gathered = Shards::idle(rows).after_all(puts);
    lemma_after_commits(gathered, ends);
    assert forall|shard: int| 0 <= shard < 16 implies #[trigger] after_batch(
        rows,
        version,
        writes,
    ).rows[shard] == with_batch(rows[shard], batch_of_shard(version, writes, shard)) by {
        assert(gathered.batches[shard] == batch_of_shard(version, writes, shard));
        if !commits(ends, shard) {
            lemma_untouched(version, writes, shard);
        }
    }
    assert forall|shard: int| 0 <= shard < 16 implies #[trigger] after_batch(
        rows,
        version,
        writes,
    ).batches[shard] == Seq::<(RowKey, Option<V>)>::empty() by {
        assert(gathered.batches[shard] == batch_of_shard(version, writes, shard));
        if !commits(ends, shard) {
            lemma_untouched(version, writes, shard);
        }
    }
}

/// A batch of writes stores each write in the shard of its hash, under its hash and
/// the version of the batch, the last of several writes to one hash staying. It
/// changes no other row, and leaves nothing half written.
pub proof fn law_batch_stores_writes<V>(
    rows: Seq<Map<RowKey, Option<V>>>,
    version: Version,
    writes: Seq<(HashValue, Option<V>)>,
)
    requires
        rows.len() == 16,
    ensures
        ({
            let after = after_batch(rows, version, writes);
            &&& after.wf()
            &&& after == Shards::idle(after.rows)
            &&& forall|shard: int, key: RowKey|
                0 <= shard < 16 ==> (#[trigger] after.rows[shard].contains_key(key)
                    <==> rows[shard].contains_key(key) || lands_in(
                    version,
                    writes,
                    shard,
                    key,
                ))
            &&& forall|shard: int, key: RowKey|
                0 <= shard < 16 && #[trigger] rows[shard].contains_key(key) && !lands_in(
                    version,
                    writes,
                    shard,
                    key,
                )
                    ==> after.rows[shard][key] == rows[shard][key]
            &&& forall|i: int|
                last_write(writes, i) ==> after.rows[position_db::shard_of(
                    (#[trigger] writes[i]).0,
                ) as int][(writes[i].0, version)] == writes[i].1
        }),
{
    lemma_after_batch(rows, version, writes);
    let after = after_batch(rows, version, writes);
    assert(after.batches =~= Shards::<V>::idle(after.rows).batches);
    assert forall|shard: int, key: RowKey| 0 <= shard < 16 implies (
    #[trigger] after.rows[shard].contains_key(key) <==> rows[shard].contains_key(key) || lands_in(
        version,
        writes,
        shard,
        key,
    )) by {
        lemma_with_batch_of_shard(rows[shard], version, writes, shard);
    }
    assert forall|shard: int, key: RowKey|
        0 <= shard < 16 && #[trigger] rows[shard].contains_key(key) && !lands_in(
            version,
            writes,
            shard,
            key,
        ) implies after.rows[shard][key] == rows[shard][key] by {
        lemma_with_batch_of_shard(rows[shard], version, writes, shard);
        assert(after.rows[shard] == with_batch(rows[shard], batch_of_shard(version, writes, shard)));
    }
    assert forall|i: int| last_write(writes, i) implies after.rows[position_db::shard_of(
        (#[trigger] writes[i]).0,
    ) as int][(writes[i].0, version)] == writes[i].1 by {
        let shard = position_db::shard_of(writes[i].0) as int;
        lemma_with_batch_of_shard(rows[shard], version, writes, shard);
        assert(after.rows[shard] == with_batch(rows[shard], batch_of_shard(version, writes, shard)));
    }
}

/// A batch of writes keeps every row in the shard of its hash.
pub proof fn law_batch_keeps_rows_in_place<V>(
    rows: Seq<Map<RowKey, Option<V>>>,
    version: Version,
    writes: Seq<(HashValue, Option<V>)>,
)
    requires
        rows.len() == 16,
        Shards::idle(rows).rows_in_place(),
    ensures
        after_batch(rows, version, writes).rows_in_place(),
{
    law_batch_stores_writes(rows, version, writes);
    let after = after_batch(rows, version, writes);
    assert forall|shard: int, key: RowKey|
        0 <= shard < 16 && #[trigger] after.rows[shard].contains_key(
            key,
        ) implies position_db::shard_of(key.0) == shard by {
        if rows[shard].contains_key(key) {
            assert(Shards::idle(rows).rows[shard].contains_key(key));
        }
    }
}

/// A read from the version of a batch on, up to the position's next write, gives back
/// the last write of the batch to the position: the row that a seek finds then holds
/// that value.
pub proof fn law_read_gives_back_write<V, E>(
    rows: Seq<Map<RowKey, Option<V>>>,
    version: Version,
    writes: Seq<(HashValue, Option<V>)>,
    i: int,
    read_version: Version,
    found: Option<(RowKey, Option<V>)>,
)
    requires
        rows.len() == 16,
        last_write(writes, i),
        version <= read_version,
        forall|other: Version|
            version < other <= read_version
                ==> !#[trigger] rows[position_db::shard_of(writes[i].0) as int].contains_key(
                (writes[i].0, other),
            ),
        answers_seek(
            after_batch(rows, version, writes).rows[position_db::shard_of(writes[i].0) as int],
            (writes[i].0, read_version),
            found,
        ),
    ensures
        value_at(
            after_batch(rows, version, writes).rows[position_db::shard_of(writes[i].0) as int],
            writes[i].0,
            read_version,
        ) == writes[i].1,
        position_db::value_from::<V, E>(writes[i].0, found_row(found)) == writes[i].1,
{
    law_batch_stores_writes(rows, version, writes);
    let hash = writes[i].0;
    let shard = position_db::shard_of(hash) as int;
    let after = after_batch(rows, version, writes).rows[shard];
    assert(writes_to(writes, hash));
    assert(after.contains_key((hash, version)));
    assert forall|other: Version| #[trigger]
        after.contains_key((hash, other)) && other <= read_version implies other <= version by {
        if version < other {
            assert(!rows[shard].contains_key((hash, other)));
        }
    }
    assert(is_latest(after, hash, read_version, version));
    let latest = choose|latest: Version| is_latest(after, hash, read_version, latest);
    lemma_latest_unique(after, hash, read_version, latest, version);
    law_read_gives_latest_value::<V, E>(after, hash, read_version, found);
}

/// A batch of writes changes no read of a position that it does not write to, and
/// no read at an earlier version.
pub proof fn law_batch_keeps_other_reads<V>(
    rows: Seq<Map<RowKey, Option<V>>>,
    version: Version,
    writes: Seq<(HashValue, Option<V>)>,
    hash: HashValue,
    read_version: Version,
)
    requires
        rows.len() == 16,
        read_version < version || !writes_to(writes, hash),
    ensures
        value_at(
            after_batch(rows, version, writes).rows[position_db::shard_of(hash) as int],
            hash,
            read_version,
        ) == value_at(rows[position_db::shard_of(hash) as int], hash, read_version),
{
    law_batch_stores_writes(rows, version, writes);
    let shard = position_db::shard_of(hash) as int;
    let before = rows[shard];
    let after = after_batch(rows, version, writes).rows[shard];
    assert forall|latest: Version| is_latest(after, hash, read_version, latest) == is_latest(
        before,
        hash,
        read_version,
        latest,
    ) by {
        assert forall|other: Version| other <= read_version implies #[trigger] after.contains_key(
            (hash, other),
        ) == before.contains_key((hash, other)) by {}
        if is_latest(before, hash, read_version, latest) {
            assert(after.contains_key((hash, latest)));
        }
        if is_latest(after, hash, read_version, latest) {
            assert(before.contains_key((hash, latest)));
            assert forall|other: Version| #[trigger]
                before.contains_key((hash, other)) && other <= read_version implies other
                <= latest by {
                assert(after.contains_key((hash, other)));
            }
        }
    }
    if exists|latest: Version| is_latest(before, hash, read_version, latest) {
        let a = choose|latest: Version| is_latest(after, hash, read_version, latest);
        let b = choose|latest: Version| is_latest(before, hash, read_version, latest);
        assert(is_latest(after, hash, read_version, b));
        lemma_latest_unique(after, hash, read_version, a, b);
        assert(before.contains_key((hash, b)));
    }
}

/// Where a batch of writes stops early, each shard has all of its rows or none of
/// them. None has any while rows are still gathered, and a shard is not written
/// before those with smaller numbers. Where the commit of a shard fails, the shards
/// with smaller numbers have all of their rows, and it and the others none.
pub proof fn law_stopped_batch<V>(
    rows: Seq<Map<RowKey, Option<V>>>,
    version: Version,
    writes: Seq<(HashValue, Option<V>)>,
    taken: int,
)
    requires
        rows.len() == 16,
        0 <= taken <= position_db::write_actions(version, writes).len(),
    ensures
        ({
            let stopped = Shards::idle(rows).after_all(
                position_db::write_actions(version, writes).take(taken),
            );
            let whole = after_batch(rows, version, writes);
            &&& taken <= writes.len() ==> stopped.rows == rows
            &&& forall|shard: int|
                0 <= shard < 16 ==> (#[trigger] stopped.rows[shard] == rows[shard]
                    || stopped.rows[shard] == whole.rows[shard])
            &&& forall|shard: int, later: int|
                0 <= shard < later < 16 && #[trigger] stopped.rows[later] != rows[later]
                    ==> #[trigger] stopped.rows[shard] == whole.rows[shard]
            &&& taken < position_db::write_actions(version, writes).len() ==> match
                position_db::write_actions(version, writes)[taken] {
                WriteAction::Commit { shard: failed } => forall|shard: int|
                    0 <= shard < 16 ==> #[trigger] stopped.rows[shard] == if shard < failed {
                        whole.rows[shard]
                    } else {
                        rows[shard]
                    },
                WriteAction::Put { .. } => stopped.rows == rows,
            }
        }),
{
    let actions = position_db::write_actions(version, writes);
    let puts = position_db::puts_of(version, writes);
    let ends = position_db::commits_of(writes, 16);
    let stopped = Shards::idle(rows).after_all(actions.take(taken));
    let whole = after_batch(rows, version, writes);
    if taken < writes.len() {
        assert(actions.take(taken) =~= position_db::puts_of(version, writes.take(taken)));
        lemma_after_puts(rows, version, writes.take(taken));
    } else {
        let some = ends.take(taken - puts.len());
        assert(actions.take(taken) =~= puts + some);
        lemma_after_puts(rows, version, writes);
        lemma_after_all_add(Shards::idle(rows), puts, some);
        lemma_after_all_add(Shards::idle(rows), puts, ends);
        lemma_commits_of(writes, 16);
        let gathered = Shards::idle(rows).after_all(puts);
        assert(distinct_commits(some)) by {
            assert forall|i: int| 0 <= i < some.len() implies (#[trigger] some[i]) is Commit
                && some[i]->Commit_shard < 16 by {
                assert(some[i] == ends[i]);
            }
            assert forall|i: int, j: int| 0 <= i < j < some.len() implies (
            #[trigger] some[i])->Commit_shard < (#[trigger] some[j])->Commit_shard by {
                assert(some[i] == ends[i] && some[j] == ends[j]);
            }
        }
        lemma_after_commits(gathered, some);
        lemma_after_commits(gathered, ends);
        assert(taken == writes.len() ==> stopped.rows =~= rows);
        assert forall|shard: int| commits(some, shard) implies commits(ends, shard) by {
            let i = choose|i: int|
                0 <= i < some.len() && (#[trigger] some[i]) is Commit && some[i]->Commit_shard
                    == shard;
            assert(ends[i] == some[i]);
        }
        assert forall|shard: int, later: int|
            0 <= shard < later < 16 && #[trigger] stopped.rows[later]
                != rows[later] implies #[trigger] stopped.rows[shard] == whole.rows[shard] by {
            assert(commits(some, later));
            let k = choose|k: int|
                0 <= k < some.len() && (#[trigger] some[k]) is Commit && some[k]->Commit_shard
                    == later;
            assert(ends[k] == some[k]);
            if commits(ends, shard) {
                let i = choose|i: int|
                    0 <= i < ends.len() && (#[trigger] ends[i]) is Commit && ends[i]->Commit_shard
                        == shard;
                assert(i < k) by {
                    if k < i {
                        assert(ends[k]->Commit_shard < ends[i]->Commit_shard);
                    }
                }
                assert(some[i] == ends[i]);
            }
        }
        if taken < actions.len() {
            let next = taken - puts.len();
            let failed = ends[next]->Commit_shard as int;
            assert(actions[taken] == ends[next]);
            assert forall|shard: int| 0 <= shard < 16 implies #[trigger] stopped.rows[shard]
                == if shard < failed {
                whole.rows[shard]
            } else {
                rows[shard]
            } by {
                if commits(some, shard) {
                    let i = choose|i: int|
                        0 <= i < some.len() && (#[trigger] some[i]) is Commit
                            && some[i]->Commit_shard == shard;
                    assert(ends[i] == some[i]);
                    assert(ends[i]->Commit_shard < ends[next]->Commit_shard);
                } else if commits(ends, shard) {
                    let i = choose|i: int|
                        0 <= i < ends.len() && (#[trigger] ends[i]) is Commit
                            && ends[i]->Commit_shard == shard;
                    if i < next {
                        assert(some[i] == ends[i]);
                    } else if next < i {
                        assert(ends[next]->Commit_shard < ends[i]->Commit_shard);
                    }
                }
            }
        }
    }
}

/// A batch of writes is one put for each write, in their order, to the shard that the
/// first hex digit of the hash names, and then one commit for each shard that has a
/// put, in the order of the shards.
pub proof fn law_batch_puts_then_commits<V>(version: Version, writes: Seq<(HashValue, Option<V>)>)
    ensures
        ({
            let actions = position_db::write_actions(version, writes);
            &&& actions.len() >= writes.len()
            &&& forall|i: int|
                0 <= i < writes.len() ==> #[trigger] actions[i] == (WriteAction::Put {
                    shard: (writes[i].0.bytes[0] / 16) as usize,
                    key: (writes[i].0, version),
                    value: writes[i].1,
                })
            &&& forall|i: int, j: int|
                writes.len() <= i < j < actions.len() ==> (#[trigger] actions[i])->Commit_shard < (
                #[trigger] actions[j])->Commit_shard
            &&& forall|i: int|
                writes.len() <= i < actions.len() ==> (#[trigger] actions[i]) is Commit
                    && exists|k: int|
                    0 <= k < writes.len() && (#[trigger] writes[k]).0.bytes[0] / 16
                        == actions[i]->Commit_shard
            &&& forall|k: int|
                0 <= k < writes.len() ==> (#[trigger] writes[k]).0.bytes[0] / 16 < 16
                    && exists|i: int|
                    writes.len() <= i < actions.len() && (#[trigger] actions[i])->Commit_shard
                        == writes[k].0.bytes[0] / 16
        }),
{
    let actions = position_db::write_actions(version, writes);
    let ends = position_db::commits_of(writes, 16);
    let n = writes.len() as int;
    lemma_commits_of(writes, 16);
    assert forall|i: int, j: int| n <= i < j < actions.len() implies (
    #[trigger] actions[i])->Commit_shard < (#[trigger] actions[j])->Commit_shard by {
        assert(actions[i] == ends[i - n] && actions[j] == ends[j - n]);
    }
    assert forall|i: int| n <= i < actions.len() implies (#[trigger] actions[i]) is Commit
        && exists|k: int|
        0 <= k < writes.len() && (#[trigger] writes[k]).0.bytes[0] / 16
            == actions[i]->Commit_shard by {
        assert(actions[i] == ends[i - n]);
        let shard = actions[i]->Commit_shard as int;
        assert(ends[i - n] is Commit);
        assert(commits(ends, shard));
        assert(position_db::touches(writes, shard));
        let k = choose|k: int|
            0 <= k < writes.len() && position_db::shard_of((#[trigger] writes[k]).0) == shard;
        assert(writes[k].0.bytes[0] / 16 == actions[i]->Commit_shard);
    }
    assert forall|k: int| 0 <= k < writes.len() implies (#[trigger] writes[k]).0.bytes[0] / 16 < 16
        && exists|i: int|
        n <= i < actions.len() && (#[trigger] actions[i])->Commit_shard
            == writes[k].0.bytes[0] / 16 by {
        let shard = position_db::shard_of(writes[k].0) as int;
        assert(position_db::touches(writes, shard));
        assert(commits(ends, shard));
        let e = choose|e: int|
            0 <= e < ends.len() && (#[trigger] ends[e]) is Commit && ends[e]->Commit_shard == shard;
        assert(actions[n + e] == ends[e]);
    }
}

} // verus!
