//! A mathematical model of a partitioned table.
//!
//! A table is a sequence of rows; every row belongs to one user and carries a
//! key that is unique within that user's partition, plus a payload. The
//! model reads such a sequence in two ways: as a map from (user, key) to the
//! payload, and as the subsequence of one user's rows in storage order. The
//! lemmas here say how both readings change when a row is appended, updated
//! in place, or removed.

use vstd::prelude::*;

verus! {

/// One row of a partitioned table: the owning user, the key unique within
/// that user's partition, and the stored payload.
pub ghost struct KeyedRow<V> {
    pub uid: int,
    pub key: Seq<char>,
    pub val: V,
}

/// The rows read as one map from (user, key) to payload; a later row wins.
pub open spec fn row_map<V>(rows: Seq<KeyedRow<V>>) -> Map<(int, Seq<char>), V>
    decreases rows.len(),
{
    if rows.len() == 0 {
        Map::empty()
    } else {
        row_map(rows.drop_last()).insert(
            (rows.last().uid, rows.last().key),
            rows.last().val,
        )
    }
}

/// The keys and payloads of one user's rows, in storage order.
pub open spec fn user_rows<V>(rows: Seq<KeyedRow<V>>, uid: int) -> Seq<(Seq<char>, V)>
    decreases rows.len(),
{
    if rows.len() == 0 {
        Seq::empty()
    } else {
        let prefix = user_rows(rows.drop_last(), uid);
        if rows.last().uid == uid {
            prefix.push((rows.last().key, rows.last().val))
        } else {
            prefix
        }
    }
}

/// How many rows of one user carry a given key.
pub open spec fn key_count<V>(rows: Seq<KeyedRow<V>>, uid: int, key: Seq<char>) -> nat
    decreases rows.len(),
{
    if rows.len() == 0 {
        0
    } else {
        key_count(rows.drop_last(), uid, key) + if rows.last().uid == uid
            && rows.last().key == key {
            1nat
        } else {
            0nat
        }
    }
}

/// No two rows share a user and a key: each partition keys its rows uniquely.
pub open spec fn rows_unique<V>(rows: Seq<KeyedRow<V>>) -> bool {
    forall|i: int, j: int|
        0 <= i < rows.len() && 0 <= j < rows.len() && i != j ==> !(#[trigger] rows[i].uid
            == #[trigger] rows[j].uid && rows[i].key == rows[j].key)
}

/// Uniqueness is kept when the last row is dropped.
proof fn lemma_unique_drop_last<V>(rows: Seq<KeyedRow<V>>)
    requires
        rows.len() > 0,
        rows_unique(rows),
    ensures
        rows_unique(rows.drop_last()),
{
    assert forall|i: int, j: int|
        0 <= i < rows.drop_last().len() && 0 <= j < rows.drop_last().len() && i != j implies !(
    #[trigger] rows.drop_last()[i].uid == #[trigger] rows.drop_last()[j].uid
        && rows.drop_last()[i].key == rows.drop_last()[j].key) by {
        assert(rows.drop_last()[i] == rows[i]);
        assert(rows.drop_last()[j] == rows[j]);
    }
}

/// The map holds each row of the table, at the row's own (user, key).
pub proof fn lemma_row_map_index<V>(rows: Seq<KeyedRow<V>>, i: int)
    requires
        rows_unique(rows),
        0 <= i < rows.len(),
    ensures
        row_map(rows).contains_key((rows[i].uid, rows[i].key)),
        row_map(rows)[(rows[i].uid, rows[i].key)] == rows[i].val,
    decreases rows.len(),
{
    if i == rows.len() - 1 {
        assert(rows.last() == rows[i]);
    } else {
        lemma_unique_drop_last(rows);
        assert(rows.drop_last()[i] == rows[i]);
        lemma_row_map_index(rows.drop_last(), i);
        assert((rows.last().uid, rows.last().key) != (rows[i].uid, rows[i].key));
    }
}

/// A (user, key) under which no row stands is not in the map.
pub proof fn lemma_row_map_absent<V>(rows: Seq<KeyedRow<V>>, uid: int, key: Seq<char>)
    requires
        forall|i: int|
            0 <= i < rows.len() ==> !(#[trigger] rows[i].uid == uid && rows[i].key == key),
    ensures
        !row_map(rows).contains_key((uid, key)),
    decreases rows.len(),
{
    if rows.len() > 0 {
        assert forall|i: int|
            0 <= i < rows.drop_last().len() implies !(#[trigger] rows.drop_last()[i].uid == uid
            && rows.drop_last()[i].key == key) by {
            assert(rows.drop_last()[i] == rows[i]);
        }
        lemma_row_map_absent(rows.drop_last(), uid, key);
        assert(rows.last() == rows[rows.len() - 1]);
    }
}

/// The count of a (user, key) is positive exactly when some row carries it.
pub proof fn lemma_key_count_exists<V>(rows: Seq<KeyedRow<V>>, uid: int, key: Seq<char>)
    ensures
        key_count(rows, uid, key) > 0 <==> exists|i: int|
            0 <= i < rows.len() && #[trigger] rows[i].uid == uid && rows[i].key == key,
    decreases rows.len(),
{
    if rows.len() > 0 {
        lemma_key_count_exists(rows.drop_last(), uid, key);
        if rows.last().uid == uid && rows.last().key == key {
            assert(rows[rows.len() - 1].uid == uid && rows[rows.len() - 1].key == key);
        } else {
            if key_count(rows.drop_last(), uid, key) > 0 {
                let i = choose|i: int|
                    0 <= i < rows.drop_last().len() && #[trigger] rows.drop_last()[i].uid == uid
                        && rows.drop_last()[i].key == key;
                assert(rows[i].uid == uid && rows[i].key == key);
            }
            if exists|i: int|
                0 <= i < rows.len() && #[trigger] rows[i].uid == uid && rows[i].key == key {
                let i = choose|i: int|
                    0 <= i < rows.len() && #[trigger] rows[i].uid == uid && rows[i].key == key;
                assert(i < rows.len() - 1);
                assert(rows.drop_last()[i].uid == uid && rows.drop_last()[i].key == key);
            }
        }
    }
}

/// In a uniquely keyed table, no (user, key) is carried by two rows.
pub proof fn lemma_key_count_at_most_one<V>(rows: Seq<KeyedRow<V>>, uid: int, key: Seq<char>)
    requires
        rows_unique(rows),
    ensures
        key_count(rows, uid, key) <= 1,
    decreases rows.len(),
{
    if rows.len() > 0 {
        lemma_unique_drop_last(rows);
        lemma_key_count_at_most_one(rows.drop_last(), uid, key);
        if rows.last().uid == uid && rows.last().key == key {
            lemma_key_count_exists(rows.drop_last(), uid, key);
            if key_count(rows.drop_last(), uid, key) > 0 {
                let i = choose|i: int|
                    0 <= i < rows.drop_last().len() && #[trigger] rows.drop_last()[i].uid == uid
                        && rows.drop_last()[i].key == key;
                assert(rows[i] == rows.drop_last()[i]);
                assert(rows[i].uid == rows[rows.len() - 1].uid && rows[i].key == rows[rows.len()
                    - 1].key);
                assert(false);
            }
        }
    }
}

/// Appending a row with a fresh (user, key): the map gains that pair, the
/// owner's partition gains the row at its end, other partitions are
/// untouched, and unique keying is kept.
pub proof fn lemma_rows_push<V>(rows: Seq<KeyedRow<V>>, r: KeyedRow<V>)
    requires
        rows_unique(rows),
        forall|i: int|
            0 <= i < rows.len() ==> !(#[trigger] rows[i].uid == r.uid && rows[i].key == r.key),
    ensures
        rows_unique(rows.push(r)),
        row_map(rows.push(r)) == row_map(rows).insert((r.uid, r.key), r.val),
        user_rows(rows.push(r), r.uid) == user_rows(rows, r.uid).push((r.key, r.val)),
        forall|u: int| u != r.uid ==> user_rows(rows.push(r), u) == user_rows(rows, u),
        forall|u: int, k: Seq<char>|
            !(u == r.uid && k == r.key) ==> #[trigger] key_count(rows.push(r), u, k) == key_count(
                rows,
                u,
                k,
            ),
        key_count(rows.push(r), r.uid, r.key) == key_count(rows, r.uid, r.key) + 1,
{
    let rows2 = rows.push(r);
    assert(rows2.drop_last() =~= rows);
    assert(rows2.last() == r);
    assert forall|i: int, j: int|
        0 <= i < rows2.len() && 0 <= j < rows2.len() && i != j implies !(#[trigger] rows2[i].uid
        == #[trigger] rows2[j].uid && rows2[i].key == rows2[j].key) by {
        if i < rows.len() && j < rows.len() {
            assert(rows2[i] == rows[i]);
            assert(rows2[j] == rows[j]);
        } else if i < rows.len() {
            assert(rows2[i] == rows[i]);
            assert(rows2[j] == r);
        } else {
            assert(rows2[i] == r);
            assert(rows2[j] == rows[j]);
        }
    }
}

/// Removing the one row that carries a (user, key): the map loses that
/// pair, every other user's partition is untouched, the key's count drops
/// to zero, and unique keying is kept.
pub proof fn lemma_rows_remove<V>(rows: Seq<KeyedRow<V>>, i: int)
    requires
        rows_unique(rows),
        0 <= i < rows.len(),
    ensures
        ({
            let rows2 = rows.remove(i);
            &&& rows_unique(rows2)
            &&& row_map(rows2) == row_map(rows).remove((rows[i].uid, rows[i].key))
            &&& forall|u: int| u != rows[i].uid ==> user_rows(rows2, u) == user_rows(rows, u)
            &&& key_count(rows2, rows[i].uid, rows[i].key) == 0
            &&& forall|u: int, k: Seq<char>|
                !(u == rows[i].uid && k == rows[i].key) ==> #[trigger] key_count(rows2, u, k)
                    == key_count(rows, u, k)
        }),
    decreases rows.len(),
{
    let rows2 = rows.remove(i);
    assert forall|p: int, q: int|
        0 <= p < rows2.len() && 0 <= q < rows2.len() && p != q implies !(#[trigger] rows2[p].uid
        == #[trigger] rows2[q].uid && rows2[p].key == rows2[q].key) by {
        let p0 = if p < i {
            p
        } else {
            p + 1
        };
        let q0 = if q < i {
            q
        } else {
            q + 1
        };
        assert(rows2[p] == rows[p0]);
        assert(rows2[q] == rows[q0]);
    }
    if i == rows.len() - 1 {
        assert(rows2 =~= rows.drop_last());
        lemma_unique_drop_last(rows);
        lemma_key_count_at_most_one(rows, rows[i].uid, rows[i].key);
        lemma_key_count_exists(rows2, rows[i].uid, rows[i].key);
        if key_count(rows2, rows[i].uid, rows[i].key) > 0 {
            let p = choose|p: int|
                0 <= p < rows2.len() && #[trigger] rows2[p].uid == rows[i].uid && rows2[p].key
                    == rows[i].key;
            assert(rows[p] == rows2[p]);
            assert(false);
        }
        assert forall|p: int|
            0 <= p < rows2.len() implies !(#[trigger] rows2[p].uid == rows[i].uid && rows2[p].key
            == rows[i].key) by {
            assert(rows2[p] == rows[p]);
        }
        lemma_row_map_absent(rows2, rows[i].uid, rows[i].key);
        assert(row_map(rows) == row_map(rows2).insert((rows[i].uid, rows[i].key), rows[i].val));
        assert(row_map(rows2) =~= row_map(rows2).insert(
            (rows[i].uid, rows[i].key),
            rows[i].val,
        ).remove((rows[i].uid, rows[i].key)));
        assert forall|u: int| u != rows[i].uid implies user_rows(rows2, u) == user_rows(
            rows,
            u,
        ) by {
            assert(user_rows(rows, u) == user_rows(rows.drop_last(), u));
        }
    } else {
        lemma_unique_drop_last(rows);
        assert(rows.drop_last()[i] == rows[i]);
        assert(rows2.drop_last() =~= rows.drop_last().remove(i));
        assert(rows2.last() == rows.last());
        lemma_rows_remove(rows.drop_last(), i);
        let lk = (rows.last().uid, rows.last().key);
        let ik = (rows[i].uid, rows[i].key);
        assert(lk != ik);
        assert(row_map(rows2) == row_map(rows.drop_last()).remove(ik).insert(
            lk,
            rows.last().val,
        ));
        assert(row_map(rows.drop_last()).remove(ik).insert(lk, rows.last().val) =~= row_map(
            rows.drop_last(),
        ).insert(lk, rows.last().val).remove(ik));
        assert(key_count(rows2, rows[i].uid, rows[i].key) == key_count(
            rows.drop_last().remove(i),
            rows[i].uid,
            rows[i].key,
        ));
        assert forall|u: int, k: Seq<char>|
            !(u == rows[i].uid && k == rows[i].key) implies #[trigger] key_count(rows2, u, k)
            == key_count(rows, u, k) by {
            assert(key_count(rows2.drop_last(), u, k) == key_count(
                rows.drop_last().remove(i),
                u,
                k,
            ));
        }
        assert forall|u: int| u != rows[i].uid implies user_rows(rows2, u) == user_rows(
            rows,
            u,
        ) by {
            assert(user_rows(rows2.drop_last(), u) == user_rows(rows.drop_last(), u));
            if rows.last().uid == u {
                assert(user_rows(rows2, u) == user_rows(rows2.drop_last(), u).push(
                    (rows.last().key, rows.last().val),
                ));
                assert(user_rows(rows, u) == user_rows(rows.drop_last(), u).push(
                    (rows.last().key, rows.last().val),
                ));
            } else {
                assert(user_rows(rows2, u) == user_rows(rows2.drop_last(), u));
                assert(user_rows(rows, u) == user_rows(rows.drop_last(), u));
            }
        }
    }
}

} // verus!
