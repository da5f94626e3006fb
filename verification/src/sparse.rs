//! Sparse association rows: vectors of `(key, value)` pairs with pairwise
//! distinct keys, used as the rows of the sparse cooccurrence and similarity
//! structures. An explicit adjacency representation is used instead of nested
//! dynamic maps so that lookups and updates are plain verified loops.

use vstd::prelude::*;

verus! {

/// The row holds an entry for `key`.
pub open spec fn row_has<V>(row: Seq<(u32, V)>, key: u32) -> bool {
    exists|i: int| 0 <= i < row.len() && (#[trigger] row[i]).0 == key
}

/// The value stored for `key`, if any.
pub open spec fn row_opt<V>(row: Seq<(u32, V)>, key: u32) -> Option<V>
    decreases row.len(),
{
    if row.len() == 0 {
        None
    } else if row[0].0 == key {
        Some(row[0].1)
    } else {
        row_opt(row.drop_first(), key)
    }
}

/// All keys of the row are pairwise distinct.
pub open spec fn row_distinct<V>(row: Seq<(u32, V)>) -> bool {
    forall|i: int, j: int|
        0 <= i < j < row.len() ==> (#[trigger] row[i]).0 != (#[trigger] row[j]).0
}

/// `row_has` and `row_opt` agree on which keys are present.
pub proof fn lemma_row_opt_has<V>(row: Seq<(u32, V)>, key: u32)
    ensures
        row_has(row, key) <==> row_opt(row, key) is Some,
    decreases row.len(),
{
    if row.len() > 0 {
        lemma_row_opt_has(row.drop_first(), key);
        if row[0].0 == key {
            assert(row_has(row, key));
        } else {
            if row_has(row.drop_first(), key) {
                let i = choose|i: int|
                    0 <= i < row.drop_first().len() && (#[trigger] row.drop_first()[i]).0 == key;
                assert(row[i + 1].0 == key);
            }
            if row_has(row, key) {
                let i = choose|i: int| 0 <= i < row.len() && (#[trigger] row[i]).0 == key;
                assert(row.drop_first()[i - 1].0 == key);
            }
        }
    }
}

/// The entry at a position of a distinct row is the entry that `row_opt`
/// reports for its key.
pub proof fn lemma_row_opt_index<V>(row: Seq<(u32, V)>, i: int)
    requires
        row_distinct(row),
        0 <= i < row.len(),
    ensures
        row_opt(row, row[i].0) == Some(row[i].1),
    decreases row.len(),
{
    if i > 0 {
        assert(row[0].0 != row[i].0);
        assert(row.drop_first()[i - 1] == row[i]);
        assert(row_distinct(row.drop_first())) by {
            assert(forall|a: int, b: int|
                0 <= a < b < row.drop_first().len() ==> (#[trigger] row.drop_first()[a]).0
                    != (#[trigger] row.drop_first()[b]).0) by {
                assert(forall|a: int|
                    0 <= a < row.drop_first().len() ==> #[trigger] row.drop_first()[a] == row[a
                        + 1]);
            }
        }
        lemma_row_opt_index(row.drop_first(), i - 1);
    }
}

/// Updating the entry at position `i` in place changes `row_opt` only for
/// that entry's key.
pub proof fn lemma_row_opt_update<V>(row: Seq<(u32, V)>, i: int, v: V, key: u32)
    requires
        row_distinct(row),
        0 <= i < row.len(),
    ensures
        row_opt(row.update(i, (row[i].0, v)), key) == (if key == row[i].0 {
            Some(v)
        } else {
            row_opt(row, key)
        }),
    decreases row.len(),
{
    let upd = row.update(i, (row[i].0, v));
    if i == 0 {
        assert(upd[0] == (row[0].0, v));
        if key != row[0].0 {
            assert(upd.drop_first() =~= row.drop_first());
        }
    } else {
        assert(upd[0] == row[0]);
        assert(upd.drop_first() =~= row.drop_first().update(i - 1, (row[i].0, v)));
        assert(row_distinct(row.drop_first())) by {
            assert(forall|a: int|
                0 <= a < row.drop_first().len() ==> #[trigger] row.drop_first()[a] == row[a + 1]);
        }
        assert(row.drop_first()[i - 1] == row[i]);
        lemma_row_opt_update(row.drop_first(), i - 1, v, key);
        if key == row[0].0 {
            assert(row[0].0 != row[i].0);
        }
    }
}

/// Appending an entry for an absent key changes `row_opt` only for that key.
pub proof fn lemma_row_opt_push<V>(row: Seq<(u32, V)>, k: u32, v: V, key: u32)
    requires
        !row_has(row, k),
    ensures
        row_opt(row.push((k, v)), key) == (if key == k {
            Some(v)
        } else {
            row_opt(row, key)
        }),
    decreases row.len(),
{
    let ext = row.push((k, v));
    if row.len() == 0 {
        assert(ext.len() == 1);
        assert(ext[0] == (k, v));
        if key != k {
            assert(ext.drop_first() =~= Seq::<(u32, V)>::empty());
        }
    } else {
        assert(ext[0] == row[0]);
        assert(row[0].0 != k);
        assert(ext.drop_first() =~= row.drop_first().push((k, v)));
        assert(!row_has(row.drop_first(), k)) by {
            if row_has(row.drop_first(), k) {
                let i = choose|i: int|
                    0 <= i < row.drop_first().len() && (#[trigger] row.drop_first()[i]).0 == k;
                assert(row[i + 1].0 == k);
            }
        }
        lemma_row_opt_push(row.drop_first(), k, v, key);
    }
}

/// Position of `key` in the row, if present.
pub fn row_find<V>(row: &Vec<(u32, V)>, key: u32) -> (r: Option<usize>)
    ensures
        match r {
            Some(i) => i < row@.len() && row@[i as int].0 == key,
            None => !row_has(row@, key),
        },
{
    let mut j: usize = 0;
    while j < row.len()
        invariant
            j <= row@.len(),
            forall|i: int| 0 <= i < j ==> (#[trigger] row@[i]).0 != key,
        decreases row@.len() - j,
    {
        if row[j].0 == key {
            return Some(j);
        }
        j = j + 1;
    }
    None
}

/// Insert or overwrite the entry for `key`.
pub fn row_set<V: Copy>(row: &mut Vec<(u32, V)>, key: u32, v: V)
    requires
        row_distinct(old(row)@),
    ensures
        row_distinct(final(row)@),
        row_opt(final(row)@, key) == Some(v),
        forall|k: u32| k != key ==> row_opt(final(row)@, k) == row_opt(old(row)@, k),
        forall|k: u32| #[trigger] row_has(final(row)@, k) <==> row_has(old(row)@, k) || k == key,
        final(row)@.len() == old(row)@.len() + (if row_has(old(row)@, key) {
            0int
        } else {
            1int
        }),
{
    let ghost pre = row@;
    match row_find(row, key) {
        Some(i) => {
            proof {
                lemma_row_opt_update(pre, i as int, v, key);
            }
            row[i] = (key, v);
            proof {
                assert forall|k: u32| k != key implies row_opt(row@, k) == row_opt(pre, k) by {
                    lemma_row_opt_update(pre, i as int, v, k);
                }
                assert(row_distinct(row@)) by {
                    assert(forall|a: int|
                        0 <= a < row@.len() && a != i ==> row@[a] == pre[a]);
                }
                assert forall|k: u32| #[trigger] row_has(row@, k) <==> row_has(pre, k) || k
                    == key by {
                    if row_has(row@, k) {
                        let a = choose|a: int| 0 <= a < row@.len() && (#[trigger] row@[a]).0 == k;
                        if a != i {
                            assert(pre[a].0 == k);
                        }
                    }
                    if row_has(pre, k) {
                        let a = choose|a: int| 0 <= a < pre.len() && (#[trigger] pre[a]).0 == k;
                        if a == i {
                            assert(pre[i as int].0 == key);
                        } else {
                            assert(row@[a].0 == k);
                        }
                    }
                    if k == key {
                        assert(row@[i as int].0 == key);
                    }
                }
                assert(row_has(pre, key)) by {
                    assert(pre[i as int].0 == key);
                }
            }
        },
        None => {
            proof {
                lemma_row_opt_push(pre, key, v, key);
            }
            row.push((key, v));
            proof {
                assert forall|k: u32| k != key implies row_opt(row@, k) == row_opt(pre, k) by {
                    lemma_row_opt_push(pre, key, v, k);
                }
                assert(row_distinct(row@)) by {
                    assert(forall|a: int| 0 <= a < pre.len() ==> row@[a] == pre[a]);
                    assert(row@[pre.len() as int].0 == key);
                }
                assert forall|k: u32| #[trigger] row_has(row@, k) <==> row_has(pre, k) || k
                    == key by {
                    if row_has(row@, k) {
                        let a = choose|a: int| 0 <= a < row@.len() && (#[trigger] row@[a]).0 == k;
                        if a < pre.len() {
                            assert(pre[a].0 == k);
                        }
                    }
                    if row_has(pre, k) {
                        let a = choose|a: int| 0 <= a < pre.len() && (#[trigger] pre[a]).0 == k;
                        assert(row@[a].0 == k);
                    }
                    if k == key {
                        assert(row@[pre.len() as int].0 == key);
                    }
                }
            }
        },
    }
}

/// The position of `key` in the row; meaningful only when the row has the
/// key and its keys are distinct.
pub open spec fn row_index<V>(row: Seq<(u32, V)>, key: u32) -> int {
    choose|i: int| 0 <= i < row.len() && (#[trigger] row[i]).0 == key
}

/// A present key has a position that carries it.
pub proof fn lemma_row_index<V>(row: Seq<(u32, V)>, key: u32)
    requires
        row_has(row, key),
    ensures
        0 <= row_index(row, key) < row.len(),
        row[row_index(row, key)].0 == key,
{
}

/// In a row with distinct keys the position of a key is unique.
pub proof fn lemma_row_index_unique<V>(row: Seq<(u32, V)>, i: int)
    requires
        row_distinct(row),
        0 <= i < row.len(),
    ensures
        row_index(row, row[i].0) == i,
{
    assert(row_has(row, row[i].0));
    lemma_row_index(row, row[i].0);
}

/// The count stored for `key` in a row of counters; an absent key counts as
/// zero.
pub open spec fn row_val(row: Seq<(u32, u32)>, key: u32) -> nat {
    match row_opt(row, key) {
        Some(v) => v as nat,
        None => 0,
    }
}

/// Read the count for `key`.
pub fn row_get(row: &Vec<(u32, u32)>, key: u32) -> (v: u32)
    requires
        row_distinct(row@),
    ensures
        v as nat == row_val(row@, key),
{
    match row_find(row, key) {
        Some(i) => {
            proof {
                lemma_row_opt_index(row@, i as int);
            }
            row[i].1
        },
        None => {
            proof {
                lemma_row_opt_has(row@, key);
            }
            0
        },
    }
}

/// Add `d >= 1` to the count for `key`, creating the entry if it is absent.
/// Fails, leaving the row unchanged, exactly when the count would exceed
/// `u32::MAX`.
pub fn row_add(row: &mut Vec<(u32, u32)>, key: u32, d: u32) -> (ok: bool)
    requires
        row_distinct(old(row)@),
        d >= 1,
    ensures
        row_distinct(final(row)@),
        ok == (row_val(old(row)@, key) + d <= u32::MAX),
        ok ==> row_val(final(row)@, key) == row_val(old(row)@, key) + d,
        ok ==> forall|k: u32| k != key ==> row_opt(final(row)@, k) == row_opt(old(row)@, k),
        ok ==> forall|k: u32|
            #[trigger] row_has(final(row)@, k) <==> row_has(old(row)@, k) || k == key,
        !ok ==> *final(row) == *old(row),
{
    let ghost pre = row@;
    match row_find(row, key) {
        Some(i) => {
            proof {
                lemma_row_opt_index(pre, i as int);
            }
            let cur = row[i].1;
            match cur.checked_add(d) {
                Some(next) => {
                    proof {
                        lemma_row_opt_update(pre, i as int, next, key);
                    }
                    row[i] = (key, next);
                    proof {
                        assert forall|k: u32| k != key implies row_opt(row@, k) == row_opt(
                            pre,
                            k,
                        ) by {
                            lemma_row_opt_update(pre, i as int, next, k);
                        }
                        assert(row_distinct(row@)) by {
                            assert(forall|a: int|
                                0 <= a < row@.len() && a != i ==> row@[a] == pre[a]);
                        }
                        assert forall|k: u32| #[trigger] row_has(row@, k) <==> row_has(pre, k) || k
                            == key by {
                            if row_has(row@, k) {
                                let a = choose|a: int|
                                    0 <= a < row@.len() && (#[trigger] row@[a]).0 == k;
                                if a != i {
                                    assert(pre[a].0 == k);
                                } else {
                                    assert(pre[a].0 == key);
                                }
                            }
                            if row_has(pre, k) {
                                let a = choose|a: int|
                                    0 <= a < pre.len() && (#[trigger] pre[a]).0 == k;
                                assert(row@[a].0 == (if a == i {
                                    key
                                } else {
                                    k
                                }));
                            }
                        }
                    }
                    true
                },
                None => false,
            }
        },
        None => {
            proof {
                lemma_row_opt_has(pre, key);
            }
            row_set(row, key, d);
            true
        },
    }
}

/// Subtract `d` from the count for `key`, keeping the entry in place even
/// when it reaches zero.
pub fn row_sub(row: &mut Vec<(u32, u32)>, key: u32, d: u32)
    requires
        row_distinct(old(row)@),
        row_has(old(row)@, key),
        d <= row_val(old(row)@, key),
    ensures
        row_distinct(final(row)@),
        row_val(final(row)@, key) == row_val(old(row)@, key) - d,
        forall|k: u32| k != key ==> row_opt(final(row)@, k) == row_opt(old(row)@, k),
        forall|k: u32| #[trigger] row_has(final(row)@, k) <==> row_has(old(row)@, k),
        final(row)@.len() == old(row)@.len(),
{
    let ghost pre = row@;
    proof {
        lemma_row_opt_has(pre, key);
    }
    match row_find(row, key) {
        Some(i) => {
            proof {
                lemma_row_opt_index(pre, i as int);
            }
            let cur = row[i].1;
            let next = cur - d;
            proof {
                lemma_row_opt_update(pre, i as int, next, key);
            }
            row[i] = (key, next);
            proof {
                assert forall|k: u32| k != key implies row_opt(row@, k) == row_opt(pre, k) by {
                    lemma_row_opt_update(pre, i as int, next, k);
                }
                assert(row_distinct(row@)) by {
                    assert(forall|a: int| 0 <= a < row@.len() && a != i ==> row@[a] == pre[a]);
                }
                assert forall|k: u32| #[trigger] row_has(row@, k) <==> row_has(pre, k) by {
                    if row_has(row@, k) {
                        let a = choose|a: int| 0 <= a < row@.len() && (#[trigger] row@[a]).0 == k;
                        assert(pre[a].0 == (if a == i {
                            key
                        } else {
                            k
                        }));
                        if a == i {
                            assert(pre[i as int].0 == key);
                        }
                    }
                    if row_has(pre, k) {
                        let a = choose|a: int| 0 <= a < pre.len() && (#[trigger] pre[a]).0 == k;
                        assert(row@[a].0 == (if a == i {
                            key
                        } else {
                            k
                        }));
                        if a == i {
                            assert(row@[i as int].0 == key);
                        }
                    }
                }
            }
        },
        None => {
            proof {
                assert(false);
            }
        },
    }
}

} // verus!
