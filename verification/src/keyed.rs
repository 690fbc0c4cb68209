//! Text-keyed entries kept in strictly increasing key order (the order in
//! which `str` compares itself), with the insertion and lookup rules of an
//! ordered map.
use crate::text::{compare_keys, key_lt, lemma_key_lt_order, KeyOrder};
use vstd::prelude::*;

verus! {

/// Keys strictly increase along the entries.
pub open spec fn keys_sorted<V>(e: Seq<(Seq<char>, V)>) -> bool {
    forall|i: int, j: int| 0 <= i < j < e.len() ==> key_lt(#[trigger] e[i].0, #[trigger] e[j].0)
}

/// Ordered-map insertion: the entry for `k` is replaced if present,
/// otherwise `(k, v)` goes before the first larger key.
pub open spec fn insert_spec<V>(e: Seq<(Seq<char>, V)>, k: Seq<char>, v: V) -> Seq<(Seq<char>, V)>
    decreases e.len(),
{
    if e.len() == 0 {
        seq![(k, v)]
    } else if e[0].0 == k {
        seq![(k, v)] + e.drop_first()
    } else if key_lt(k, e[0].0) {
        seq![(k, v)] + e
    } else {
        seq![e[0]] + insert_spec(e.drop_first(), k, v)
    }
}

/// The value stored under `k`, if any.
pub open spec fn lookup_spec<V>(e: Seq<(Seq<char>, V)>, k: Seq<char>) -> Option<V>
    decreases e.len(),
{
    if e.len() == 0 {
        None
    } else if e[0].0 == k {
        Some(e[0].1)
    } else {
        lookup_spec(e.drop_first(), k)
    }
}

/// The keys of a run of entries.
pub open spec fn keys_of<V>(e: Seq<(Seq<char>, V)>) -> Seq<Seq<char>> {
    e.map_values(|x: (Seq<char>, V)| x.0)
}

/// Where `key` stands among the entries: `Ok(i)` when entry `i` has it,
/// `Err(i)` when every key before `i` is smaller and every key from `i` on
/// is larger.
pub open spec fn position_spec<V>(e: Seq<(Seq<char>, V)>, key: Seq<char>, r: Result<usize, usize>) -> bool {
    match r {
        Ok(i) => i < e.len() && e[i as int].0 == key && (forall|j: int|
            0 <= j < i ==> key_lt(#[trigger] e[j].0, key)),
        Err(i) => i <= e.len() && (forall|j: int| 0 <= j < i ==> key_lt(#[trigger] e[j].0, key))
            && (forall|j: int| i <= j < e.len() ==> key_lt(key, #[trigger] e[j].0)),
    }
}

/// The entries of a vector with their keys viewed as text.
pub open spec fn entries_view<V>(e: Seq<(String, V)>) -> Seq<(Seq<char>, V)> {
    e.map_values(|x: (String, V)| (x.0@, x.1))
}

/// Finds `key` among entries whose keys strictly increase.
pub fn find_key<V>(entries: &Vec<(String, V)>, key: &str) -> (r: Result<usize, usize>)
    requires
        keys_sorted(entries_view(entries@)),
    ensures
        position_spec(entries_view(entries@), key@, r),
{
    let ghost e = entries_view(entries@);
    let mut i: usize = 0;
    while i < entries.len()
        invariant
            i <= entries@.len(),
            e == entries_view(entries@),
            keys_sorted(e),
            forall|j: int| 0 <= j < i ==> key_lt(#[trigger] e[j].0, key@),
        decreases entries.len() - i,
    {
        match compare_keys(entries[i].0.as_str(), key) {
            KeyOrder::Equal => {
                return Ok(i);
            },
            KeyOrder::Greater => {
                assert forall|j: int| i <= j < e.len() implies key_lt(key@, #[trigger] e[j].0) by {
                    if j > i {
                        lemma_key_lt_order(key@, e[i as int].0, e[j].0);
                    }
                }
                return Err(i);
            },
            KeyOrder::Less => {},
        }
        i += 1;
    }
    Err(i)
}

/// The entries with each value transformed by `f`, keys unchanged.
pub open spec fn map_vals<V, W>(e: Seq<(Seq<char>, V)>, f: spec_fn(V) -> W) -> Seq<(Seq<char>, W)> {
    e.map_values(|x: (Seq<char>, V)| (x.0, f(x.1)))
}

/// Transforming values keeps keys, so order and positions carry over.
pub proof fn lemma_map_vals_keys<V, W>(e: Seq<(Seq<char>, V)>, f: spec_fn(V) -> W, k: Seq<char>, r: Result<usize, usize>)
    ensures
        keys_sorted(e) <==> keys_sorted(map_vals(e, f)),
        position_spec(e, k, r) ==> position_spec(map_vals(e, f), k, r),
{
    let m = map_vals(e, f);
    assert forall|j: int| 0 <= j < e.len() implies #[trigger] m[j].0 == e[j].0 by {}
    if keys_sorted(e) {
        assert forall|i: int, j: int| 0 <= i < j < m.len() implies key_lt(
            #[trigger] m[i].0,
            #[trigger] m[j].0,
        ) by {
            assert(m[i].0 == e[i].0 && m[j].0 == e[j].0);
        }
    }
    if keys_sorted(m) {
        assert forall|i: int, j: int| 0 <= i < j < e.len() implies key_lt(
            #[trigger] e[i].0,
            #[trigger] e[j].0,
        ) by {
            assert(m[i].0 == e[i].0 && m[j].0 == e[j].0);
        }
    }
    if position_spec(e, k, r) {
        match r {
            Ok(i) => {
                assert(m[i as int].0 == e[i as int].0);
                assert forall|j: int| 0 <= j < i implies key_lt(#[trigger] m[j].0, k) by {
                    assert(m[j].0 == e[j].0);
                }
            },
            Err(i) => {
                assert forall|j: int| 0 <= j < i implies key_lt(#[trigger] m[j].0, k) by {
                    assert(m[j].0 == e[j].0);
                }
                assert forall|j: int| i <= j < m.len() implies key_lt(k, #[trigger] m[j].0) by {
                    assert(m[j].0 == e[j].0);
                }
            },
        }
    }
}

/// With every key before `i` smaller than `k`, insertion happens past them.
pub proof fn lemma_insert_skip<V>(e: Seq<(Seq<char>, V)>, k: Seq<char>, v: V, i: int)
    requires
        0 <= i <= e.len(),
        forall|j: int| 0 <= j < i ==> key_lt(#[trigger] e[j].0, k),
    ensures
        insert_spec(e, k, v) == e.subrange(0, i) + insert_spec(e.skip(i), k, v),
    decreases i,
{
    if i > 0 {
        lemma_key_lt_order(e[0].0, k, k);
        assert forall|j: int| 0 <= j < i - 1 implies key_lt(#[trigger] e.drop_first()[j].0, k) by {
            assert(e.drop_first()[j] == e[j + 1]);
        }
        lemma_insert_skip(e.drop_first(), k, v, i - 1);
        assert(e.drop_first().skip(i - 1) =~= e.skip(i));
        assert(e.subrange(0, i) =~= seq![e[0]] + e.drop_first().subrange(0, i - 1));
    } else {
        assert(e.skip(0) =~= e);
    }
}

/// Insertion where `find_key` reported `Err(i)`: a new entry at `i`.
pub proof fn lemma_insert_new<V>(e: Seq<(Seq<char>, V)>, k: Seq<char>, v: V, u: usize)
    requires
        position_spec(e, k, Err(u)),
    ensures
        insert_spec(e, k, v) == e.insert(u as int, (k, v)),
{
    let i = u as int;
    lemma_insert_skip(e, k, v, i);
    if i < e.len() {
        lemma_key_lt_order(k, e[i].0, e[i].0);
    }
    assert(e.insert(i, (k, v)) =~= e.subrange(0, i) + (seq![(k, v)] + e.skip(i)));
    if i < e.len() {
        assert(e.skip(i)[0] == e[i]);
        assert(e.skip(i).len() > 0);
    } else {
        assert(e.skip(i).len() == 0);
    }
}

/// Insertion where `find_key` reported `Ok(i)`: entry `i` is replaced.
pub proof fn lemma_insert_existing<V>(e: Seq<(Seq<char>, V)>, k: Seq<char>, v: V, u: usize)
    requires
        position_spec(e, k, Ok(u)),
    ensures
        insert_spec(e, k, v) == e.update(u as int, (k, v)),
{
    let i = u as int;
    lemma_insert_skip(e, k, v, i);
    assert(e.skip(i)[0] == e[i]);
    assert(e.skip(i).drop_first() =~= e.skip(i + 1));
    assert(e.update(i, (k, v)) =~= e.subrange(0, i) + (seq![(k, v)] + e.skip(i + 1)));
}

/// Lookup where `find_key` reported a position.
pub proof fn lemma_lookup_position<V>(e: Seq<(Seq<char>, V)>, k: Seq<char>, r: Result<usize, usize>)
    requires
        position_spec(e, k, r),
    ensures
        lookup_spec(e, k) == match r {
            Ok(i) => Some(e[i as int].1),
            Err(_) => None::<V>,
        },
    decreases e.len(),
{
    if e.len() > 0 {
        match r {
            Ok(i) => {
                if i > 0 {
                    lemma_key_lt_order(e[0].0, k, k);
                    assert forall|j: int| 0 <= j < i - 1 implies key_lt(
                        #[trigger] e.drop_first()[j].0,
                        k,
                    ) by {
                        assert(e.drop_first()[j] == e[j + 1]);
                    }
                    lemma_lookup_position(e.drop_first(), k, Ok((i - 1) as usize));
                }
            },
            Err(i) => {
                if i > 0 {
                    lemma_key_lt_order(e[0].0, k, k);
                } else {
                    lemma_key_lt_order(k, e[0].0, k);
                }
                let r2: Result<usize, usize> = if i > 0 {
                    Err((i - 1) as usize)
                } else {
                    Err(0)
                };
                assert forall|j: int| 0 <= j < e.drop_first().len() implies (j < (if i > 0 {
                    i - 1
                } else {
                    0
                }) ==> key_lt(#[trigger] e.drop_first()[j].0, k)) && ((if i > 0 {
                    i - 1
                } else {
                    0
                }) <= j ==> key_lt(k, e.drop_first()[j].0)) by {
                    assert(e.drop_first()[j] == e[j + 1]);
                }
                lemma_lookup_position(e.drop_first(), k, r2);
            },
        }
    }
}

/// Insertion keeps the keys strictly increasing.
pub proof fn lemma_insert_sorted<V>(e: Seq<(Seq<char>, V)>, k: Seq<char>, v: V)
    requires
        keys_sorted(e),
    ensures
        keys_sorted(insert_spec(e, k, v)),
        forall|x: Seq<char>| #[trigger] lookup_spec(insert_spec(e, k, v), x) == if x == k {
            Some(v)
        } else {
            lookup_spec(e, x)
        },
    decreases e.len(),
{
    if e.len() > 0 {
        let t = e.drop_first();
        assert(keys_sorted(t)) by {
            assert forall|i: int, j: int| 0 <= i < j < t.len() implies key_lt(
                #[trigger] t[i].0,
                #[trigger] t[j].0,
            ) by {
                assert(t[i] == e[i + 1] && t[j] == e[j + 1]);
            }
        }
        lemma_key_lt_order(k, e[0].0, e[0].0);
        if e[0].0 == k {
            let r = insert_spec(e, k, v);
            assert forall|i: int, j: int| 0 <= i < j < r.len() implies key_lt(
                #[trigger] r[i].0,
                #[trigger] r[j].0,
            ) by {
                if i > 0 {
                    assert(r[i] == e[i]);
                }
                assert(r[j] == e[j]);
            }
        } else if key_lt(k, e[0].0) {
            let r = insert_spec(e, k, v);
            assert forall|i: int, j: int| 0 <= i < j < r.len() implies key_lt(
                #[trigger] r[i].0,
                #[trigger] r[j].0,
            ) by {
                assert(r[j] == e[j - 1]);
                if i > 0 {
                    assert(r[i] == e[i - 1]);
                } else if j > 1 {
                    lemma_key_lt_order(k, e[0].0, e[j - 1].0);
                }
            }
        } else {
            lemma_insert_sorted(t, k, v);
            let it = insert_spec(t, k, v);
            let r = insert_spec(e, k, v);
            assert(r == seq![e[0]] + it);
            assert forall|i: int, j: int| 0 <= i < j < r.len() implies key_lt(
                #[trigger] r[i].0,
                #[trigger] r[j].0,
            ) by {
                if i == 0 {
                    assert(r[j] == it[j - 1]);
                    lemma_insert_keys(t, k, v, j - 1);
                    if it[j - 1].0 != k {
                        let m = choose|m: int| 0 <= m < t.len() && t[m].0 == it[j - 1].0;
                        assert(t[m] == e[m + 1]);
                    }
                } else {
                    assert(r[i] == it[i - 1] && r[j] == it[j - 1]);
                }
            }
            assert forall|x: Seq<char>| #[trigger] lookup_spec(r, x) == if x == k {
                Some(v)
            } else {
                lookup_spec(e, x)
            } by {
                assert(r.drop_first() =~= it);
                if x == e[0].0 {
                } else {
                    assert(lookup_spec(r, x) == lookup_spec(it, x));
                }
            }
        }
        if e[0].0 == k || key_lt(k, e[0].0) {
            let r = insert_spec(e, k, v);
            assert forall|x: Seq<char>| #[trigger] lookup_spec(r, x) == if x == k {
                Some(v)
            } else {
                lookup_spec(e, x)
            } by {
                if e[0].0 == k {
                    assert(r.drop_first() =~= t);
                } else {
                    assert(r.drop_first() =~= e);
                }
            }
        }
    } else {
        assert(insert_spec(e, k, v).drop_first() =~= e);
    }
}

/// Inserting two different keys gives the same entries in either order.
pub proof fn law_insert_commutes<V>(e: Seq<(Seq<char>, V)>, k1: Seq<char>, v1: V, k2: Seq<char>, v2: V)
    requires
        k1 != k2,
    ensures
        insert_spec(insert_spec(e, k1, v1), k2, v2) == insert_spec(insert_spec(e, k2, v2), k1, v1),
    decreases e.len(),
{
    lemma_key_lt_order(k1, k2, k2);
    let a = seq![(k1, v1)];
    let b = seq![(k2, v2)];
    if e.len() == 0 {
        assert(a.drop_first() =~= e);
        assert(b.drop_first() =~= e);
        assert(insert_spec(a.drop_first(), k2, v2) == b);
        assert(insert_spec(b.drop_first(), k1, v1) == a);
        assert(insert_spec(a, k2, v2) =~= (if key_lt(k2, k1) {
            b + a
        } else {
            a + b
        }));
        assert(insert_spec(b, k1, v1) =~= (if key_lt(k1, k2) {
            a + b
        } else {
            b + a
        }));
    } else {
        let x = e[0].0;
        let t = e.drop_first();
        lemma_key_lt_order(k1, x, k2);
        lemma_key_lt_order(k2, x, k1);
        lemma_key_lt_order(x, k1, k2);
        lemma_key_lt_order(x, k2, k1);
        lemma_key_lt_order(k1, k2, x);
        lemma_key_lt_order(k2, k1, x);
        assert((a + t).drop_first() =~= t);
        assert((b + t).drop_first() =~= t);
        assert((a + e).drop_first() =~= e);
        assert((b + e).drop_first() =~= e);
        assert((seq![e[0]] + insert_spec(t, k1, v1)).drop_first() =~= insert_spec(t, k1, v1));
        assert((seq![e[0]] + insert_spec(t, k2, v2)).drop_first() =~= insert_spec(t, k2, v2));
        if x != k1 && x != k2 && key_lt(x, k1) && key_lt(x, k2) {
            law_insert_commutes(t, k1, v1, k2, v2);
        } else if x == k1 {
            if key_lt(k2, k1) {
                assert((b + e).drop_first() =~= e);
                assert((b + e)[0] == (k2, v2));
                assert(insert_spec(e, k1, v1) == a + t);
                assert(insert_spec(b + e, k1, v1) =~= b + (a + t));
            } else {
                assert(insert_spec(e, k2, v2) =~= seq![e[0]] + insert_spec(t, k2, v2));
            }
        } else if x == k2 {
            if key_lt(k1, k2) {
                assert((a + e)[0] == (k1, v1));
                assert(insert_spec(e, k2, v2) == b + t);
                assert(insert_spec(a + e, k2, v2) =~= a + (b + t));
            } else {
                assert(insert_spec(e, k1, v1) =~= seq![e[0]] + insert_spec(t, k1, v1));
            }
        } else if key_lt(k1, x) && key_lt(k2, x) {
            assert((a + e)[0] == (k1, v1));
            assert((b + e)[0] == (k2, v2));
            assert(insert_spec(e, k2, v2) == b + e);
            assert(insert_spec(e, k1, v1) == a + e);
            if key_lt(k1, k2) {
                assert(insert_spec(a + e, k2, v2) =~= a + (b + e));
                assert(insert_spec(b + e, k1, v1) =~= a + (b + e));
            } else {
                assert(insert_spec(a + e, k2, v2) =~= b + (a + e));
                assert(insert_spec(b + e, k1, v1) =~= b + (a + e));
            }
        } else if key_lt(k1, x) {
            assert(insert_spec(a + e, k2, v2) =~= a + insert_spec(e, k2, v2));
        } else {
            assert(insert_spec(b + e, k1, v1) =~= b + insert_spec(e, k1, v1));
        }
    }
}

/// Every key after insertion is `k` or an old key.
pub proof fn lemma_insert_keys<V>(e: Seq<(Seq<char>, V)>, k: Seq<char>, v: V, n: int)
    requires
        0 <= n < insert_spec(e, k, v).len(),
    ensures
        insert_spec(e, k, v)[n].0 == k || exists|m: int|
            0 <= m < e.len() && e[m].0 == #[trigger] insert_spec(e, k, v)[n].0,
    decreases e.len(),
{
    if e.len() > 0 && e[0].0 != k && !key_lt(k, e[0].0) {
        if n > 0 {
            lemma_insert_keys(e.drop_first(), k, v, n - 1);
            let r = insert_spec(e, k, v);
            assert(r[n] == insert_spec(e.drop_first(), k, v)[n - 1]);
            if r[n].0 != k {
                let m = choose|m: int|
                    0 <= m < e.drop_first().len() && e.drop_first()[m].0 == insert_spec(
                        e.drop_first(),
                        k,
                        v,
                    )[n - 1].0;
                assert(e[m + 1] == e.drop_first()[m]);
            }
        } else {
            assert(insert_spec(e, k, v)[0] == e[0]);
        }
    } else if e.len() > 0 && n > 0 {
        if e[0].0 == k {
            assert(insert_spec(e, k, v)[n] == e[n]);
        } else {
            assert(insert_spec(e, k, v)[n] == e[n - 1]);
        }
    }
}


/// In strictly increasing keys, the lookup of a key finds the entry that
/// holds it.
pub proof fn lemma_lookup_at<V>(e: Seq<(Seq<char>, V)>, k: Seq<char>, i: int)
    requires
        keys_sorted(e),
        0 <= i < e.len(),
        e[i].0 == k,
    ensures
        lookup_spec(e, k) == Some(e[i].1),
    decreases e.len(),
{
    if i > 0 {
        lemma_key_lt_order(e[0].0, k, k);
        assert(key_lt(e[0].0, e[i].0));
        let t = e.drop_first();
        assert(keys_sorted(t)) by {
            assert forall|a: int, b: int| 0 <= a < b < t.len() implies key_lt(
                #[trigger] t[a].0,
                #[trigger] t[b].0,
            ) by {
                assert(t[a] == e[a + 1] && t[b] == e[b + 1]);
            }
        }
        assert(t[i - 1] == e[i]);
        lemma_lookup_at(t, k, i - 1);
    }
}

/// A key held by no entry is not found.
pub proof fn lemma_lookup_absent<V>(e: Seq<(Seq<char>, V)>, k: Seq<char>)
    requires
        forall|i: int| 0 <= i < e.len() ==> #[trigger] e[i].0 != k,
    ensures
        lookup_spec(e, k) is None,
    decreases e.len(),
{
    if e.len() > 0 {
        assert(e[0].0 != k);
        assert forall|i: int| 0 <= i < e.drop_first().len() implies #[trigger] e.drop_first()[i].0
            != k by {
            assert(e.drop_first()[i] == e[i + 1]);
        }
        lemma_lookup_absent(e.drop_first(), k);
    }
}

/// A found value is the value of some entry holding the key.
pub proof fn lemma_lookup_found<V>(e: Seq<(Seq<char>, V)>, k: Seq<char>) -> (i: int)
    requires
        lookup_spec(e, k) is Some,
    ensures
        0 <= i < e.len(),
        e[i].0 == k,
        lookup_spec(e, k) == Some(e[i].1),
    decreases e.len(),
{
    if e[0].0 == k {
        0
    } else {
        let j = lemma_lookup_found(e.drop_first(), k);
        assert(e.drop_first()[j] == e[j + 1]);
        j + 1
    }
}

/// Every entry after an insertion is the inserted one or an entry from
/// before.
pub proof fn lemma_insert_entries<V>(e: Seq<(Seq<char>, V)>, k: Seq<char>, v: V, n: int)
    requires
        0 <= n < insert_spec(e, k, v).len(),
    ensures
        insert_spec(e, k, v)[n] == (k, v) || exists|m: int|
            0 <= m < e.len() && e[m] == #[trigger] insert_spec(e, k, v)[n],
    decreases e.len(),
{
    let r = insert_spec(e, k, v);
    if e.len() == 0 {
    } else if e[0].0 == k {
        if n > 0 {
            assert(r[n] == e[n]);
        }
    } else if key_lt(k, e[0].0) {
        if n > 0 {
            assert(r[n] == e[n - 1]);
        }
    } else {
        if n == 0 {
            assert(r[0] == e[0]);
        } else {
            lemma_insert_entries(e.drop_first(), k, v, n - 1);
            assert(r[n] == insert_spec(e.drop_first(), k, v)[n - 1]);
            if r[n] != (k, v) {
                let m = choose|m: int|
                    0 <= m < e.drop_first().len() && e.drop_first()[m] == #[trigger] insert_spec(
                        e.drop_first(),
                        k,
                        v,
                    )[n - 1];
                assert(e[m + 1] == r[n]);
            }
        }
    }
}


/// In strictly increasing keys, looking a key up in all entries is looking
/// it up in all but the last, unless the last entry holds it.
pub proof fn lemma_lookup_drop_last<V>(e: Seq<(Seq<char>, V)>, k: Seq<char>)
    requires
        keys_sorted(e),
        e.len() > 0,
    ensures
        lookup_spec(e, k) == if e.last().0 == k {
            Some(e.last().1)
        } else {
            lookup_spec(e.drop_last(), k)
        },
{
    let t = e.drop_last();
    assert(keys_sorted(t)) by {
        assert forall|a: int, b: int| 0 <= a < b < t.len() implies key_lt(
            #[trigger] t[a].0,
            #[trigger] t[b].0,
        ) by {
            assert(t[a] == e[a] && t[b] == e[b]);
        }
    }
    if e.last().0 == k {
        lemma_lookup_at(e, k, e.len() - 1);
    } else if exists|i: int| 0 <= i < t.len() && #[trigger] t[i].0 == k {
        let i = choose|i: int| 0 <= i < t.len() && #[trigger] t[i].0 == k;
        assert(e[i] == t[i]);
        lemma_lookup_at(e, k, i);
        lemma_lookup_at(t, k, i);
    } else {
        assert forall|i: int| 0 <= i < e.len() implies #[trigger] e[i].0 != k by {
            if i < t.len() {
                assert(e[i] == t[i]);
            }
        }
        lemma_lookup_absent(e, k);
        lemma_lookup_absent(t, k);
    }
}


/// In strictly increasing keys, a key is held exactly when it is found.
pub proof fn lemma_keys_lookup<V>(e: Seq<(Seq<char>, V)>, x: Seq<char>)
    requires
        keys_sorted(e),
    ensures
        keys_of(e).contains(x) <==> lookup_spec(e, x) is Some,
{
    if keys_of(e).contains(x) {
        let i = choose|i: int| 0 <= i < keys_of(e).len() && keys_of(e)[i] == x;
        assert(e[i].0 == x);
        lemma_lookup_at(e, x, i);
    }
    if lookup_spec(e, x) is Some {
        let i = lemma_lookup_found(e, x);
        assert(keys_of(e)[i] == x);
    }
}

/// After an insertion the keys are the keys from before and the new one.
pub proof fn lemma_insert_key_set<V>(e: Seq<(Seq<char>, V)>, k: Seq<char>, v: V, x: Seq<char>)
    requires
        keys_sorted(e),
    ensures
        keys_of(insert_spec(e, k, v)).contains(x) <==> (x == k || keys_of(e).contains(x)),
        insert_spec(e, k, v).len() > 0,
{
    lemma_insert_sorted(e, k, v);
    lemma_keys_lookup(insert_spec(e, k, v), x);
    lemma_keys_lookup(insert_spec(e, k, v), k);
    lemma_keys_lookup(e, x);
    assert(lookup_spec(insert_spec(e, k, v), x) == if x == k {
        Some(v)
    } else {
        lookup_spec(e, x)
    });
    assert(lookup_spec(insert_spec(e, k, v), k) == Some(v));
}

} // verus!
