//! Coverage: backend → operation → count, schema-free. Adding a backend
//! or an operation is adding data. Backends and operations are kept in
//! `str` order, as an ordered map iterates them.
use crate::keyed::{
    entries_view, find_key, keys_of, insert_spec, keys_sorted, lemma_insert_entries,
    lemma_insert_existing, lemma_insert_key_set, lemma_insert_new, lemma_insert_sorted,
    lemma_lookup_absent,
    lemma_lookup_drop_last, lemma_lookup_found, lemma_lookup_position, lemma_map_vals_keys,
    lookup_spec, map_vals,
};
use crate::evidence_core::canonical::{json_text_spec, push_json_text};
use crate::text::{key_lt, lemma_key_lt_order};
use crate::text::{decimal_spec, u64_to_decimal};
use vstd::prelude::*;

verus! {

/// The text view of a coverage table: backends in order, each with its
/// operations in order and their counts.
pub type CoverageView = Seq<(Seq<char>, Seq<(Seq<char>, u64)>)>;

/// The view of one backend's operations.
pub open spec fn ops_view(v: Vec<(String, u64)>) -> Seq<(Seq<char>, u64)> {
    entries_view(v@)
}

/// The view of the whole table.
pub open spec fn table_view(c: Seq<(String, Vec<(String, u64)>)>) -> CoverageView {
    map_vals(entries_view(c), |v: Vec<(String, u64)>| ops_view(v))
}

/// The operations recorded for `backend` (none when it is absent).
pub open spec fn ops_of(v: CoverageView, backend: Seq<char>) -> Seq<(Seq<char>, u64)> {
    match lookup_spec(v, backend) {
        Some(ops) => ops,
        None => Seq::empty(),
    }
}

/// The count for `backend` and `operation` (zero when not recorded).
pub open spec fn count_spec(v: CoverageView, backend: Seq<char>, operation: Seq<char>) -> u64 {
    match lookup_spec(ops_of(v, backend), operation) {
        Some(c) => c,
        None => 0,
    }
}

/// The table with the count for `backend`/`operation` set to `n`.
pub open spec fn put_spec(v: CoverageView, backend: Seq<char>, operation: Seq<char>, n: u64) -> CoverageView {
    insert_spec(v, backend, insert_spec(ops_of(v, backend), operation, n))
}

/// Every backend and every backend's operations are in strictly
/// increasing order.
pub open spec fn table_sorted(v: CoverageView) -> bool {
    keys_sorted(v) && forall|i: int| 0 <= i < v.len() ==> keys_sorted(#[trigger] v[i].1)
}

/// One backend's operations as `(backend, operation, count)` items.
pub open spec fn row_spec(b: (Seq<char>, Seq<(Seq<char>, u64)>)) -> Seq<(Seq<char>, Seq<char>, u64)> {
    b.1.map_values(|x: (Seq<char>, u64)| (b.0, x.0, x.1))
}

/// Every recorded count as `(backend, operation, count)`, in table order.
pub open spec fn flat_spec(v: CoverageView) -> Seq<(Seq<char>, Seq<char>, u64)>
    decreases v.len(),
{
    if v.len() == 0 {
        Seq::empty()
    } else {
        flat_spec(v.drop_last()) + row_spec(v.last())
    }
}

/// Adding the items one by one, in order.
pub open spec fn merge_spec(v: CoverageView, items: Seq<(Seq<char>, Seq<char>, u64)>) -> CoverageView
    decreases items.len(),
{
    if items.len() == 0 {
        v
    } else {
        let m = merge_spec(v, items.drop_last());
        let (b, o, c) = items.last();
        put_spec(m, b, o, (count_spec(m, b, o) + c) as u64)
    }
}

/// No addition along the way exceeds `u64::MAX`.
pub open spec fn merge_fits(v: CoverageView, items: Seq<(Seq<char>, Seq<char>, u64)>) -> bool
    decreases items.len(),
{
    if items.len() == 0 {
        true
    } else {
        let m = merge_spec(v, items.drop_last());
        let (b, o, c) = items.last();
        merge_fits(v, items.drop_last()) && count_spec(m, b, o) + c <= u64::MAX
    }
}

pub proof fn lemma_merge_fits_prefix(v: CoverageView, a: Seq<(Seq<char>, Seq<char>, u64)>, b: Seq<(Seq<char>, Seq<char>, u64)>)
    requires
        merge_fits(v, a + b),
    ensures
        merge_fits(v, a),
    decreases b.len(),
{
    if b.len() > 0 {
        assert((a + b).drop_last() =~= a + b.drop_last());
        lemma_merge_fits_prefix(v, a, b.drop_last());
    } else {
        assert(a + b =~= a);
    }
}

pub proof fn lemma_flat_concat(a: CoverageView, b: CoverageView)
    ensures
        flat_spec(a + b) == flat_spec(a) + flat_spec(b),
    decreases b.len(),
{
    if b.len() > 0 {
        assert((a + b).drop_last() =~= a + b.drop_last());
        assert((a + b).last() == b.last());
        lemma_flat_concat(a, b.drop_last());
        assert(flat_spec(a) + flat_spec(b.drop_last()) + row_spec(b.last()) =~= flat_spec(a) + (
        flat_spec(b.drop_last()) + row_spec(b.last())));
    } else {
        assert(a + b =~= a);
        assert(flat_spec(a) + flat_spec(b) =~= flat_spec(a));
    }
}

/// A well-formed table: backends, and each backend's operations, in
/// strictly increasing order, and every backend with at least one operation.
pub open spec fn coverage_wf(v: CoverageView) -> bool {
    &&& table_sorted(v)
    &&& forall|i: int| 0 <= i < v.len() ==> (#[trigger] v[i].1).len() > 0
}

/// Some item carries a count for `backend`.
pub open spec fn has_backend(items: Seq<(Seq<char>, Seq<char>, u64)>, backend: Seq<char>) -> bool {
    exists|i: int| 0 <= i < items.len() && (#[trigger] items[i]).0 == backend
}

/// The sum of the counts that `items` carry for `backend`/`operation`.
pub open spec fn match_sum(items: Seq<(Seq<char>, Seq<char>, u64)>, backend: Seq<char>, operation: Seq<char>) -> nat
    decreases items.len(),
{
    if items.len() == 0 {
        0
    } else {
        let (b, o, c) = items.last();
        match_sum(items.drop_last(), backend, operation) + if b == backend && o == operation {
            c as nat
        } else {
            0
        }
    }
}

/// The operations of a backend of an ordered table are ordered.
proof fn lemma_ops_sorted(v: CoverageView, b: Seq<char>)
    requires
        table_sorted(v),
    ensures
        keys_sorted(ops_of(v, b)),
{
    if lookup_spec(v, b) is Some {
        let i = lemma_lookup_found(v, b);
        assert(keys_sorted(v[i].1));
    }
}

/// Setting a count keeps a table ordered.
proof fn lemma_put_sorted(v: CoverageView, b: Seq<char>, o: Seq<char>, n: u64)
    requires
        table_sorted(v),
    ensures
        table_sorted(put_spec(v, b, o, n)),
{
    lemma_ops_sorted(v, b);
    let inner = insert_spec(ops_of(v, b), o, n);
    lemma_insert_sorted(ops_of(v, b), o, n);
    lemma_insert_sorted(v, b, inner);
    let r = put_spec(v, b, o, n);
    assert forall|k: int| 0 <= k < r.len() implies keys_sorted(#[trigger] r[k].1) by {
        lemma_insert_entries(v, b, inner, k);
        if r[k] != (b, inner) {
            let m = choose|m: int| 0 <= m < v.len() && v[m] == #[trigger] insert_spec(v, b, inner)[k];
            assert(keys_sorted(v[m].1));
        }
    }
}

/// Reading back a count: after setting `backend`/`operation` to `n`, that
/// count is `n` and every other count is unchanged.
proof fn lemma_count_after_put(v: CoverageView, b: Seq<char>, o: Seq<char>, n: u64, b2: Seq<char>, o2: Seq<char>)
    requires
        table_sorted(v),
    ensures
        count_spec(put_spec(v, b, o, n), b2, o2) == if b2 == b && o2 == o {
            n
        } else {
            count_spec(v, b2, o2)
        },
{
    lemma_ops_sorted(v, b);
    let inner = insert_spec(ops_of(v, b), o, n);
    lemma_insert_sorted(ops_of(v, b), o, n);
    lemma_insert_sorted(v, b, inner);
    assert(lookup_spec(put_spec(v, b, o, n), b2) == if b2 == b {
        Some(inner)
    } else {
        lookup_spec(v, b2)
    });
    assert(lookup_spec(inner, o2) == if o2 == o {
        Some(n)
    } else {
        lookup_spec(ops_of(v, b), o2)
    });
}

/// Adding items one by one adds, for every backend and operation, the sum
/// of their counts there.
proof fn lemma_merge_counts(v: CoverageView, items: Seq<(Seq<char>, Seq<char>, u64)>, b: Seq<char>, o: Seq<char>)
    requires
        table_sorted(v),
        merge_fits(v, items),
    ensures
        table_sorted(merge_spec(v, items)),
        count_spec(merge_spec(v, items), b, o) == count_spec(v, b, o) + match_sum(items, b, o),
    decreases items.len(),
{
    if items.len() > 0 {
        let rest = items.drop_last();
        lemma_merge_counts(v, rest, b, o);
        let m = merge_spec(v, rest);
        let (lb, lo, lc) = items.last();
        let nc = (count_spec(m, lb, lo) + lc) as u64;
        lemma_put_sorted(m, lb, lo, nc);
        lemma_count_after_put(m, lb, lo, nc, b, o);
    }
}

/// The sum over a concatenation is the sum of the sums.
proof fn lemma_match_sum_concat(a: Seq<(Seq<char>, Seq<char>, u64)>, c: Seq<(Seq<char>, Seq<char>, u64)>, b: Seq<char>, o: Seq<char>)
    ensures
        match_sum(a + c, b, o) == match_sum(a, b, o) + match_sum(c, b, o),
    decreases c.len(),
{
    if c.len() > 0 {
        assert((a + c).drop_last() =~= a + c.drop_last());
        assert((a + c).last() == c.last());
        lemma_match_sum_concat(a, c.drop_last(), b, o);
    } else {
        assert(a + c =~= a);
    }
}

/// The items of one backend carry, for `backend`/`operation`, exactly the
/// count that backend has recorded.
proof fn lemma_row_match(bk: Seq<char>, ops: Seq<(Seq<char>, u64)>, b: Seq<char>, o: Seq<char>)
    requires
        keys_sorted(ops),
    ensures
        match_sum(row_spec((bk, ops)), b, o) == if bk == b {
            match lookup_spec(ops, o) {
                Some(c) => c as nat,
                None => 0,
            }
        } else {
            0
        },
    decreases ops.len(),
{
    let row = row_spec((bk, ops));
    if ops.len() == 0 {
        assert(row.len() == 0);
    } else {
        let t = ops.drop_last();
        assert(keys_sorted(t)) by {
            assert forall|a: int, c: int| 0 <= a < c < t.len() implies key_lt(
                #[trigger] t[a].0,
                #[trigger] t[c].0,
            ) by {
                assert(t[a] == ops[a] && t[c] == ops[c]);
            }
        }
        lemma_row_match(bk, t, b, o);
        assert(row.drop_last() =~= row_spec((bk, t)));
        assert(row.last() == (bk, ops.last().0, ops.last().1));
        lemma_lookup_drop_last(ops, o);
        if ops.last().0 == o {
            assert forall|i: int| 0 <= i < t.len() implies #[trigger] t[i].0 != o by {
                assert(t[i] == ops[i]);
                assert(key_lt(ops[i].0, ops[ops.len() - 1].0));
                lemma_key_lt_order(ops[i].0, ops[i].0, ops[i].0);
            }
            lemma_lookup_absent(t, o);
        }
        assert(match_sum(row, b, o) == match_sum(row.drop_last(), b, o) + if bk == b && ops.last().0
            == o {
            ops.last().1 as nat
        } else {
            0
        });
    }
}

/// The items of an ordered table carry, for every backend and operation,
/// exactly its count.
proof fn lemma_flat_match(v: CoverageView, b: Seq<char>, o: Seq<char>)
    requires
        table_sorted(v),
    ensures
        match_sum(flat_spec(v), b, o) == count_spec(v, b, o),
    decreases v.len(),
{
    if v.len() == 0 {
        assert(flat_spec(v).len() == 0);
    } else {
        let t = v.drop_last();
        assert(table_sorted(t)) by {
            assert forall|a: int, c: int| 0 <= a < c < t.len() implies key_lt(
                #[trigger] t[a].0,
                #[trigger] t[c].0,
            ) by {
                assert(t[a] == v[a] && t[c] == v[c]);
            }
            assert forall|a: int| 0 <= a < t.len() implies keys_sorted(#[trigger] t[a].1) by {
                assert(t[a] == v[a]);
            }
        }
        lemma_flat_match(t, b, o);
        lemma_match_sum_concat(flat_spec(t), row_spec(v.last()), b, o);
        assert(keys_sorted(v[v.len() - 1].1));
        lemma_row_match(v.last().0, v.last().1, b, o);
        lemma_lookup_drop_last(v, b);
        if v.last().0 == b {
            // b is absent from the earlier backends.
            assert forall|i: int| 0 <= i < t.len() implies #[trigger] t[i].0 != b by {
                assert(t[i] == v[i]);
                assert(key_lt(v[i].0, v[v.len() - 1].0));
                lemma_key_lt_order(v[i].0, v[i].0, v[i].0);
            }
            lemma_lookup_absent(t, b);
        }
    }
}

/// Setting a count keeps a table well formed, and its backends become the
/// earlier ones and `b`.
proof fn lemma_put_wf(v: CoverageView, b: Seq<char>, o: Seq<char>, n: u64, x: Seq<char>)
    requires
        coverage_wf(v),
    ensures
        coverage_wf(put_spec(v, b, o, n)),
        keys_of(put_spec(v, b, o, n)).contains(x) <==> (x == b || keys_of(v).contains(x)),
{
    lemma_put_sorted(v, b, o, n);
    lemma_ops_sorted(v, b);
    let inner = insert_spec(ops_of(v, b), o, n);
    lemma_insert_key_set(ops_of(v, b), o, n, o);
    lemma_insert_key_set(v, b, inner, x);
    let r = put_spec(v, b, o, n);
    assert forall|k: int| 0 <= k < r.len() implies (#[trigger] r[k].1).len() > 0 by {
        lemma_insert_entries(v, b, inner, k);
        if r[k] != (b, inner) {
            let m = choose|m: int| 0 <= m < v.len() && v[m] == #[trigger] insert_spec(v, b, inner)[k];
            assert(v[m].1.len() > 0);
        }
    }
}

/// Some item of a concatenation carries `x` exactly when some item of one
/// of the parts does.
proof fn lemma_has_backend_concat(a: Seq<(Seq<char>, Seq<char>, u64)>, c: Seq<(Seq<char>, Seq<char>, u64)>, x: Seq<char>)
    ensures
        has_backend(a + c, x) <==> (has_backend(a, x) || has_backend(c, x)),
{
    if has_backend(a + c, x) {
        let i = choose|i: int| 0 <= i < (a + c).len() && (#[trigger] (a + c)[i]).0 == x;
        if i < a.len() {
            assert(a[i] == (a + c)[i]);
        } else {
            assert(c[i - a.len()] == (a + c)[i]);
        }
    }
    if has_backend(a, x) {
        let i = choose|i: int| 0 <= i < a.len() && (#[trigger] a[i]).0 == x;
        assert((a + c)[i] == a[i]);
    }
    if has_backend(c, x) {
        let i = choose|i: int| 0 <= i < c.len() && (#[trigger] c[i]).0 == x;
        assert((a + c)[a.len() + i] == c[i]);
    }
}

/// Adding items keeps a table well formed, and its backends become the
/// earlier ones and those the items carry.
proof fn lemma_merge_wf(v: CoverageView, items: Seq<(Seq<char>, Seq<char>, u64)>, x: Seq<char>)
    requires
        coverage_wf(v),
        merge_fits(v, items),
    ensures
        coverage_wf(merge_spec(v, items)),
        keys_of(merge_spec(v, items)).contains(x) <==> (keys_of(v).contains(x) || has_backend(
            items,
            x,
        )),
    decreases items.len(),
{
    if items.len() == 0 {
        assert(!has_backend(items, x));
    } else {
        let rest = items.drop_last();
        lemma_merge_wf(v, rest, x);
        let m = merge_spec(v, rest);
        let (lb, lo, lc) = items.last();
        let nc = (count_spec(m, lb, lo) + lc) as u64;
        lemma_put_wf(m, lb, lo, nc, x);
        assert(items =~= rest + seq![items.last()]);
        lemma_has_backend_concat(rest, seq![items.last()], x);
        if seq![items.last()][0].0 == x {
            assert(has_backend(seq![items.last()], x));
        }
    }
}

/// The items of a well-formed table carry exactly its backends.
proof fn lemma_flat_backends(v: CoverageView, x: Seq<char>)
    requires
        coverage_wf(v),
    ensures
        has_backend(flat_spec(v), x) <==> keys_of(v).contains(x),
    decreases v.len(),
{
    if v.len() == 0 {
        assert(flat_spec(v).len() == 0);
        assert(!has_backend(flat_spec(v), x));
    } else {
        let t = v.drop_last();
        assert(coverage_wf(t)) by {
            assert forall|a: int, c: int| 0 <= a < c < t.len() implies key_lt(
                #[trigger] t[a].0,
                #[trigger] t[c].0,
            ) by {
                assert(t[a] == v[a] && t[c] == v[c]);
            }
            assert forall|a: int| 0 <= a < t.len() implies keys_sorted(#[trigger] t[a].1) && t[a].1.len() > 0 by {
                assert(t[a] == v[a]);
            }
        }
        lemma_flat_backends(t, x);
        let row = row_spec(v.last());
        lemma_has_backend_concat(flat_spec(t), row, x);
        assert(v.last().1.len() > 0) by {
            assert(v[v.len() - 1].1.len() > 0);
        }
        assert(row[0].0 == v.last().0);
        if has_backend(row, x) {
            let i = choose|i: int| 0 <= i < row.len() && (#[trigger] row[i]).0 == x;
            assert(row[i].0 == v.last().0);
        }
        if x == v.last().0 {
            assert(has_backend(row, x));
        }
        assert(keys_of(v) =~= keys_of(t).push(v.last().0));
        if keys_of(v).contains(x) {
            let i = choose|i: int| 0 <= i < keys_of(v).len() && keys_of(v)[i] == x;
            if i < t.len() {
                assert(keys_of(t)[i] == x);
            }
        }
        if keys_of(t).contains(x) {
            let i = choose|i: int| 0 <= i < keys_of(t).len() && keys_of(t)[i] == x;
            assert(keys_of(v)[i] == x);
        }
        assert(keys_of(v)[v.len() - 1] == v.last().0);
    }
}

/// Items whose sums never push a count past `u64::MAX` can all be added.
proof fn lemma_fits_pointwise(v: CoverageView, items: Seq<(Seq<char>, Seq<char>, u64)>)
    requires
        table_sorted(v),
        forall|b: Seq<char>, o: Seq<char>|
            #![trigger match_sum(items, b, o)]
            count_spec(v, b, o) + match_sum(items, b, o) <= u64::MAX,
    ensures
        merge_fits(v, items),
    decreases items.len(),
{
    if items.len() > 0 {
        let rest = items.drop_last();
        assert forall|b: Seq<char>, o: Seq<char>| #![trigger match_sum(rest, b, o)]
            count_spec(v, b, o) + match_sum(rest, b, o) <= u64::MAX by {
            assert(count_spec(v, b, o) + match_sum(items, b, o) <= u64::MAX);
        }
        lemma_fits_pointwise(v, rest);
        let (lb, lo, lc) = items.last();
        lemma_merge_counts(v, rest, lb, lo);
        assert(count_spec(v, lb, lo) + match_sum(items, lb, lo) <= u64::MAX);
    }
}

/// The sum of the operation counts of every backend (the number of
/// recorded operations).
pub open spec fn total_spec(v: CoverageView) -> nat
    decreases v.len(),
{
    if v.len() == 0 {
        0
    } else {
        total_spec(v.drop_last()) + v.last().1.len()
    }
}

/// `"op":count` members of one backend, names quoted and escaped.
pub open spec fn ops_json_spec(ops: Seq<(Seq<char>, u64)>) -> Seq<char>
    decreases ops.len(),
{
    if ops.len() == 0 {
        Seq::empty()
    } else {
        ops_json_spec(ops.drop_last()) + (if ops.len() > 1 {
            ","@
        } else {
            Seq::empty()
        }) + json_text_spec(ops.last().0) + ":"@ + decimal_spec(ops.last().1 as nat)
    }
}

/// `"backend":{...}` members of the table, names quoted and escaped.
pub open spec fn backends_json_spec(v: CoverageView) -> Seq<char>
    decreases v.len(),
{
    if v.len() == 0 {
        Seq::empty()
    } else {
        backends_json_spec(v.drop_last()) + (if v.len() > 1 {
            ","@
        } else {
            Seq::empty()
        }) + json_text_spec(v.last().0) + ":{"@ + ops_json_spec(v.last().1) + "}"@
    }
}

/// The JSON text of a table: backends and operations in table order, names
/// quoted and escaped, counts in decimal.
pub open spec fn coverage_json_spec(v: CoverageView) -> Seq<char> {
    "{"@ + backends_json_spec(v) + "}"@
}

proof fn lemma_total_prefix(v: CoverageView, i: int)
    requires
        0 <= i <= v.len(),
    ensures
        total_spec(v.subrange(0, i)) <= total_spec(v),
    decreases v.len() - i,
{
    if i < v.len() {
        lemma_total_prefix(v, i + 1);
        assert(v.subrange(0, i + 1).drop_last() =~= v.subrange(0, i));
    } else {
        assert(v.subrange(0, i) =~= v);
    }
}

/// Coverage counts per backend and operation.
#[derive(Debug)]
pub struct CoverageMap {
    coverage: Vec<(String, Vec<(String, u64)>)>,
}

impl View for CoverageMap {
    type V = CoverageView;

    closed spec fn view(&self) -> CoverageView {
        table_view(self.coverage@)
    }
}

impl CoverageMap {
    #[verifier::type_invariant]
    closed spec fn ordered(self) -> bool {
        coverage_wf(table_view(self.coverage@))
    }

    /// An empty table.
    pub fn new() -> (r: Self)
        ensures
            r@ == Seq::<(Seq<char>, Seq<(Seq<char>, u64)>)>::empty(),
            coverage_wf(r@),
    {
        let r = CoverageMap { coverage: Vec::new() };
        assert(r@ =~= Seq::<(Seq<char>, Seq<(Seq<char>, u64)>)>::empty());
        r
    }

    proof fn lemma_sorted(c: Seq<(String, Vec<(String, u64)>)>)
        requires
            table_sorted(table_view(c)),
        ensures
            keys_sorted(entries_view(c)),
    {
        lemma_map_vals_keys(
            entries_view(c),
            |v: Vec<(String, u64)>| ops_view(v),
            Seq::empty(),
            Err(0),
        );
    }

    /// Sets the count for `backend`/`operation` to `n`.
    fn put(&mut self, backend: &str, operation: &str, n: u64)
        ensures
            final(self)@ == put_spec(old(self)@, backend@, operation@, n),
            coverage_wf(final(self)@),
            forall|b: Seq<char>|
                #[trigger] keys_of(final(self)@).contains(b) <==> (b == backend@ || keys_of(
                    old(self)@,
                ).contains(b)),
    {
        proof {
            use_type_invariant(&*self);
            Self::lemma_sorted(self.coverage@);
        }
        let ghost v0 = self@;
        let ghost b = backend@;
        let ghost o = operation@;
        let ghost f = |v: Vec<(String, u64)>| ops_view(v);
        let mut cov: Vec<(String, Vec<(String, u64)>)> = Vec::new();
        std::mem::swap(&mut cov, &mut self.coverage);
        assert(table_view(cov@) == v0);
        let pos = find_key(&cov, backend);
        proof {
            lemma_map_vals_keys(entries_view(cov@), f, b, pos);
            lemma_lookup_position(v0, b, pos);
        }
        match pos {
            Ok(i) => {
                let (bk, mut ops) = cov.remove(i);
                let ghost inner = ops_view(ops);
                assert(v0[i as int] == (bk@, inner));
                assert(keys_sorted(inner));
                let opos = find_key(&ops, operation);
                proof {
                    lemma_map_vals_keys(entries_view(ops@), |x: u64| x, o, opos);
                    assert(map_vals(entries_view(ops@), |x: u64| x) =~= inner);
                    lemma_insert_sorted(inner, o, n);
                }
                match opos {
                    Ok(j) => {
                        let k = ops[j].0.clone();
                        ops.set(j, (k, n));
                        proof {
                            lemma_insert_existing(inner, o, n, j);
                            assert(ops_view(ops) =~= inner.update(j as int, (o, n)));
                        }
                    },
                    Err(j) => {
                        ops.insert(j, (String::from_str(operation), n));
                        proof {
                            lemma_insert_new(inner, o, n, j);
                            assert(ops_view(ops) =~= inner.insert(j as int, (o, n)));
                        }
                    },
                }
                let ghost new_inner = ops_view(ops);
                cov.insert(i, (bk, ops));
                proof {
                    lemma_insert_existing(v0, b, new_inner, i);
                    assert(table_view(cov@) =~= v0.update(i as int, (b, new_inner)));
                }
            },
            Err(i) => {
                let mut ops: Vec<(String, u64)> = Vec::new();
                ops.push((String::from_str(operation), n));
                let ghost new_inner = ops_view(ops);
                assert(new_inner =~= insert_spec(Seq::<(Seq<char>, u64)>::empty(), o, n));
                cov.insert(i, (String::from_str(backend), ops));
                proof {
                    lemma_insert_new(v0, b, new_inner, i);
                    assert(table_view(cov@) =~= v0.insert(i as int, (b, new_inner)));
                }
            },
        }
        proof {
            let v1 = table_view(cov@);
            let new_inner = insert_spec(ops_of(v0, b), o, n);
            lemma_insert_sorted(ops_of(v0, b), o, n);
            lemma_insert_sorted(v0, b, new_inner);
            assert(v1 == put_spec(v0, b, o, n));
            assert forall|k: int| 0 <= k < v1.len() implies keys_sorted(#[trigger] v1[k].1) by {
                match pos {
                    Ok(i) => {
                        if k != i {
                            assert(v1[k] == v0[k]);
                        }
                    },
                    Err(i) => {
                        if k < i {
                            assert(v1[k] == v0[k]);
                        } else if k > i {
                            assert(v1[k] == v0[k - 1]);
                        }
                    },
                }
            }
            lemma_map_vals_keys(entries_view(cov@), f, b, pos);
            lemma_put_wf(v0, b, o, n, b);
            assert forall|x: Seq<char>| #[trigger] keys_of(v1).contains(x) <==> (x == b || keys_of(
                v0,
            ).contains(x)) by {
                lemma_put_wf(v0, b, o, n, x);
            }
        }
        self.coverage = cov;
    }

    /// Records `count` for `backend`/`operation`, replacing any earlier count.
    pub fn record(&mut self, backend: &str, operation: &str, count: u64)
        ensures
            final(self)@ == put_spec(old(self)@, backend@, operation@, count),
            forall|b: Seq<char>, o: Seq<char>|
                #[trigger] count_spec(final(self)@, b, o) == if b == backend@ && o == operation@ {
                    count
                } else {
                    count_spec(old(self)@, b, o)
                },
            coverage_wf(final(self)@),
            forall|b: Seq<char>|
                #[trigger] keys_of(final(self)@).contains(b) <==> (keys_of(old(self)@).contains(b)
                    || b == backend@),
    {
        proof {
            use_type_invariant(&*self);
        }
        let ghost v0 = self@;
        self.put(backend, operation, count);
        proof {
            assert forall|b: Seq<char>, o: Seq<char>| #[trigger] count_spec(self@, b, o) == if b
                == backend@ && o == operation@ {
                count
            } else {
                count_spec(v0, b, o)
            } by {
                lemma_count_after_put(v0, backend@, operation@, count, b, o);
            }
        }
    }

    /// Adds one to the count for `backend`/`operation`.
    pub fn increment(&mut self, backend: &str, operation: &str)
        requires
            count_spec(old(self)@, backend@, operation@) < u64::MAX,
        ensures
            final(self)@ == put_spec(
                old(self)@,
                backend@,
                operation@,
                (count_spec(old(self)@, backend@, operation@) + 1) as u64,
            ),
            forall|b: Seq<char>, o: Seq<char>|
                #[trigger] count_spec(final(self)@, b, o) == if b == backend@ && o == operation@ {
                    count_spec(old(self)@, b, o) + 1
                } else {
                    count_spec(old(self)@, b, o) as int
                },
            coverage_wf(final(self)@),
            forall|b: Seq<char>|
                #[trigger] keys_of(final(self)@).contains(b) <==> (keys_of(old(self)@).contains(b)
                    || b == backend@),
    {
        self.add(backend, operation, 1);
    }

    /// Adds `delta` to the count for `backend`/`operation`.
    pub fn add(&mut self, backend: &str, operation: &str, delta: u64)
        requires
            count_spec(old(self)@, backend@, operation@) + delta <= u64::MAX,
        ensures
            final(self)@ == put_spec(
                old(self)@,
                backend@,
                operation@,
                (count_spec(old(self)@, backend@, operation@) + delta) as u64,
            ),
            forall|b: Seq<char>, o: Seq<char>|
                #[trigger] count_spec(final(self)@, b, o) == if b == backend@ && o == operation@ {
                    count_spec(old(self)@, b, o) + delta
                } else {
                    count_spec(old(self)@, b, o) as int
                },
            coverage_wf(final(self)@),
            forall|b: Seq<char>|
                #[trigger] keys_of(final(self)@).contains(b) <==> (keys_of(old(self)@).contains(b)
                    || b == backend@),
    {
        proof {
            use_type_invariant(&*self);
        }
        let ghost v0 = self@;
        let cur = self.get(backend, operation);
        self.put(backend, operation, cur + delta);
        proof {
            assert forall|b: Seq<char>, o: Seq<char>| #[trigger] count_spec(self@, b, o) == if b
                == backend@ && o == operation@ {
                count_spec(v0, b, o) + delta
            } else {
                count_spec(v0, b, o) as int
            } by {
                lemma_count_after_put(v0, backend@, operation@, (cur + delta) as u64, b, o);
            }
        }
    }


    /// Adds every count of `other` to this table, backend by backend and
    /// operation by operation, in order.
    pub fn merge(&mut self, other: &CoverageMap)
        requires
            forall|b: Seq<char>, o: Seq<char>|
                #[trigger] count_spec(old(self)@, b, o) + count_spec(other@, b, o) <= u64::MAX,
        ensures
            final(self)@ == merge_spec(old(self)@, flat_spec(other@)),
            forall|b: Seq<char>, o: Seq<char>|
                #[trigger] count_spec(final(self)@, b, o) == count_spec(old(self)@, b, o)
                    + count_spec(other@, b, o),
            coverage_wf(final(self)@),
            forall|b: Seq<char>|
                #[trigger] keys_of(final(self)@).contains(b) <==> (keys_of(old(self)@).contains(b)
                    || keys_of(other@).contains(b)),
    {
        proof {
            use_type_invariant(&*self);
            use_type_invariant(other);
            assert forall|b: Seq<char>, o: Seq<char>| #![trigger match_sum(flat_spec(other@), b, o)]
                count_spec(self@, b, o) + match_sum(flat_spec(other@), b, o) <= u64::MAX by {
                lemma_flat_match(other@, b, o);
                assert(count_spec(self@, b, o) + count_spec(other@, b, o) <= u64::MAX);
            }
            lemma_fits_pointwise(self@, flat_spec(other@));
            assert forall|b: Seq<char>| #[trigger] keys_of(merge_spec(self@, flat_spec(other@))).contains(b)
                <==> (keys_of(self@).contains(b) || keys_of(other@).contains(b)) by {
                lemma_merge_wf(self@, flat_spec(other@), b);
                lemma_flat_backends(other@, b);
            }
            lemma_merge_wf(self@, flat_spec(other@), Seq::empty());
            assert forall|b: Seq<char>, o: Seq<char>| #[trigger] count_spec(
                merge_spec(self@, flat_spec(other@)),
                b,
                o,
            ) == count_spec(self@, b, o) + count_spec(other@, b, o) by {
                lemma_merge_counts(self@, flat_spec(other@), b, o);
                lemma_flat_match(other@, b, o);
            }
        }
        let ghost v0 = self@;
        let ghost ov = other@;
        let oc = &other.coverage;
        let mut i: usize = 0;
        while i < oc.len()
            invariant
                i <= oc@.len(),
                ov == other@,
                ov == table_view(oc@),
                merge_fits(v0, flat_spec(ov)),
                self@ == merge_spec(v0, flat_spec(ov.subrange(0, i as int))),
            decreases oc.len() - i,
        {
            let ops = &oc[i].1;
            let ghost row = row_spec(ov[i as int]);
            let ghost head = flat_spec(ov.subrange(0, i as int));
            proof {
                assert(ov.subrange(0, i + 1).drop_last() =~= ov.subrange(0, i as int));
                assert(ov =~= ov.subrange(0, i + 1) + ov.skip(i + 1));
                lemma_flat_concat(ov.subrange(0, i + 1), ov.skip(i + 1));
                assert(ov[i as int].1 == ops_view(*ops));
                assert(row.len() == ops@.len());
            }
            let mut j: usize = 0;
            while j < ops.len()
                invariant
                    j <= ops@.len(),
                    i < oc@.len(),
                    ops == &oc[i as int].1,
                    row == row_spec(ov[i as int]),
                    row.len() == ops@.len(),
                    head == flat_spec(ov.subrange(0, i as int)),
                    ov == table_view(oc@),
                    flat_spec(ov) == head + row + flat_spec(ov.skip(i + 1)),
                    merge_fits(v0, flat_spec(ov)),
                    self@ == merge_spec(v0, head + row.take(j as int)),
                decreases ops.len() - j,
            {
                let ghost items = head + row.take(j as int);
                let ghost next = row[j as int];
                proof {
                    assert(row[j as int] == (ov[i as int].0, ops@[j as int].0@, ops@[j as int].1));
                    assert((items.push(next)).drop_last() =~= items);
                    assert(head + row.take(j + 1) =~= items.push(next));
                    assert(flat_spec(ov) =~= items.push(next) + (row.skip(j + 1) + flat_spec(
                        ov.skip(i + 1),
                    )));
                    lemma_merge_fits_prefix(
                        v0,
                        items.push(next),
                        row.skip(j + 1) + flat_spec(ov.skip(i + 1)),
                    );
                }
                self.add(oc[i].0.as_str(), ops[j].0.as_str(), ops[j].1);
                j += 1;
            }
            proof {
                assert(row.take(ops@.len() as int) =~= row);
                assert(flat_spec(ov.subrange(0, i + 1)) == head + row);
            }
            i += 1;
        }
        assert(ov.subrange(0, oc@.len() as int) =~= ov);
    }

    /// The backends, in order.
    pub fn backends(&self) -> (r: Vec<&str>)
        ensures
            r@.map_values(|s: &str| s@) == keys_of(self@),
            forall|i: int, j: int| 0 <= i < j < r@.len() ==> key_lt(#[trigger] r@[i]@, #[trigger] r@[j]@),
            coverage_wf(self@),
    {
        proof {
            use_type_invariant(&*self);
        }
        let mut out: Vec<&str> = Vec::new();
        let mut i: usize = 0;
        while i < self.coverage.len()
            invariant
                i <= self.coverage@.len(),
                out@.map_values(|s: &str| s@) == keys_of(self@).subrange(0, i as int),
            decreases self.coverage.len() - i,
        {
            let ghost before = out@;
            let k = self.coverage[i].0.as_str();
            out.push(k);
            assert(keys_of(self@)[i as int] == self@[i as int].0);
            assert(self@[i as int].0 == k@);
            assert(out@.map_values(|s: &str| s@) =~= before.map_values(|s: &str| s@).push(k@));
            assert(out@.map_values(|s: &str| s@) =~= keys_of(self@).subrange(0, i + 1));
            i += 1;
        }
        assert(keys_of(self@).subrange(0, i as int) =~= keys_of(self@));
        proof {
            assert forall|a: int, b: int| 0 <= a < b < out@.len() implies key_lt(
                #[trigger] out@[a]@,
                #[trigger] out@[b]@,
            ) by {
                assert(out@.map_values(|s: &str| s@)[a] == keys_of(self@)[a]);
                assert(out@.map_values(|s: &str| s@)[b] == keys_of(self@)[b]);
            }
        }
        out
    }

    /// The operations of `backend`, in order (none when it is absent).
    pub fn operations(&self, backend: &str) -> (r: Vec<&str>)
        ensures
            r@.map_values(|s: &str| s@) == keys_of(ops_of(self@, backend@)),
            forall|i: int, j: int| 0 <= i < j < r@.len() ==> key_lt(#[trigger] r@[i]@, #[trigger] r@[j]@),
            coverage_wf(self@),
    {
        proof {
            use_type_invariant(&*self);
            Self::lemma_sorted(self.coverage@);
        }
        let ghost f = |v: Vec<(String, u64)>| ops_view(v);
        let pos = find_key(&self.coverage, backend);
        proof {
            lemma_map_vals_keys(entries_view(self.coverage@), f, backend@, pos);
            lemma_lookup_position(self@, backend@, pos);
        }
        let mut out: Vec<&str> = Vec::new();
        match pos {
            Ok(i) => {
                let ops = &self.coverage[i].1;
                let ghost inner = ops_view(*ops);
                assert(self@[i as int].1 == inner);
                let mut j: usize = 0;
                while j < ops.len()
                    invariant
                        j <= ops@.len(),
                        inner == ops_view(*ops),
                        out@.map_values(|s: &str| s@) == keys_of(inner).subrange(0, j as int),
                    decreases ops.len() - j,
                {
                    let ghost before = out@;
                    let k = ops[j].0.as_str();
                    out.push(k);
                    assert(keys_of(inner)[j as int] == inner[j as int].0);
                    assert(inner[j as int].0 == k@);
                    assert(out@.map_values(|s: &str| s@) =~= before.map_values(|s: &str| s@).push(
                        k@,
                    ));
                    assert(out@.map_values(|s: &str| s@) =~= keys_of(inner).subrange(0, j + 1));
                    j += 1;
                }
                assert(keys_of(inner).subrange(0, j as int) =~= keys_of(inner));
            },
            Err(_) => {
                assert(out@.map_values(|s: &str| s@) =~= keys_of(ops_of(self@, backend@)));
            },
        }
        proof {
            lemma_ops_sorted(self@, backend@);
            let ks = keys_of(ops_of(self@, backend@));
            assert forall|a: int, b: int| 0 <= a < b < out@.len() implies key_lt(
                #[trigger] out@[a]@,
                #[trigger] out@[b]@,
            ) by {
                assert(out@.map_values(|s: &str| s@)[a] == ks[a]);
                assert(out@.map_values(|s: &str| s@)[b] == ks[b]);
            }
        }
        out
    }

    /// The number of recorded operations over all backends.
    pub fn total_operations(&self) -> (r: usize)
        requires
            total_spec(self@) <= usize::MAX,
        ensures
            r == total_spec(self@),
    {
        let mut total: usize = 0;
        let mut i: usize = 0;
        proof {
            lemma_total_prefix(self@, 0);
        }
        while i < self.coverage.len()
            invariant
                i <= self.coverage@.len(),
                total_spec(self@) <= usize::MAX,
                total == total_spec(self@.subrange(0, i as int)),
            decreases self.coverage.len() - i,
        {
            proof {
                lemma_total_prefix(self@, i + 1);
                assert(self@.subrange(0, i + 1).drop_last() =~= self@.subrange(0, i as int));
                assert(self@[i as int].1.len() == self.coverage@[i as int].1@.len());
            }
            total = total + self.coverage[i].1.len();
            i += 1;
        }
        assert(self@.subrange(0, i as int) =~= self@);
        total
    }

    /// The table as JSON: `{"backend":{"op":count,...},...}` in order.
    pub fn to_json(&self) -> (r: String)
        ensures
            r@ == coverage_json_spec(self@),
    {
        let mut s = String::from_str("{");
        let mut i: usize = 0;
        while i < self.coverage.len()
            invariant
                i <= self.coverage@.len(),
                s@ == "{"@ + backends_json_spec(self@.subrange(0, i as int)),
            decreases self.coverage.len() - i,
        {
            if i > 0 {
                s.append(",");
            }
            push_json_text(&mut s, self.coverage[i].0.as_str());
            s.append(":{");
            let ops = &self.coverage[i].1;
            let ghost inner = ops_view(*ops);
            let ghost s_ops = s@;
            let mut j: usize = 0;
            while j < ops.len()
                invariant
                    j <= ops@.len(),
                    inner == ops_view(*ops),
                    s@ == s_ops + ops_json_spec(inner.subrange(0, j as int)),
                decreases ops.len() - j,
            {
                if j > 0 {
                    s.append(",");
                }
                push_json_text(&mut s, ops[j].0.as_str());
                s.append(":");
                let d = u64_to_decimal(ops[j].1);
                s.append(d.as_str());
                proof {
                    assert(inner.subrange(0, j + 1).drop_last() =~= inner.subrange(0, j as int));
                    assert(inner.subrange(0, j + 1).last() == inner[j as int]);
                }
                assert(s@ =~= s_ops + ops_json_spec(inner.subrange(0, j + 1)));
                j += 1;
            }
            s.append("}");
            proof {
                assert(inner.subrange(0, j as int) =~= inner);
                assert(self@[i as int].1 == inner);
                assert(self@.subrange(0, i + 1).drop_last() =~= self@.subrange(0, i as int));
                assert(self@.subrange(0, i + 1).last() == self@[i as int]);
            }
            assert(s@ =~= "{"@ + backends_json_spec(self@.subrange(0, i + 1)));
            i += 1;
        }
        s.append("}");
        assert(self@.subrange(0, i as int) =~= self@);
        s
    }

    /// The count for `backend`/`operation`, zero when not recorded.
    pub fn get(&self, backend: &str, operation: &str) -> (r: u64)
        ensures
            r == count_spec(self@, backend@, operation@),
            coverage_wf(self@),
    {
        proof {
            use_type_invariant(&*self);
            Self::lemma_sorted(self.coverage@);
        }
        let ghost f = |v: Vec<(String, u64)>| ops_view(v);
        let pos = find_key(&self.coverage, backend);
        proof {
            lemma_map_vals_keys(entries_view(self.coverage@), f, backend@, pos);
            lemma_lookup_position(self@, backend@, pos);
        }
        match pos {
            Ok(i) => {
                let ops = &self.coverage[i].1;
                let ghost inner = ops_view(*ops);
                assert(self@[i as int].1 == inner);
                let opos = find_key(ops, operation);
                proof {
                    lemma_map_vals_keys(entries_view(ops@), |x: u64| x, operation@, opos);
                    assert(map_vals(entries_view(ops@), |x: u64| x) =~= inner);
                    lemma_lookup_position(inner, operation@, opos);
                }
                match opos {
                    Ok(j) => ops[j].1,
                    Err(_) => 0,
                }
            },
            Err(_) => 0,
        }
    }
}

fn copy_ops(ops: &Vec<(String, u64)>) -> (r: Vec<(String, u64)>)
    ensures
        ops_view(r) == ops_view(*ops),
{
    let mut out: Vec<(String, u64)> = Vec::new();
    let mut j: usize = 0;
    while j < ops.len()
        invariant
            j <= ops@.len(),
            out@ == ops@.subrange(0, j as int),
        decreases ops.len() - j,
    {
        out.push((ops[j].0.clone(), ops[j].1));
        assert(out@ =~= ops@.subrange(0, j + 1));
        j += 1;
    }
    assert(out@ =~= ops@);
    out
}

impl Clone for CoverageMap {
    fn clone(&self) -> (r: Self)
        ensures
            r@ == self@,
    {
        proof {
            use_type_invariant(self);
        }
        let mut cov: Vec<(String, Vec<(String, u64)>)> = Vec::new();
        let mut i: usize = 0;
        while i < self.coverage.len()
            invariant
                i <= self.coverage@.len(),
                cov@.len() == i,
                table_view(cov@) == table_view(self.coverage@).subrange(0, i as int),
            decreases self.coverage.len() - i,
        {
            let ops = copy_ops(&self.coverage[i].1);
            let k = self.coverage[i].0.clone();
            let ghost before = cov@;
            let ghost tv = table_view(before);
            assert(ops_view(ops) == ops_view(self.coverage@[i as int].1));
            cov.push((k, ops));
            assert(cov@ == before.push((k, ops)));
            assert forall|t: int| 0 <= t < i + 1 implies #[trigger] table_view(cov@)[t]
                == table_view(self.coverage@)[t] by {
                if t < i {
                    assert(cov@[t] == before[t]);
                    assert(table_view(cov@)[t] == tv[t]);
                }
            }
            assert(table_view(cov@) =~= table_view(self.coverage@).subrange(0, i + 1));
            i += 1;
        }
        assert(table_view(cov@) =~= table_view(self.coverage@));
        CoverageMap { coverage: cov }
    }
}

impl Default for CoverageMap {
    fn default() -> (r: Self)
        ensures
            r@ == Seq::<(Seq<char>, Seq<(Seq<char>, u64)>)>::empty(),
    {
        Self::new()
    }
}

} // verus!
