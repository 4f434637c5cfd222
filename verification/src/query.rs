use vstd::prelude::*;

use crate::error::DataError;
use crate::table::{
    col_index, col_len, copy_bytes, has_col, nums_of, table_nrows, ColModel, ColVals, Table,
};

verus! {

/// A comparison operator for the filter predicate.
#[derive(Debug, Clone, Copy, PartialEq, Eq, Structural)]
pub enum CmpOp {
    LessThan,
    LessEq,
    GreaterThan,
    GreaterEq,
    EqualTo,
    NotEqual,
}

/// A filter predicate: keep the rows whose value in the named numeric column
/// stands in the given relation to the threshold (in thousandths).
#[derive(Debug)]
pub struct Filter {
    pub column: Vec<u8>,
    pub op: CmpOp,
    pub threshold: i64,
}

pub open spec fn cmp_holds(op: CmpOp, a: i64, t: i64) -> bool {
    match op {
        CmpOp::LessThan => a < t,
        CmpOp::LessEq => a <= t,
        CmpOp::GreaterThan => a > t,
        CmpOp::GreaterEq => a >= t,
        CmpOp::EqualTo => a == t,
        CmpOp::NotEqual => a != t,
    }
}

/// Evaluate a comparison operator.
pub fn cmp_eval(op: CmpOp, a: i64, t: i64) -> (r: bool)
    ensures
        r == cmp_holds(op, a, t),
{
    match op {
        CmpOp::LessThan => a < t,
        CmpOp::LessEq => a <= t,
        CmpOp::GreaterThan => a > t,
        CmpOp::GreaterEq => a >= t,
        CmpOp::EqualTo => a == t,
        CmpOp::NotEqual => a != t,
    }
}

/// The indices, in order, of the rows among the first `n` that the filter
/// keeps.
pub open spec fn kept_rows(xs: Seq<i64>, op: CmpOp, t: i64, n: int) -> Seq<int>
    decreases n,
{
    if n <= 0 {
        Seq::empty()
    } else {
        let pre = kept_rows(xs, op, t, n - 1);
        if cmp_holds(op, xs[n - 1], t) {
            pre.push(n - 1)
        } else {
            pre
        }
    }
}

/// Whether rows `i1` and `i2` carry equal values in the key column.
pub open spec fn keys_match(kv: ColVals, i1: int, i2: int) -> bool {
    match kv {
        ColVals::Nums(s) => s[i1] == s[i2],
        ColVals::Texts(s) => s[i1] == s[i2],
    }
}

/// One representative row per distinct key value among the first `m` kept
/// rows, in first-seen order.
pub open spec fn group_reps(kv: ColVals, ks: Seq<int>, m: int) -> Seq<int>
    decreases m,
{
    if m <= 0 {
        Seq::empty()
    } else {
        let pre = group_reps(kv, ks, m - 1);
        if exists|g: int| 0 <= g < pre.len() && keys_match(kv, ks[m - 1], #[trigger] pre[g]) {
            pre
        } else {
            pre.push(ks[m - 1])
        }
    }
}

/// The sum of the column values `cs` over the first `m` kept rows whose key
/// matches the key of row `rep`.
pub open spec fn group_sum(kv: ColVals, ks: Seq<int>, rep: int, cs: Seq<i64>, m: int) -> int
    decreases m,
{
    if m <= 0 {
        0
    } else {
        group_sum(kv, ks, rep, cs, m - 1) + (if keys_match(kv, ks[m - 1], rep) {
            cs[ks[m - 1]] as int
        } else {
            0
        })
    }
}

/// The indices of the aggregated columns among the first `j`: every numeric
/// column other than the key column, in table order.
pub open spec fn sum_cols(tv: Seq<ColModel>, kj: int, j: int) -> Seq<int>
    decreases j,
{
    if j <= 0 {
        Seq::empty()
    } else {
        let pre = sum_cols(tv, kj, j - 1);
        if j - 1 != kj && tv[j - 1].vals is Nums {
            pre.push(j - 1)
        } else {
            pre
        }
    }
}

/// The key values of the representative rows, one per group.
pub open spec fn rep_keys(kv: ColVals, reps: Seq<int>) -> ColVals {
    match kv {
        ColVals::Nums(s) => ColVals::Nums(Seq::new(reps.len(), |g: int| s[reps[g]])),
        ColVals::Texts(s) => ColVals::Texts(Seq::new(reps.len(), |g: int| s[reps[g]])),
    }
}

pub open spec fn in_i64(x: int) -> bool {
    i64::MIN <= x <= i64::MAX
}

/// Schema validity of a query: the filter column exists and is numeric, the
/// key column exists, and there are rows to group.
pub open spec fn query_schema_ok(tv: Seq<ColModel>, fname: Seq<u8>, kname: Seq<u8>) -> bool {
    &&& has_col(tv, fname)
    &&& tv[col_index(tv, fname)].vals is Nums
    &&& has_col(tv, kname)
    &&& table_nrows(tv) > 0
}

/// The kept row indices of a query.
pub open spec fn query_kept(tv: Seq<ColModel>, fname: Seq<u8>, op: CmpOp, t: i64) -> Seq<int> {
    kept_rows(nums_of(tv[col_index(tv, fname)].vals), op, t, table_nrows(tv) as int)
}

/// The representative row per group of a query.
pub open spec fn query_reps(
    tv: Seq<ColModel>,
    fname: Seq<u8>,
    op: CmpOp,
    t: i64,
    kname: Seq<u8>,
) -> Seq<int> {
    let ks = query_kept(tv, fname, op, t);
    group_reps(tv[col_index(tv, kname)].vals, ks, ks.len() as int)
}

/// Whether some per-group sum falls outside the `i64` range.
pub open spec fn query_overflows(
    tv: Seq<ColModel>,
    fname: Seq<u8>,
    op: CmpOp,
    t: i64,
    kname: Seq<u8>,
) -> bool {
    let ks = query_kept(tv, fname, op, t);
    let kv = tv[col_index(tv, kname)].vals;
    let reps = query_reps(tv, fname, op, t, kname);
    let sc = sum_cols(tv, col_index(tv, kname), tv.len() as int);
    exists|g: int, c: int|
        0 <= g < reps.len() && 0 <= c < sc.len() && !in_i64(
            #[trigger] group_sum(kv, ks, reps[g], nums_of(tv[sc[c]].vals), ks.len() as int),
        )
}

/// The model of the query result: the key column first, holding each group's
/// key in first-seen order, then one summed column per other numeric column.
pub open spec fn query_model(
    tv: Seq<ColModel>,
    fname: Seq<u8>,
    op: CmpOp,
    t: i64,
    kname: Seq<u8>,
) -> Seq<ColModel> {
    let ks = query_kept(tv, fname, op, t);
    let kv = tv[col_index(tv, kname)].vals;
    let reps = query_reps(tv, fname, op, t, kname);
    let sc = sum_cols(tv, col_index(tv, kname), tv.len() as int);
    seq![ColModel { name: kname, vals: rep_keys(kv, reps) }] + Seq::new(
        sc.len(),
        |c: int|
            ColModel {
                name: tv[sc[c]].name,
                vals: ColVals::Nums(
                    Seq::new(
                        reps.len(),
                        |g: int|
                            group_sum(kv, ks, reps[g], nums_of(tv[sc[c]].vals), ks.len() as int)
                                as i64,
                    ),
                ),
            },
    )
}

/// Filtering, grouping and aggregating is deterministic: the same query on
/// equal tables yields the identical result, row for row and value for value.
pub proof fn lemma_query_deterministic(
    tv1: Seq<ColModel>,
    tv2: Seq<ColModel>,
    fname: Seq<u8>,
    op: CmpOp,
    t: i64,
    kname: Seq<u8>,
)
    requires
        tv1 == tv2,
    ensures
        query_model(tv1, fname, op, t, kname) == query_model(tv2, fname, op, t, kname),
{
}

/// The filter is exact: every kept index is a row within range whose value
/// satisfies the predicate, and every row satisfying the predicate is kept.
pub proof fn lemma_kept_rows_exact(xs: Seq<i64>, op: CmpOp, t: i64, n: int)
    requires
        n >= 0,
    ensures
        forall|k: int|
            0 <= k < kept_rows(xs, op, t, n).len() ==> 0 <= #[trigger] kept_rows(xs, op, t, n)[k]
                < n && cmp_holds(op, xs[kept_rows(xs, op, t, n)[k]], t),
        forall|i: int|
            0 <= i < n && cmp_holds(op, #[trigger] xs[i], t) ==> kept_rows(
                xs,
                op,
                t,
                n,
            ).contains(i),
    decreases n,
{
    if n > 0 {
        lemma_kept_rows_exact(xs, op, t, n - 1);
        let pre = kept_rows(xs, op, t, n - 1);
        let cur = kept_rows(xs, op, t, n);
        assert forall|i: int| 0 <= i < n && cmp_holds(op, #[trigger] xs[i], t) implies cur.contains(
            i,
        ) by {
            if i < n - 1 {
                let k = choose|k: int| 0 <= k < pre.len() && pre[k] == i;
                assert(cur[k] == i);
            } else {
                assert(cur.last() == i);
            }
        }
    }
}

/// The aggregation law: in the query result, the value of summed column `c`
/// for group `g` is the sum of that column over exactly the kept rows whose
/// key matches the key of the group's representative row.
pub proof fn lemma_query_group_sums(
    tv: Seq<ColModel>,
    fname: Seq<u8>,
    op: CmpOp,
    t: i64,
    kname: Seq<u8>,
    g: int,
    c: int,
)
    requires
        0 <= g < query_reps(tv, fname, op, t, kname).len(),
        0 <= c < sum_cols(tv, col_index(tv, kname), tv.len() as int).len(),
    ensures
        nums_of(query_model(tv, fname, op, t, kname)[1 + c].vals)[g] == group_sum(
            tv[col_index(tv, kname)].vals,
            query_kept(tv, fname, op, t),
            query_reps(tv, fname, op, t, kname)[g],
            nums_of(tv[sum_cols(tv, col_index(tv, kname), tv.len() as int)[c]].vals),
            query_kept(tv, fname, op, t).len() as int,
        ) as i64,
{
    let qm = query_model(tv, fname, op, t, kname);
    let sc = sum_cols(tv, col_index(tv, kname), tv.len() as int);
    assert(qm[1 + c] == ColModel {
        name: tv[sc[c]].name,
        vals: ColVals::Nums(
            Seq::new(
                query_reps(tv, fname, op, t, kname).len(),
                |g2: int|
                    group_sum(
                        tv[col_index(tv, kname)].vals,
                        query_kept(tv, fname, op, t),
                        query_reps(tv, fname, op, t, kname)[g2],
                        nums_of(tv[sc[c]].vals),
                        query_kept(tv, fname, op, t).len() as int,
                    ) as i64,
            ),
        ),
    });
}

proof fn lemma_sum_cols_range(tv: Seq<ColModel>, kj: int, j: int)
    requires
        0 <= j <= tv.len(),
    ensures
        forall|c: int|
            0 <= c < sum_cols(tv, kj, j).len() ==> 0 <= #[trigger] sum_cols(tv, kj, j)[c] < j
                && sum_cols(tv, kj, j)[c] != kj,
        forall|c1: int, c2: int|
            0 <= c1 < c2 < sum_cols(tv, kj, j).len() ==> sum_cols(tv, kj, j)[c1] < sum_cols(
                tv,
                kj,
                j,
            )[c2],
    decreases j,
{
    if j > 0 {
        lemma_sum_cols_range(tv, kj, j - 1);
        let pre = sum_cols(tv, kj, j - 1);
        let cur = sum_cols(tv, kj, j);
        if j - 1 != kj && tv[j - 1].vals is Nums {
            assert(cur == pre.push(j - 1));
            assert forall|c1: int, c2: int| 0 <= c1 < c2 < cur.len() implies cur[c1]
                < cur[c2] by {
                assert(cur[c1] == pre[c1]);
                if c2 < pre.len() {
                    assert(cur[c2] == pre[c2]);
                } else {
                    assert(cur[c2] == j - 1);
                }
            }
        } else {
            assert(cur == pre);
        }
    }
}

proof fn lemma_sum_cols_prefix(tv: Seq<ColModel>, kj: int, j1: int, j2: int)
    requires
        0 <= j1 <= j2,
    ensures
        sum_cols(tv, kj, j1).len() <= sum_cols(tv, kj, j2).len(),
        forall|c: int|
            0 <= c < sum_cols(tv, kj, j1).len() ==> #[trigger] sum_cols(tv, kj, j2)[c] == sum_cols(
                tv,
                kj,
                j1,
            )[c],
    decreases j2 - j1,
{
    if j1 < j2 {
        lemma_sum_cols_prefix(tv, kj, j1, j2 - 1);
    }
}

proof fn lemma_group_sum_bound(kv: ColVals, ks: Seq<int>, rep: int, cs: Seq<i64>, m: int)
    requires
        m >= 0,
    ensures
        -(m * 0x8000_0000_0000_0000) <= group_sum(kv, ks, rep, cs, m) <= m
            * 0x8000_0000_0000_0000,
    decreases m,
{
    if m > 0 {
        lemma_group_sum_bound(kv, ks, rep, cs, m - 1);
    }
}

/// The integer views of a vector of row indices.
pub open spec fn idxs_of(s: Seq<usize>) -> Seq<int> {
    s.map_values(|u: usize| u as int)
}

impl Table {
    /// Whether rows `i1` and `i2` carry equal values in column `kj`.
    fn rows_key_match(&self, kj: usize, i1: usize, i2: usize) -> (r: bool)
        requires
            kj < self@.len(),
            i1 < col_len(self@[kj as int].vals),
            i2 < col_len(self@[kj as int].vals),
        ensures
            r == keys_match(self@[kj as int].vals, i1 as int, i2 as int),
    {
        if self.is_numeric(kj) {
            self.num_value(i1, kj) == self.num_value(i2, kj)
        } else {
            crate::table::bytes_eq(
                self.text_value(i1, kj).as_slice(),
                self.text_value(i2, kj).as_slice(),
            )
        }
    }

    /// Filter the rows by the predicate, partition the kept rows by the
    /// distinct values of the key column (first-seen order), and sum every
    /// other numeric column within each group. Text columns other than the
    /// key are dropped. Fails with `SchemaError` when the filter column is
    /// missing or not numeric, the key column is missing, or the table has
    /// no rows; with `ValueError` when a per-group sum does not fit in the
    /// numeric range.
    pub fn query(&self, filter: &Filter, key: &Vec<u8>) -> (r: Result<Table, DataError>)
        requires
            self.wf(),
        ensures
            r is Ok <==> (query_schema_ok(self@, filter.column@, key@) && !query_overflows(
                self@,
                filter.column@,
                filter.op,
                filter.threshold,
                key@,
            )),
            r matches Ok(t) ==> t@ == query_model(
                self@,
                filter.column@,
                filter.op,
                filter.threshold,
                key@,
            ) && t.wf(),
            !query_schema_ok(self@, filter.column@, key@) ==> (r matches Err(e) && e
                == DataError::SchemaError),
            (query_schema_ok(self@, filter.column@, key@) && query_overflows(
                self@,
                filter.column@,
                filter.op,
                filter.threshold,
                key@,
            )) ==> (r matches Err(e) && e == DataError::ValueError),
    {
        let ghost tv = self@;
        let ghost fname = filter.column@;
        let ghost kname = key@;
        let ghost op = filter.op;
        let ghost th = filter.threshold;
        let fj = match self.find_column(filter.column.as_slice()) {
            Some(j) => j,
            None => {
                proof {
                    assert(!query_schema_ok(tv, fname, kname));
                }
                return Err(DataError::SchemaError);
            },
        };
        if !self.is_numeric(fj) {
            proof {
                assert(fj == col_index(tv, fname));
                assert(!query_schema_ok(tv, fname, kname));
            }
            return Err(DataError::SchemaError);
        }
        let kj = match self.find_column(key.as_slice()) {
            Some(j) => j,
            None => {
                proof {
                    assert(!query_schema_ok(tv, fname, kname));
                }
                return Err(DataError::SchemaError);
            },
        };
        let n = self.num_rows();
        if n == 0 {
            proof {
                assert(!query_schema_ok(tv, fname, kname));
            }
            return Err(DataError::SchemaError);
        }
        proof {
            assert(fj == col_index(tv, fname));
            assert(kj == col_index(tv, kname));
            assert(query_schema_ok(tv, fname, kname));
            assert(col_len(tv[fj as int].vals) == table_nrows(tv));
            assert(col_len(tv[kj as int].vals) == table_nrows(tv));
        }
        let ghost xs = nums_of(tv[fj as int].vals);
        let ghost kv = tv[kj as int].vals;

        // Filter: collect the kept row indices.
        let mut kept: Vec<usize> = Vec::new();
        let mut i: usize = 0;
        proof {
            assert(idxs_of(kept@) =~= kept_rows(xs, op, th, 0));
        }
        while i < n
            invariant
                self.wf(),
                tv == self@,
                op == filter.op,
                th == filter.threshold,
                0 <= i <= n,
                n == table_nrows(tv),
                fj < tv.len(),
                tv[fj as int].vals is Nums,
                xs == nums_of(tv[fj as int].vals),
                xs.len() == n,
                idxs_of(kept@) == kept_rows(xs, op, th, i as int),
                forall|k: int| 0 <= k < kept@.len() ==> (#[trigger] kept@[k]) < i,
            decreases n - i,
        {
            let v = self.num_value(i, fj);
            if cmp_eval(filter.op, v, filter.threshold) {
                kept.push(i);
                proof {
                    assert(idxs_of(kept@) =~= kept_rows(xs, op, th, i + 1));
                }
            } else {
                proof {
                    assert(idxs_of(kept@) =~= kept_rows(xs, op, th, i + 1));
                }
            }
            i += 1;
        }
        let ghost ksg = kept_rows(xs, op, th, n as int);
        proof {
            assert(ksg == idxs_of(kept@));
            assert(ksg == query_kept(tv, fname, op, th));
        }
        let m = kept.len();

        // Group: one representative row per distinct key value.
        let mut reps: Vec<usize> = Vec::new();
        let mut mi: usize = 0;
        proof {
            assert(idxs_of(reps@) =~= group_reps(kv, ksg, 0));
        }
        while mi < m
            invariant
                self.wf(),
                tv == self@,
                0 <= mi <= m,
                m == kept@.len(),
                n == table_nrows(tv),
                kj < tv.len(),
                kv == tv[kj as int].vals,
                col_len(kv) == n,
                ksg == idxs_of(kept@),
                forall|k: int| 0 <= k < kept@.len() ==> (#[trigger] kept@[k]) < n,
                idxs_of(reps@) == group_reps(kv, ksg, mi as int),
                forall|k: int| 0 <= k < reps@.len() ==> (#[trigger] reps@[k]) < n,
            decreases m - mi,
        {
            let row = kept[mi];
            let nreps = reps.len();
            let mut found = false;
            let mut g: usize = 0;
            while g < nreps
                invariant
                    self.wf(),
                    tv == self@,
                    kj < tv.len(),
                    kv == tv[kj as int].vals,
                    col_len(kv) == n,
                    0 <= g <= nreps,
                    nreps == reps@.len(),
                    row < n,
                    forall|k: int| 0 <= k < reps@.len() ==> (#[trigger] reps@[k]) < n,
                    found == (exists|g2: int|
                        0 <= g2 < g && keys_match(kv, row as int, #[trigger] idxs_of(reps@)[g2])),
                decreases nreps - g,
            {
                if self.rows_key_match(kj, row, reps[g]) {
                    found = true;
                    proof {
                        assert(keys_match(kv, row as int, idxs_of(reps@)[g as int]));
                    }
                }
                g += 1;
            }
            if !found {
                reps.push(row);
                proof {
                    assert(idxs_of(reps@) =~= group_reps(kv, ksg, mi + 1));
                }
            } else {
                proof {
                    assert(idxs_of(reps@) =~= group_reps(kv, ksg, mi + 1));
                }
            }
            mi += 1;
        }
        let ghost repsg = group_reps(kv, ksg, ksg.len() as int);
        proof {
            assert(repsg == idxs_of(reps@));
            assert(repsg == query_reps(tv, fname, op, th, kname));
        }
        let ngroups = reps.len();

        // Assemble: the key column first.
        let mut result = Table::new_empty();
        let ghost keycol = ColModel { name: kname, vals: rep_keys(kv, repsg) };
        if self.is_numeric(kj) {
            let mut kvals: Vec<i64> = Vec::new();
            let mut g: usize = 0;
            while g < ngroups
                invariant
                    self.wf(),
                    tv == self@,
                    kj < tv.len(),
                    kv == tv[kj as int].vals,
                    kv is Nums,
                    col_len(kv) == n,
                    0 <= g <= ngroups,
                    ngroups == reps@.len(),
                    repsg == idxs_of(reps@),
                    forall|k: int| 0 <= k < reps@.len() ==> (#[trigger] reps@[k]) < n,
                    kvals@.len() == g,
                    forall|x: int|
                        0 <= x < g ==> (#[trigger] kvals@[x]) == nums_of(kv)[repsg[x]],
                decreases ngroups - g,
            {
                kvals.push(self.num_value(reps[g], kj));
                g += 1;
            }
            let kcopy = copy_bytes(key.as_slice());
            result.push_num_col(kcopy, kvals);
            proof {
                assert(result@[0].vals matches ColVals::Nums(s) && s =~= nums_of(
                    rep_keys(kv, repsg),
                ));
                assert(rep_keys(kv, repsg) is Nums);
                assert(result@[0] =~= keycol);
            }
        } else {
            let mut kvals: Vec<Vec<u8>> = Vec::new();
            let mut g: usize = 0;
            while g < ngroups
                invariant
                    self.wf(),
                    tv == self@,
                    kj < tv.len(),
                    kv == tv[kj as int].vals,
                    !(kv is Nums),
                    col_len(kv) == n,
                    0 <= g <= ngroups,
                    ngroups == reps@.len(),
                    repsg == idxs_of(reps@),
                    forall|k: int| 0 <= k < reps@.len() ==> (#[trigger] reps@[k]) < n,
                    kvals@.len() == g,
                    forall|x: int|
                        0 <= x < g ==> (#[trigger] kvals@[x])@ == crate::table::texts_of(
                            kv,
                        )[repsg[x]],
                decreases ngroups - g,
            {
                let val = copy_bytes(self.text_value(reps[g], kj).as_slice());
                kvals.push(val);
                g += 1;
            }
            let kcopy = copy_bytes(key.as_slice());
            result.push_text_col(kcopy, kvals);
            proof {
                assert(result@[0].vals matches ColVals::Texts(s) && s =~= crate::table::texts_of(
                    rep_keys(kv, repsg),
                ));
                assert(rep_keys(kv, repsg) is Texts);
                assert(result@[0] =~= keycol);
            }
        }

        // Aggregate: one summed column per other numeric column.
        let ghost scf = sum_cols(tv, kj as int, tv.len() as int);
        let w = self.width();
        let mut j: usize = 0;
        while j < w
            invariant
                self.wf(),
                tv == self@,
                w == tv.len(),
                0 <= j <= w,
                n == table_nrows(tv),
                kj < tv.len(),
                kv == tv[kj as int].vals,
                col_len(kv) == n,
                ksg == idxs_of(kept@),
                m == kept@.len(),
                forall|k: int| 0 <= k < kept@.len() ==> (#[trigger] kept@[k]) < n,
                repsg == idxs_of(reps@),
                ngroups == reps@.len(),
                forall|k: int| 0 <= k < reps@.len() ==> (#[trigger] reps@[k]) < n,
                scf == sum_cols(tv, kj as int, tv.len() as int),
                fname == filter.column@,
                kname == key@,
                op == filter.op,
                th == filter.threshold,
                kj == col_index(tv, kname),
                query_schema_ok(tv, fname, kname),
                ksg == query_kept(tv, fname, op, th),
                repsg == query_reps(tv, fname, op, th, kname),
                result@.len() == 1 + sum_cols(tv, kj as int, j as int).len(),
                result@[0] == keycol,
                forall|c: int|
                    0 <= c < sum_cols(tv, kj as int, j as int).len() ==> (#[trigger] result@[
                        1 + c
                    ]) == (ColModel {
                        name: tv[scf[c]].name,
                        vals: ColVals::Nums(
                            Seq::new(
                                repsg.len(),
                                |g: int|
                                    group_sum(
                                        kv,
                                        ksg,
                                        repsg[g],
                                        nums_of(tv[scf[c]].vals),
                                        ksg.len() as int,
                                    ) as i64,
                            ),
                        ),
                    }),
                forall|c: int, g: int|
                    0 <= c < sum_cols(tv, kj as int, j as int).len() && 0 <= g < repsg.len()
                        ==> in_i64(
                        #[trigger] group_sum(
                            kv,
                            ksg,
                            repsg[g],
                            nums_of(tv[scf[c]].vals),
                            ksg.len() as int,
                        ),
                    ),
            decreases w - j,
        {
            proof {
                lemma_sum_cols_prefix(tv, kj as int, j as int, j + 1);
                lemma_sum_cols_prefix(tv, kj as int, j + 1, tv.len() as int);
            }
            if j != kj && self.is_numeric(j) {
                let ghost c = sum_cols(tv, kj as int, j as int).len() as int;
                proof {
                    assert(sum_cols(tv, kj as int, j + 1) == sum_cols(
                        tv,
                        kj as int,
                        j as int,
                    ).push(j as int));
                    assert(scf[c] == j as int);
                }
                let ghost cs = nums_of(tv[j as int].vals);
                let mut sums: Vec<i64> = Vec::new();
                let mut g: usize = 0;
                while g < ngroups
                    invariant
                        self.wf(),
                        tv == self@,
                        0 <= g <= ngroups,
                        0 <= j < w,
                        w == tv.len(),
                        n == table_nrows(tv),
                        kj < tv.len(),
                        j != kj,
                        tv[j as int].vals is Nums,
                        cs == nums_of(tv[j as int].vals),
                        kv == tv[kj as int].vals,
                        col_len(kv) == n,
                        ksg == idxs_of(kept@),
                        m == kept@.len(),
                        forall|k: int| 0 <= k < kept@.len() ==> (#[trigger] kept@[k]) < n,
                        repsg == idxs_of(reps@),
                        ngroups == reps@.len(),
                        forall|k: int| 0 <= k < reps@.len() ==> (#[trigger] reps@[k]) < n,
                        scf == sum_cols(tv, kj as int, tv.len() as int),
                        fname == filter.column@,
                        kname == key@,
                        op == filter.op,
                        th == filter.threshold,
                        kj == col_index(tv, kname),
                        query_schema_ok(tv, fname, kname),
                        ksg == query_kept(tv, fname, op, th),
                        repsg == query_reps(tv, fname, op, th, kname),
                        0 <= c < scf.len(),
                        scf[c] == j as int,
                        sums@.len() == g,
                        forall|x: int|
                            0 <= x < g ==> (#[trigger] sums@[x]) == group_sum(
                                kv,
                                ksg,
                                repsg[x],
                                cs,
                                ksg.len() as int,
                            ) as i64 && in_i64(
                                group_sum(kv, ksg, repsg[x], cs, ksg.len() as int),
                            ),
                    decreases ngroups - g,
                {
                    let rep = reps[g];
                    let mut acc: i128 = 0;
                    let mut mi2: usize = 0;
                    proof {
                        lemma_group_sum_bound(kv, ksg, rep as int, cs, 0);
                    }
                    while mi2 < m
                        invariant
                            self.wf(),
                            tv == self@,
                            0 <= mi2 <= m,
                            0 <= j < w,
                            w == tv.len(),
                            n == table_nrows(tv),
                            kj < tv.len(),
                            tv[j as int].vals is Nums,
                            cs == nums_of(tv[j as int].vals),
                            kv == tv[kj as int].vals,
                            col_len(kv) == n,
                            ksg == idxs_of(kept@),
                            m == kept@.len(),
                            forall|k: int| 0 <= k < kept@.len() ==> (#[trigger] kept@[k]) < n,
                            rep < n,
                            acc == group_sum(kv, ksg, rep as int, cs, mi2 as int),
                            -((mi2 as int) * 0x8000_0000_0000_0000) <= acc <= (mi2 as int)
                                * 0x8000_0000_0000_0000,
                        decreases m - mi2,
                    {
                        let row = kept[mi2];
                        if self.rows_key_match(kj, row, rep) {
                            let v = self.num_value(row, j);
                            proof {
                                assert(ksg[mi2 as int] == row as int);
                                assert((mi2 as int + 1) * 0x8000_0000_0000_0000 <= (
                                usize::MAX as int) * 0x8000_0000_0000_0000);
                                assert((usize::MAX as int) * 0x8000_0000_0000_0000
                                    < i128::MAX);
                            }
                            acc = acc + (v as i128);
                        } else {
                            proof {
                                assert(ksg[mi2 as int] == row as int);
                                assert((mi2 as int + 1) * 0x8000_0000_0000_0000 <= (
                                usize::MAX as int) * 0x8000_0000_0000_0000);
                            }
                        }
                        mi2 += 1;
                    }
                    proof {
                        assert(rep as int == repsg[g as int]);
                        assert(acc == group_sum(kv, ksg, repsg[g as int], cs, ksg.len() as int));
                    }
                    if acc > (i64::MAX as i128) || acc < (i64::MIN as i128) {
                        proof {
                            assert(!in_i64(
                                group_sum(
                                    kv,
                                    ksg,
                                    repsg[g as int],
                                    nums_of(tv[scf[c]].vals),
                                    ksg.len() as int,
                                ),
                            ));
                            assert(query_overflows(tv, fname, op, th, kname));
                        }
                        return Err(DataError::ValueError);
                    }
                    let ghost s0 = sums@;
                    sums.push(acc as i64);
                    g += 1;
                    proof {
                        assert forall|x: int| 0 <= x < g implies (#[trigger] sums@[x])
                            == group_sum(kv, ksg, repsg[x], cs, ksg.len() as int) as i64 by {
                            if x < g - 1 {
                                assert(sums@[x] == s0[x]);
                            } else {
                                assert(sums@[x] == acc as i64);
                            }
                        }
                        assert forall|x: int| 0 <= x < g implies in_i64(
                            group_sum(kv, ksg, repsg[x], cs, ksg.len() as int),
                        ) by {
                            assert(sums@[x] == group_sum(kv, ksg, repsg[x], cs, ksg.len() as int)
                                as i64);
                            if x < g - 1 {
                                assert(s0[x] == group_sum(kv, ksg, repsg[x], cs, ksg.len() as int)
                                    as i64);
                            }
                        }
                    }
                }
                let cname = copy_bytes(self.column_name(j).as_slice());
                let ghost r0 = result@;
                result.push_num_col(cname, sums);
                proof {
                    let target = ColModel {
                        name: tv[scf[c]].name,
                        vals: ColVals::Nums(
                            Seq::new(
                                repsg.len(),
                                |g2: int|
                                    group_sum(
                                        kv,
                                        ksg,
                                        repsg[g2],
                                        nums_of(tv[scf[c]].vals),
                                        ksg.len() as int,
                                    ) as i64,
                            ),
                        ),
                    };
                    assert(result@[1 + c].vals matches ColVals::Nums(s2) && s2 == sums@);
                    assert forall|g2: int| 0 <= g2 < repsg.len() implies sums@[g2] == nums_of(
                        target.vals,
                    )[g2] by {
                        assert(sums@[g2] == group_sum(kv, ksg, repsg[g2], cs, ksg.len() as int)
                            as i64);
                    }
                    assert(sums@ =~= nums_of(target.vals));
                    assert(result@[1 + c] =~= target);
                    assert forall|c2: int|
                        0 <= c2 < sum_cols(tv, kj as int, j + 1).len() implies (
                    #[trigger] result@[1 + c2]) == (ColModel {
                        name: tv[scf[c2]].name,
                        vals: ColVals::Nums(
                            Seq::new(
                                repsg.len(),
                                |g2: int|
                                    group_sum(
                                        kv,
                                        ksg,
                                        repsg[g2],
                                        nums_of(tv[scf[c2]].vals),
                                        ksg.len() as int,
                                    ) as i64,
                            ),
                        ),
                    }) by {
                        if c2 < c {
                            assert(result@[1 + c2] == r0[1 + c2]);
                        } else {
                            assert(c2 == c);
                        }
                    }
                    assert forall|c2: int, g2: int|
                        0 <= c2 < sum_cols(tv, kj as int, j + 1).len() && 0 <= g2 < repsg.len()
                            implies in_i64(
                        #[trigger] group_sum(
                            kv,
                            ksg,
                            repsg[g2],
                            nums_of(tv[scf[c2]].vals),
                            ksg.len() as int,
                        ),
                    ) by {
                        if c2 == c {
                            assert(sums@[g2] == group_sum(kv, ksg, repsg[g2], cs, ksg.len() as int)
                                as i64);
                        }
                    }
                    assert(result@[0] == r0[0]);
                }
            } else {
                proof {
                    assert(sum_cols(tv, kj as int, j + 1) =~= sum_cols(tv, kj as int, j as int));
                }
            }
            j += 1;
        }
        proof {
            let qm = query_model(tv, fname, op, th, kname);
            assert(sum_cols(tv, kj as int, w as int) == scf);
            assert(qm.len() == 1 + scf.len());
            assert(qm[0] == keycol);
            assert forall|cx: int| 0 <= cx < scf.len() implies result@[1 + cx] == #[trigger] qm[
                1 + cx
            ] by {
                assert(result@[1 + cx] == (ColModel {
                    name: tv[scf[cx]].name,
                    vals: ColVals::Nums(
                        Seq::new(
                            repsg.len(),
                            |g2: int|
                                group_sum(
                                    kv,
                                    ksg,
                                    repsg[g2],
                                    nums_of(tv[scf[cx]].vals),
                                    ksg.len() as int,
                                ) as i64,
                        ),
                    ),
                }));
                assert(nums_of(result@[1 + cx].vals) =~= nums_of(qm[1 + cx].vals));
                assert(result@[1 + cx] =~= qm[1 + cx]);
            }
            assert forall|x: int| 0 <= x < result@.len() implies result@[x] == qm[x] by {
                if x != 0 {
                    assert(result@[1 + (x - 1)] == qm[1 + (x - 1)]);
                }
            }
            assert(result@ =~= qm);
            assert forall|gx: int, cx: int|
                !(0 <= gx < repsg.len() && 0 <= cx < scf.len() && !in_i64(
                    #[trigger] group_sum(
                        kv,
                        ksg,
                        repsg[gx],
                        nums_of(tv[scf[cx]].vals),
                        ksg.len() as int,
                    ),
                )) by {
                if 0 <= gx < repsg.len() && 0 <= cx < scf.len() {
                    assert(in_i64(
                        group_sum(
                            kv,
                            ksg,
                            repsg[gx],
                            nums_of(tv[scf[cx]].vals),
                            ksg.len() as int,
                        ),
                    ));
                }
            }
            assert(!query_overflows(tv, fname, op, th, kname));
            lemma_sum_cols_range(tv, kj as int, tv.len() as int);
            assert(tv[kj as int].name == kname);
            assert forall|a: int, b: int|
                0 <= a < b < result@.len() implies (#[trigger] result@[a]).name != (
            #[trigger] result@[b]).name by {
                let cb = b - 1;
                assert(result@[1 + cb].name == tv[scf[cb]].name);
                assert(0 <= scf[cb] < tv.len() && scf[cb] != kj);
                if a == 0 {
                    if scf[cb] < kj {
                        assert(tv[scf[cb]].name != tv[kj as int].name);
                    } else {
                        assert(tv[kj as int].name != tv[scf[cb]].name);
                    }
                } else {
                    let ca = a - 1;
                    assert(result@[1 + ca].name == tv[scf[ca]].name);
                    assert(scf[ca] < scf[cb]);
                    assert(tv[scf[ca]].name != tv[scf[cb]].name);
                }
            }
            assert(col_len(result@[0].vals) == repsg.len());
            assert forall|x: int| 0 <= x < result@.len() implies col_len(
                (#[trigger] result@[x]).vals,
            ) == table_nrows(result@) by {
                if x > 0 {
                    assert(result@[1 + (x - 1)].vals matches ColVals::Nums(s2) && s2.len()
                        == repsg.len());
                }
            }
            assert(result.wf());
        }
        Ok(result)
    }
}

} // verus!
