use vstd::prelude::*;

use crate::error::DataError;
use crate::table::{col_index, col_len, has_col, nums_of, table_nrows, Table};

verus! {

/// The least value of a non-empty numeric sequence.
pub open spec fn seq_min(s: Seq<i64>) -> int
    decreases s.len(),
{
    if s.len() <= 1 {
        s[0] as int
    } else {
        let rest = seq_min(s.drop_last());
        if s.last() < rest {
            s.last() as int
        } else {
            rest
        }
    }
}

/// The greatest value of a non-empty numeric sequence.
pub open spec fn seq_max(s: Seq<i64>) -> int
    decreases s.len(),
{
    if s.len() <= 1 {
        s[0] as int
    } else {
        let rest = seq_max(s.drop_last());
        if s.last() > rest {
            s.last() as int
        } else {
            rest
        }
    }
}

pub proof fn lemma_seq_min_le(s: Seq<i64>, i: int)
    requires
        0 <= i < s.len(),
    ensures
        seq_min(s) <= s[i],
    decreases s.len(),
{
    if s.len() > 1 {
        if i < s.len() - 1 {
            lemma_seq_min_le(s.drop_last(), i);
        }
    }
}

pub proof fn lemma_seq_max_ge(s: Seq<i64>, i: int)
    requires
        0 <= i < s.len(),
    ensures
        seq_max(s) >= s[i],
    decreases s.len(),
{
    if s.len() > 1 {
        if i < s.len() - 1 {
            lemma_seq_max_ge(s.drop_last(), i);
        }
    }
}

/// Both named axis columns exist in the table.
pub open spec fn scatter_schema_ok(tv: Seq<crate::table::ColModel>, x: Seq<u8>, y: Seq<u8>) -> bool {
    has_col(tv, x) && has_col(tv, y)
}

/// Both axis columns are numeric and there is at least one row to plot.
pub open spec fn scatter_values_ok(tv: Seq<crate::table::ColModel>, x: Seq<u8>, y: Seq<u8>) -> bool {
    &&& tv[col_index(tv, x)].vals is Nums
    &&& tv[col_index(tv, y)].vals is Nums
    &&& table_nrows(tv) > 0
}

/// The data of a scatter chart: one point per row of the source table, and
/// each axis ranged to its own column's minimum and maximum.
#[derive(Debug, PartialEq, Eq)]
pub struct ScatterData {
    pub x_min: i64,
    pub x_max: i64,
    pub y_min: i64,
    pub y_max: i64,
    pub points: Vec<(i64, i64)>,
}

impl Table {
    /// Compute the scatter data for the two named columns: one `(x, y)`
    /// point per row, in row order, and each axis range as the minimum and
    /// maximum of its own column over the whole table. Fails with
    /// `SchemaError` when either column is missing, and with `ValueError`
    /// when either column is not numeric or the table has no rows.
    pub fn scatter_data(&self, x: &Vec<u8>, y: &Vec<u8>) -> (r: Result<ScatterData, DataError>)
        requires
            self.wf(),
        ensures
            r is Ok <==> (scatter_schema_ok(self@, x@, y@) && scatter_values_ok(self@, x@, y@)),
            !scatter_schema_ok(self@, x@, y@) ==> (r matches Err(e) && e == DataError::SchemaError),
            (scatter_schema_ok(self@, x@, y@) && !scatter_values_ok(self@, x@, y@)) ==> (r matches
                Err(e) && e == DataError::ValueError),
            r matches Ok(sd) ==> ({
                let xs = nums_of(self@[col_index(self@, x@)].vals);
                let ys = nums_of(self@[col_index(self@, y@)].vals);
                &&& sd.points@.len() == table_nrows(self@)
                &&& (forall|i: int|
                    0 <= i < sd.points@.len() ==> (#[trigger] sd.points@[i]) == (xs[i], ys[i]))
                &&& sd.x_min == seq_min(xs)
                &&& sd.x_max == seq_max(xs)
                &&& sd.y_min == seq_min(ys)
                &&& sd.y_max == seq_max(ys)
                &&& (forall|i: int|
                    0 <= i < sd.points@.len() ==> sd.x_min <= (#[trigger] sd.points@[i]).0
                        <= sd.x_max && sd.y_min <= sd.points@[i].1 <= sd.y_max)
            }),
    {
        let ghost tv = self@;
        let xj = match self.find_column(x.as_slice()) {
            Some(j) => j,
            None => {
                proof {
                    assert(!scatter_schema_ok(tv, x@, y@));
                }
                return Err(DataError::SchemaError);
            },
        };
        let yj = match self.find_column(y.as_slice()) {
            Some(j) => j,
            None => {
                proof {
                    assert(!scatter_schema_ok(tv, x@, y@));
                }
                return Err(DataError::SchemaError);
            },
        };
        proof {
            assert(xj == col_index(tv, x@));
            assert(yj == col_index(tv, y@));
            assert(scatter_schema_ok(tv, x@, y@));
        }
        let n = self.num_rows();
        if !self.is_numeric(xj) || !self.is_numeric(yj) || n == 0 {
            proof {
                assert(!scatter_values_ok(tv, x@, y@));
            }
            return Err(DataError::ValueError);
        }
        proof {
            assert(scatter_values_ok(tv, x@, y@));
            assert(col_len(tv[xj as int].vals) == table_nrows(tv));
            assert(col_len(tv[yj as int].vals) == table_nrows(tv));
        }
        let ghost xs = nums_of(tv[xj as int].vals);
        let ghost ys = nums_of(tv[yj as int].vals);
        let mut points: Vec<(i64, i64)> = Vec::new();
        let mut x_min = self.num_value(0, xj);
        let mut x_max = x_min;
        let mut y_min = self.num_value(0, yj);
        let mut y_max = y_min;
        let mut i: usize = 0;
        proof {
            assert(xs.take(1)[0] == xs[0]);
            assert(seq_min(xs.take(1)) == xs[0]);
        }
        while i < n
            invariant
                self.wf(),
                tv == self@,
                0 <= i <= n,
                n == table_nrows(tv),
                xj < tv.len(),
                yj < tv.len(),
                tv[xj as int].vals is Nums,
                tv[yj as int].vals is Nums,
                xs == nums_of(tv[xj as int].vals),
                ys == nums_of(tv[yj as int].vals),
                xs.len() == n,
                ys.len() == n,
                points@.len() == i,
                forall|k: int| 0 <= k < i ==> (#[trigger] points@[k]) == (xs[k], ys[k]),
                i > 0 ==> x_min == seq_min(xs.take(i as int)),
                i > 0 ==> x_max == seq_max(xs.take(i as int)),
                i > 0 ==> y_min == seq_min(ys.take(i as int)),
                i > 0 ==> y_max == seq_max(ys.take(i as int)),
                i == 0 ==> x_min == xs[0] && x_max == xs[0] && y_min == ys[0] && y_max == ys[0],
            decreases n - i,
        {
            let xv = self.num_value(i, xj);
            let yv = self.num_value(i, yj);
            points.push((xv, yv));
            proof {
                assert(xs.take(i + 1).drop_last() =~= xs.take(i as int));
                assert(ys.take(i + 1).drop_last() =~= ys.take(i as int));
                assert(xs.take(i + 1).last() == xs[i as int]);
                assert(ys.take(i + 1).last() == ys[i as int]);
                if i == 0 {
                    assert(xs.take(1).len() == 1);
                    assert(xs.take(1)[0] == xs[0]);
                    assert(seq_min(xs.take(1)) == xs[0]);
                    assert(seq_max(xs.take(1)) == xs[0]);
                    assert(ys.take(1)[0] == ys[0]);
                    assert(seq_min(ys.take(1)) == ys[0]);
                    assert(seq_max(ys.take(1)) == ys[0]);
                }
            }
            if i > 0 {
                if xv < x_min {
                    x_min = xv;
                }
                if xv > x_max {
                    x_max = xv;
                }
                if yv < y_min {
                    y_min = yv;
                }
                if yv > y_max {
                    y_max = yv;
                }
            }
            i += 1;
        }
        proof {
            assert(xs.take(n as int) =~= xs);
            assert(ys.take(n as int) =~= ys);
        }
        let sd = ScatterData { x_min, x_max, y_min, y_max, points };
        proof {
            assert forall|k: int| 0 <= k < sd.points@.len() implies sd.x_min <= (
            #[trigger] sd.points@[k]).0 <= sd.x_max && sd.y_min <= sd.points@[k].1 <= sd.y_max by {
                lemma_seq_min_le(xs, k);
                lemma_seq_max_ge(xs, k);
                lemma_seq_min_le(ys, k);
                lemma_seq_max_ge(ys, k);
                assert(sd.points@[k] == (xs[k], ys[k]));
            }
        }
        Ok(sd)
    }
}

} // verus!
