use vstd::prelude::*;

use crate::decimal::{dec_val, is_num_field, parse_field};
use crate::error::DataError;
use crate::utf8::{check_utf8, utf8_ok};

verus! {

// ---------------------------------------------------------------------------
// The mathematical model of a table: a sequence of named columns, each either
// a numeric column (exact decimals as counts of thousandths) or a text column.
// ---------------------------------------------------------------------------

/// The values of one column, at the specification level.
#[verifier::ext_equal]
pub enum ColVals {
    Nums(Seq<i64>),
    Texts(Seq<Seq<u8>>),
}

/// One column, at the specification level: a name and its values.
#[verifier::ext_equal]
pub struct ColModel {
    pub name: Seq<u8>,
    pub vals: ColVals,
}

pub open spec fn col_len(v: ColVals) -> nat {
    match v {
        ColVals::Nums(s) => s.len(),
        ColVals::Texts(s) => s.len(),
    }
}

/// The number of rows of a table model: the length of its first column.
pub open spec fn table_nrows(tv: Seq<ColModel>) -> nat {
    if tv.len() == 0 {
        0
    } else {
        col_len(tv[0].vals)
    }
}

/// Well-formedness of a table model: all columns have the same length and
/// column names are pairwise distinct.
pub open spec fn model_wf(tv: Seq<ColModel>) -> bool {
    &&& forall|j: int| 0 <= j < tv.len() ==> col_len(#[trigger] tv[j].vals) == table_nrows(tv)
    &&& forall|j: int, k: int|
        0 <= j < k < tv.len() ==> (#[trigger] tv[j].name) != (#[trigger] tv[k].name)
}

// ---------------------------------------------------------------------------
// The executable table.
// ---------------------------------------------------------------------------

/// The values of one column: numeric cells are exact decimals scaled by 1000.
#[derive(Debug, PartialEq, Eq)]
pub enum ColumnData {
    Nums(Vec<i64>),
    Texts(Vec<Vec<u8>>),
}

/// One named column.
#[derive(Debug, PartialEq, Eq)]
pub struct Column {
    pub(crate) name: Vec<u8>,
    pub(crate) data: ColumnData,
}

/// An in-memory columnar dataset with named, equal-length columns.
#[derive(Debug, PartialEq, Eq)]
pub struct Table {
    pub(crate) cols: Vec<Column>,
}

impl View for ColumnData {
    type V = ColVals;

    closed spec fn view(&self) -> ColVals {
        match self {
            ColumnData::Nums(v) => ColVals::Nums(v@),
            ColumnData::Texts(v) => ColVals::Texts(v@.map_values(|t: Vec<u8>| t@)),
        }
    }
}

impl View for Column {
    type V = ColModel;

    closed spec fn view(&self) -> ColModel {
        ColModel { name: self.name@, vals: self.data@ }
    }
}

impl View for Table {
    type V = Seq<ColModel>;

    closed spec fn view(&self) -> Seq<ColModel> {
        self.cols@.map_values(|c: Column| c@)
    }
}

/// The numeric values of a column; empty for a text column.
pub open spec fn nums_of(v: ColVals) -> Seq<i64> {
    match v {
        ColVals::Nums(s) => s,
        ColVals::Texts(_) => Seq::empty(),
    }
}

/// The text values of a column; empty for a numeric column.
pub open spec fn texts_of(v: ColVals) -> Seq<Seq<u8>> {
    match v {
        ColVals::Nums(_) => Seq::empty(),
        ColVals::Texts(s) => s,
    }
}

/// Whether some column of the model bears this name.
pub open spec fn has_col(tv: Seq<ColModel>, name: Seq<u8>) -> bool {
    exists|j: int| 0 <= j < tv.len() && (#[trigger] tv[j]).name == name
}

/// The index of the column bearing this name; meaningful under `model_wf`,
/// where names are unique.
pub open spec fn col_index(tv: Seq<ColModel>, name: Seq<u8>) -> int {
    choose|j: int| 0 <= j < tv.len() && (#[trigger] tv[j]).name == name
}

impl Table {
    /// The table invariant: equal column lengths, distinct column names.
    pub open spec fn wf(&self) -> bool {
        model_wf(self@)
    }

    /// The number of columns.
    pub fn width(&self) -> (r: usize)
        ensures
            r == self@.len(),
    {
        self.cols.len()
    }

    /// The number of rows.
    pub fn num_rows(&self) -> (r: usize)
        ensures
            r == table_nrows(self@),
    {
        if self.cols.len() == 0 {
            0
        } else {
            proof {
                assert(self@[0] == self.cols@[0]@);
            }
            match &self.cols[0].data {
                ColumnData::Nums(v) => v.len(),
                ColumnData::Texts(v) => v.len(),
            }
        }
    }

    /// The name of column `j`.
    pub fn column_name(&self, j: usize) -> (r: &Vec<u8>)
        requires
            j < self@.len(),
        ensures
            r@ == self@[j as int].name,
    {
        proof {
            assert(self@[j as int] == self.cols@[j as int]@);
        }
        &self.cols[j].name
    }

    /// Whether column `j` is numeric.
    pub fn is_numeric(&self, j: usize) -> (r: bool)
        requires
            j < self@.len(),
        ensures
            r == (self@[j as int].vals is Nums),
    {
        proof {
            assert(self@[j as int] == self.cols@[j as int]@);
        }
        match &self.cols[j].data {
            ColumnData::Nums(_) => true,
            ColumnData::Texts(_) => false,
        }
    }

    /// The numeric value of row `i` in numeric column `j`.
    pub fn num_value(&self, i: usize, j: usize) -> (r: i64)
        requires
            j < self@.len(),
            self@[j as int].vals is Nums,
            i < col_len(self@[j as int].vals),
        ensures
            r == nums_of(self@[j as int].vals)[i as int],
    {
        proof {
            assert(self@[j as int] == self.cols@[j as int]@);
        }
        match &self.cols[j].data {
            ColumnData::Nums(v) => v[i],
            ColumnData::Texts(_) => 0,
        }
    }

    /// The text value of row `i` in text column `j`.
    pub fn text_value(&self, i: usize, j: usize) -> (r: &Vec<u8>)
        requires
            j < self@.len(),
            self@[j as int].vals is Texts,
            i < col_len(self@[j as int].vals),
        ensures
            r@ == texts_of(self@[j as int].vals)[i as int],
    {
        proof {
            assert(self@[j as int] == self.cols@[j as int]@);
        }
        match &self.cols[j].data {
            ColumnData::Nums(_) => &self.cols[j].name,
            ColumnData::Texts(v) => &v[i],
        }
    }

    /// The index of the first column bearing `name`, if any.
    pub fn find_column(&self, name: &[u8]) -> (r: Option<usize>)
        ensures
            r is Some <==> has_col(self@, name@),
            r matches Some(j) ==> 0 <= j < self@.len() && self@[j as int].name == name@,
            self.wf() ==> (r matches Some(j) ==> j == col_index(self@, name@)),
    {
        let n = self.cols.len();
        let mut j: usize = 0;
        while j < n
            invariant
                0 <= j <= n,
                n == self@.len(),
                forall|k: int| 0 <= k < j ==> (#[trigger] self@[k]).name != name@,
            decreases n - j,
        {
            proof {
                assert(self@[j as int] == self.cols@[j as int]@);
            }
            if bytes_eq(self.cols[j].name.as_slice(), name) {
                proof {
                    assert(has_col(self@, name@));
                    if self.wf() {
                        let c = col_index(self@, name@);
                        assert(0 <= c < self@.len() && self@[c].name == name@);
                        if c < j as int {
                            assert(self@[c].name != self@[j as int].name);
                            assert(false);
                        }
                        if c > j as int {
                            assert(self@[j as int].name != self@[c].name);
                            assert(false);
                        }
                    }
                }
                return Some(j);
            }
            j += 1;
        }
        proof {
            assert(!has_col(self@, name@));
        }
        None
    }

    /// A table with no columns.
    pub(crate) fn new_empty() -> (r: Table)
        ensures
            r@ =~= Seq::<ColModel>::empty(),
    {
        let t = Table { cols: Vec::new() };
        proof {
            assert(t@ =~= Seq::<ColModel>::empty());
        }
        t
    }

    /// Append a numeric column.
    pub(crate) fn push_num_col(&mut self, name: Vec<u8>, vals: Vec<i64>)
        ensures
            final(self)@ == old(self)@.push(ColModel { name: name@, vals: ColVals::Nums(vals@) }),
    {
        let ghost prev = self@;
        let ghost nm = name@;
        let ghost vs = vals@;
        self.cols.push(Column { name, data: ColumnData::Nums(vals) });
        proof {
            assert(self@ =~= prev.push(ColModel { name: nm, vals: ColVals::Nums(vs) }));
        }
    }

    /// Append a text column.
    pub(crate) fn push_text_col(&mut self, name: Vec<u8>, vals: Vec<Vec<u8>>)
        ensures
            final(self)@ == old(self)@.push(
                ColModel { name: name@, vals: ColVals::Texts(views_of(vals@)) },
            ),
    {
        let ghost prev = self@;
        let ghost nm = name@;
        let ghost vs = views_of(vals@);
        self.cols.push(Column { name, data: ColumnData::Texts(vals) });
        proof {
            assert(self@ =~= prev.push(ColModel { name: nm, vals: ColVals::Texts(vs) }));
        }
    }
}

// ---------------------------------------------------------------------------
// Splitting a byte sequence at a separator.
// ---------------------------------------------------------------------------

/// Split `s` at every occurrence of `sep`. The result always has one part
/// more than `s` has separators; empty parts are kept.
pub open spec fn split_on(s: Seq<u8>, sep: u8) -> Seq<Seq<u8>>
    decreases s.len(),
{
    if s.len() == 0 {
        seq![Seq::<u8>::empty()]
    } else if s.last() == sep {
        split_on(s.drop_last(), sep).push(Seq::<u8>::empty())
    } else {
        let pre = split_on(s.drop_last(), sep);
        pre.update(pre.len() - 1, pre.last().push(s.last()))
    }
}

pub proof fn lemma_split_on_len(s: Seq<u8>, sep: u8)
    ensures
        split_on(s, sep).len() >= 1,
    decreases s.len(),
{
    if s.len() != 0 {
        lemma_split_on_len(s.drop_last(), sep);
    }
}

/// The views of a sequence of byte vectors.
pub open spec fn views_of(s: Seq<Vec<u8>>) -> Seq<Seq<u8>> {
    s.map_values(|v: Vec<u8>| v@)
}

/// Split a byte slice at every occurrence of `sep`.
pub(crate) fn split_bytes(s: &[u8], sep: u8) -> (r: Vec<Vec<u8>>)
    ensures
        views_of(r@) == split_on(s@, sep),
        r@.len() >= 1,
{
    let mut parts: Vec<Vec<u8>> = Vec::new();
    let mut cur: Vec<u8> = Vec::new();
    let mut i: usize = 0;
    proof {
        assert(s@.take(0) =~= Seq::<u8>::empty());
        assert(views_of(parts@).push(cur@) =~= split_on(s@.take(0), sep));
    }
    while i < s.len()
        invariant
            0 <= i <= s@.len(),
            views_of(parts@).push(cur@) == split_on(s@.take(i as int), sep),
        decreases s@.len() - i,
    {
        let ghost pre = s@.take(i as int);
        let b = s[i];
        proof {
            assert(s@.take(i + 1).drop_last() =~= pre);
            assert(s@.take(i + 1).last() == b);
            lemma_split_on_len(pre, sep);
        }
        if b == sep {
            let done = cur;
            cur = Vec::new();
            parts.push(done);
            proof {
                assert(views_of(parts@).push(cur@) =~= split_on(pre, sep).push(
                    Seq::<u8>::empty(),
                ));
            }
        } else {
            cur.push(b);
            proof {
                let sp = split_on(pre, sep);
                assert(views_of(parts@).push(cur@) =~= sp.update(
                    sp.len() - 1,
                    sp.last().push(b),
                ));
            }
        }
        i += 1;
    }
    proof {
        assert(s@.take(i as int) =~= s@);
    }
    parts.push(cur);
    proof {
        assert(views_of(parts@) =~= split_on(s@, sep));
    }
    parts
}

/// Byte-for-byte equality of two byte slices.
pub fn bytes_eq(a: &[u8], b: &[u8]) -> (r: bool)
    ensures
        r == (a@ == b@),
{
    if a.len() != b.len() {
        proof {
            assert(a@ != b@);
        }
        return false;
    }
    let mut i: usize = 0;
    while i < a.len()
        invariant
            0 <= i <= a@.len(),
            a@.len() == b@.len(),
            forall|k: int| 0 <= k < i ==> a@[k] == b@[k],
        decreases a@.len() - i,
    {
        if a[i] != b[i] {
            proof {
                assert(a@ != b@);
            }
            return false;
        }
        i += 1;
    }
    proof {
        assert(a@ =~= b@);
    }
    true
}

/// A fresh copy of a byte vector.
pub(crate) fn copy_bytes(s: &[u8]) -> (r: Vec<u8>)
    ensures
        r@ == s@,
{
    let mut r: Vec<u8> = Vec::new();
    let mut i: usize = 0;
    while i < s.len()
        invariant
            0 <= i <= s@.len(),
            r@ == s@.take(i as int),
        decreases s@.len() - i,
    {
        r.push(s[i]);
        proof {
            assert(s@.take(i as int).push(s@[i as int]) =~= s@.take(i + 1));
        }
        i += 1;
    }
    proof {
        assert(s@.take(i as int) =~= s@);
    }
    r
}

// ---------------------------------------------------------------------------
// The specification of loading: raw bytes, split into lines and fields, a
// header row naming the columns, and per-column type inference.
// ---------------------------------------------------------------------------

/// The input with one trailing row separator, if present, stripped.
pub open spec fn csv_content(s: Seq<u8>) -> Seq<u8> {
    if s.len() > 0 && s.last() == 10 {
        s.drop_last()
    } else {
        s
    }
}

/// The lines of the input: header first, then one line per data row.
pub open spec fn csv_lines(s: Seq<u8>) -> Seq<Seq<u8>> {
    split_on(csv_content(s), 10)
}

/// The column names, in header order.
pub open spec fn csv_header(s: Seq<u8>) -> Seq<Seq<u8>> {
    split_on(csv_lines(s)[0], 44)
}

pub open spec fn csv_width(s: Seq<u8>) -> int {
    csv_header(s).len() as int
}

pub open spec fn csv_nrows(s: Seq<u8>) -> int {
    csv_lines(s).len() - 1
}

/// The fields of data row `i`.
pub open spec fn csv_row(s: Seq<u8>, i: int) -> Seq<Seq<u8>> {
    split_on(csv_lines(s)[i + 1], 44)
}

/// The field of data row `i` in column `j`.
pub open spec fn csv_cell(s: Seq<u8>, i: int, j: int) -> Seq<u8> {
    csv_row(s, i)[j]
}

/// A column is numeric when it has at least one value and every one of its
/// fields is a decimal literal.
pub open spec fn csv_col_numeric(s: Seq<u8>, j: int) -> bool {
    csv_nrows(s) > 0 && forall|i: int|
        0 <= i < csv_nrows(s) ==> is_num_field(#[trigger] csv_cell(s, i, j))
}

/// A column is uniformly typed when its fields are all numeric or all text.
pub open spec fn csv_col_uniform(s: Seq<u8>, j: int) -> bool {
    ||| csv_nrows(s) == 0
    ||| (forall|i: int| 0 <= i < csv_nrows(s) ==> is_num_field(#[trigger] csv_cell(s, i, j)))
    ||| (forall|i: int| 0 <= i < csv_nrows(s) ==> !is_num_field(#[trigger] csv_cell(s, i, j)))
}

/// A well-formed input: valid UTF-8, every data row as wide as the header,
/// distinct column names, and every column uniformly typed.
pub open spec fn csv_shape_ok(s: Seq<u8>) -> bool {
    &&& utf8_ok(s)
    &&& forall|i: int| 0 <= i < csv_nrows(s) ==> (#[trigger] csv_row(s, i)).len() == csv_width(s)
    &&& forall|a: int, b: int|
        0 <= a < b < csv_width(s) ==> (#[trigger] csv_header(s)[a]) != (#[trigger] csv_header(
            s,
        )[b])
    &&& forall|j: int| 0 <= j < csv_width(s) ==> #[trigger] csv_col_uniform(s, j)
}

/// The model of column `j` of a well-formed input.
pub open spec fn csv_col(s: Seq<u8>, j: int) -> ColModel {
    ColModel {
        name: csv_header(s)[j],
        vals: if csv_col_numeric(s, j) {
            ColVals::Nums(Seq::new(csv_nrows(s) as nat, |i: int| dec_val(csv_cell(s, i, j)) as i64))
        } else {
            ColVals::Texts(Seq::new(csv_nrows(s) as nat, |i: int| csv_cell(s, i, j)))
        },
    }
}

/// The model of the table loaded from a well-formed input.
pub open spec fn csv_table(s: Seq<u8>) -> Seq<ColModel> {
    Seq::new(csv_width(s) as nat, |j: int| csv_col(s, j))
}

impl Table {
    /// Parse raw bytes as a delimited table with a header row. The first
    /// line names the columns; every further line is one data row. A column
    /// whose fields are all decimal literals is numeric; one whose fields are
    /// all non-numeric is text. Succeeds exactly on well-formed input: valid
    /// UTF-8, consistent row widths, distinct names, uniform column types.
    pub fn load(bytes: &Vec<u8>) -> (r: Result<Table, DataError>)
        ensures
            r is Ok <==> csv_shape_ok(bytes@),
            r matches Ok(t) ==> t.wf() && t@ == csv_table(bytes@),
            r matches Ok(t) ==> t@.len() == csv_width(bytes@) && table_nrows(t@) == csv_nrows(
                bytes@,
            ) && (forall|j: int|
                0 <= j < csv_width(bytes@) ==> (#[trigger] t@[j]).name == csv_header(bytes@)[j]),
            r matches Err(e) ==> e == DataError::ParseError,
    {
        let ghost s = bytes@;
        if !check_utf8(bytes.as_slice()) {
            return Err(DataError::ParseError);
        }
        let n = bytes.len();
        let end = if n > 0 && bytes[n - 1] == 10 {
            n - 1
        } else {
            n
        };
        let content = vstd::slice::slice_subrange(bytes.as_slice(), 0, end);
        proof {
            assert(content@ =~= csv_content(s));
        }
        let lines = split_bytes(content, 10);
        proof {
            assert(views_of(lines@) == csv_lines(s));
            assert(lines@[0]@ == csv_lines(s)[0]);
        }
        let header = split_bytes(lines[0].as_slice(), 44);
        proof {
            assert(views_of(header@) == csv_header(s));
        }
        let w = header.len();
        let mut j: usize = 0;
        while j < w
            invariant
                s == bytes@,
                0 <= j <= w,
                w == csv_width(s),
                header@.len() == w,
                views_of(header@) == csv_header(s),
                forall|a: int, b: int|
                    0 <= a < b < j ==> (#[trigger] csv_header(s)[a]) != (#[trigger] csv_header(
                        s,
                    )[b]),
            decreases w - j,
        {
            let mut k: usize = 0;
            while k < j
                invariant
                    s == bytes@,
                    0 <= k <= j < w,
                    w == csv_width(s),
                    header@.len() == w,
                    views_of(header@) == csv_header(s),
                    forall|b: int| 0 <= b < k ==> csv_header(s)[b] != csv_header(s)[j as int],
                decreases j - k,
            {
                proof {
                    assert(header@[k as int]@ == csv_header(s)[k as int]);
                    assert(header@[j as int]@ == csv_header(s)[j as int]);
                }
                if bytes_eq(header[k].as_slice(), header[j].as_slice()) {
                    proof {
                        assert(csv_header(s)[k as int] == csv_header(s)[j as int]);
                        assert(!csv_shape_ok(s));
                    }
                    return Err(DataError::ParseError);
                }
                k += 1;
            }
            j += 1;
        }
        let nlines = lines.len();
        let nrows = nlines - 1;
        let mut rows: Vec<Vec<Vec<u8>>> = Vec::new();
        let mut li: usize = 1;
        while li < nlines
            invariant
                s == bytes@,
                utf8_ok(s),
                forall|a: int, b: int|
                    0 <= a < b < csv_width(s) ==> (#[trigger] csv_header(s)[a]) != (
                    #[trigger] csv_header(s)[b]),
                1 <= li <= nlines,
                nlines == lines@.len(),
                nrows == nlines - 1,
                views_of(lines@) == csv_lines(s),
                w == csv_width(s),
                rows@.len() == li - 1,
                forall|i: int|
                    0 <= i < li - 1 ==> views_of((#[trigger] rows@[i])@) == csv_row(s, i)
                        && rows@[i]@.len() == w,
            decreases nlines - li,
        {
            proof {
                assert(lines@[li as int]@ == csv_lines(s)[li as int]);
            }
            let fields = split_bytes(lines[li].as_slice(), 44);
            if fields.len() != w {
                proof {
                    assert(csv_row(s, li - 1).len() != csv_width(s));
                    assert(!csv_shape_ok(s));
                }
                return Err(DataError::ParseError);
            }
            rows.push(fields);
            li += 1;
        }
        let mut cols: Vec<Column> = Vec::new();
        let mut cj: usize = 0;
        while cj < w
            invariant
                s == bytes@,
                utf8_ok(s),
                forall|a: int, b: int|
                    0 <= a < b < csv_width(s) ==> (#[trigger] csv_header(s)[a]) != (
                    #[trigger] csv_header(s)[b]),
                0 <= cj <= w,
                w == csv_width(s),
                header@.len() == w,
                views_of(header@) == csv_header(s),
                nrows == csv_nrows(s),
                rows@.len() == nrows,
                forall|i: int|
                    0 <= i < nrows ==> views_of((#[trigger] rows@[i])@) == csv_row(s, i)
                        && rows@[i]@.len() == w,
                cols@.len() == cj,
                forall|j2: int|
                    0 <= j2 < cj ==> (#[trigger] cols@[j2])@ == csv_col(s, j2) && csv_col_uniform(
                        s,
                        j2,
                    ),
            decreases w - cj,
        {
            let name = copy_bytes(header[cj].as_slice());
            proof {
                assert(header@[cj as int]@ == csv_header(s)[cj as int]);
            }
            let data: ColumnData;
            if nrows == 0 {
                data = ColumnData::Texts(Vec::new());
                proof {
                    assert(!csv_col_numeric(s, cj as int));
                    assert(data@ matches ColVals::Texts(t2) && t2 =~= Seq::new(
                        csv_nrows(s) as nat,
                        |i: int| csv_cell(s, i, cj as int),
                    ));
                }
            } else {
                proof {
                    assert(views_of(rows@[0]@) == csv_row(s, 0));
                    assert(rows@[0]@[cj as int]@ == csv_cell(s, 0, cj as int));
                }
                let first_num = parse_field(rows[0][cj].as_slice()).is_some();
                if first_num {
                    let mut nums: Vec<i64> = Vec::new();
                    let mut i: usize = 0;
                    while i < nrows
                        invariant
                            s == bytes@,
                            0 <= i <= nrows,
                            0 <= cj < w,
                            w == csv_width(s),
                            nrows == csv_nrows(s),
                            rows@.len() == nrows,
                            forall|i2: int|
                                0 <= i2 < nrows ==> views_of((#[trigger] rows@[i2])@) == csv_row(
                                    s,
                                    i2,
                                ) && rows@[i2]@.len() == w,
                            is_num_field(csv_cell(s, 0, cj as int)),
                            nums@.len() == i,
                            forall|i2: int|
                                0 <= i2 < i ==> is_num_field(#[trigger] csv_cell(s, i2, cj as int))
                                    && nums@[i2] == dec_val(csv_cell(s, i2, cj as int)),
                        decreases nrows - i,
                    {
                        proof {
                            assert(rows@[i as int]@[cj as int]@ == csv_cell(s, i as int, cj as int));
                        }
                        match parse_field(rows[i][cj].as_slice()) {
                            Some(v) => {
                                nums.push(v);
                            },
                            None => {
                                proof {
                                    assert(!is_num_field(csv_cell(s, i as int, cj as int)));
                                    assert(!csv_col_uniform(s, cj as int));
                                    assert(!csv_shape_ok(s));
                                }
                                return Err(DataError::ParseError);
                            },
                        }
                        i += 1;
                    }
                    data = ColumnData::Nums(nums);
                    proof {
                        assert(csv_col_numeric(s, cj as int));
                        assert(data@ matches ColVals::Nums(n2) && n2 =~= Seq::new(
                            csv_nrows(s) as nat,
                            |i: int| dec_val(csv_cell(s, i, cj as int)) as i64,
                        ));
                        assert(csv_col_uniform(s, cj as int));
                    }
                } else {
                    let mut texts: Vec<Vec<u8>> = Vec::new();
                    let mut i: usize = 0;
                    while i < nrows
                        invariant
                            s == bytes@,
                            0 <= i <= nrows,
                            0 <= cj < w,
                            w == csv_width(s),
                            nrows == csv_nrows(s),
                            rows@.len() == nrows,
                            forall|i2: int|
                                0 <= i2 < nrows ==> views_of((#[trigger] rows@[i2])@) == csv_row(
                                    s,
                                    i2,
                                ) && rows@[i2]@.len() == w,
                            !is_num_field(csv_cell(s, 0, cj as int)),
                            texts@.len() == i,
                            forall|i2: int|
                                0 <= i2 < i ==> !is_num_field(#[trigger] csv_cell(s, i2, cj as int))
                                    && texts@[i2]@ == csv_cell(s, i2, cj as int),
                        decreases nrows - i,
                    {
                        proof {
                            assert(rows@[i as int]@[cj as int]@ == csv_cell(s, i as int, cj as int));
                        }
                        match parse_field(rows[i][cj].as_slice()) {
                            Some(_) => {
                                proof {
                                    assert(is_num_field(csv_cell(s, i as int, cj as int)));
                                    assert(!csv_col_uniform(s, cj as int));
                                    assert(!csv_shape_ok(s));
                                }
                                return Err(DataError::ParseError);
                            },
                            None => {
                                let field = copy_bytes(rows[i][cj].as_slice());
                                texts.push(field);
                            },
                        }
                        i += 1;
                    }
                    data = ColumnData::Texts(texts);
                    proof {
                        assert(!csv_col_numeric(s, cj as int));
                        assert(data@ matches ColVals::Texts(t2) && t2 =~= Seq::new(
                            csv_nrows(s) as nat,
                            |i: int| csv_cell(s, i, cj as int),
                        ));
                        assert(csv_col_uniform(s, cj as int));
                    }
                }
            }
            let col = Column { name, data };
            proof {
                assert(col@ =~= csv_col(s, cj as int));
            }
            cols.push(col);
            cj += 1;
        }
        let t = Table { cols };
        proof {
            assert forall|i: int| 0 <= i < csv_nrows(s) implies (#[trigger] csv_row(
                s,
                i,
            )).len() == csv_width(s) by {
                assert(views_of(rows@[i]@) == csv_row(s, i));
            }
            assert forall|j2: int| 0 <= j2 < csv_width(s) implies #[trigger] csv_col_uniform(
                s,
                j2,
            ) by {
                assert(cols@[j2]@ == csv_col(s, j2) && csv_col_uniform(s, j2));
            }
            assert(csv_shape_ok(s));
            assert(t@ =~= csv_table(s));
            assert forall|j2: int| 0 <= j2 < t@.len() implies col_len(
                #[trigger] t@[j2].vals,
            ) == csv_nrows(s) as nat by {
                assert(t@[j2] == csv_col(s, j2));
            }
            assert(t.wf());
        }
        Ok(t)
    }
}

} // verus!
