//! A small columnar-table library: loading a delimited text table with a
//! header row, running a filter / group-by / sum query over it, and computing
//! the data for a scatter plot (axis ranges and per-row points).
//!
//! Numeric cells are exact decimals held as `i64` counts of thousandths, so
//! every comparison, sum, minimum and maximum is exact integer arithmetic.

mod decimal;
mod error;
mod plot;
mod query;
mod table;
mod utf8;

pub use error::DataError;
pub use table::{ColModel, ColVals, Column, ColumnData, Table};
pub use table::{bytes_eq, col_len, model_wf, split_on, table_nrows, views_of};
pub use table::{
    col_index, csv_cell, csv_col, csv_col_numeric, csv_col_uniform, csv_content, csv_header,
    csv_lines, csv_nrows, csv_row, csv_shape_ok, csv_table, csv_width, has_col, nums_of, texts_of,
};
pub use utf8::{check_utf8, is_cont, utf8_ok};
pub use plot::{
    lemma_seq_max_ge, lemma_seq_min_le, scatter_schema_ok, scatter_values_ok, seq_max, seq_min,
    ScatterData,
};
pub use query::{
    cmp_eval, cmp_holds, group_reps, group_sum, idxs_of, in_i64, kept_rows, keys_match,
    lemma_kept_rows_exact, lemma_query_deterministic, lemma_query_group_sums, query_kept,
    query_model, query_overflows, query_reps, query_schema_ok, rep_keys, sum_cols, CmpOp, Filter,
};
pub use decimal::{
    all_digits, dec_body, dec_mag, dec_shape_ok, dec_sign, dec_val, digits_val, is_digit,
    is_num_field, parse_field, pow10, SCALE,
};

