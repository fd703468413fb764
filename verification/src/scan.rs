//! A scan of a table, as the optimizer asks for it.

use vstd::prelude::*;

use crate::column_set::ColumnSet;
use crate::scalar_expr::ScalarExpr;

verus! {

/// A column that the rows of a scan are sorted by.
#[derive(Clone, Copy, Debug, PartialEq, Eq, Structural)]
pub struct SortItem {
    pub index: usize,
    pub asc: bool,
    pub nulls_first: bool,
}

/// A filter that is tried before the other columns are read.
#[derive(Debug)]
pub struct Prewhere {
    /// The columns that are left once the filter was tried.
    pub output_columns: ColumnSet,
    /// The columns that the filter reads.
    pub prewhere_columns: ColumnSet,
    pub predicates: Vec<ScalarExpr>,
}

/// A scan of a table.
#[derive(Debug)]
pub struct Scan {
    pub table_index: usize,
    pub scan_id: usize,
    pub columns: ColumnSet,
    pub push_down_predicates: Option<Vec<ScalarExpr>>,
    /// The predicates of the row access policies.
    pub secure_predicates: Option<Vec<ScalarExpr>>,
    pub limit: Option<usize>,
    pub order_by: Option<Vec<SortItem>>,
    pub prewhere: Option<Prewhere>,
    pub is_lazy_table: bool,
    pub update_stream_columns: bool,
    /// The changes of a stream that are read, by the number under which the host keeps them.
    pub change_type: Option<u32>,
    /// The search of an inverted index, by the number under which the host keeps it.
    pub inverted_index: Option<u32>,
    /// The search of a vector index, by the number under which the host keeps it.
    pub vector_index: Option<u32>,
    /// How the table is sampled, by the number under which the host keeps it.
    pub sample: Option<u32>,
}

} // verus!
