use vstd::prelude::*;

verus! {

// Each graph's samples form one column; row `k` holds the `k`-th sample of
// every graph. A column shorter than the longest is padded with `None`, which
// is written as an empty field, never as zero.

/// The length of the longest column, zero when there is none.
pub open spec fn max_len(cols: Seq<Seq<i32>>) -> nat
    decreases cols.len(),
{
    if cols.len() == 0 {
        0
    } else {
        let m = max_len(cols.drop_last());
        if cols.last().len() > m { cols.last().len() } else { m }
    }
}

/// The field of row `k` in column `j`: the sample, or the pad.
pub open spec fn cell(cols: Seq<Seq<i32>>, k: int, j: int) -> Option<i32> {
    if k < cols[j].len() {
        Some(cols[j][k])
    } else {
        None
    }
}

/// The padded table of a list of columns.
pub open spec fn table_of(cols: Seq<Seq<i32>>) -> Seq<Seq<Option<i32>>> {
    Seq::new(max_len(cols), |k: int| Seq::new(cols.len(), |j: int| cell(cols, k, j)))
}

/// The samples found in column `j` of a table, in row order; pads are skipped.
pub open spec fn gathered(rows: Seq<Seq<Option<i32>>>, j: int) -> Seq<i32>
    decreases rows.len(),
{
    if rows.len() == 0 {
        Seq::empty()
    } else {
        let prev = gathered(rows.drop_last(), j);
        match rows.last()[j] {
            Some(v) => prev.push(v),
            None => prev,
        }
    }
}

/// Every row of the table has `width` fields.
pub open spec fn rows_wide(rows: Seq<Seq<Option<i32>>>, width: int) -> bool {
    forall|k: int| 0 <= k < rows.len() ==> #[trigger] rows[k].len() == width
}

/// The samples of each column.
pub open spec fn col_views(v: Seq<Vec<i32>>) -> Seq<Seq<i32>> {
    v.map_values(|c: Vec<i32>| c@)
}

/// The fields of each row.
pub open spec fn row_views(v: Seq<Vec<Option<i32>>>) -> Seq<Seq<Option<i32>>> {
    v.map_values(|c: Vec<Option<i32>>| c@)
}

proof fn lemma_max_len(cols: Seq<Seq<i32>>)
    ensures
        forall|j: int| 0 <= j < cols.len() ==> #[trigger] cols[j].len() <= max_len(cols),
        cols.len() > 0 ==> exists|j: int| 0 <= j < cols.len() && #[trigger] cols[j].len() == max_len(cols),
        cols.len() == 0 ==> max_len(cols) == 0,
    decreases cols.len(),
{
    if cols.len() > 0 {
        lemma_max_len(cols.drop_last());
        assert forall|j: int| 0 <= j < cols.len() implies #[trigger] cols[j].len() <= max_len(cols) by {
            if j < cols.len() - 1 {
                assert(cols[j] == cols.drop_last()[j]);
            }
        }
        if cols.last().len() <= max_len(cols.drop_last()) && cols.len() > 1 {
            let j = choose|j: int| 0 <= j < cols.drop_last().len() && #[trigger] cols.drop_last()[j].len() == max_len(cols.drop_last());
            assert(cols[j] == cols.drop_last()[j]);
        }
    }
}

/// Reading column `j` back from the first `k` rows of the table gives the
/// column's first `k` samples.
proof fn lemma_gathered_prefix(cols: Seq<Seq<i32>>, j: int, k: int)
    requires
        0 <= j < cols.len(),
        0 <= k <= max_len(cols),
    ensures
        gathered(table_of(cols).take(k), j) == cols[j].take(if k < cols[j].len() { k } else { cols[j].len() as int }),
    decreases k,
{
    let t = table_of(cols);
    if k > 0 {
        lemma_gathered_prefix(cols, j, k - 1);
        assert(t.take(k).drop_last() =~= t.take(k - 1));
        assert(t.take(k).last() == t[k - 1]);
        if k - 1 < cols[j].len() {
            assert(cols[j].take(k) =~= cols[j].take(k - 1).push(cols[j][k - 1]));
        }
    } else {
        assert(t.take(0) =~= Seq::<Seq<Option<i32>>>::empty());
        assert(cols[j].take(0) =~= Seq::<i32>::empty());
    }
}

/// Exporting columns and importing the table back gives the same columns, each
/// with the same samples in the same order.
pub proof fn lemma_round_trip(cols: Seq<Seq<i32>>, j: int)
    requires
        0 <= j < cols.len(),
    ensures
        gathered(table_of(cols), j) == cols[j],
        rows_wide(table_of(cols), cols.len() as int),
{
    lemma_max_len(cols);
    lemma_gathered_prefix(cols, j, max_len(cols) as int);
    assert(table_of(cols).take(max_len(cols) as int) =~= table_of(cols));
    assert(cols[j].take(cols[j].len() as int) =~= cols[j]);
}

/// The padded table of `columns`: as many rows as the longest column, one
/// field per column in each.
pub fn export_rows(columns: &Vec<Vec<i32>>) -> (r: Vec<Vec<Option<i32>>>)
    ensures
        row_views(r@) == table_of(col_views(columns@)),
{
    let ghost cols = col_views(columns@);
    let mut m: usize = 0;
    let mut j: usize = 0;
    while j < columns.len()
        invariant
            j <= columns@.len(),
            cols == col_views(columns@),
            m == max_len(cols.take(j as int)),
        decreases columns@.len() - j,
    {
        assert(cols.take(j + 1).drop_last() =~= cols.take(j as int));
        if columns[j].len() > m {
            m = columns[j].len();
        }
        j = j + 1;
    }
    assert(cols.take(columns@.len() as int) =~= cols);
    assert(table_of(cols).take(0) =~= Seq::<Seq<Option<i32>>>::empty());
    let mut rows: Vec<Vec<Option<i32>>> = Vec::new();
    let mut k: usize = 0;
    while k < m
        invariant
            k <= m,
            m == max_len(cols),
            cols == col_views(columns@),
            cols.len() == columns@.len(),
            row_views(rows@) == table_of(cols).take(k as int),
        decreases m - k,
    {
        let mut row: Vec<Option<i32>> = Vec::new();
        let mut j: usize = 0;
        while j < columns.len()
            invariant
                j <= columns@.len(),
                k < m,
                cols == col_views(columns@),
                cols.len() == columns@.len(),
                row@.len() == j,
                forall|i: int| 0 <= i < j ==> #[trigger] row@[i] == cell(cols, k as int, i),
            decreases columns@.len() - j,
        {
            assert(cols[j as int] == columns@[j as int]@);
            if k < columns[j].len() {
                row.push(Some(columns[j][k]));
            } else {
                row.push(None);
            }
            j = j + 1;
        }
        assert(row@ =~= table_of(cols)[k as int]);
        let ghost before = rows@;
        rows.push(row);
        assert(row_views(rows@) =~= row_views(before).push(row@));
        assert(table_of(cols).take(k + 1) =~= table_of(cols).take(k as int).push(table_of(cols)[k as int]));
        k = k + 1;
    }
    assert(table_of(cols).take(m as int) =~= table_of(cols));
    rows
}

/// Reads each column back from a table: the samples of column `j` are its
/// non-pad fields, in row order. Every row must be `width` fields wide.
pub fn import_columns(rows: &Vec<Vec<Option<i32>>>, width: usize) -> (r: Vec<Vec<i32>>)
    requires
        rows_wide(row_views(rows@), width as int),
    ensures
        r@.len() == width,
        forall|j: int| 0 <= j < width ==> #[trigger] r@[j]@ == gathered(row_views(rows@), j),
{
    let ghost t = row_views(rows@);
    let mut cols: Vec<Vec<i32>> = Vec::new();
    let mut j: usize = 0;
    while j < width
        invariant
            j <= width,
            cols@.len() == j,
            forall|i: int| 0 <= i < j ==> #[trigger] cols@[i]@ == Seq::<i32>::empty(),
        decreases width - j,
    {
        cols.push(Vec::new());
        j = j + 1;
    }
    let mut k: usize = 0;
    while k < rows.len()
        invariant
            k <= rows@.len(),
            t == row_views(rows@),
            rows_wide(t, width as int),
            cols@.len() == width,
            forall|i: int| 0 <= i < width ==> #[trigger] cols@[i]@ == gathered(t.take(k as int), i),
        decreases rows@.len() - k,
    {
        assert(t.take(k + 1).drop_last() =~= t.take(k as int));
        assert(t.take(k + 1).last() == t[k as int]);
        assert(t[k as int] == rows@[k as int]@);
        assert(rows@[k as int]@.len() == width);
        let mut j: usize = 0;
        while j < width
            invariant
                j <= width,
                k < rows@.len(),
                t == row_views(rows@),
                rows@[k as int]@.len() == width,
                t.take(k + 1).drop_last() == t.take(k as int),
                t.take(k + 1).last() == rows@[k as int]@,
                cols@.len() == width,
                forall|i: int| 0 <= i < j ==> #[trigger] cols@[i]@ == gathered(t.take(k + 1), i),
                forall|i: int| j <= i < width ==> #[trigger] cols@[i]@ == gathered(t.take(k as int), i),
            decreases width - j,
        {
            match rows[k][j] {
                Some(v) => {
                    let mut c: Vec<i32> = Vec::new();
                    std::mem::swap(&mut c, &mut cols[j]);
                    c.push(v);
                    cols.set(j, c);
                },
                None => {},
            }
            j = j + 1;
        }
        k = k + 1;
    }
    assert(t.take(rows@.len() as int) =~= t);
    cols
}

} // verus!
