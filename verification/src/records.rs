//! Grouping the stored cells of a paradigm into its tables: the cells come
//! one per record, ordered by table, row and cell, and each record repeats
//! the table and row it belongs to.
use vstd::prelude::*;

use crate::catalog::{LoadedCell, LoadedCellView, LoadedColumn, LoadedColumnView, LoadedRow, LoadedRowView, LoadedTable, LoadedTableView};
use crate::tags::{combine_cell_values, combined_cell};
use crate::text::str_eq;

verus! {

/// One stored cell together with its table and row.
#[derive(Debug)]
pub struct CellRecord {
    pub table_id: i64,
    pub table_kind: String,
    pub heading: String,
    pub row_id: i64,
    pub row_key: String,
    pub row_label: String,
    pub cell_id: i64,
    pub column_key: String,
    pub column_label: String,
    pub alternatives: String,
    pub raw_value: String,
}

/// The plain contents of a `CellRecord`.
pub struct CellRecordView {
    pub table_id: i64,
    pub table_kind: Seq<char>,
    pub heading: Seq<char>,
    pub row_id: i64,
    pub row_key: Seq<char>,
    pub row_label: Seq<char>,
    pub cell_id: i64,
    pub column_key: Seq<char>,
    pub column_label: Seq<char>,
    pub alternatives: Seq<char>,
    pub raw_value: Seq<char>,
}

impl View for CellRecord {
    type V = CellRecordView;

    open spec fn view(&self) -> CellRecordView {
        CellRecordView {
            table_id: self.table_id,
            table_kind: self.table_kind@,
            heading: self.heading@,
            row_id: self.row_id,
            row_key: self.row_key@,
            row_label: self.row_label@,
            cell_id: self.cell_id,
            column_key: self.column_key@,
            column_label: self.column_label@,
            alternatives: self.alternatives@,
            raw_value: self.raw_value@,
        }
    }
}

/// The cell that a record stores: its text is the stored value followed by
/// the alternatives, without repetitions.
pub open spec fn record_cell(r: CellRecordView) -> LoadedCellView {
    LoadedCellView { id: r.cell_id, column_key: r.column_key, display_value: combined_cell(r.raw_value, r.alternatives) }
}

/// A table begun by a record: its column, and a row holding its cell.
pub open spec fn table_begun(r: CellRecordView) -> LoadedTableView {
    LoadedTableView {
        kind: r.table_kind,
        heading: r.heading,
        columns: seq![LoadedColumnView { key: r.column_key, label: r.column_label }],
        rows: seq![LoadedRowView { key: r.row_key, label: r.row_label, cells: seq![record_cell(r)] }],
    }
}

/// The table with the record's cell added: its column is added when the
/// table has no column with that key, and the cell goes to the last row when
/// that row is the record's, to a new row otherwise.
pub open spec fn table_extended(t: LoadedTableView, same_row: bool, r: CellRecordView) -> LoadedTableView {
    let columns = if t.columns.map_values(|c: LoadedColumnView| c.key).contains(r.column_key) {
        t.columns
    } else {
        t.columns.push(LoadedColumnView { key: r.column_key, label: r.column_label })
    };
    let rows = if same_row && t.rows.len() > 0 {
        let last = t.rows.last();
        t.rows.update(
            t.rows.len() - 1,
            LoadedRowView { key: last.key, label: last.label, cells: last.cells.push(record_cell(r)) },
        )
    } else {
        t.rows.push(LoadedRowView { key: r.row_key, label: r.row_label, cells: seq![record_cell(r)] })
    };
    LoadedTableView { kind: t.kind, heading: t.heading, columns, rows }
}

/// The tables after one more record, each with the ids of its table and of
/// its last row: the record extends the last table when it belongs to it,
/// and begins a new table otherwise.
pub open spec fn absorbed(acc: Seq<(i64, i64, LoadedTableView)>, r: CellRecordView) -> Seq<(i64, i64, LoadedTableView)> {
    if acc.len() > 0 && acc.last().0 == r.table_id {
        let last = acc.last();
        acc.update(acc.len() - 1, (last.0, r.row_id, table_extended(last.2, last.1 == r.row_id, r)))
    } else {
        acc.push((r.table_id, r.row_id, table_begun(r)))
    }
}

/// The tables of the records, with the ids of each table and of its last row.
pub open spec fn grouped(records: Seq<CellRecordView>) -> Seq<(i64, i64, LoadedTableView)>
    decreases records.len(),
{
    if records.len() == 0 {
        Seq::empty()
    } else {
        absorbed(grouped(records.drop_last()), records.last())
    }
}

/// The tables of the records.
pub open spec fn tables_of_records(records: Seq<CellRecordView>) -> Seq<LoadedTableView> {
    grouped(records).map_values(|e: (i64, i64, LoadedTableView)| e.2)
}

fn has_column(columns: &Vec<LoadedColumn>, key: &str) -> (r: bool)
    ensures
        r == columns@.map_values(|c: LoadedColumn| c@).map_values(|c: LoadedColumnView| c.key).contains(key@),
{
    let ghost keys = columns@.map_values(|c: LoadedColumn| c@).map_values(|c: LoadedColumnView| c.key);
    let mut i: usize = 0;
    while i < columns.len()
        invariant
            keys == columns@.map_values(|c: LoadedColumn| c@).map_values(|c: LoadedColumnView| c.key),
            i <= columns@.len(),
            forall|j: int| 0 <= j < i ==> keys[j] != key@,
        decreases columns@.len() - i,
    {
        if str_eq(columns[i].key.as_str(), key) {
            assert(keys[i as int] == key@);
            return true;
        }
        i = i + 1;
    }
    proof {
        if keys.contains(key@) {
            let k = choose|k: int| 0 <= k < keys.len() && keys[k] == key@;
            assert(false);
        }
    }
    false
}

fn make_cell(r: &CellRecord) -> (c: LoadedCell)
    ensures
        c@ == record_cell(r@),
{
    LoadedCell {
        id: r.cell_id,
        column_key: r.column_key.clone(),
        display_value: combine_cell_values(r.raw_value.as_str(), r.alternatives.as_str()),
    }
}

fn begin_table(r: &CellRecord) -> (t: LoadedTable)
    ensures
        t@ == table_begun(r@),
{
    let column = LoadedColumn { key: r.column_key.clone(), label: r.column_label.clone() };
    let cell = make_cell(r);
    let mut cells: Vec<LoadedCell> = Vec::new();
    cells.push(cell);
    let row = LoadedRow { key: r.row_key.clone(), label: r.row_label.clone(), cells };
    let mut columns: Vec<LoadedColumn> = Vec::new();
    columns.push(column);
    let mut rows: Vec<LoadedRow> = Vec::new();
    rows.push(row);
    let t = LoadedTable { kind: r.table_kind.clone(), heading: r.heading.clone(), columns, rows };
    assert(t@.columns =~= table_begun(r@).columns);
    assert(row@.cells =~= seq![record_cell(r@)]);
    assert(t@.rows =~= table_begun(r@).rows);
    t
}

fn extend_table(t: &mut LoadedTable, same_row: bool, r: &CellRecord)
    ensures
        final(t)@ == table_extended(old(t)@, same_row, r@),
{
    let ghost t0 = t@;
    if !has_column(&t.columns, r.column_key.as_str()) {
        let column = LoadedColumn { key: r.column_key.clone(), label: r.column_label.clone() };
        t.columns.push(column);
        assert(t@.columns =~= t0.columns.push(column@));
    }
    let cell = make_cell(r);
    if same_row && t.rows.len() > 0 {
        let mut last = t.rows.pop().unwrap();
        let ghost lv = last@;
        assert(lv == t0.rows.last());
        last.cells.push(cell);
        assert(last@.cells =~= lv.cells.push(cell@));
        t.rows.push(last);
        assert(t@.rows =~= t0.rows.update(
            t0.rows.len() - 1,
            LoadedRowView { key: lv.key, label: lv.label, cells: lv.cells.push(record_cell(r@)) },
        ));
    } else {
        let mut cells: Vec<LoadedCell> = Vec::new();
        cells.push(cell);
        let row = LoadedRow { key: r.row_key.clone(), label: r.row_label.clone(), cells };
        assert(row@.cells =~= seq![record_cell(r@)]);
        t.rows.push(row);
        assert(t@.rows =~= t0.rows.push(row@));
    }
}

/// The views of grouped tables with their ids.
pub open spec fn entry_views(s: Seq<(i64, i64, LoadedTable)>) -> Seq<(i64, i64, LoadedTableView)> {
    s.map_values(|e: (i64, i64, LoadedTable)| (e.0, e.1, e.2@))
}

/// The tables of a paradigm from its stored cells, which come ordered by
/// table, row and cell: consecutive records of one table make one table, and
/// within it consecutive records of one row make one row; a table's columns
/// are the distinct column keys of its records, in the order in which they
/// first occur.
pub fn tables_from_records(records: &[CellRecord]) -> (r: Vec<LoadedTable>)
    ensures
        r@.map_values(|t: LoadedTable| t@) == tables_of_records(records@.map_values(|x: CellRecord| x@)),
{
    let ghost rv = records@.map_values(|x: CellRecord| x@);
    let mut acc: Vec<(i64, i64, LoadedTable)> = Vec::new();
    let mut i: usize = 0;
    assert(rv.take(0) =~= Seq::<CellRecordView>::empty());
    assert(entry_views(acc@) =~= Seq::<(i64, i64, LoadedTableView)>::empty());
    while i < records.len()
        invariant
            rv == records@.map_values(|x: CellRecord| x@),
            i <= rv.len(),
            entry_views(acc@) == grouped(rv.take(i as int)),
        decreases rv.len() - i,
    {
        let r = &records[i];
        assert(rv.take(i + 1).drop_last() =~= rv.take(i as int));
        assert(rv.take(i + 1).last() == r@);
        let ghost before = entry_views(acc@);
        let n = acc.len();
        if n > 0 && acc[n - 1].0 == r.table_id {
            let (tid, rid, mut t) = acc.pop().unwrap();
            assert(before.last() == (tid, rid, t@));
            let same_row = rid == r.row_id;
            extend_table(&mut t, same_row, r);
            acc.push((tid, r.row_id, t));
            assert(entry_views(acc@) =~= before.update(before.len() - 1, (tid, r.row_id, t@)));
        } else {
            let t = begin_table(r);
            acc.push((r.table_id, r.row_id, t));
            assert(entry_views(acc@) =~= before.push((r@.table_id, r@.row_id, t@)));
        }
        i = i + 1;
    }
    assert(rv.take(i as int) =~= rv);
    let mut tables: Vec<LoadedTable> = Vec::new();
    let ghost gv = entry_views(acc@);
    while acc.len() > 0
        invariant
            gv.len() >= acc@.len(),
            entry_views(acc@) == gv.take(acc@.len() as int),
            tables@.map_values(|t: LoadedTable| t@) == gv.skip(acc@.len() as int).map_values(
                |e: (i64, i64, LoadedTableView)| e.2,
            ),
        decreases acc@.len(),
    {
        let ghost k = acc@.len() - 1;
        let ghost ak = acc@[k];
        assert(entry_views(acc@)[k] == (ak.0, ak.1, ak.2@));
        assert(gv.take(acc@.len() as int)[k] == gv[k]);
        let (_, _, t) = acc.pop().unwrap();
        assert(t == ak.2);
        assert(gv[k].2 == t@);
        let ghost after = tables@.map_values(|t: LoadedTable| t@);
        tables.insert(0, t);
        assert(tables@.map_values(|t: LoadedTable| t@) =~= seq![t@] + after);
        assert(entry_views(acc@) =~= gv.take(acc@.len() as int));
        assert(gv.skip(k).map_values(|e: (i64, i64, LoadedTableView)| e.2) =~= seq![t@] + gv.skip(k + 1).map_values(
            |e: (i64, i64, LoadedTableView)| e.2,
        ));
    }
    assert(gv.skip(0) =~= gv);
    tables
}

} // verus!
