use crate::consts::{
    ERROR_COLUMN_DUP, ERROR_COLUMN_ID, ERROR_COLUMN_NOTFOUND, ERROR_INSERT_DUPCOLUMN,
    INTERNAL_INVALID_PRIMARY_KEY, PRIMARY_KEY_IDX, PRIMARY_KEY_NAME,
};
use crate::value::{new_primary_key, str_eq, Value};
use vstd::pervasive::arbitrary;
use uuid::Uuid;
use vstd::prelude::*;

verus! {

/// Position of the last occurrence of `name` in `names`, if any.
pub open spec fn last_position(names: Seq<Seq<char>>, name: Seq<char>) -> Option<int>
    decreases names.len(),
{
    if names.len() == 0 {
        None
    } else if names.last() == name {
        Some(names.len() - 1)
    } else {
        last_position(names.drop_last(), name)
    }
}

/// A row of `width` nulls.
pub open spec fn null_row(width: nat) -> Seq<Value> {
    Seq::new(width, |i: int| Value::Null)
}

/// The row that an insert of `values` builds in a table of `width` columns,
/// before the primary key is set, or the error that the insert reports.
/// The pairs are taken in order; a column may be given twice only while
/// the value it holds is null.
pub open spec fn fill_row(width: nat, values: Seq<(usize, Value)>) -> Result<Seq<Value>, &'static str>
    decreases values.len(),
{
    if values.len() == 0 {
        Ok(null_row(width))
    } else {
        match fill_row(width, values.drop_last()) {
            Err(e) => Err(e),
            Ok(row) => {
                let (col, v) = values.last();
                if col == PRIMARY_KEY_IDX {
                    Err(ERROR_COLUMN_ID)
                } else if col >= width {
                    Err(ERROR_COLUMN_NOTFOUND)
                } else if !(row[col as int] is Null) {
                    Err(ERROR_INSERT_DUPCOLUMN)
                } else {
                    Ok(row.update(col as int, v))
                }
            },
        }
    }
}

/// The cells that an upsert names, as (column name, value) pairs.
pub open spec fn cells_view(values: Seq<(String, Value)>) -> Seq<(Seq<char>, Value)> {
    values.map_values(|p: (String, Value)| (p.0@, p.1))
}

/// The value given for the primary-key column among `values`, if any; the
/// last one where it is given more than once.
pub open spec fn upsert_id(values: Seq<(Seq<char>, Value)>) -> Option<Value>
    decreases values.len(),
{
    if values.len() == 0 {
        None
    } else if values.last().0 == PRIMARY_KEY_NAME@ {
        Some(values.last().1)
    } else {
        upsert_id(values.drop_last())
    }
}

/// `row` with each named cell set to its value, the pairs taken in order.
/// A name stands for the last column of that name; the primary-key column
/// is left as it is.
pub open spec fn set_cells(row: Seq<Value>, schema: Seq<Seq<char>>, values: Seq<(Seq<char>, Value)>) -> Seq<Value>
    decreases values.len(),
{
    if values.len() == 0 {
        row
    } else {
        let r = set_cells(row, schema, values.drop_last());
        let (name, v) = values.last();
        if name == PRIMARY_KEY_NAME@ {
            r
        } else {
            match last_position(schema, name) {
                Some(p) => r.update(p, v),
                None => r,
            }
        }
    }
}

/// Whether a row's primary key is other than `key`.
pub open spec fn row_key_is_not(key: Uuid) -> spec_fn(Seq<Value>) -> bool {
    |r: Seq<Value>| r[PRIMARY_KEY_IDX as int] != Value::PrimaryKey { key }
}

/// What a table is: its column names in order, and its rows.
#[verifier::ext_equal]
pub struct TableView {
    pub schema: Seq<Seq<char>>,
    pub rows: Seq<Seq<Value>>,
}

impl TableView {
    /// A table made from `columns`, with no rows.
    pub open spec fn from_columns(columns: Seq<Seq<char>>) -> TableView {
        TableView { schema: columns, rows: Seq::empty() }
    }

    /// The column that a name stands for: the last column of that name.
    pub open spec fn lookup(self, name: Seq<char>) -> Option<int> {
        last_position(self.schema, name)
    }

    /// The primary-key column comes first and nowhere else, and every row
    /// holds one value per column, a primary key first.
    pub open spec fn wf(self) -> bool {
        &&& 1 <= self.schema.len() <= usize::MAX
        &&& self.schema[PRIMARY_KEY_IDX as int] == PRIMARY_KEY_NAME@
        &&& forall|i: int| 0 < i < self.schema.len() ==> (#[trigger] self.schema[i]) != PRIMARY_KEY_NAME@
        &&& forall|r: int|
            #![trigger self.rows[r]]
            0 <= r < self.rows.len() ==> {
                &&& self.rows[r].len() == self.schema.len()
                &&& self.rows[r][PRIMARY_KEY_IDX as int] is PrimaryKey
            }
    }

    /// The indices of `columns`, or the error that `column2indices` reports.
    pub open spec fn indices_of(self, columns: Seq<Seq<char>>) -> Result<Seq<usize>, &'static str> {
        if exists|i: int| 0 <= i < columns.len() && (#[trigger] self.lookup(columns[i])) is None {
            Err(ERROR_COLUMN_NOTFOUND)
        } else {
            let found = columns.map_values(|c: Seq<char>| self.lookup(c).unwrap() as usize);
            if found.no_duplicates() {
                Ok(found)
            } else {
                Err(ERROR_COLUMN_DUP)
            }
        }
    }

    /// The table with `row` added, its first cell replaced by the primary key `key`.
    pub open spec fn add_row(self, row: Seq<Value>, key: Uuid) -> TableView {
        TableView {
            rows: self.rows.push(row.update(PRIMARY_KEY_IDX as int, Value::PrimaryKey { key })),
            ..self
        }
    }

    /// How an insert of `values` that answered `r` left the table: as it
    /// was, with the error of `fill_row`; or with one row more, built by
    /// `fill_row` and given some primary key.
    pub open spec fn insert_row_outcome(
        self,
        values: Seq<(usize, Value)>,
        r: Result<(), &'static str>,
        after: TableView,
    ) -> bool {
        match fill_row(self.schema.len(), values) {
            Err(e) => r == Err::<(), &'static str>(e) && after == self,
            Ok(row) => r is Ok && exists|key: Uuid| after == #[trigger] self.add_row(row, key),
        }
    }

    /// The table after an upsert of `values`. With a value for the primary
    /// key it is an update: every row whose key is that value gets the named
    /// cells set, all else unchanged. Without, it is an insert: one row is
    /// added, with the named cells set, nulls elsewhere, and the primary key
    /// `key`.
    pub open spec fn upsert(self, values: Seq<(Seq<char>, Value)>, key: Uuid) -> TableView {
        match upsert_id(values) {
            Some(id) => TableView {
                rows: self.rows.map_values(
                    |r: Seq<Value>|
                        if r[PRIMARY_KEY_IDX as int] == id {
                            set_cells(r, self.schema, values)
                        } else {
                            r
                        },
                ),
                ..self
            },
            None => self.add_row(set_cells(null_row(self.schema.len()), self.schema, values), key),
        }
    }

    /// The table without the rows whose primary key is `key`, the others
    /// kept in order.
    pub open spec fn delete_key(self, key: Uuid) -> TableView {
        TableView {
            rows: self.rows.filter(row_key_is_not(key)),
            ..self
        }
    }

    /// The table after `columns` are appended to the schema and each row is
    /// padded with nulls for them.
    pub open spec fn add_columns(self, columns: Seq<Seq<char>>) -> TableView {
        TableView {
            schema: self.schema + columns,
            rows: self.rows.map_values(|r: Seq<Value>| r + null_row(columns.len())),
        }
    }
}

/// A table: named columns, the first of which is the primary key, and rows
/// that hold one value per column.
#[derive(Debug)]
pub struct Table {
    schema: Vec<String>,
    value2d: Vec<Vec<Value>>,
}

impl View for Table {
    type V = TableView;

    closed spec fn view(&self) -> TableView {
        TableView {
            schema: self.schema@.map_values(|s: String| s@),
            rows: self.value2d@.map_values(|r: Vec<Value>| r@),
        }
    }
}

proof fn lemma_last_position_skip(names: Seq<Seq<char>>, name: Seq<char>, j: int)
    requires
        0 < j <= names.len(),
        names[j - 1] != name,
    ensures
        last_position(names.take(j), name) == last_position(names.take(j - 1), name),
{
    assert(names.take(j).drop_last() =~= names.take(j - 1));
}

pub(crate) proof fn lemma_last_position_bound(names: Seq<Seq<char>>, name: Seq<char>)
    ensures
        last_position(names, name) matches Some(p) ==> 0 <= p < names.len() && names[p] == name
            && forall|i: int| p < i < names.len() ==> names[i] != name,
        last_position(names, name) is None ==> forall|i: int| 0 <= i < names.len() ==> names[i] != name,
    decreases names.len(),
{
    if names.len() > 0 {
        lemma_last_position_bound(names.drop_last(), name);
        if names.last() != name {
            assert forall|i: int| 0 <= i < names.len() - 1 implies names[i] == names.drop_last()[i] by {}
        }
    }
}

proof fn lemma_fill_row_err(width: nat, values: Seq<(usize, Value)>, n: int)
    requires
        0 <= n <= values.len(),
        fill_row(width, values.take(n)) is Err,
    ensures
        fill_row(width, values) == fill_row(width, values.take(n)),
    decreases values.len() - n,
{
    if n < values.len() {
        assert(values.take(n + 1).drop_last() =~= values.take(n));
        lemma_fill_row_err(width, values, n + 1);
    } else {
        assert(values.take(n) =~= values);
    }
}

proof fn lemma_fill_row_len(width: nat, values: Seq<(usize, Value)>)
    ensures
        fill_row(width, values) matches Ok(row) ==> row.len() == width,
    decreases values.len(),
{
    if values.len() > 0 {
        lemma_fill_row_len(width, values.drop_last());
    }
}

/// Each index that `column2indices` gives is that of a column of the name
/// asked for, and there is one index per name.
pub proof fn lemma_indices_name_columns(t: TableView, columns: Seq<Seq<char>>)
    requires
        t.wf(),
        t.indices_of(columns) is Ok,
    ensures
        t.indices_of(columns)->Ok_0.len() == columns.len(),
        forall|k: int|
            0 <= k < columns.len() ==> {
                let p = #[trigger] t.indices_of(columns)->Ok_0[k] as int;
                &&& 0 <= p < t.schema.len()
                &&& t.schema[p] == columns[k]
            },
{
    let v = t.indices_of(columns)->Ok_0;
    assert forall|k: int| 0 <= k < columns.len() implies {
        let p = #[trigger] v[k] as int;
        &&& 0 <= p < t.schema.len()
        &&& t.schema[p] == columns[k]
    } by {
        lemma_last_position_bound(t.schema, columns[k]);
        assert(t.lookup(columns[k]) is Some);
        assert(v == columns.map_values(|c: Seq<char>| t.lookup(c).unwrap() as usize));
        assert(v[k] == t.lookup(columns[k]).unwrap() as usize);
    }
}

/// Asking a table for the indices of `columns` succeeds exactly when every
/// name is that of a column and no name is asked twice.
pub proof fn lemma_indices_of_succeeds(t: TableView, columns: Seq<Seq<char>>)
    requires
        t.wf(),
    ensures
        t.indices_of(columns) is Ok <==> (forall|k: int|
            0 <= k < columns.len() ==> t.schema.contains(#[trigger] columns[k]))
            && columns.no_duplicates(),
{
    assert forall|k: int| 0 <= k < columns.len() implies (#[trigger] t.lookup(columns[k]) is Some
        <==> t.schema.contains(columns[k])) by {
        lemma_last_position_bound(t.schema, columns[k]);
    }
    if forall|k: int| 0 <= k < columns.len() ==> t.schema.contains(#[trigger] columns[k]) {
        assert(!(exists|k: int| 0 <= k < columns.len() && (#[trigger] t.lookup(columns[k])) is None));
        let found = columns.map_values(|c: Seq<char>| t.lookup(c).unwrap() as usize);
        assert forall|a: int, b: int| 0 <= a < columns.len() && 0 <= b < columns.len() && a != b
            implies (found[a] == found[b] <==> columns[a] == columns[b]) by {
            lemma_last_position_bound(t.schema, columns[a]);
            lemma_last_position_bound(t.schema, columns[b]);
            assert(t.lookup(columns[a]) is Some && t.lookup(columns[b]) is Some);
        }
        assert(found.no_duplicates() <==> columns.no_duplicates());
    } else {
        let k = choose|k: int| 0 <= k < columns.len() && !t.schema.contains(#[trigger] columns[k]);
        assert(t.lookup(columns[k]) is None);
    }
}

pub(crate) proof fn lemma_last_position_at(names: Seq<Seq<char>>, name: Seq<char>, p: int)
    requires
        0 <= p < names.len(),
        names[p] == name,
        forall|i: int| p < i < names.len() ==> names[i] != name,
    ensures
        last_position(names, name) == Some(p),
    decreases names.len(),
{
    if p < names.len() - 1 {
        lemma_last_position_at(names.drop_last(), name, p);
    }
}

/// Columns added to a table are found by name at the positions they were
/// added at, and the primary key is still found first.
pub proof fn lemma_added_columns_found(t: TableView, columns: Seq<Seq<char>>)
    requires
        t.wf(),
        columns.no_duplicates(),
        forall|i: int| 0 <= i < columns.len() ==> !t.schema.contains(#[trigger] columns[i]),
    ensures
        forall|i: int|
            0 <= i < columns.len() ==> t.add_columns(columns).lookup(#[trigger] columns[i]) == Some(
                t.schema.len() + i,
            ),
        t.add_columns(columns).lookup(PRIMARY_KEY_NAME@) == Some(PRIMARY_KEY_IDX as int),
{
    let all = t.schema + columns;
    let n = t.schema.len() as int;
    assert forall|i: int| 0 <= i < columns.len() implies t.add_columns(columns).lookup(
        #[trigger] columns[i],
    ) == Some(n + i) by {
        assert forall|j: int| n + i < j < all.len() implies all[j] != columns[i] by {
            assert(all[j] == columns[j - n]);
        }
        lemma_last_position_at(all, columns[i], n + i);
    }
    assert forall|j: int| 0 < j < all.len() implies all[j] != PRIMARY_KEY_NAME@ by {
        if j >= n {
            assert(all[j] == columns[j - n]);
            assert(t.schema.contains(t.schema[0]));
        }
    }
    lemma_last_position_at(all, PRIMARY_KEY_NAME@, 0);
}

/// Adding columns keeps every row and every cell it held: each row gets
/// exactly one null per new column at its end, and the schema gets the new
/// names at its end.
pub proof fn law_add_columns_keeps_rows(t: TableView, columns: Seq<Seq<char>>)
    ensures
        t.add_columns(columns).schema.len() == t.schema.len() + columns.len(),
        forall|j: int| 0 <= j < t.schema.len() ==> #[trigger] t.add_columns(columns).schema[j] == t.schema[j],
        forall|j: int|
            0 <= j < columns.len() ==> t.add_columns(columns).schema[t.schema.len() + j] == #[trigger] columns[j],
        t.add_columns(columns).rows.len() == t.rows.len(),
        forall|i: int|
            0 <= i < t.rows.len() ==> (#[trigger] t.add_columns(columns).rows[i]).len() == t.rows[i].len()
                + columns.len(),
        forall|i: int, j: int|
            0 <= i < t.rows.len() && 0 <= j < t.rows[i].len() ==> #[trigger] t.add_columns(columns).rows[i][j]
                == t.rows[i][j],
        forall|i: int, j: int|
            0 <= i < t.rows.len() && t.rows[i].len() <= j < t.rows[i].len() + columns.len()
                ==> #[trigger] t.add_columns(columns).rows[i][j] == Value::Null,
{
}

/// Setting named cells: a cell that some pair names gets the value of the
/// last pair that names it; every other cell keeps its value. The primary
/// key's column is named by no pair here, and names that are no column
/// name no cell.
pub proof fn law_set_cells(row: Seq<Value>, schema: Seq<Seq<char>>, values: Seq<(Seq<char>, Value)>)
    requires
        row.len() == schema.len(),
    ensures
        set_cells(row, schema, values).len() == row.len(),
        forall|i: int, p: int|
            #![trigger values[i], set_cells(row, schema, values)[p]]
            0 <= i < values.len() && values[i].0 != PRIMARY_KEY_NAME@ && last_position(schema, values[i].0)
                == Some(p) && (forall|j: int|
                i < j < values.len() && values[j].0 != PRIMARY_KEY_NAME@ ==> last_position(
                    schema,
                    #[trigger] values[j].0,
                ) != Some(p)) ==> set_cells(row, schema, values)[p] == values[i].1,
        forall|p: int|
            0 <= p < row.len() && (forall|i: int|
                0 <= i < values.len() && values[i].0 != PRIMARY_KEY_NAME@ ==> last_position(
                    schema,
                    #[trigger] values[i].0,
                ) != Some(p)) ==> #[trigger] set_cells(row, schema, values)[p] == row[p],
    decreases values.len(),
{
    if values.len() > 0 {
        let init = values.drop_last();
        let r = set_cells(row, schema, init);
        law_set_cells(row, schema, init);
        let (name, v) = values.last();
        lemma_last_position_bound(schema, name);
        let whole = set_cells(row, schema, values);
        assert forall|i: int, p: int|
            #![trigger values[i], set_cells(row, schema, values)[p]]
            0 <= i < values.len() && values[i].0 != PRIMARY_KEY_NAME@ && last_position(schema, values[i].0)
                == Some(p) && (forall|j: int|
                i < j < values.len() && values[j].0 != PRIMARY_KEY_NAME@ ==> last_position(
                    schema,
                    #[trigger] values[j].0,
                ) != Some(p)) implies whole[p] == values[i].1 by {
            lemma_last_position_bound(schema, values[i].0);
            if i < values.len() - 1 {
                assert(values[values.len() - 1] == values.last());
                assert(init[i] == values[i]);
                assert forall|j: int| i < j < init.len() && init[j].0 != PRIMARY_KEY_NAME@ implies last_position(
                    schema,
                    #[trigger] init[j].0,
                ) != Some(p) by {
                    assert(init[j] == values[j]);
                }
                assert(r[p] == init[i].1);
            }
        }
        assert forall|p: int|
            0 <= p < row.len() && (forall|i: int|
                0 <= i < values.len() && values[i].0 != PRIMARY_KEY_NAME@ ==> last_position(
                    schema,
                    #[trigger] values[i].0,
                ) != Some(p)) implies #[trigger] whole[p] == row[p] by {
            assert(values[values.len() - 1] == values.last());
            assert forall|i: int| 0 <= i < init.len() && init[i].0 != PRIMARY_KEY_NAME@ implies last_position(
                schema,
                #[trigger] init[i].0,
            ) != Some(p) by {
                assert(init[i] == values[i]);
            }
            assert(r[p] == row[p]);
        }
    }
}

proof fn lemma_filter_positions(s: Seq<Seq<Value>>, pred: spec_fn(Seq<Value>) -> bool) -> (f: Seq<int>)
    ensures
        f.len() == s.filter(pred).len(),
        forall|j: int| 0 <= j < f.len() ==> 0 <= #[trigger] f[j] < s.len() && s.filter(pred)[j] == s[f[j]],
        forall|a: int, b: int| 0 <= a < b < f.len() ==> f[a] < f[b],
        forall|i: int| 0 <= i < s.len() && pred(#[trigger] s[i]) ==> exists|j: int| 0 <= j < f.len() && f[j] == i,
    decreases s.len(),
{
    reveal_with_fuel(Seq::filter, 1);
    if s.len() == 0 {
        Seq::empty()
    } else {
        let init = s.drop_last();
        let g = lemma_filter_positions(init, pred);
        if pred(s.last()) {
            let f = g.push(s.len() - 1);
            assert forall|j: int| 0 <= j < f.len() implies 0 <= #[trigger] f[j] < s.len() && s.filter(pred)[j] == s[f[j]] by {
                if j < g.len() {
                    assert(f[j] == g[j]);
                    assert(init[g[j]] == s[g[j]]);
                }
            }
            assert forall|i: int| 0 <= i < s.len() && pred(#[trigger] s[i]) implies exists|j: int| 0 <= j < f.len() && f[j] == i by {
                if i < s.len() - 1 {
                    assert(init[i] == s[i]);
                    let j = choose|j: int| 0 <= j < g.len() && g[j] == i;
                    assert(f[j] == i);
                } else {
                    assert(f[g.len() as int] == i);
                }
            }
            f
        } else {
            assert forall|j: int| 0 <= j < g.len() implies 0 <= #[trigger] g[j] < s.len() && s.filter(pred)[j] == s[g[j]] by {
                assert(init[g[j]] == s[g[j]]);
            }
            assert forall|i: int| 0 <= i < s.len() && pred(#[trigger] s[i]) implies exists|j: int| 0 <= j < g.len() && g[j] == i by {
                assert(i < s.len() - 1);
                assert(init[i] == s[i]);
            }
            g
        }
    }
}

/// `kept` is the rows of `rows` whose primary key is not `key`, in their
/// order: `f` gives for each kept row the position it had, rising, and
/// every row of another key has a position in `f`.
pub open spec fn kept_in_order(f: Seq<int>, kept: Seq<Seq<Value>>, rows: Seq<Seq<Value>>, key: Uuid) -> bool {
    &&& f.len() == kept.len()
    &&& forall|j: int| 0 <= j < f.len() ==> 0 <= #[trigger] f[j] < rows.len() && kept[j] == rows[f[j]]
    &&& forall|a: int, b: int| 0 <= a < b < f.len() ==> f[a] < f[b]
    &&& forall|i: int|
        0 <= i < rows.len() && (#[trigger] rows[i])[PRIMARY_KEY_IDX as int] != (Value::PrimaryKey { key })
            ==> exists|j: int| 0 <= j < f.len() && f[j] == i
}

/// A delete of `key` leaves no row with that primary key, and keeps every
/// other row, in the order they had, and nothing else.
pub proof fn law_delete_key(t: TableView, key: Uuid)
    ensures
        t.delete_key(key).schema == t.schema,
        forall|r: int|
            0 <= r < t.delete_key(key).rows.len() ==> (#[trigger] t.delete_key(key).rows[r])[PRIMARY_KEY_IDX as int]
                != (Value::PrimaryKey { key }),
        exists|f: Seq<int>| #[trigger] kept_in_order(f, t.delete_key(key).rows, t.rows, key),
{
    let pred = row_key_is_not(key);
    let u = t.delete_key(key);
    assert forall|r: int| 0 <= r < u.rows.len() implies (#[trigger] u.rows[r])[PRIMARY_KEY_IDX as int]
        != Value::PrimaryKey { key } by {
        t.rows.lemma_filter_pred(pred, r);
    }
    let f = lemma_filter_positions(t.rows, pred);
    assert forall|i: int|
        0 <= i < t.rows.len() && (#[trigger] t.rows[i])[PRIMARY_KEY_IDX as int] != Value::PrimaryKey { key }
        implies exists|j: int| 0 <= j < f.len() && f[j] == i by {
        assert(pred(t.rows[i]));
    }
    assert(kept_in_order(f, u.rows, t.rows, key));
}

/// The value paired with `id` in `values`, the last one if there are several.
fn find_id_value(values: &[(String, Value)]) -> (r: Option<&Value>)
    ensures
        match r {
            Some(v) => upsert_id(cells_view(values@)) == Some(*v),
            None => upsert_id(cells_view(values@)) is None,
        },
{
    let ghost cells = cells_view(values@);
    let mut j: usize = values.len();
    assert(cells.take(j as int) =~= cells);
    while j > 0
        invariant
            j <= values.len(),
            cells == cells_view(values@),
            upsert_id(cells) == upsert_id(cells.take(j as int)),
        decreases j,
    {
        assert(cells.take(j as int).last() == cells[j - 1]);
        if str_eq(values[j - 1].0.as_str(), PRIMARY_KEY_NAME) {
            return Some(&values[j - 1].1);
        }
        assert(cells.take(j as int).drop_last() =~= cells.take(j - 1));
        j = j - 1;
    }
    None
}

/// The position of the last column of `schema` named `name`.
fn column_position(schema: &Vec<String>, name: &str) -> (r: Option<usize>)
    ensures
        match r {
            Some(p) => last_position(schema@.map_values(|s: String| s@), name@) == Some(p as int),
            None => last_position(schema@.map_values(|s: String| s@), name@) is None,
        },
{
    let ghost names = schema@.map_values(|s: String| s@);
    let mut j: usize = schema.len();
    assert(names.take(j as int) =~= names);
    while j > 0
        invariant
            j <= schema.len(),
            names == schema@.map_values(|s: String| s@),
            last_position(names, name@) == last_position(names.take(j as int), name@),
        decreases j,
    {
        if str_eq(schema[j - 1].as_str(), name) {
            assert(names.take(j as int).last() == name@);
            return Some(j - 1);
        }
        proof {
            lemma_last_position_skip(names, name@, j as int);
        }
        j = j - 1;
    }
    None
}

/// Sets the cells of `row` that `values` names.
fn set_row_cells(schema: &Vec<String>, row: &mut Vec<Value>, values: &[(String, Value)])
    requires
        old(row)@.len() == schema@.len(),
    ensures
        final(row)@ == set_cells(old(row)@, schema@.map_values(|s: String| s@), cells_view(values@)),
{
    let ghost names = schema@.map_values(|s: String| s@);
    let ghost cells = cells_view(values@);
    let mut i: usize = 0;
    assert(cells.take(0) =~= Seq::<(Seq<char>, Value)>::empty());
    while i < values.len()
        invariant
            i <= values.len(),
            names == schema@.map_values(|s: String| s@),
            cells == cells_view(values@),
            row@.len() == names.len(),
            row@ == set_cells(old(row)@, names, cells.take(i as int)),
        decreases values.len() - i,
    {
        proof {
            assert(cells.take(i + 1).drop_last() =~= cells.take(i as int));
            assert(cells.take(i + 1).last() == cells[i as int]);
        }
        let name = values[i].0.as_str();
        if !str_eq(name, PRIMARY_KEY_NAME) {
            match column_position(schema, name) {
                Some(p) => {
                    proof {
                        lemma_last_position_bound(names, name@);
                    }
                    row.set(p, values[i].1.clone());
                },
                None => {},
            }
        }
        i = i + 1;
    }
    assert(cells.take(values.len() as int) =~= cells);
}

proof fn lemma_set_cells_keeps(row: Seq<Value>, schema: Seq<Seq<char>>, values: Seq<(Seq<char>, Value)>)
    requires
        row.len() == schema.len(),
        schema.len() >= 1,
        schema[PRIMARY_KEY_IDX as int] == PRIMARY_KEY_NAME@,
    ensures
        set_cells(row, schema, values).len() == row.len(),
        set_cells(row, schema, values)[PRIMARY_KEY_IDX as int] == row[PRIMARY_KEY_IDX as int],
    decreases values.len(),
{
    if values.len() > 0 {
        lemma_set_cells_keeps(row, schema, values.drop_last());
        lemma_last_position_bound(schema, values.last().0);
    }
}

proof fn lemma_upsert_wf(t: TableView, values: Seq<(Seq<char>, Value)>, key: Uuid)
    requires
        t.wf(),
    ensures
        t.upsert(values, key).wf(),
{
    let u = t.upsert(values, key);
    lemma_set_cells_keeps(null_row(t.schema.len()), t.schema, values);
    assert forall|r: int| 0 <= r < u.rows.len() implies {
        &&& (#[trigger] u.rows[r]).len() == u.schema.len()
        &&& u.rows[r][PRIMARY_KEY_IDX as int] is PrimaryKey
    } by {
        if r < t.rows.len() {
            lemma_set_cells_keeps(t.rows[r], t.schema, values);
        }
    }
}

proof fn lemma_delete_wf(t: TableView, key: Uuid)
    requires
        t.wf(),
    ensures
        t.delete_key(key).wf(),
{
    let pred = row_key_is_not(key);
    let u = t.delete_key(key);
    assert forall|r: int| 0 <= r < u.rows.len() implies {
        &&& (#[trigger] u.rows[r]).len() == u.schema.len()
        &&& u.rows[r][PRIMARY_KEY_IDX as int] is PrimaryKey
    } by {
        assert(u.rows.contains(u.rows[r]));
        t.rows.lemma_filter_contains_rev(pred, u.rows[r]);
        let k = choose|k: int| 0 <= k < t.rows.len() && t.rows[k] == u.rows[r];
        assert(t.rows[k].len() == t.schema.len());
    }
}

impl Table {
    pub open spec fn wf(&self) -> bool {
        self@.wf()
    }

    /// A table whose columns are `columns`, with no rows.
    /// The primary-key column must come first and only once.
    pub fn new(columns: &[String]) -> (t: Table)
        requires
            last_position(columns@.map_values(|s: String| s@), PRIMARY_KEY_NAME@) == Some(
                PRIMARY_KEY_IDX as int,
            ),
        ensures
            t.wf(),
            t@ == TableView::from_columns(columns@.map_values(|s: String| s@)),
    {
        let mut schema: Vec<String> = Vec::new();
        let mut i: usize = 0;
        while i < columns.len()
            invariant
                i <= columns.len(),
                schema@.len() == i,
                forall|k: int| 0 <= k < i ==> (#[trigger] schema@[k])@ == columns@[k]@,
            decreases columns.len() - i,
        {
            schema.push(columns[i].clone());
            i = i + 1;
        }
        let ghost names = columns@.map_values(|s: String| s@);
        assert(schema@.map_values(|s: String| s@) =~= names);
        proof {
            lemma_last_position_bound(names, PRIMARY_KEY_NAME@);
        }
        let t = Table { schema, value2d: Vec::new() };
        assert(t@.rows =~= Seq::<Seq<Value>>::empty());
        t
    }

    /// The column that `name` stands for.
    fn position(&self, name: &str) -> (r: Option<usize>)
        ensures
            match r {
                Some(p) => self@.lookup(name@) == Some(p as int),
                None => self@.lookup(name@) is None,
            },
    {
        column_position(&self.schema, name)
    }

    /// Gets the indices of `columns`: each one's position in the table.
    /// A name that is not a column gives `ERROR_COLUMN_NOTFOUND`; two
    /// names for the same column give `ERROR_COLUMN_DUP`. `"id"` is allowed.
    pub fn column2indices(&self, columns: &[&str]) -> (r: Result<Vec<usize>, &'static str>)
        requires
            self.wf(),
        ensures
            r matches Ok(v) ==> self@.indices_of(columns@.map_values(|c: &str| c@)) == Ok::<
                Seq<usize>,
                &'static str,
            >(v@),
            r matches Err(e) ==> self@.indices_of(columns@.map_values(|c: &str| c@)) == Err::<
                Seq<usize>,
                &'static str,
            >(e),
    {
        let ghost names = columns@.map_values(|c: &str| c@);
        let mut res: Vec<usize> = Vec::new();
        let mut i: usize = 0;
        while i < columns.len()
            invariant
                i <= columns.len(),
                self.wf(),
                names == columns@.map_values(|c: &str| c@),
                res@.len() == i,
                forall|k: int| 0 <= k < i ==> (#[trigger] self@.lookup(names[k])) == Some(res@[k] as int),
            decreases columns.len() - i,
        {
            match self.position(columns[i]) {
                None => {
                    assert(self@.lookup(names[i as int]) is None);
                    return Err(ERROR_COLUMN_NOTFOUND);
                },
                Some(p) => {
                    res.push(p);
                },
            }
            i = i + 1;
        }
        let ghost found = names.map_values(|c: Seq<char>| self@.lookup(c).unwrap() as usize);
        assert(found =~= res@);
        assert(!(exists|k: int| 0 <= k < names.len() && (#[trigger] self@.lookup(names[k])) is None));
        // look for two names that reach the same column
        let mut a: usize = 0;
        while a < res.len()
            invariant
                a <= res.len(),
                found == res@,
                names == columns@.map_values(|c: &str| c@),
                found == names.map_values(|c: Seq<char>| self@.lookup(c).unwrap() as usize),
                !(exists|k: int| 0 <= k < names.len() && (#[trigger] self@.lookup(names[k])) is None),
                forall|x: int, y: int| 0 <= x < a && x < y < res@.len() ==> res@[x] != res@[y],
            decreases res.len() - a,
        {
            let mut b: usize = a + 1;
            while b < res.len()
                invariant
                    a < b <= res.len(),
                    found == res@,
                    names == columns@.map_values(|c: &str| c@),
                    found == names.map_values(|c: Seq<char>| self@.lookup(c).unwrap() as usize),
                    !(exists|k: int| 0 <= k < names.len() && (#[trigger] self@.lookup(names[k])) is None),
                    forall|x: int, y: int| 0 <= x < a && x < y < res@.len() ==> res@[x] != res@[y],
                    forall|y: int| a < y < b ==> res@[a as int] != res@[y],
                decreases res.len() - b,
            {
                if res[a] == res[b] {
                    assert(!found.no_duplicates());
                    return Err(ERROR_COLUMN_DUP);
                }
                b = b + 1;
            }
            a = a + 1;
        }
        assert(found.no_duplicates());
        Ok(res)
    }

    /// Adds a row holding `values`, each a column index and the value to
    /// put there, with nulls elsewhere and a fresh primary key in the
    /// first column. `primary_key` must be a primary key; the row gets a
    /// key of its own all the same. On an error the table is unchanged.
    pub fn insert(&mut self, primary_key: Value, values: &[(usize, Value)]) -> (r: Result<(), &'static str>)
        requires
            old(self).wf(),
        ensures
            final(self).wf(),
            !(primary_key is PrimaryKey) ==> r == Err::<(), &'static str>(INTERNAL_INVALID_PRIMARY_KEY)
                && final(self)@ == old(self)@,
            primary_key is PrimaryKey ==> old(self)@.insert_row_outcome(values@, r, final(self)@),
    {
        if !primary_key.is_primary_key() {
            return Err(INTERNAL_INVALID_PRIMARY_KEY);
        }
        let width = self.schema.len();
        let mut row: Vec<Value> = Vec::new();
        let mut k: usize = 0;
        while k < width
            invariant
                k <= width,
                row@ =~= null_row(k as nat),
            decreases width - k,
        {
            row.push(Value::Null);
            k = k + 1;
        }
        let mut i: usize = 0;
        while i < values.len()
            invariant
                i <= values.len(),
                width == self.schema.len() == old(self)@.schema.len(),
                *self == *old(self),
                old(self).wf(),
                primary_key is PrimaryKey,
                fill_row(width as nat, values@.take(i as int)) == Ok::<Seq<Value>, &'static str>(row@),
            decreases values.len() - i,
        {
            proof {
                lemma_fill_row_len(width as nat, values@.take(i as int));
                assert(values@.take(i + 1).drop_last() =~= values@.take(i as int));
                assert(values@.take(i + 1).last() == values@[i as int]);
            }
            let colidx = values[i].0;
            if colidx == PRIMARY_KEY_IDX {
                proof { lemma_fill_row_err(width as nat, values@, i + 1); }
                return Err(ERROR_COLUMN_ID);
            }
            if colidx >= row.len() {
                proof { lemma_fill_row_err(width as nat, values@, i + 1); }
                return Err(ERROR_COLUMN_NOTFOUND);
            }
            if !row[colidx].is_null() {
                proof { lemma_fill_row_err(width as nat, values@, i + 1); }
                return Err(ERROR_INSERT_DUPCOLUMN);
            }
            row.set(colidx, values[i].1.clone());
            i = i + 1;
        }
        assert(values@.take(values.len() as int) =~= values@);
        let ghost filled = row@;
        proof { lemma_fill_row_len(width as nat, values@); }
        let key = new_primary_key();
        row.set(PRIMARY_KEY_IDX, Value::PrimaryKey { key });
        assert(row@ == filled.update(PRIMARY_KEY_IDX as int, Value::PrimaryKey { key }));
        self.value2d.push(row);
        assert(self@.rows =~= old(self)@.add_row(filled, key).rows);
        assert(self@ =~= old(self)@.add_row(filled, key));
        Ok(())
    }

    pub fn rows(&self) -> (r: Result<&Vec<Vec<Value>>, &'static str>)
        ensures
            r matches Ok(v) && v@.map_values(|row: Vec<Value>| row@) == self@.rows,
    {
        Ok(&self.value2d)
    }
    /// Adds `columns` at the end of the schema and a null for each of them
    /// to every row; they are found by name as the first columns are. The
    /// new columns must be distinct, and none may be a column already.
    pub fn add_columns(&mut self, columns: &[String])
        requires
            old(self).wf(),
            forall|i: int|
                0 <= i < columns.len() ==> !old(self)@.schema.contains(#[trigger] columns@[i]@),
            columns@.map_values(|s: String| s@).no_duplicates(),
        ensures
            final(self).wf(),
            final(self)@ == old(self)@.add_columns(columns@.map_values(|s: String| s@)),
    {
        let ghost added = columns@.map_values(|s: String| s@);
        let ghost target = old(self)@.add_columns(added);
        let sz = columns.len();
        let mut i: usize = 0;
        while i < sz
            invariant
                i <= sz == columns.len(),
                self.schema@.len() == old(self).schema@.len() + i,
                forall|k: int| 0 <= k < old(self).schema@.len() ==> (#[trigger] self.schema@[k]) == old(self).schema@[k],
                forall|k: int| 0 <= k < i ==> (#[trigger] self.schema@[old(self).schema@.len() + k])@ == columns@[k]@,
                self.value2d == old(self).value2d,
                added == columns@.map_values(|s: String| s@),
                target == old(self)@.add_columns(added),
            decreases sz - i,
        {
            self.schema.push(columns[i].clone());
            i = i + 1;
        }
        assert forall|k: int| 0 <= k < target.schema.len() implies self@.schema[k] == target.schema[k] by {
            let n = old(self).schema@.len() as int;
            if k < n {
                assert(self.schema@[k] == old(self).schema@[k]);
            } else {
                assert(self.schema@[n + (k - n)]@ == columns@[k - n]@);
            }
        }
        assert(self@.schema =~= target.schema);
        let mut r: usize = 0;
        while r < self.value2d.len()
            invariant
                r <= self.value2d.len() == old(self).value2d.len(),
                sz == columns.len() == added.len(),
                old(self).wf(),
                target == old(self)@.add_columns(added),
                self@.schema == target.schema,
                self.schema@.len() == target.schema.len(),
                forall|k: int| 0 <= k < r ==> (#[trigger] self.value2d@[k])@ == target.rows[k],
                forall|k: int| r <= k < self.value2d.len() ==> (#[trigger] self.value2d@[k]) == old(self).value2d@[k],
            decreases old(self).value2d.len() - r,
        {
            let mut n: usize = 0;
            while n < sz
                invariant
                    n <= sz,
                    r < self.value2d.len() == old(self).value2d.len(),
                    self.value2d@[r as int]@ == old(self).value2d@[r as int]@ + null_row(n as nat),
                    forall|k: int| r < k < self.value2d.len() ==> (#[trigger] self.value2d@[k]) == old(self).value2d@[k],
                    forall|k: int| 0 <= k < r ==> (#[trigger] self.value2d@[k])@ == target.rows[k],
                    sz == added.len(),
                    target == old(self)@.add_columns(added),
                    self@.schema == target.schema,
                    self.schema@.len() == target.schema.len(),
                decreases sz - n,
            {
                self.value2d[r].push(Value::Null);
                assert(old(self).value2d@[r as int]@ + null_row((n + 1) as nat) =~= (old(self).value2d@[r as int]@ + null_row(n as nat)).push(Value::Null));
                n = n + 1;
            }
            assert(self.value2d@[r as int]@ =~= target.rows[r as int]);
            r = r + 1;
        }
        assert(self@.rows =~= target.rows);
        assert(self@.schema.len() == self.schema.len());
    }

    /// Whether some column of the table is named `column`.
    pub fn has_column(&self, column: &str) -> (r: bool)
        ensures
            r == self@.schema.contains(column@),
    {
        let mut i: usize = 0;
        while i < self.schema.len()
            invariant
                i <= self.schema.len(),
                forall|k: int| 0 <= k < i ==> (#[trigger] self.schema@[k])@ != column@,
            decreases self.schema.len() - i,
        {
            if str_eq(self.schema[i].as_str(), column) {
                assert(self@.schema[i as int] == column@);
                return true;
            }
            i = i + 1;
        }
        assert(!self@.schema.contains(column@));
        false
    }

    /// Updates or inserts a row from (column name, value) pairs. With a
    /// value for `id` the rows with that primary key get the named cells
    /// set; without, a row is added with a fresh primary key, the named
    /// cells set and nulls elsewhere. Names that are no column are passed
    /// over.
    pub fn upsert(&mut self, values: &[(String, Value)])
        requires
            old(self).wf(),
        ensures
            final(self).wf(),
            exists|key: Uuid| final(self)@ == #[trigger] old(self)@.upsert(cells_view(values@), key),
    {
        let ghost cells = cells_view(values@);
        match find_id_value(values) {
            Some(id) => {
                let ghost target = old(self)@.upsert(cells, arbitrary());
                let mut r: usize = 0;
                while r < self.value2d.len()
                    invariant
                        r <= self.value2d.len() == old(self).value2d.len(),
                        old(self).wf(),
                        cells == cells_view(values@),
                        upsert_id(cells) == Some(*id),
                        target == old(self)@.upsert(cells, arbitrary()),
                        self.schema == old(self).schema,
                        forall|k: int| 0 <= k < r ==> (#[trigger] self.value2d@[k])@ == target.rows[k],
                        forall|k: int| r <= k < self.value2d.len() ==> (#[trigger] self.value2d@[k]) == old(self).value2d@[k],
                    decreases old(self).value2d.len() - r,
                {
                    assert(old(self)@.rows[r as int] == old(self).value2d@[r as int]@);
                    if self.value2d[r][PRIMARY_KEY_IDX].same_key(id) {
                        set_row_cells(&self.schema, &mut self.value2d[r], values);
                    }
                    r = r + 1;
                }
                assert(self@.rows =~= target.rows);
                proof {
                    lemma_upsert_wf(old(self)@, cells, arbitrary());
                }
                assert(self@ =~= target);
            },
            None => {
                let width = self.schema.len();
                let mut row: Vec<Value> = Vec::new();
                let mut k: usize = 0;
                while k < width
                    invariant
                        k <= width,
                        row@ =~= null_row(k as nat),
                    decreases width - k,
                {
                    row.push(Value::Null);
                    k = k + 1;
                }
                set_row_cells(&self.schema, &mut row, values);
                let ghost filled = row@;
                proof {
                    lemma_set_cells_keeps(null_row(width as nat), old(self)@.schema, cells);
                }
                let key = new_primary_key();
                row.set(PRIMARY_KEY_IDX, Value::PrimaryKey { key });
                self.value2d.push(row);
                proof {
                    lemma_upsert_wf(old(self)@, cells, key);
                }
                assert(self@.rows =~= old(self)@.upsert(cells, key).rows);
                assert(self@ =~= old(self)@.upsert(cells, key));
            },
        }
    }

    /// Deletes the rows whose primary key is `key`, keeping the others in
    /// order.
    pub fn delete(&mut self, key: &Uuid)
        requires
            old(self).wf(),
        ensures
            final(self).wf(),
            final(self)@ == old(self)@.delete_key(*key),
    {
        let ghost pred = row_key_is_not(*key);
        let ghost orig = old(self)@.rows;
        let mut rest: Vec<Vec<Value>> = Vec::new();
        std::mem::swap(&mut rest, &mut self.value2d);
        assert(orig.take(0) =~= Seq::<Seq<Value>>::empty());
        proof {
            reveal_with_fuel(Seq::filter, 1);
        }
        assert(orig.skip(0) =~= orig);
        while rest.len() > 0
            invariant
                old(self).wf(),
                orig == old(self)@.rows,
                pred == row_key_is_not(*key),
                rest@.len() <= orig.len(),
                rest@.map_values(|r: Vec<Value>| r@) == orig.skip(orig.len() - rest@.len()),
                self@.rows == orig.take(orig.len() - rest@.len()).filter(pred),
                self.schema == old(self).schema,
            decreases rest.len(),
        {
            let ghost n = orig.len() - rest@.len();
            let ghost before = self.value2d@;
            assert(rest@.map_values(|r: Vec<Value>| r@)[0] == orig[n]);
            assert(rest@[0]@ == orig[n]);
            let ghost rest_before = rest@;
            let r = rest.remove(0);
            assert(rest@ =~= rest_before.subrange(1, rest_before.len() as int));
            assert forall|k: int| 0 <= k < rest@.len() implies (#[trigger] rest@[k])@ == orig[n + 1 + k] by {
                assert(rest@[k] == rest_before[k + 1]);
                assert(rest_before.map_values(|r: Vec<Value>| r@)[k + 1] == orig.skip(n)[k + 1]);
            }
            assert(r@ == orig[n]);
            assert(rest@.map_values(|r: Vec<Value>| r@) =~= orig.skip(n + 1));
            proof {
                assert(orig.take(n + 1).drop_last() =~= orig.take(n));
                assert(orig.take(n + 1).last() == orig[n]);
                reveal_with_fuel(Seq::filter, 1);
            }
            if !r[PRIMARY_KEY_IDX].is_key(key) {
                self.value2d.push(r);
                assert(self@.rows =~= orig.take(n).filter(pred).push(orig[n]));
            }
        }
        assert(orig.take(orig.len() as int) =~= orig);
        proof {
            lemma_delete_wf(old(self)@, *key);
        }
        assert(self@ =~= old(self)@.delete_key(*key));
    }
}

} // verus!
