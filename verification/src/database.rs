use crate::consts::{
    ERROR_COLUMN_DUP, ERROR_COLUMN_ID, ERROR_TABLE_DUP, ERROR_TABLE_NOTFOUND, PRIMARY_KEY_IDX,
    PRIMARY_KEY_NAME,
};
use crate::storage::{replay, replayable, try_read_db, Tables};
use crate::table::{last_position, Table, TableView};
use crate::transaction::Transaction;
use crate::value::{str_eq, Value};
use uuid::Uuid;
use vstd::prelude::*;

verus! {

/// The error that the column names `columns` of a new table meet first,
/// taking them in order: a name that is the primary key's, or a name given
/// before.
pub open spec fn column_error(columns: Seq<Seq<char>>) -> Option<&'static str>
    decreases columns.len(),
{
    if columns.len() == 0 {
        None
    } else {
        match column_error(columns.drop_last()) {
            Some(e) => Some(e),
            None => if columns.last() == PRIMARY_KEY_NAME@ {
                Some(ERROR_COLUMN_ID)
            } else if columns.drop_last().contains(columns.last()) {
                Some(ERROR_COLUMN_DUP)
            } else {
                None
            },
        }
    }
}

/// The tables after a table `name` with columns `columns` is declared, or
/// the error that refuses it. The new table has the primary-key column
/// first, then `columns`.
pub open spec fn create_table(
    m: Map<Seq<char>, TableView>,
    name: Seq<char>,
    columns: Seq<Seq<char>>,
) -> Result<Map<Seq<char>, TableView>, &'static str> {
    if m.contains_key(name) {
        Err(ERROR_TABLE_DUP)
    } else {
        match column_error(columns) {
            Some(e) => Err(e),
            None => Ok(
                m.insert(name, TableView::from_columns(seq![PRIMARY_KEY_NAME@] + columns)),
            ),
        }
    }
}

proof fn lemma_column_error_prefix(columns: Seq<Seq<char>>, n: int)
    requires
        0 <= n <= columns.len(),
        column_error(columns.take(n)) is Some,
    ensures
        column_error(columns) == column_error(columns.take(n)),
    decreases columns.len() - n,
{
    if n < columns.len() {
        assert(columns.take(n + 1).drop_last() =~= columns.take(n));
        lemma_column_error_prefix(columns, n + 1);
    } else {
        assert(columns.take(n) =~= columns);
    }
}

/// Columns that pass the check are distinct and none is the primary key's.
pub proof fn lemma_column_error_none(columns: Seq<Seq<char>>)
    requires
        column_error(columns) is None,
    ensures
        !columns.contains(PRIMARY_KEY_NAME@),
        columns.no_duplicates(),
    decreases columns.len(),
{
    if columns.len() > 0 {
        let init = columns.drop_last();
        lemma_column_error_none(init);
        assert(columns =~= init.push(columns.last()));
        assert forall|i: int, j: int| 0 <= i < j < columns.len() implies columns[i] != columns[j] by {
            if j == columns.len() - 1 {
                assert(init.contains(columns[i]) || i >= init.len());
            } else {
                assert(columns[i] == init[i] && columns[j] == init[j]);
            }
        }
        if columns.contains(PRIMARY_KEY_NAME@) {
            let k = choose|k: int| 0 <= k < columns.len() && columns[k] == PRIMARY_KEY_NAME@;
            if k < init.len() {
                assert(init[k] == PRIMARY_KEY_NAME@);
            }
        }
    }
}

proof fn lemma_last_position_absent(names: Seq<Seq<char>>, name: Seq<char>)
    requires
        !names.contains(name),
    ensures
        last_position(names, name) is None,
    decreases names.len(),
{
    if names.len() > 0 {
        assert(names.drop_last().contains(name) ==> names.contains(name));
        lemma_last_position_absent(names.drop_last(), name);
    }
}

proof fn lemma_last_position_suffix(front: Seq<Seq<char>>, back: Seq<Seq<char>>, name: Seq<char>)
    requires
        !back.contains(name),
    ensures
        last_position(front + back, name) == last_position(front, name),
    decreases back.len(),
{
    if back.len() > 0 {
        assert((front + back).drop_last() =~= front + back.drop_last());
        assert(back.drop_last().contains(name) ==> back.contains(name));
        lemma_last_position_suffix(front, back.drop_last(), name);
    } else {
        assert(front + back =~= front);
    }
}

proof fn lemma_last_position_distinct(names: Seq<Seq<char>>, i: int)
    requires
        names.no_duplicates(),
        0 <= i < names.len(),
    ensures
        last_position(names, names[i]) == Some(i),
{
    let front = names.take(i + 1);
    let back = names.skip(i + 1);
    assert(names =~= front + back);
    if back.contains(names[i]) {
        let k = choose|k: int| 0 <= k < back.len() && back[k] == names[i];
        assert(names[i + 1 + k] == names[i]);
    }
    lemma_last_position_suffix(front, back, names[i]);
}

proof fn lemma_column_error_absent(columns: Seq<Seq<char>>)
    requires
        !columns.contains(PRIMARY_KEY_NAME@),
        columns.no_duplicates(),
    ensures
        column_error(columns) is None,
    decreases columns.len(),
{
    if columns.len() > 0 {
        let init = columns.drop_last();
        assert(!init.contains(PRIMARY_KEY_NAME@)) by {
            if init.contains(PRIMARY_KEY_NAME@) {
                let k = choose|k: int| 0 <= k < init.len() && init[k] == PRIMARY_KEY_NAME@;
                assert(columns[k] == PRIMARY_KEY_NAME@);
            }
        }
        assert(init.no_duplicates()) by {
            assert forall|a: int, b: int| 0 <= a < init.len() && 0 <= b < init.len() && a != b implies init[a] != init[b] by {
                assert(init[a] == columns[a] && init[b] == columns[b]);
            }
        }
        lemma_column_error_absent(init);
        assert(columns.last() == columns[columns.len() - 1]);
        if init.contains(columns.last()) {
            let k = choose|k: int| 0 <= k < init.len() && init[k] == columns.last();
            assert(columns[k] == columns[columns.len() - 1]);
        }
    }
}

/// Declaring a table succeeds exactly when its name is new and its columns
/// are distinct and none is the primary key's. It then adds that table,
/// with the primary key's column first, then the given columns, and no rows;
/// no other table changes. A taken name is refused as such.
pub proof fn law_create_table(m: Map<Seq<char>, TableView>, name: Seq<char>, columns: Seq<Seq<char>>)
    ensures
        create_table(m, name, columns) is Ok <==> (!m.contains_key(name) && !columns.contains(
            PRIMARY_KEY_NAME@,
        ) && columns.no_duplicates()),
        m.contains_key(name) ==> create_table(m, name, columns) == Err::<
            Map<Seq<char>, TableView>,
            &'static str,
        >(ERROR_TABLE_DUP),
        create_table(m, name, columns) is Ok ==> create_table(m, name, columns)->Ok_0 == m.insert(
            name,
            (TableView { schema: seq![PRIMARY_KEY_NAME@] + columns, rows: Seq::empty() }),
        ),
{
    if column_error(columns) is None {
        lemma_column_error_none(columns);
    }
    if !columns.contains(PRIMARY_KEY_NAME@) && columns.no_duplicates() {
        lemma_column_error_absent(columns);
    }
}

/// A table made by `Database::table` from columns that pass the check
/// finds every one of its columns by name: the primary key at the first
/// position, the declared columns after it in the order given.
pub proof fn lemma_created_table_lookup(columns: Seq<Seq<char>>)
    requires
        column_error(columns) is None,
        columns.len() < usize::MAX,
    ensures
        TableView::from_columns(seq![PRIMARY_KEY_NAME@] + columns).wf(),
        TableView::from_columns(seq![PRIMARY_KEY_NAME@] + columns).lookup(PRIMARY_KEY_NAME@) == Some(
            PRIMARY_KEY_IDX as int,
        ),
        forall|i: int|
            0 <= i < columns.len() ==> TableView::from_columns(seq![PRIMARY_KEY_NAME@] + columns).lookup(
                #[trigger] columns[i],
            ) == Some(i + 1),
{
    lemma_column_error_none(columns);
    let all = seq![PRIMARY_KEY_NAME@] + columns;
    let t = TableView::from_columns(all);
    assert(all.take(all.len() as int) =~= all);
    assert(all.no_duplicates()) by {
        assert forall|i: int, j: int| 0 <= i < j < all.len() implies all[i] != all[j] by {
            if i == 0 {
                assert(columns[j - 1] == all[j]);
            } else {
                assert(all[i] == columns[i - 1] && all[j] == columns[j - 1]);
            }
        }
    }
    lemma_last_position_distinct(all, 0);
    assert forall|i: int| 0 <= i < columns.len() implies t.lookup(#[trigger] columns[i]) == Some(i + 1) by {
        assert(all[i + 1] == columns[i]);
        lemma_last_position_distinct(all, i + 1);
    }
}

/// A table declared under a name that is already taken is refused,
/// whatever its columns: declaring the same name twice fails the second time.
pub proof fn lemma_table_name_taken(
    m: Map<Seq<char>, TableView>,
    name: Seq<char>,
    first: Seq<Seq<char>>,
    second: Seq<Seq<char>>,
)
    requires
        create_table(m, name, first) is Ok,
    ensures
        create_table(create_table(m, name, first)->Ok_0, name, second) == Err::<
            Map<Seq<char>, TableView>,
            &'static str,
        >(ERROR_TABLE_DUP),
{
}

/// In a table made by `Database::table`, asking for the indices of any of
/// its columns, each named once, succeeds.
pub proof fn lemma_created_table_indices(columns: Seq<Seq<char>>, asked: Seq<Seq<char>>)
    requires
        column_error(columns) is None,
        columns.len() < usize::MAX,
        asked.no_duplicates(),
        forall|k: int| 0 <= k < asked.len() ==> (seq![PRIMARY_KEY_NAME@] + columns).contains(#[trigger] asked[k]),
    ensures
        TableView::from_columns(seq![PRIMARY_KEY_NAME@] + columns).indices_of(asked) is Ok,
{
    let all = seq![PRIMARY_KEY_NAME@] + columns;
    let t = TableView::from_columns(all);
    lemma_created_table_lookup(columns);
    assert(t.wf());
    assert(all.take(all.len() as int) =~= all);
    assert forall|k: int| 0 <= k < asked.len() implies (#[trigger] t.lookup(asked[k])) matches Some(p) && 0 <= p < all.len() && all[p] == asked[k] by {
        let p = choose|p: int| 0 <= p < all.len() && all[p] == asked[k];
        if p == 0 {
        } else {
            assert(all[p] == columns[p - 1]);
        }
    }
    assert(!(exists|k: int| 0 <= k < asked.len() && (#[trigger] t.lookup(asked[k])) is None));
    let found = asked.map_values(|c: Seq<char>| t.lookup(c).unwrap() as usize);
    assert forall|a: int, b: int| 0 <= a < asked.len() && 0 <= b < asked.len() && a != b implies found[a] != found[b] by {
        assert(t.lookup(asked[a]) is Some);
        assert(t.lookup(asked[b]) is Some);
        let pa = t.lookup(asked[a])->Some_0;
        let pb = t.lookup(asked[b])->Some_0;
        assert(all[pa] == asked[a] && 0 <= pa < all.len());
        assert(all[pb] == asked[b] && 0 <= pb < all.len());
        assert(all.len() <= usize::MAX);
        assert(found[a] == pa as usize && found[b] == pb as usize);
    }
}

/// The database: tables, each under a name of its own, kept in memory.
#[derive(Debug)]
pub struct Database {
    path: String,
    tables: Tables,
}

impl View for Database {
    type V = Map<Seq<char>, TableView>;

    closed spec fn view(&self) -> Map<Seq<char>, TableView> {
        self.tables@
    }
}

impl Database {
    pub closed spec fn wf(&self) -> bool {
        self.tables.wf()
    }

    /// Where the database's transaction files are kept.
    pub closed spec fn path(&self) -> Seq<char> {
        self.path@
    }

    /// Every table of a well-formed database is well formed.
    pub proof fn lemma_tables_wf(&self, name: Seq<char>)
        requires
            self.wf(),
            self@.contains_key(name),
        ensures
            self@[name].wf(),
    {
        self.tables.lemma_tables_wf(name);
    }

    /// The database kept at `path`, built from the transactions found
    /// there, each of whose statements must apply to the tables as they
    /// stand by then.
    pub fn new(path: &str, transactions: Vec<Transaction>) -> (db: Database)
        requires
            replayable(transactions@),
        ensures
            db.wf(),
            exists|keys: Seq<Seq<Uuid>>| Some(db@) == #[trigger] replay(transactions@, keys),
            db.path() == path@,
    {
        let tables = crate::storage::read_db(transactions);
        Database { path: path.to_owned(), tables }
    }

    /// As `new`, but `None` where some statement cannot be applied.
    pub fn try_new(path: &str, transactions: Vec<Transaction>) -> (r: Option<Database>)
        ensures
            r is Some <==> replayable(transactions@),
            r matches Some(db) ==> db.wf() && db.path() == path@ && exists|keys: Seq<Seq<Uuid>>|
                Some(db@) == #[trigger] replay(transactions@, keys),
    {
        match try_read_db(transactions) {
            Some(tables) => Some(Database { path: path.to_owned(), tables }),
            None => None,
        }
    }

    /// Declares table `table_name` with columns `columns`; the primary-key
    /// column `id` is added first. The name must be new, and the columns
    /// distinct and other than `id`. On an error nothing changes.
    pub fn table(&mut self, table_name: &str, columns: &[&str]) -> (r: Result<(), &'static str>)
        requires
            old(self).wf(),
        ensures
            final(self).wf(),
            final(self).path() == old(self).path(),
            match create_table(old(self)@, table_name@, columns@.map_values(|c: &str| c@)) {
                Ok(m) => r is Ok && final(self)@ == m,
                Err(e) => r == Err::<(), &'static str>(e) && final(self)@ == old(self)@,
            },
    {
        let ghost names = columns@.map_values(|c: &str| c@);
        if self.tables.find(table_name).is_some() {
            return Err(ERROR_TABLE_DUP);
        }
        let mut cols: Vec<String> = Vec::new();
        cols.push(PRIMARY_KEY_NAME.to_owned());
        let mut k: usize = 0;
        assert(names.take(0) =~= Seq::<Seq<char>>::empty());
        while k < columns.len()
            invariant
                k <= columns.len(),
                names == columns@.map_values(|c: &str| c@),
                column_error(names.take(k as int)) is None,
                cols@.map_values(|s: String| s@) == seq![PRIMARY_KEY_NAME@] + names.take(k as int),
                *self == *old(self),
                old(self).wf(),
                !old(self)@.contains_key(table_name@),
            decreases columns.len() - k,
        {
            let ghost seen = cols@.map_values(|s: String| s@);
            proof {
                assert(names.take(k + 1).drop_last() =~= names.take(k as int));
                assert(names.take(k + 1).last() == names[k as int]);
            }
            let column = columns[k];
            if str_eq(column, PRIMARY_KEY_NAME) {
                proof {
                    lemma_column_error_prefix(names, k + 1);
                }
                return Err(ERROR_COLUMN_ID);
            }
            let mut c: usize = 0;
            while c < cols.len()
                invariant
                    c <= cols.len(),
                    seen == cols@.map_values(|s: String| s@),
                    seen == seq![PRIMARY_KEY_NAME@] + names.take(k as int),
                    k < columns.len(),
                    names == columns@.map_values(|c: &str| c@),
                    column@ == names[k as int],
                    column@ != PRIMARY_KEY_NAME@,
                    column_error(names.take(k as int)) is None,
                    names.take(k + 1).drop_last() == names.take(k as int),
                    names.take(k + 1).last() == names[k as int],
                    *self == *old(self),
                    old(self).wf(),
                    !old(self)@.contains_key(table_name@),
                    forall|m: int| 0 <= m < c ==> seen[m] != column@,
                decreases cols.len() - c,
            {
                if str_eq(cols[c].as_str(), column) {
                    proof {
                        assert(seen[c as int] == cols@[c as int]@);
                        assert(seen[c as int] == column@);
                        assert(c > 0);
                        let front = seq![PRIMARY_KEY_NAME@];
                        assert(front.len() == 1);
                        assert(seen.len() == k + 1);
                        assert((front + names.take(k as int))[c as int] == names.take(k as int)[c - 1]);
                        assert(seen[c as int] == names.take(k as int)[c - 1]);
                        assert(names.take(k as int).contains(column@));
                        lemma_column_error_prefix(names, k + 1);
                    }
                    return Err(ERROR_COLUMN_DUP);
                }
                c = c + 1;
            }
            proof {
                if names.take(k as int).contains(column@) {
                    let m = choose|m: int| 0 <= m < k && names.take(k as int)[m] == column@;
                    assert(seen[m + 1] == column@);
                }
            }
            let ghost before = cols@;
            cols.push(column.to_owned());
            assert(cols@ == before.push(cols@.last()));
            assert(cols@.map_values(|s: String| s@) =~= seen.push(column@));
            assert(seen.push(column@) =~= seq![PRIMARY_KEY_NAME@] + names.take(k + 1));
            k = k + 1;
        }
        assert(names.take(columns.len() as int) =~= names);
        proof {
            lemma_column_error_none(names);
            lemma_last_position_suffix(seq![PRIMARY_KEY_NAME@], names, PRIMARY_KEY_NAME@);
            assert(last_position(seq![PRIMARY_KEY_NAME@], PRIMARY_KEY_NAME@) == Some(0int)) by {
                assert(seq![PRIMARY_KEY_NAME@].drop_last() =~= Seq::<Seq<char>>::empty());
            }
        }
        let t = Table::new(cols.as_slice());
        self.tables.add(table_name.to_owned(), t);
        Ok(())
    }

    /// Inserts into table `table_name` a row holding `values`, each a column
    /// index and the value to put there, with a fresh primary key.
    pub fn insert(&mut self, table_name: &str, values: &[(usize, Value)]) -> (r: Result<(), &'static str>)
        requires
            old(self).wf(),
        ensures
            final(self).wf(),
            final(self).path() == old(self).path(),
            !old(self)@.contains_key(table_name@) ==> r == Err::<(), &'static str>(ERROR_TABLE_NOTFOUND)
                && final(self)@ == old(self)@,
            old(self)@.contains_key(table_name@) ==> final(self)@ == old(self)@.insert(
                table_name@,
                final(self)@[table_name@],
            ) && old(self)@[table_name@].insert_row_outcome(values@, r, final(self)@[table_name@]),
    {
        match self.tables.find(table_name) {
            None => Err(ERROR_TABLE_NOTFOUND),
            Some(i) => self.tables.insert_row_at(i, values),
        }
    }

    /// The indices of `columns` in table `table_name`.
    pub fn get_indices(&self, table_name: &str, columns: &[&str]) -> (r: Result<Vec<usize>, &'static str>)
        requires
            self.wf(),
        ensures
            !self@.contains_key(table_name@) ==> r == Err::<Vec<usize>, &'static str>(
                ERROR_TABLE_NOTFOUND,
            ),
            self@.contains_key(table_name@) ==> match self@[table_name@].indices_of(
                columns@.map_values(|c: &str| c@),
            ) {
                Ok(v) => (r matches Ok(x) && x@ == v),
                Err(e) => r == Err::<Vec<usize>, &'static str>(e),
            },
    {
        match self.tables.find(table_name) {
            None => Err(ERROR_TABLE_NOTFOUND),
            Some(i) => self.tables.table_at(i).column2indices(columns),
        }
    }

    /// The rows of table `table_name`.
    pub fn rows(&self, table_name: &str) -> (r: Result<&Vec<Vec<Value>>, &'static str>)
        requires
            self.wf(),
        ensures
            !self@.contains_key(table_name@) ==> r == Err::<&Vec<Vec<Value>>, &'static str>(
                ERROR_TABLE_NOTFOUND,
            ),
            self@.contains_key(table_name@) ==> (r matches Ok(v) && v@.map_values(
                |row: Vec<Value>| row@,
            ) == self@[table_name@].rows),
    {
        match self.tables.find(table_name) {
            None => Err(ERROR_TABLE_NOTFOUND),
            Some(i) => self.tables.table_at(i).rows(),
        }
    }
}

} // verus!
