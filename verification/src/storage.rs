//! Rebuilds the tables from transactions: the transactions are put in
//! order of epoch and their statements applied one after the other.
use crate::consts::{PRIMARY_KEY_IDX, PRIMARY_KEY_NAME};
use crate::table::{
    cells_view, last_position, lemma_last_position_at, lemma_last_position_bound, Table, TableView,
};
use crate::transaction::{
    epochs_distinct, lemma_sorted_by_epoch_order_free, sort_transactions, sorted_by_epoch, Statement,
    Transaction,
};
use crate::value::{str_eq, Value};
use uuid::Uuid;
use vstd::pervasive::arbitrary;
use vstd::prelude::*;

verus! {

/// The effect of creating columns `columns` in table `table`: an existing
/// table gets them appended, provided they are distinct and none of them is
/// a column of it already; a new table is made of them, provided the primary-key column
/// comes first and only once. `None` where neither holds.
pub open spec fn create_columns(
    m: Map<Seq<char>, TableView>,
    table: Seq<char>,
    columns: Seq<Seq<char>>,
) -> Option<Map<Seq<char>, TableView>> {
    if m.contains_key(table) {
        if exists|i: int| 0 <= i < columns.len() && m[table].schema.contains(#[trigger] columns[i]) {
            None
        } else if !columns.no_duplicates() {
            None
        } else {
            Some(m.insert(table, m[table].add_columns(columns)))
        }
    } else if last_position(columns, PRIMARY_KEY_NAME@) == Some(PRIMARY_KEY_IDX as int) {
        Some(m.insert(table, TableView::from_columns(columns)))
    } else {
        None
    }
}

/// Creating columns in a table that does not exist yet succeeds exactly
/// when the primary key's column comes first and nowhere else, and makes a
/// table of those columns with no rows. In a table that exists it succeeds
/// exactly when the new names are distinct and none is a column already,
/// and appends them. No other table changes.
pub proof fn law_create_columns(m: Map<Seq<char>, TableView>, table: Seq<char>, columns: Seq<Seq<char>>)
    ensures
        !m.contains_key(table) ==> (create_columns(m, table, columns) is Some <==> (columns.len() > 0
            && columns[PRIMARY_KEY_IDX as int] == PRIMARY_KEY_NAME@ && forall|i: int|
            0 < i < columns.len() ==> #[trigger] columns[i] != PRIMARY_KEY_NAME@)),
        !m.contains_key(table) && create_columns(m, table, columns) is Some ==> create_columns(
            m,
            table,
            columns,
        )->Some_0 == m.insert(table, (TableView { schema: columns, rows: Seq::empty() })),
        m.contains_key(table) ==> (create_columns(m, table, columns) is Some <==> (columns.no_duplicates()
            && forall|i: int| 0 <= i < columns.len() ==> !m[table].schema.contains(#[trigger] columns[i]))),
        m.contains_key(table) && create_columns(m, table, columns) is Some ==> create_columns(
            m,
            table,
            columns,
        )->Some_0 == m.insert(table, m[table].add_columns(columns)),
{
    lemma_last_position_bound(columns, PRIMARY_KEY_NAME@);
    if columns.len() > 0 && columns[PRIMARY_KEY_IDX as int] == PRIMARY_KEY_NAME@ && forall|i: int|
        0 < i < columns.len() ==> #[trigger] columns[i] != PRIMARY_KEY_NAME@ {
        lemma_last_position_at(columns, PRIMARY_KEY_NAME@, 0);
    }
}

/// Whether a statement can be applied to the tables: a column creation as
/// `create_columns` says; an upsert or a delete needs its table.
pub open spec fn statement_fits(m: Map<Seq<char>, TableView>, s: Statement) -> bool {
    match s {
        Statement::ColumnCreate { table, columns } => create_columns(
            m,
            table@,
            columns@.map_values(|c: String| c@),
        ) is Some,
        Statement::RowUpsert { table, .. } => m.contains_key(table@),
        Statement::RowDelete { table, .. } => m.contains_key(table@),
    }
}

/// The effect of a statement on the tables, `None` where it cannot be
/// applied. `key` is the primary key that an upsert without one gives the
/// row it adds.
pub open spec fn apply_statement(m: Map<Seq<char>, TableView>, s: Statement, key: Uuid) -> Option<
    Map<Seq<char>, TableView>,
> {
    if !statement_fits(m, s) {
        None
    } else {
        match s {
            Statement::ColumnCreate { table, columns } => create_columns(
                m,
                table@,
                columns@.map_values(|c: String| c@),
            ),
            Statement::RowUpsert { table, values } => Some(
                m.insert(table@, m[table@].upsert(cells_view(values@), key)),
            ),
            Statement::RowDelete { table, key: row_key } => Some(
                m.insert(table@, m[table@].delete_key(row_key)),
            ),
        }
    }
}

/// The statements applied in order, the one at position `i` with the key
/// `keys[i]`; `None` as soon as one cannot be applied.
pub open spec fn apply_statements(
    m: Map<Seq<char>, TableView>,
    stmts: Seq<Statement>,
    keys: Seq<Uuid>,
) -> Option<Map<Seq<char>, TableView>>
    decreases stmts.len(),
{
    if stmts.len() == 0 {
        Some(m)
    } else {
        match apply_statements(m, stmts.drop_last(), keys.drop_last()) {
            Some(m2) => apply_statement(m2, stmts.last(), keys.last()),
            None => None,
        }
    }
}

/// The statements of the transactions applied in the order the
/// transactions are given, those of transaction `i` with the keys `keys[i]`.
pub open spec fn apply_transactions(
    m: Map<Seq<char>, TableView>,
    txns: Seq<Transaction>,
    keys: Seq<Seq<Uuid>>,
) -> Option<Map<Seq<char>, TableView>>
    decreases txns.len(),
{
    if txns.len() == 0 {
        Some(m)
    } else {
        match apply_transactions(m, txns.drop_last(), keys.drop_last()) {
            Some(m2) => apply_statements(m2, txns.last().statements@, keys.last()),
            None => None,
        }
    }
}

/// The tables that `transactions` build, from none, once put in order of
/// epoch, where `keys` are the primary keys that the upserts without one
/// draw.
pub open spec fn replay(transactions: Seq<Transaction>, keys: Seq<Seq<Uuid>>) -> Option<
    Map<Seq<char>, TableView>,
> {
    apply_transactions(Map::empty(), sorted_by_epoch(transactions), keys)
}

/// Whether every statement of `transactions` applies to the tables as they
/// stand by then, whatever keys are drawn.
pub open spec fn replayable(transactions: Seq<Transaction>) -> bool {
    forall|keys: Seq<Seq<Uuid>>| #[trigger] replay(transactions, keys) is Some
}

/// The column names of each table: all that decides whether a statement
/// applies.
pub open spec fn shape(m: Map<Seq<char>, TableView>) -> Map<Seq<char>, Seq<Seq<char>>> {
    m.map_values(|t: TableView| t.schema)
}

proof fn lemma_shape_insert(m: Map<Seq<char>, TableView>, name: Seq<char>, t: TableView)
    ensures
        shape(m.insert(name, t)) == shape(m).insert(name, t.schema),
{
    assert(shape(m.insert(name, t)) =~= shape(m).insert(name, t.schema));
}

proof fn lemma_shape_step(m1: Map<Seq<char>, TableView>, m2: Map<Seq<char>, TableView>, s: Statement, k1: Uuid, k2: Uuid)
    requires
        shape(m1) == shape(m2),
    ensures
        apply_statement(m1, s, k1) is Some <==> apply_statement(m2, s, k2) is Some,
        apply_statement(m1, s, k1) is Some ==> shape(apply_statement(m1, s, k1)->Some_0) == shape(
            apply_statement(m2, s, k2)->Some_0,
        ),
{
    assert(m1.dom() =~= shape(m1).dom());
    assert(m2.dom() =~= shape(m2).dom());
    match s {
        Statement::ColumnCreate { table, columns } => {
            let cols = columns@.map_values(|c: String| c@);
            if m1.contains_key(table@) {
                assert(m1[table@].schema == shape(m1)[table@]);
                assert(m2[table@].schema == shape(m2)[table@]);
            }
            if m1.contains_key(table@) {
                lemma_shape_insert(m1, table@, m1[table@].add_columns(cols));
                lemma_shape_insert(m2, table@, m2[table@].add_columns(cols));
            } else {
                lemma_shape_insert(m1, table@, TableView::from_columns(cols));
                lemma_shape_insert(m2, table@, TableView::from_columns(cols));
            }
        },
        Statement::RowUpsert { table, values } => {
            if m1.contains_key(table@) {
                assert(m1[table@].schema == shape(m1)[table@]);
                assert(m2[table@].schema == shape(m2)[table@]);
                let cells = cells_view(values@);
                assert(m1[table@].upsert(cells, k1).schema == m1[table@].schema);
                assert(m2[table@].upsert(cells, k2).schema == m2[table@].schema);
                lemma_shape_insert(m1, table@, m1[table@].upsert(cells, k1));
                lemma_shape_insert(m2, table@, m2[table@].upsert(cells, k2));
            }
        },
        Statement::RowDelete { table, key } => {
            if m1.contains_key(table@) {
                assert(m1[table@].schema == shape(m1)[table@]);
                assert(m2[table@].schema == shape(m2)[table@]);
                lemma_shape_insert(m1, table@, m1[table@].delete_key(key));
                lemma_shape_insert(m2, table@, m2[table@].delete_key(key));
            }
        },
    }
}

proof fn lemma_shape_statements(
    m1: Map<Seq<char>, TableView>,
    m2: Map<Seq<char>, TableView>,
    stmts: Seq<Statement>,
    k1: Seq<Uuid>,
    k2: Seq<Uuid>,
)
    requires
        shape(m1) == shape(m2),
    ensures
        apply_statements(m1, stmts, k1) is Some <==> apply_statements(m2, stmts, k2) is Some,
        apply_statements(m1, stmts, k1) is Some ==> shape(apply_statements(m1, stmts, k1)->Some_0)
            == shape(apply_statements(m2, stmts, k2)->Some_0),
    decreases stmts.len(),
{
    if stmts.len() > 0 {
        lemma_shape_statements(m1, m2, stmts.drop_last(), k1.drop_last(), k2.drop_last());
        if apply_statements(m1, stmts.drop_last(), k1.drop_last()) is Some {
            lemma_shape_step(
                apply_statements(m1, stmts.drop_last(), k1.drop_last())->Some_0,
                apply_statements(m2, stmts.drop_last(), k2.drop_last())->Some_0,
                stmts.last(),
                k1.last(),
                k2.last(),
            );
        }
    }
}

proof fn lemma_shape_transactions(
    m1: Map<Seq<char>, TableView>,
    m2: Map<Seq<char>, TableView>,
    txns: Seq<Transaction>,
    k1: Seq<Seq<Uuid>>,
    k2: Seq<Seq<Uuid>>,
)
    requires
        shape(m1) == shape(m2),
    ensures
        apply_transactions(m1, txns, k1) is Some <==> apply_transactions(m2, txns, k2) is Some,
        apply_transactions(m1, txns, k1) is Some ==> shape(apply_transactions(m1, txns, k1)->Some_0)
            == shape(apply_transactions(m2, txns, k2)->Some_0),
    decreases txns.len(),
{
    if txns.len() > 0 {
        lemma_shape_transactions(m1, m2, txns.drop_last(), k1.drop_last(), k2.drop_last());
        if apply_transactions(m1, txns.drop_last(), k1.drop_last()) is Some {
            lemma_shape_statements(
                apply_transactions(m1, txns.drop_last(), k1.drop_last())->Some_0,
                apply_transactions(m2, txns.drop_last(), k2.drop_last())->Some_0,
                txns.last().statements@,
                k1.last(),
                k2.last(),
            );
        }
    }
}

/// Whether the transactions can be replayed does not depend on the keys
/// that the upserts draw: one replay that succeeds shows that all do.
pub proof fn lemma_replayable(transactions: Seq<Transaction>, keys: Seq<Seq<Uuid>>)
    requires
        replay(transactions, keys) is Some,
    ensures
        replayable(transactions),
{
    assert forall|other: Seq<Seq<Uuid>>| #[trigger] replay(transactions, other) is Some by {
        lemma_shape_transactions(
            Map::empty(),
            Map::empty(),
            sorted_by_epoch(transactions),
            keys,
            other,
        );
    }
}

/// When no two transactions share an epoch, the tables do not depend on
/// the order in which the transactions are found: copying the transaction
/// files of one database next to those of another gives the same tables
/// whatever order the files are read in.
pub proof fn lemma_replay_order_free(s1: Seq<Transaction>, s2: Seq<Transaction>, keys: Seq<Seq<Uuid>>)
    requires
        epochs_distinct(s1),
        s1.to_multiset() == s2.to_multiset(),
    ensures
        replay(s1, keys) == replay(s2, keys),
{
    lemma_sorted_by_epoch_order_free(s1, s2);
}

/// The tables, each under a name of its own.
#[derive(Debug)]
pub struct Tables {
    entries: Vec<(String, Table)>,
}

impl View for Tables {
    type V = Map<Seq<char>, TableView>;

    closed spec fn view(&self) -> Map<Seq<char>, TableView> {
        Map::new(
            |n: Seq<char>| exists|i: int| 0 <= i < self.entries@.len() && self.entries@[i].0@ == n,
            |n: Seq<char>|
                self.entries@[choose|i: int|
                    0 <= i < self.entries@.len() && self.entries@[i].0@ == n].1@,
        )
    }
}

impl Tables {
    pub closed spec fn wf(&self) -> bool {
        &&& forall|i: int, j: int|
            0 <= i < j < self.entries@.len() ==> self.entries@[i].0@ != self.entries@[j].0@
        &&& forall|i: int| 0 <= i < self.entries@.len() ==> (#[trigger] self.entries@[i]).1.wf()
    }

    /// How many tables there are.
    pub closed spec fn count(&self) -> nat {
        self.entries@.len()
    }

    /// The name of the table at `i`.
    pub closed spec fn name_at(&self, i: int) -> Seq<char> {
        self.entries@[i].0@
    }

    proof fn lemma_entry(&self, i: int)
        requires
            self.wf(),
            0 <= i < self.entries@.len(),
        ensures
            self@.contains_key(self.entries@[i].0@),
            self@[self.entries@[i].0@] == self.entries@[i].1@,
    {
        let n = self.entries@[i].0@;
        assert(self@.dom().contains(n));
        let j = choose|j: int| 0 <= j < self.entries@.len() && self.entries@[j].0@ == n;
        assert(i == j);
    }

    /// Every table is well formed.
    pub proof fn lemma_tables_wf(&self, name: Seq<char>)
        requires
            self.wf(),
            self@.contains_key(name),
        ensures
            self@[name].wf(),
    {
        let j = choose|j: int| 0 <= j < self.entries@.len() && self.entries@[j].0@ == name;
        self.lemma_entry(j);
    }

    proof fn lemma_replaced(old: &Tables, new: &Tables, i: int)
        requires
            old.wf(),
            0 <= i < old.entries@.len() == new.entries@.len(),
            new.entries@[i].0 == old.entries@[i].0,
            new.entries@[i].1.wf(),
            forall|k: int| 0 <= k < old.entries@.len() && k != i ==> new.entries@[k] == old.entries@[k],
        ensures
            new.wf(),
            new@ == old@.insert(old.entries@[i].0@, new.entries@[i].1@),
    {
        assert forall|k: int| 0 <= k < new.entries@.len() implies (#[trigger] new.entries@[k]).1.wf() by {
            if k != i {
                assert(old.entries@[k].1.wf());
            }
        }
        assert(new.wf());
        let n = old.entries@[i].0@;
        assert forall|key: Seq<char>| #[trigger] new@.contains_key(key) == old@.insert(n, new.entries@[i].1@).contains_key(key) by {
            if new@.contains_key(key) {
                let j = choose|j: int| 0 <= j < new.entries@.len() && new.entries@[j].0@ == key;
                if j != i {
                    assert(old.entries@[j].0@ == key);
                }
            }
            if old@.contains_key(key) {
                let j = choose|j: int| 0 <= j < old.entries@.len() && old.entries@[j].0@ == key;
                if j != i {
                    assert(new.entries@[j].0@ == key);
                }
            }
        }
        assert forall|key: Seq<char>| #[trigger] new@.contains_key(key) implies new@[key] == old@.insert(n, new.entries@[i].1@)[key] by {
            let j = choose|j: int| 0 <= j < new.entries@.len() && new.entries@[j].0@ == key;
            new.lemma_entry(j);
            if j != i {
                old.lemma_entry(j);
            }
        }
        assert(new@ =~= old@.insert(n, new.entries@[i].1@));
    }

    proof fn lemma_pushed(old: &Tables, new: &Tables)
        requires
            old.wf(),
            new.entries@.len() == old.entries@.len() + 1,
            forall|k: int| 0 <= k < old.entries@.len() ==> new.entries@[k] == old.entries@[k],
            !old@.contains_key(new.entries@.last().0@),
            new.entries@.last().1.wf(),
        ensures
            new.wf(),
            new@ == old@.insert(new.entries@.last().0@, new.entries@.last().1@),
    {
        let i = old.entries@.len() as int;
        let n = new.entries@[i].0@;
        assert forall|k: int| 0 <= k < i implies (#[trigger] old.entries@[k]).0@ != n by {
            if old.entries@[k].0@ == n {
                assert(old@.contains_key(n));
            }
        }
        assert forall|a: int, b: int| 0 <= a < b < new.entries@.len() implies new.entries@[a].0@
            != new.entries@[b].0@ by {
            if b < i {
                assert(new.entries@[a] == old.entries@[a] && new.entries@[b] == old.entries@[b]);
            } else {
                assert(new.entries@[a] == old.entries@[a]);
            }
        }
        assert forall|k: int| 0 <= k < new.entries@.len() implies (#[trigger] new.entries@[k]).1.wf() by {
            if k < i {
                assert(new.entries@[k] == old.entries@[k]);
            }
        }
        assert(new.wf());
        let t = new.entries@[i].1@;
        assert forall|key: Seq<char>| #[trigger] new@.contains_key(key) == old@.insert(n, t).contains_key(key) by {
            if new@.contains_key(key) {
                let j = choose|j: int| 0 <= j < new.entries@.len() && new.entries@[j].0@ == key;
                if j != i {
                    assert(old.entries@[j].0@ == key);
                }
            }
            if old@.contains_key(key) {
                let j = choose|j: int| 0 <= j < old.entries@.len() && old.entries@[j].0@ == key;
                assert(new.entries@[j].0@ == key);
            }
            if key == n {
                assert(new.entries@[i].0@ == key);
            }
        }
        assert forall|key: Seq<char>| #[trigger] new@.contains_key(key) implies new@[key] == old@.insert(n, t)[key] by {
            let j = choose|j: int| 0 <= j < new.entries@.len() && new.entries@[j].0@ == key;
            new.lemma_entry(j);
            if j != i {
                assert(new.entries@[j] == old.entries@[j]);
                old.lemma_entry(j);
            }
        }
        assert(new@ =~= old@.insert(n, t));
    }

    /// No tables.
    pub fn new() -> (r: Tables)
        ensures
            r.wf(),
            r@ == Map::<Seq<char>, TableView>::empty(),
    {
        let r = Tables { entries: Vec::new() };
        assert(r@ =~= Map::<Seq<char>, TableView>::empty());
        r
    }

    /// Where the table named `name` stands.
    pub(crate) fn find(&self, name: &str) -> (r: Option<usize>)
        requires
            self.wf(),
        ensures
            match r {
                Some(i) => i < self.count() && self.name_at(i as int) == name@ && self@.contains_key(
                    name@,
                ),
                None => !self@.contains_key(name@),
            },
    {
        let mut i: usize = 0;
        while i < self.entries.len()
            invariant
                i <= self.entries.len(),
                self.wf(),
                forall|k: int| 0 <= k < i ==> (#[trigger] self.entries@[k]).0@ != name@,
            decreases self.entries.len() - i,
        {
            if str_eq(self.entries[i].0.as_str(), name) {
                proof {
                    self.lemma_entry(i as int);
                }
                return Some(i);
            }
            i = i + 1;
        }
        None
    }

    /// The table named `name`, if there is one.
    pub fn get(&self, name: &str) -> (r: Option<&Table>)
        requires
            self.wf(),
        ensures
            match r {
                Some(t) => self@.contains_key(name@) && t@ == self@[name@] && t.wf(),
                None => !self@.contains_key(name@),
            },
    {
        match self.find(name) {
            Some(i) => Some(self.table_at(i)),
            None => None,
        }
    }

    /// The table at `i`.
    pub(crate) fn table_at(&self, i: usize) -> (t: &Table)
        requires
            self.wf(),
            i < self.count(),
        ensures
            t.wf(),
            self@.contains_key(self.name_at(i as int)),
            t@ == self@[self.name_at(i as int)],
    {
        proof {
            self.lemma_entry(i as int);
        }
        &self.entries[i].1
    }

    /// Adds `table` under `name`, which no table has yet.
    pub(crate) fn add(&mut self, name: String, table: Table)
        requires
            old(self).wf(),
            table.wf(),
            !old(self)@.contains_key(name@),
        ensures
            final(self).wf(),
            final(self)@ == old(self)@.insert(name@, table@),
    {
        self.entries.push((name, table));
        proof {
            Self::lemma_pushed(old(self), self);
        }
    }

    /// Inserts a row into the table at `i`, with a fresh primary key.
    pub(crate) fn insert_row_at(&mut self, i: usize, values: &[(usize, Value)]) -> (r: Result<(), &'static str>)
        requires
            old(self).wf(),
            i < old(self).count(),
        ensures
            final(self).wf(),
            final(self).count() == old(self).count(),
            final(self)@ == old(self)@.insert(
                old(self).name_at(i as int),
                final(self)@[old(self).name_at(i as int)],
            ),
            old(self)@.contains_key(old(self).name_at(i as int)),
            old(self)@[old(self).name_at(i as int)].insert_row_outcome(
                values@,
                r,
                final(self)@[old(self).name_at(i as int)],
            ),
    {
        proof {
            self.lemma_entry(i as int);
        }
        let key = crate::value::new_primary_key();
        let r = self.entries[i].1.insert(Value::PrimaryKey { key }, values);
        proof {
            Self::lemma_replaced(old(self), self, i as int);
        }
        r
    }
}

/// Adds `columns` to the table named `table`, creating the table if there
/// is none of that name.
pub fn column_create(tables: &mut Tables, table: &str, columns: &[String])
    requires
        old(tables).wf(),
        create_columns(old(tables)@, table@, columns@.map_values(|c: String| c@)) is Some,
    ensures
        final(tables).wf(),
        Some(final(tables)@) == create_columns(
            old(tables)@,
            table@,
            columns@.map_values(|c: String| c@),
        ),
{
    let ghost names = columns@.map_values(|c: String| c@);
    match tables.find(table) {
        Some(i) => {
            proof {
                tables.lemma_entry(i as int);
                assert forall|k: int| 0 <= k < columns.len() implies !tables.entries@[i as int].1@.schema.contains(
                    #[trigger] columns@[k]@,
                ) by {
                    assert(names[k] == columns@[k]@);
                }
            }
            tables.entries[i].1.add_columns(columns);
            proof {
                Tables::lemma_replaced(old(tables), tables, i as int);
            }
        },
        None => {
            let t = Table::new(columns);
            tables.add(table.to_owned(), t);
        },
    }
}

/// Applies an upsert of `values` to the table named `table`, which must
/// exist.
pub fn row_upsert(tables: &mut Tables, table: &str, values: &[(String, Value)])
    requires
        old(tables).wf(),
        old(tables)@.contains_key(table@),
    ensures
        final(tables).wf(),
        exists|key: Uuid|
            final(tables)@ == old(tables)@.insert(
                table@,
                #[trigger] old(tables)@[table@].upsert(cells_view(values@), key),
            ),
{
    match tables.find(table) {
        Some(i) => {
            proof {
                tables.lemma_entry(i as int);
            }
            tables.entries[i].1.upsert(values);
            proof {
                Tables::lemma_replaced(old(tables), tables, i as int);
                let key = choose|key: Uuid|
                    tables.entries@[i as int].1@ == #[trigger] old(tables)@[table@].upsert(cells_view(values@), key);
                assert(tables@ == old(tables)@.insert(table@, old(tables)@[table@].upsert(cells_view(values@), key)));
            }
        },
        None => {},
    }
}

/// Applies a delete of the rows with primary key `key` to the table named
/// `table`, which must exist.
pub fn row_delete(tables: &mut Tables, table: &str, key: &Uuid)
    requires
        old(tables).wf(),
        old(tables)@.contains_key(table@),
    ensures
        final(tables).wf(),
        final(tables)@ == old(tables)@.insert(table@, old(tables)@[table@].delete_key(*key)),
{
    match tables.find(table) {
        Some(i) => {
            proof {
                tables.lemma_entry(i as int);
            }
            tables.entries[i].1.delete(key);
            proof {
                Tables::lemma_replaced(old(tables), tables, i as int);
            }
        },
        None => {},
    }
}

/// Applies `statement` to the tables; an upsert without a primary key
/// draws a fresh one for the row it adds.
pub fn reduce(tables: &mut Tables, statement: &Statement)
    requires
        old(tables).wf(),
        statement_fits(old(tables)@, *statement),
    ensures
        final(tables).wf(),
        exists|key: Uuid| Some(final(tables)@) == #[trigger] apply_statement(old(tables)@, *statement, key),
{
    match statement {
        Statement::ColumnCreate { table, columns } => {
            column_create(tables, table.as_str(), columns.as_slice());
            assert(Some(tables@) == apply_statement(old(tables)@, *statement, arbitrary()));
        },
        Statement::RowUpsert { table, values } => {
            row_upsert(tables, table.as_str(), values.as_slice());
            proof {
                let key = choose|key: Uuid|
                    tables@ == old(tables)@.insert(
                        table@,
                        #[trigger] old(tables)@[table@].upsert(cells_view(values@), key),
                    );
                assert(Some(tables@) == apply_statement(old(tables)@, *statement, key));
            }
        },
        Statement::RowDelete { table, key } => {
            row_delete(tables, table.as_str(), key);
            assert(Some(tables@) == apply_statement(old(tables)@, *statement, arbitrary()));
        },
    }
}

/// Whether the primary-key column comes first in `columns`, and only there.
fn primary_key_first(columns: &[String]) -> (r: bool)
    ensures
        r == (last_position(columns@.map_values(|c: String| c@), PRIMARY_KEY_NAME@) == Some(
            PRIMARY_KEY_IDX as int,
        )),
{
    let ghost names = columns@.map_values(|c: String| c@);
    let mut j: usize = columns.len();
    assert(names.take(j as int) =~= names);
    while j > 0
        invariant
            j <= columns.len(),
            names == columns@.map_values(|c: String| c@),
            last_position(names, PRIMARY_KEY_NAME@) == last_position(names.take(j as int), PRIMARY_KEY_NAME@),
        decreases j,
    {
        if str_eq(columns[j - 1].as_str(), PRIMARY_KEY_NAME) {
            assert(names.take(j as int).last() == PRIMARY_KEY_NAME@);
            return j - 1 == PRIMARY_KEY_IDX;
        }
        assert(names.take(j as int).drop_last() =~= names.take(j - 1));
        j = j - 1;
    }
    false
}

/// Whether no two of `columns` share a name.
fn distinct_names(columns: &[String]) -> (r: bool)
    ensures
        r == columns@.map_values(|c: String| c@).no_duplicates(),
{
    let ghost names = columns@.map_values(|c: String| c@);
    let mut a: usize = 0;
    while a < columns.len()
        invariant
            a <= columns.len(),
            names == columns@.map_values(|c: String| c@),
            forall|x: int, y: int| 0 <= x < a && x < y < names.len() ==> names[x] != names[y],
        decreases columns.len() - a,
    {
        let mut b: usize = a + 1;
        while b < columns.len()
            invariant
                a < b <= columns.len(),
                names == columns@.map_values(|c: String| c@),
                forall|x: int, y: int| 0 <= x < a && x < y < names.len() ==> names[x] != names[y],
                forall|y: int| a < y < b ==> names[a as int] != names[y],
            decreases columns.len() - b,
        {
            if str_eq(columns[a].as_str(), columns[b].as_str()) {
                assert(names[a as int] == names[b as int]);
                return false;
            }
            b = b + 1;
        }
        a = a + 1;
    }
    true
}

/// Whether `statement` can be applied to the tables.
fn statement_applies(tables: &Tables, statement: &Statement) -> (r: bool)
    requires
        tables.wf(),
    ensures
        r == statement_fits(tables@, *statement),
{
    match statement {
        Statement::ColumnCreate { table, columns } => {
            let ghost names = columns@.map_values(|c: String| c@);
            match tables.find(table.as_str()) {
                Some(i) => {
                    let t = tables.table_at(i);
                    let mut k: usize = 0;
                    while k < columns.len()
                        invariant
                            k <= columns.len(),
                            names == columns@.map_values(|c: String| c@),
                            tables@.contains_key(table@),
                            t@ == tables@[table@],
                            statement_fits(tables@, *statement) == create_columns(tables@, table@, names) is Some,
                            forall|m: int| 0 <= m < k ==> !t@.schema.contains(#[trigger] names[m]),
                        decreases columns.len() - k,
                    {
                        if t.has_column(columns[k].as_str()) {
                            assert(t@.schema.contains(names[k as int]));
                            assert(exists|m: int| 0 <= m < names.len() && tables@[table@].schema.contains(#[trigger] names[m]));
                            assert(create_columns(tables@, table@, names) is None);
                            return false;
                        }
                        k = k + 1;
                    }
                    distinct_names(columns.as_slice())
                },
                None => primary_key_first(columns.as_slice()),
            }
        },
        Statement::RowUpsert { table, .. } => tables.find(table.as_str()).is_some(),
        Statement::RowDelete { table, .. } => tables.find(table.as_str()).is_some(),
    }
}

proof fn lemma_statements_prefix_fails(
    m: Map<Seq<char>, TableView>,
    stmts: Seq<Statement>,
    n: int,
    k1: Seq<Uuid>,
    k2: Seq<Uuid>,
)
    requires
        0 <= n <= stmts.len(),
        apply_statements(m, stmts.take(n), k1) is None,
    ensures
        apply_statements(m, stmts, k2) is None,
    decreases stmts.len(),
{
    if n == stmts.len() {
        assert(stmts.take(n) =~= stmts);
        lemma_shape_statements(m, m, stmts, k1, k2);
    } else {
        assert(stmts.drop_last().take(n) =~= stmts.take(n));
        lemma_statements_prefix_fails(m, stmts.drop_last(), n, k1, k2.drop_last());
    }
}

proof fn lemma_transactions_prefix_fails(
    m: Map<Seq<char>, TableView>,
    txns: Seq<Transaction>,
    n: int,
    k1: Seq<Seq<Uuid>>,
    k2: Seq<Seq<Uuid>>,
)
    requires
        0 <= n <= txns.len(),
        apply_transactions(m, txns.take(n), k1) is None,
    ensures
        apply_transactions(m, txns, k2) is None,
    decreases txns.len(),
{
    if n == txns.len() {
        assert(txns.take(n) =~= txns);
        lemma_shape_transactions(m, m, txns, k1, k2);
    } else {
        assert(txns.drop_last().take(n) =~= txns.take(n));
        lemma_transactions_prefix_fails(m, txns.drop_last(), n, k1, k2.drop_last());
    }
}

/// Builds the tables from `transactions`: puts them in order of epoch and
/// applies their statements in turn. `None` exactly where some statement
/// cannot be applied to the tables as they stand by then.
pub fn try_read_db(transactions: Vec<Transaction>) -> (r: Option<Tables>)
    ensures
        r is Some <==> replayable(transactions@),
        r matches Some(t) ==> t.wf() && exists|keys: Seq<Seq<Uuid>>|
            Some(t@) == #[trigger] replay(transactions@, keys),
{
    let ghost orig = transactions@;
    let txns = sort_transactions(transactions);
    let mut tables = Tables::new();
    let ghost mut kss: Seq<Seq<Uuid>> = Seq::empty();
    let mut i: usize = 0;
    assert(txns@.take(0) =~= Seq::<Transaction>::empty());
    while i < txns.len()
        invariant
            i <= txns.len(),
            tables.wf(),
            txns@ == sorted_by_epoch(orig),
            orig == transactions@,
            kss.len() == i,
            apply_transactions(Map::empty(), txns@.take(i as int), kss) == Some(tables@),
        decreases txns.len() - i,
    {
        let stmts = txns[i].statements();
        let ghost start = tables@;
        let ghost mut ks: Seq<Uuid> = Seq::empty();
        let mut j: usize = 0;
        assert(stmts@.take(0) =~= Seq::<Statement>::empty());
        proof {
            assert(txns@.take(i + 1).drop_last() =~= txns@.take(i as int));
            assert(txns@.take(i + 1).last() == txns@[i as int]);
        }
        while j < stmts.len()
            invariant
                j <= stmts.len(),
                i < txns.len(),
                tables.wf(),
                txns@ == sorted_by_epoch(orig),
                orig == transactions@,
                kss.len() == i,
                ks.len() == j,
                stmts == &txns@[i as int].statements,
                apply_transactions(Map::empty(), txns@.take(i as int), kss) == Some(start),
                txns@.take(i + 1).drop_last() == txns@.take(i as int),
                txns@.take(i + 1).last() == txns@[i as int],
                apply_statements(start, stmts@.take(j as int), ks) == Some(tables@),
            decreases stmts.len() - j,
        {
            proof {
                assert(stmts@.take(j + 1).drop_last() =~= stmts@.take(j as int));
                assert(stmts@.take(j + 1).last() == stmts@[j as int]);
            }
            if !statement_applies(&tables, &stmts[j]) {
                proof {
                    let any_key: Uuid = arbitrary();
                    assert(ks.push(any_key).drop_last() =~= ks);
                    assert(apply_statements(start, stmts@.take(j + 1), ks.push(any_key)) is None);
                    let rest: Seq<Uuid> = arbitrary();
                    lemma_statements_prefix_fails(start, stmts@, j + 1, ks.push(any_key), rest);
                    assert(kss.push(rest).drop_last() =~= kss);
                    assert(apply_transactions(Map::empty(), txns@.take(i + 1), kss.push(rest)) is None);
                    lemma_transactions_prefix_fails(Map::empty(), txns@, i + 1, kss.push(rest), Seq::empty());
                    assert(replay(transactions@, Seq::empty()) is None);
                }
                return None;
            }
            let ghost before = tables@;
            reduce(&mut tables, &stmts[j]);
            proof {
                let key = choose|key: Uuid| Some(tables@) == #[trigger] apply_statement(before, stmts@[j as int], key);
                assert(ks.push(key).drop_last() =~= ks);
                ks = ks.push(key);
            }
            j = j + 1;
        }
        proof {
            assert(stmts@.take(stmts.len() as int) =~= stmts@);
            assert(kss.push(ks).drop_last() =~= kss);
            kss = kss.push(ks);
        }
        i = i + 1;
    }
    assert(txns@.take(txns.len() as int) =~= txns@);
    proof {
        lemma_replayable(transactions@, kss);
        assert(Some(tables@) == replay(transactions@, kss));
    }
    Some(tables)
}

/// Builds the tables from `transactions`, each of whose statements must
/// apply to the tables as they stand by then.
pub fn read_db(transactions: Vec<Transaction>) -> (r: Tables)
    requires
        replayable(transactions@),
    ensures
        r.wf(),
        exists|keys: Seq<Seq<Uuid>>| Some(r@) == #[trigger] replay(transactions@, keys),
{
    match try_read_db(transactions) {
        Some(t) => t,
        None => Tables::new(),
    }
}

} // verus!
