use crate::value::Value;
use uuid::Uuid;
use vstd::prelude::*;

verus! {

/// A statement is a DDL/DML operation.
#[derive(Debug, PartialEq)]
pub enum Statement {
    /// Creates the table if it does not exist yet, and adds the columns
    /// to it.
    ColumnCreate { table: String, columns: Vec<String> },
    /// With an `id` among the values it is an update, else an insert. The
    /// values are (column name, value) pairs; where a name is given twice
    /// the last pair counts, and names that are no column are passed over.
    RowUpsert { table: String, values: Vec<(String, Value)> },
    /// Deletes a row by its primary key.
    RowDelete { table: String, key: Uuid },
}

/// A transaction: a unique name, a time stamp that orders it among the
/// others, and its statements.
#[derive(Debug, PartialEq)]
pub struct Transaction {
    pub uuid: Uuid,
    pub epoch: u64,
    pub statements: Vec<Statement>,
}

impl Transaction {
    /// The key by which transactions are put in order.
    pub fn sort_key(&self) -> (k: u64)
        ensures
            k == self.epoch,
    {
        self.epoch
    }

    pub fn statements(&self) -> (s: &Vec<Statement>)
        ensures
            s == &self.statements,
    {
        &self.statements
    }
}

/// `s` with `t` put after every transaction of `s` up to the first one
/// whose epoch is later than that of `t`.
pub open spec fn insert_by_epoch(t: Transaction, s: Seq<Transaction>) -> Seq<Transaction>
    decreases s.len(),
{
    if s.len() == 0 {
        seq![t]
    } else if s[0].epoch > t.epoch {
        seq![t] + s
    } else {
        seq![s[0]] + insert_by_epoch(t, s.drop_first())
    }
}

/// The transactions of `s` in order of epoch; those of equal epoch keep
/// the order they had in `s`.
pub open spec fn sorted_by_epoch(s: Seq<Transaction>) -> Seq<Transaction>
    decreases s.len(),
{
    if s.len() == 0 {
        s
    } else {
        insert_by_epoch(s.last(), sorted_by_epoch(s.drop_last()))
    }
}

pub open spec fn epochs_ascending(s: Seq<Transaction>) -> bool {
    forall|i: int, j: int| 0 <= i <= j < s.len() ==> s[i].epoch <= s[j].epoch
}

proof fn lemma_insert_by_epoch_at(t: Transaction, s: Seq<Transaction>, j: int)
    requires
        0 <= j <= s.len(),
        forall|i: int| 0 <= i < j ==> s[i].epoch <= t.epoch,
        j < s.len() ==> s[j].epoch > t.epoch,
    ensures
        insert_by_epoch(t, s) == s.insert(j, t),
    decreases j,
{
    if j == 0 {
        if s.len() == 0 {
            assert(s.insert(0, t) =~= seq![t]);
        } else {
            assert(s.insert(0, t) =~= seq![t] + s);
        }
    } else {
        lemma_insert_by_epoch_at(t, s.drop_first(), j - 1);
        assert(s.insert(j, t) =~= seq![s[0]] + s.drop_first().insert(j - 1, t));
    }
}

proof fn lemma_insert_by_epoch(t: Transaction, s: Seq<Transaction>)
    ensures
        insert_by_epoch(t, s).len() == s.len() + 1,
        insert_by_epoch(t, s).to_multiset() == s.to_multiset().insert(t),
        forall|k: int|
            0 <= k < s.len() + 1 ==> #[trigger] insert_by_epoch(t, s)[k] == t || s.contains(
                insert_by_epoch(t, s)[k],
            ),
        epochs_ascending(s) ==> epochs_ascending(insert_by_epoch(t, s)),
    decreases s.len(),
{
    broadcast use vstd::seq_lib::group_to_multiset_ensures;

    if s.len() == 0 {
        assert(seq![t] =~= s.insert(0, t));
    } else if s[0].epoch > t.epoch {
        assert(seq![t] + s =~= s.insert(0, t));
    } else {
        let rest = s.drop_first();
        let r = insert_by_epoch(t, rest);
        lemma_insert_by_epoch(t, rest);
        assert(seq![s[0]] + r =~= r.insert(0, s[0]));
        assert(s =~= rest.insert(0, s[0]));
        let whole = insert_by_epoch(t, s);
        assert forall|k: int| 0 <= k < s.len() + 1 implies #[trigger] whole[k] == t || s.contains(
            whole[k],
        ) by {
            if k > 0 {
                assert(whole[k] == r[k - 1]);
                if r[k - 1] != t {
                    let m = choose|m: int| 0 <= m < rest.len() && rest[m] == r[k - 1];
                    assert(s[m + 1] == whole[k]);
                }
            }
        }
        if epochs_ascending(s) {
            assert forall|i: int, j: int| 0 <= i <= j < whole.len() implies whole[i].epoch
                <= whole[j].epoch by {
                if i == 0 && j > 0 {
                    assert(whole[j] == r[j - 1]);
                    if r[j - 1] != t {
                        let m = choose|m: int| 0 <= m < rest.len() && rest[m] == r[j - 1];
                        assert(s[m + 1] == whole[j]);
                    }
                } else if i > 0 {
                    assert(whole[i] == r[i - 1] && whole[j] == r[j - 1]);
                }
            }
        }
    }
}

/// Sorting by epoch puts the transactions in ascending order of epoch
/// and loses or adds none.
pub proof fn lemma_sorted_by_epoch(s: Seq<Transaction>)
    ensures
        epochs_ascending(sorted_by_epoch(s)),
        sorted_by_epoch(s).to_multiset() == s.to_multiset(),
        sorted_by_epoch(s).len() == s.len(),
    decreases s.len(),
{
    broadcast use vstd::seq_lib::group_to_multiset_ensures;

    if s.len() > 0 {
        lemma_sorted_by_epoch(s.drop_last());
        lemma_insert_by_epoch(s.last(), sorted_by_epoch(s.drop_last()));
        assert(s =~= s.drop_last().push(s.last()));
    }
}

/// Whether a transaction has epoch `e`.
pub open spec fn epoch_is(e: u64) -> spec_fn(Transaction) -> bool {
    |t: Transaction| t.epoch == e
}

/// The transactions of `s` whose epoch is `e`, in the order of `s`.
pub open spec fn with_epoch(s: Seq<Transaction>, e: u64) -> Seq<Transaction> {
    s.filter(epoch_is(e))
}

proof fn lemma_with_epoch_none(s: Seq<Transaction>, e: u64)
    requires
        forall|i: int| 0 <= i < s.len() ==> (#[trigger] s[i]).epoch != e,
    ensures
        with_epoch(s, e) == Seq::<Transaction>::empty(),
    decreases s.len(),
{
    reveal_with_fuel(Seq::filter, 1);
    if s.len() > 0 {
        lemma_with_epoch_none(s.drop_last(), e);
        assert(s.last() == s[s.len() - 1]);
    }
}

proof fn lemma_insert_by_epoch_stable(t: Transaction, s: Seq<Transaction>, e: u64)
    requires
        epochs_ascending(s),
    ensures
        with_epoch(insert_by_epoch(t, s), e) == if t.epoch == e {
            with_epoch(s, e).push(t)
        } else {
            with_epoch(s, e)
        },
    decreases s.len(),
{
    let p = epoch_is(e);
    if s.len() == 0 {
        s.lemma_filter_prepend(t, p);
        assert(seq![t] + s =~= seq![t]);
        assert(s.filter(p) == s) by {
            reveal_with_fuel(Seq::filter, 1);
        }
        assert(with_epoch(s, e).push(t) =~= seq![t]);
        assert(Seq::<Transaction>::empty() + s.filter(p) =~= s.filter(p));
    } else if s[0].epoch > t.epoch {
        s.lemma_filter_prepend(t, p);
        if t.epoch == e {
            assert forall|i: int| 0 <= i < s.len() implies (#[trigger] s[i]).epoch != e by {
                assert(s[0].epoch <= s[i].epoch);
            }
            lemma_with_epoch_none(s, e);
            assert(seq![t] + s.filter(p) =~= with_epoch(s, e).push(t));
        } else {
            assert(Seq::<Transaction>::empty() + s.filter(p) =~= s.filter(p));
        }
    } else {
        let rest = s.drop_first();
        assert forall|i: int, j: int| 0 <= i <= j < rest.len() implies rest[i].epoch <= rest[j].epoch by {
            assert(rest[i] == s[i + 1] && rest[j] == s[j + 1]);
        }
        lemma_insert_by_epoch_stable(t, rest, e);
        let ins = insert_by_epoch(t, rest);
        ins.lemma_filter_prepend(s[0], p);
        rest.lemma_filter_prepend(s[0], p);
        assert(seq![s[0]] + rest =~= s);
        let head = if p(s[0]) { seq![s[0]] } else { Seq::<Transaction>::empty() };
        if t.epoch == e {
            assert(head + rest.filter(p).push(t) =~= (head + rest.filter(p)).push(t));
        }
    }
}

/// Sorting by epoch is stable: the transactions of any one epoch come out
/// in the order they were given.
pub proof fn lemma_sorted_by_epoch_stable(s: Seq<Transaction>, e: u64)
    ensures
        with_epoch(sorted_by_epoch(s), e) == with_epoch(s, e),
    decreases s.len(),
{
    if s.len() > 0 {
        lemma_sorted_by_epoch_stable(s.drop_last(), e);
        lemma_sorted_by_epoch(s.drop_last());
        lemma_insert_by_epoch_stable(s.last(), sorted_by_epoch(s.drop_last()), e);
        assert(with_epoch(s, e) == if epoch_is(e)(s.last()) {
            with_epoch(s.drop_last(), e).push(s.last())
        } else {
            with_epoch(s.drop_last(), e)
        }) by {
            reveal_with_fuel(Seq::filter, 1);
        }
    }
}

/// No two of the transactions share an epoch.
pub open spec fn epochs_distinct(s: Seq<Transaction>) -> bool {
    forall|i: int, j: int| 0 <= i < j < s.len() ==> s[i].epoch != s[j].epoch
}

proof fn lemma_ascending_same_multiset(a: Seq<Transaction>, b: Seq<Transaction>)
    requires
        epochs_ascending(a),
        epochs_ascending(b),
        epochs_distinct(a),
        a.to_multiset() == b.to_multiset(),
    ensures
        a == b,
    decreases a.len(),
{
    broadcast use vstd::seq_lib::group_to_multiset_ensures;

    assert(a.to_multiset().len() == a.len());
    assert(b.to_multiset().len() == b.len());
    if a.len() == 0 {
        assert(b.len() == 0);
        assert(a =~= b);
    } else {
        assert(b.len() == a.len());
        assert(b.to_multiset().count(b[0]) > 0);
        assert(a.contains(b[0]));
        let i = choose|i: int| 0 <= i < a.len() && a[i] == b[0];
        assert(a.to_multiset().count(a[0]) > 0);
        assert(b.contains(a[0]));
        let j = choose|j: int| 0 <= j < b.len() && b[j] == a[0];
        assert(a[0].epoch <= a[i].epoch);
        assert(b[0].epoch <= b[j].epoch);
        assert(i == 0);
        assert(a.remove(0) =~= a.drop_first());
        assert(b.remove(0) =~= b.drop_first());
        lemma_ascending_same_multiset(a.drop_first(), b.drop_first());
        assert forall|k: int| 0 <= k < a.len() implies a[k] == b[k] by {
            if k > 0 {
                assert(a[k] == a.drop_first()[k - 1]);
                assert(b[k] == b.drop_first()[k - 1]);
            }
        }
        assert(a =~= b);
    }
}

/// When no two transactions share an epoch, the order in which they are
/// found does not matter: any two orderings of the same transactions sort
/// to the same sequence.
pub proof fn lemma_sorted_by_epoch_order_free(s1: Seq<Transaction>, s2: Seq<Transaction>)
    requires
        epochs_distinct(s1),
        s1.to_multiset() == s2.to_multiset(),
    ensures
        sorted_by_epoch(s1) == sorted_by_epoch(s2),
{
    broadcast use vstd::seq_lib::group_to_multiset_ensures;

    let a = sorted_by_epoch(s1);
    let b = sorted_by_epoch(s2);
    lemma_sorted_by_epoch(s1);
    lemma_sorted_by_epoch(s2);
    assert(s1.no_duplicates()) by {
        assert forall|i: int, j: int| 0 <= i < s1.len() && 0 <= j < s1.len() && i != j implies s1[i] != s1[j] by {
            if i < j {
                assert(s1[i].epoch != s1[j].epoch);
            } else {
                assert(s1[j].epoch != s1[i].epoch);
            }
        }
    }
    s1.lemma_multiset_has_no_duplicates();
    a.lemma_multiset_has_no_duplicates_conv();
    assert forall|i: int, j: int| 0 <= i < j < a.len() implies a[i].epoch != a[j].epoch by {
        assert(a.to_multiset().count(a[i]) > 0);
        assert(a.to_multiset().count(a[j]) > 0);
        assert(s1.contains(a[i]));
        assert(s1.contains(a[j]));
        let p = choose|p: int| 0 <= p < s1.len() && s1[p] == a[i];
        let q = choose|q: int| 0 <= q < s1.len() && s1[q] == a[j];
        assert(a[i] != a[j]);
        if p < q {
            assert(s1[p].epoch != s1[q].epoch);
        } else {
            assert(s1[q].epoch != s1[p].epoch);
        }
    }
    lemma_ascending_same_multiset(a, b);
}

/// Puts `transactions` in order of epoch, keeping the order among those
/// of equal epoch.
pub fn sort_transactions(transactions: Vec<Transaction>) -> (r: Vec<Transaction>)
    ensures
        r@ == sorted_by_epoch(transactions@),
        epochs_ascending(r@),
        r@.to_multiset() == transactions@.to_multiset(),
        forall|e: u64| #[trigger] with_epoch(r@, e) == with_epoch(transactions@, e),
{
    let ghost orig = transactions@;
    let mut rest = transactions;
    let mut sorted: Vec<Transaction> = Vec::new();
    assert(orig.take(0) =~= Seq::<Transaction>::empty());
    assert(orig.skip(0) =~= orig);
    while rest.len() > 0
        invariant
            rest@.len() <= orig.len(),
            rest@ == orig.skip(orig.len() - rest@.len()),
            sorted@ == sorted_by_epoch(orig.take(orig.len() - rest@.len())),
        decreases rest.len(),
    {
        let ghost n = orig.len() - rest@.len();
        let t = rest.remove(0);
        assert(t == orig[n]);
        assert(rest@ =~= orig.skip(n + 1));
        let mut j: usize = 0;
        while j < sorted.len() && sorted[j].epoch <= t.epoch
            invariant
                j <= sorted.len(),
                forall|i: int| 0 <= i < j ==> sorted@[i].epoch <= t.epoch,
            decreases sorted.len() - j,
        {
            j = j + 1;
        }
        proof {
            lemma_insert_by_epoch_at(t, sorted@, j as int);
            assert(orig.take(n + 1).drop_last() =~= orig.take(n));
            assert(orig.take(n + 1).last() == t);
        }
        sorted.insert(j, t);
    }
    assert(orig.take(orig.len() as int) =~= orig);
    proof {
        lemma_sorted_by_epoch(orig);
        assert forall|e: u64| #[trigger] with_epoch(sorted@, e) == with_epoch(orig, e) by {
            lemma_sorted_by_epoch_stable(orig, e);
        }
    }
    sorted
}

} // verus!
