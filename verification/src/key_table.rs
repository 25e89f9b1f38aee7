//! A table of rows in the order of their keys, with at most one row for a key.

use crate::text::KeyOrder;
use vstd::prelude::*;

verus! {

/// A key with a strict total order on what it says.
pub trait TableKey: View + Sized {
    /// `a` comes before `b`.
    spec fn before(a: <Self as View>::V, b: <Self as View>::V) -> bool;

    /// The order is strict and total.
    proof fn lemma_order(a: <Self as View>::V, b: <Self as View>::V, c: <Self as View>::V)
        ensures
            !Self::before(a, a),
            Self::before(a, b) && Self::before(b, c) ==> Self::before(a, c),
            Self::before(a, b) ==> !Self::before(b, a),
            a == b || Self::before(a, b) || Self::before(b, a),
    ;

    /// How `self` stands to `other`.
    fn compare(&self, other: &Self) -> (r: KeyOrder)
        ensures
            match r {
                KeyOrder::Before => Self::before(self@, other@),
                KeyOrder::Same => self@ == other@,
                KeyOrder::After => Self::before(other@, self@),
            },
    ;
}

/// The number of a row with this key.
pub open spec fn row_with<A, B>(rows: Seq<(A, B)>, key: A) -> int {
    choose|i: int| 0 <= i < rows.len() && #[trigger] rows[i].0 == key
}

/// What a list of rows says of each key.
pub open spec fn row_map<A, B>(rows: Seq<(A, B)>) -> Map<A, B> {
    Map::new(
        |key: A| exists|i: int| 0 <= i < rows.len() && #[trigger] rows[i].0 == key,
        |key: A| rows[row_with(rows, key)].1,
    )
}

/// The rows stand in the order of their keys, each key once.
pub open spec fn in_order<K: TableKey, B>(rows: Seq<(<K as View>::V, B)>) -> bool {
    forall|i: int, j: int|
        0 <= i < j < rows.len() ==> K::before(#[trigger] rows[i].0, #[trigger] rows[j].0)
}

#[derive(Debug)]
pub struct KeyTable<K: TableKey, T: View> {
    rows: Vec<(K, T)>,
}

impl<K: TableKey, T: View> View for KeyTable<K, T> {
    type V = Seq<(<K as View>::V, <T as View>::V)>;

    closed spec fn view(&self) -> Seq<(<K as View>::V, <T as View>::V)> {
        self.rows@.map_values(|row: (K, T)| (row.0@, row.1@))
    }
}

impl<K: TableKey, T: View> KeyTable<K, T> {
    /// The rows stand in the order of their keys, each key once.
    pub open spec fn wf(self) -> bool {
        in_order::<K, <T as View>::V>(self@)
    }

    pub fn new() -> (r: Self)
        ensures
            r.wf(),
            r@.len() == 0,
            row_map(r@) == Map::<<K as View>::V, <T as View>::V>::empty(),
    {
        let r = KeyTable { rows: Vec::new() };
        assert(row_map(r@) =~= Map::<<K as View>::V, <T as View>::V>::empty());
        r
    }

    /// The number of rows.
    pub fn len(&self) -> (r: usize)
        ensures
            r == self@.len(),
    {
        self.rows.len()
    }

    /// The key of a row.
    pub fn key(&self, i: usize) -> (r: &K)
        requires
            i < self@.len(),
        ensures
            r@ == self@[i as int].0,
    {
        &self.rows[i].0
    }

    /// The value of a row.
    pub fn value(&self, i: usize) -> (r: &T)
        requires
            i < self@.len(),
        ensures
            r@ == self@[i as int].1,
    {
        &self.rows[i].1
    }

    /// The place of a key: the row that holds it, or else the row before which
    /// it would stand.
    pub fn place(&self, key: &K) -> (r: (usize, bool))
        requires
            self.wf(),
        ensures
            r.0 <= self@.len(),
            r.1 <==> row_map(self@).dom().contains(key@),
            r.1 ==> r.0 < self@.len() && self@[r.0 as int].0 == key@ && row_map(self@)[key@]
                == self@[r.0 as int].1,
            forall|i: int| 0 <= i < r.0 ==> K::before(#[trigger] self@[i].0, key@),
            forall|i: int|
                r.0 <= i < self@.len() && !r.1 ==> K::before(key@, #[trigger] self@[i].0),
    {
        let mut low: usize = 0;
        let mut high: usize = self.rows.len();
        while low < high
            invariant
                self.wf(),
                low <= high <= self@.len(),
                forall|i: int| 0 <= i < low ==> K::before(#[trigger] self@[i].0, key@),
                forall|i: int| high <= i < self@.len() ==> K::before(key@, #[trigger] self@[i].0),
            decreases high - low,
        {
            let mid: usize = low + (high - low) / 2;
            match self.rows[mid].0.compare(key) {
                KeyOrder::Before => {
                    proof {
                        assert forall|i: int| 0 <= i < mid + 1 implies K::before(
                            #[trigger] self@[i].0,
                            key@,
                        ) by {
                            K::lemma_order(self@[i].0, self@[mid as int].0, key@);
                        }
                    }
                    low = mid + 1;
                },
                KeyOrder::Same => {
                    proof {
                        assert(self@[mid as int].0 == key@);
                        lemma_row_map::<K, <T as View>::V>(self@, mid as int);
                    }
                    return (mid, true);
                },
                KeyOrder::After => {
                    proof {
                        assert forall|i: int| mid <= i < self@.len() implies K::before(
                            key@,
                            #[trigger] self@[i].0,
                        ) by {
                            K::lemma_order(key@, self@[mid as int].0, self@[i].0);
                        }
                    }
                    high = mid;
                },
            }
        }
        proof {
            assert forall|i: int| 0 <= i < self@.len() implies #[trigger] self@[i].0 != key@ by {
                K::lemma_order(key@, key@, key@);
            }
        }
        (low, false)
    }

    /// The value for a key, if there is one.
    pub fn get(&self, key: &K) -> (r: Option<&T>)
        requires
            self.wf(),
        ensures
            match r {
                Some(value) => row_map(self@).dom().contains(key@) && value@ == row_map(
                    self@,
                )[key@],
                None => !row_map(self@).dom().contains(key@),
            },
    {
        let (pos, found) = self.place(key);
        if found {
            Some(&self.rows[pos].1)
        } else {
            None
        }
    }

    /// The value of a row, to be changed.
    pub fn value_mut(&mut self, i: usize) -> (r: &mut T)
        requires
            i < old(self)@.len(),
        ensures
            r@ == old(self)@[i as int].1,
            final(self)@ == old(self)@.update(
                i as int,
                (old(self)@[i as int].0, final(r)@),
            ),
    {
        &mut self.rows[i].1
    }

    /// Takes a row out.
    pub fn remove_row(&mut self, i: usize)
        requires
            old(self).wf(),
            i < old(self)@.len(),
        ensures
            final(self).wf(),
            final(self)@ == old(self)@.remove(i as int),
            row_map(final(self)@) == row_map(old(self)@).remove(old(self)@[i as int].0),
    {
        let ghost before = self@;
        let _row = self.rows.remove(i);
        proof {
            assert(self@ =~= before.remove(i as int));
            lemma_remove_row::<K, <T as View>::V>(before, i as int);
        }
    }

    /// Takes the row of a key out, if there is one.
    pub fn remove(&mut self, key: &K)
        requires
            old(self).wf(),
        ensures
            final(self).wf(),
            row_map(final(self)@) == row_map(old(self)@).remove(key@),
    {
        let (pos, found) = self.place(key);
        if found {
            self.remove_row(pos);
        } else {
            assert(row_map(self@) =~= row_map(self@).remove(key@));
        }
    }

    /// Gives a key a value, in place of the one it had.
    pub fn insert(&mut self, key: K, value: T)
        requires
            old(self).wf(),
        ensures
            final(self).wf(),
            row_map(final(self)@) == row_map(old(self)@).insert(key@, value@),
    {
        let ghost before = self@;
        let (pos, found) = self.place(&key);
        if found {
            self.rows[pos] = (key, value);
            proof {
                assert(self@ =~= before.update(pos as int, (key@, value@)));
                lemma_update_row::<K, <T as View>::V>(before, pos as int, value@);
            }
        } else {
            self.rows.insert(pos, (key, value));
            proof {
                assert(self@ =~= before.insert(pos as int, (key@, value@)));
                lemma_insert_row::<K, <T as View>::V>(before, pos as int, key@, value@);
            }
        }
    }
}

/// A row is what the table says of its key.
pub proof fn lemma_row_map<K: TableKey, B>(rows: Seq<(<K as View>::V, B)>, i: int)
    requires
        in_order::<K, B>(rows),
        0 <= i < rows.len(),
    ensures
        row_map(rows).dom().contains(rows[i].0),
        row_map(rows)[rows[i].0] == rows[i].1,
{
    let key = rows[i].0;
    let j = row_with(rows, key);
    assert(0 <= j < rows.len() && rows[j].0 == key);
    K::lemma_order(key, key, key);
}

/// A row with another value gives its key that value.
pub proof fn lemma_update_row<K: TableKey, B>(rows: Seq<(<K as View>::V, B)>, pos: int, value: B)
    requires
        in_order::<K, B>(rows),
        0 <= pos < rows.len(),
    ensures
        in_order::<K, B>(rows.update(pos, (rows[pos].0, value))),
        row_map(rows.update(pos, (rows[pos].0, value))) == row_map(rows).insert(
            rows[pos].0,
            value,
        ),
{
    let key = rows[pos].0;
    let after = rows.update(pos, (key, value));
    assert(in_order::<K, B>(after));
    lemma_row_map::<K, B>(rows, pos);
    assert forall|k: <K as View>::V| row_map(after).dom().contains(k) <==> row_map(rows).insert(
        key,
        value,
    ).dom().contains(k) by {
        if exists|i: int| 0 <= i < rows.len() && #[trigger] rows[i].0 == k {
            let i = row_with(rows, k);
            assert(after[i].0 == k);
        }
        if exists|i: int| 0 <= i < after.len() && #[trigger] after[i].0 == k {
            let i = row_with(after, k);
            assert(rows[i].0 == k);
        }
    }
    assert forall|k: <K as View>::V| #[trigger] row_map(after).dom().contains(k) implies row_map(
        after,
    )[k] == row_map(rows).insert(key, value)[k] by {
        let i = row_with(after, k);
        assert(after[i].0 == k && rows[i].0 == k);
        lemma_row_map::<K, B>(after, i);
        lemma_row_map::<K, B>(rows, i);
        if k == key {
            lemma_row_map::<K, B>(after, pos);
        }
    }
    assert(row_map(after) =~= row_map(rows).insert(key, value));
}

proof fn lemma_insert_row<K: TableKey, B>(
    rows: Seq<(<K as View>::V, B)>,
    pos: int,
    key: <K as View>::V,
    value: B,
)
    requires
        in_order::<K, B>(rows),
        0 <= pos <= rows.len(),
        forall|i: int| 0 <= i < pos ==> K::before(#[trigger] rows[i].0, key),
        forall|i: int| pos <= i < rows.len() ==> K::before(key, #[trigger] rows[i].0),
    ensures
        in_order::<K, B>(rows.insert(pos, (key, value))),
        row_map(rows.insert(pos, (key, value))) == row_map(rows).insert(key, value),
{
    let after = rows.insert(pos, (key, value));
    assert forall|i: int, j: int| 0 <= i < j < after.len() implies K::before(
        #[trigger] after[i].0,
        #[trigger] after[j].0,
    ) by {
        let a = if i < pos { i } else { i - 1 };
        let b = if j < pos { j } else { j - 1 };
        if i != pos {
            assert(after[i] == rows[a]);
        }
        if j != pos {
            assert(after[j] == rows[b]);
        }
    }
    assert forall|k: <K as View>::V| row_map(after).dom().contains(k) <==> row_map(rows).insert(
        key,
        value,
    ).dom().contains(k) by {
        if exists|i: int| 0 <= i < rows.len() && #[trigger] rows[i].0 == k {
            let i = row_with(rows, k);
            assert(after[if i < pos { i } else { i + 1 }].0 == k);
        }
        if exists|i: int| 0 <= i < after.len() && #[trigger] after[i].0 == k {
            let i = row_with(after, k);
            if i != pos {
                assert(rows[if i < pos { i } else { i - 1 }].0 == k);
            }
        }
        assert(after[pos].0 == key);
    }
    assert forall|k: <K as View>::V| #[trigger] row_map(after).dom().contains(k) implies row_map(
        after,
    )[k] == row_map(rows).insert(key, value)[k] by {
        let i = row_with(after, k);
        lemma_row_map::<K, B>(after, i);
        if i == pos {
            lemma_row_map::<K, B>(after, pos);
        } else {
            let a = if i < pos { i } else { i - 1 };
            assert(after[i] == rows[a]);
            lemma_row_map::<K, B>(rows, a);
            K::lemma_order(key, key, key);
        }
    }
    assert(row_map(after) =~= row_map(rows).insert(key, value));
}

/// The place of a key that none of the first `n` rows has.
proof fn lemma_place<K: TableKey, B>(
    rows: Seq<(<K as View>::V, B)>,
    key: <K as View>::V,
    n: int,
) -> (pos: int)
    requires
        in_order::<K, B>(rows),
        0 <= n <= rows.len(),
        forall|i: int| 0 <= i < n ==> #[trigger] rows[i].0 != key,
    ensures
        0 <= pos <= n,
        forall|i: int| 0 <= i < pos ==> K::before(#[trigger] rows[i].0, key),
        forall|i: int| pos <= i < n ==> K::before(key, #[trigger] rows[i].0),
    decreases n,
{
    if n == 0 {
        0
    } else {
        let pos = lemma_place::<K, B>(rows, key, n - 1);
        let last = rows[n - 1].0;
        K::lemma_order(last, key, last);
        if K::before(last, key) {
            assert forall|i: int| 0 <= i < n implies K::before(#[trigger] rows[i].0, key) by {
                K::lemma_order(rows[i].0, last, key);
            }
            n
        } else {
            pos
        }
    }
}

/// A further key has a place among the rows.
pub proof fn law_key_has_place<K: TableKey, B>(
    rows: Seq<(<K as View>::V, B)>,
    key: <K as View>::V,
    value: B,
) -> (pos: int)
    requires
        in_order::<K, B>(rows),
        !row_map(rows).dom().contains(key),
    ensures
        0 <= pos <= rows.len(),
        in_order::<K, B>(rows.insert(pos, (key, value))),
        row_map(rows.insert(pos, (key, value))) == row_map(rows).insert(key, value),
{
    let pos = lemma_place::<K, B>(rows, key, rows.len() as int);
    lemma_insert_row::<K, B>(rows, pos, key, value);
    pos
}

/// The rows that say this of each key, in the order of their keys.
pub open spec fn sorted_rows<K: TableKey, B>(known: Map<<K as View>::V, B>) -> Seq<
    (<K as View>::V, B),
> {
    choose|rows: Seq<(<K as View>::V, B)>| #[trigger]
        row_map(rows) == known && in_order::<K, B>(rows)
}

/// Rows in the order of their keys are those that say what they say.
pub proof fn lemma_sorted_rows<K: TableKey, B>(rows: Seq<(<K as View>::V, B)>)
    requires
        in_order::<K, B>(rows),
    ensures
        sorted_rows::<K, B>(row_map(rows)) == rows,
{
    law_rows_determined::<K, B>(sorted_rows::<K, B>(row_map(rows)), rows);
}

/// What a table says of each key determines its rows.
pub proof fn law_rows_determined<K: TableKey, B>(
    a: Seq<(<K as View>::V, B)>,
    b: Seq<(<K as View>::V, B)>,
)
    requires
        in_order::<K, B>(a),
        in_order::<K, B>(b),
        row_map(a) == row_map(b),
    ensures
        a == b,
    decreases a.len() + b.len(),
{
    if a.len() == 0 || b.len() == 0 {
        if a.len() > 0 {
            lemma_row_map::<K, B>(a, 0);
        }
        if b.len() > 0 {
            lemma_row_map::<K, B>(b, 0);
        }
        assert(a =~= b);
    } else {
        let x = a.last();
        let y = b.last();
        lemma_row_map::<K, B>(a, a.len() - 1);
        lemma_row_map::<K, B>(b, b.len() - 1);
        let i = row_with(b, x.0);
        let j = row_with(a, y.0);
        assert(b[i].0 == x.0 && a[j].0 == y.0);
        K::lemma_order(x.0, y.0, x.0);
        K::lemma_order(y.0, x.0, y.0);
        assert(x.0 == y.0);
        lemma_remove_row::<K, B>(a, a.len() - 1);
        lemma_remove_row::<K, B>(b, b.len() - 1);
        assert(a.remove(a.len() - 1) =~= a.drop_last());
        assert(b.remove(b.len() - 1) =~= b.drop_last());
        law_rows_determined::<K, B>(a.drop_last(), b.drop_last());
        assert(a =~= a.drop_last().push(x));
        assert(b =~= b.drop_last().push(y));
    }
}

proof fn lemma_remove_row<K: TableKey, B>(a: Seq<(<K as View>::V, B)>, pos: int)
    requires
        in_order::<K, B>(a),
        0 <= pos < a.len(),
    ensures
        in_order::<K, B>(a.remove(pos)),
        row_map(a.remove(pos)) == row_map(a).remove(a[pos].0),
{
    let rest = a.remove(pos);
    let key = a[pos].0;
    assert forall|i: int, j: int| 0 <= i < j < rest.len() implies K::before(
        #[trigger] rest[i].0,
        #[trigger] rest[j].0,
    ) by {
        let x = if i < pos { i } else { i + 1 };
        let y = if j < pos { j } else { j + 1 };
        assert(rest[i] == a[x] && rest[j] == a[y]);
    }
    K::lemma_order(key, key, key);
    assert forall|k: <K as View>::V| row_map(rest).dom().contains(k) <==> row_map(a).remove(
        key,
    ).dom().contains(k) by {
        if exists|i: int| 0 <= i < rest.len() && #[trigger] rest[i].0 == k {
            let i = row_with(rest, k);
            let x = if i < pos { i } else { i + 1 };
            assert(a[x].0 == k);
            if x < pos {
                assert(K::before(a[x].0, a[pos].0));
            } else {
                assert(K::before(a[pos].0, a[x].0));
            }
        }
        if exists|i: int| 0 <= i < a.len() && #[trigger] a[i].0 == k {
            let i = row_with(a, k);
            if k != key {
                assert(rest[if i < pos { i } else { i - 1 }].0 == k);
            }
        }
    }
    assert forall|k: <K as View>::V| #[trigger] row_map(rest).dom().contains(k) implies row_map(
        rest,
    )[k] == row_map(a).remove(key)[k] by {
        let i = row_with(rest, k);
        let x = if i < pos { i } else { i + 1 };
        assert(rest[i] == a[x]);
        lemma_row_map::<K, B>(rest, i);
        lemma_row_map::<K, B>(a, x);
    }
    assert(row_map(rest) =~= row_map(a).remove(key));
}

/// What rows with distinct keys say of a key: a key has a value exactly if a row has it,
/// and then the value of that row.
pub proof fn law_row_map<A, B>(rows: Seq<(A, B)>, key: A, i: int)
    requires
        forall|j: int, k: int|
            0 <= j < rows.len() && 0 <= k < rows.len() && j != k ==> (#[trigger] rows[j]).0 != (
            #[trigger] rows[k]).0,
    ensures
        row_map(rows).dom().contains(key) <==> exists|j: int|
            0 <= j < rows.len() && (#[trigger] rows[j]).0 == key,
        0 <= i < rows.len() ==> row_map(rows)[rows[i].0] == rows[i].1,
{
    if 0 <= i < rows.len() {
        let k = row_with(rows, rows[i].0);
        assert(rows[i].0 == rows[i].0);
        assert(0 <= k < rows.len() && rows[k].0 == rows[i].0);
    }
    if row_map(rows).dom().contains(key) {
        let j = row_with(rows, key);
        assert(rows[j].0 == key);
    }
    if exists|j: int| 0 <= j < rows.len() && (#[trigger] rows[j]).0 == key {
        let j = choose|j: int| 0 <= j < rows.len() && (#[trigger] rows[j]).0 == key;
        assert(rows[j].0 == key);
    }
}

} // verus!
