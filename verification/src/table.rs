//! Tables with a primary key.

use vstd::prelude::*;

use crate::text;

verus! {

/// What a row of a table is found by.
pub trait RowKey: Sized {
    /// The key as it compares.
    spec fn name(self) -> Seq<Seq<char>>;

    fn same(&self, other: &Self) -> (r: bool)
        ensures
            r == (self.name() == other.name()),
    ;

}

/// Which rows of a table stay.
pub trait Keeps<K: RowKey, V> {
    spec fn stays(&self, name: Seq<Seq<char>>, value: V) -> bool;

    fn keeps(&self, key: &K, value: &V) -> (r: bool)
        ensures
            r == self.stays(key.name(), *value),
    ;
}

/// A title, as tables about titles are keyed.
#[derive(Debug, PartialEq, Eq)]
pub struct TitleKey {
    pub key: String,
}

impl RowKey for TitleKey {
    open spec fn name(self) -> Seq<Seq<char>> {
        seq![self.key@]
    }

    fn same(&self, other: &Self) -> (r: bool) {
        let r = text::same_text(self.key.as_str(), other.key.as_str());
        assert(self.name() == other.name() <==> self.key@ == other.key@) by {
            assert(self.name()[0] == self.key@ && other.name()[0] == other.key@);
        }
        r
    }
}

/// A file, as tables about files are keyed.
#[derive(Debug, PartialEq, Eq)]
pub struct FileKey {
    pub share_id: String,
    pub link_id: String,
}

impl RowKey for FileKey {
    open spec fn name(self) -> Seq<Seq<char>> {
        seq![self.share_id@, self.link_id@]
    }

    fn same(&self, other: &Self) -> (r: bool) {
        let r = text::same_text(self.share_id.as_str(), other.share_id.as_str())
            && text::same_text(self.link_id.as_str(), other.link_id.as_str());
        proof {
            let a = self.name();
            let b = other.name();
            assert(a[0] == self.share_id@ && a[1] == self.link_id@);
            assert(b[0] == other.share_id@ && b[1] == other.link_id@);
            if r {
                assert(a =~= b);
            }
        }
        r
    }
}

/// What a list of rows holds, by key.
pub open spec fn held<K: RowKey, V>(rows: Seq<(K, V)>) -> Map<Seq<Seq<char>>, V>
    decreases rows.len(),
{
    if rows.len() == 0 {
        Map::empty()
    } else {
        held(rows.drop_last()).insert(rows.last().0.name(), rows.last().1)
    }
}

/// No two rows have the same key.
pub open spec fn keyed_apart<K: RowKey, V>(rows: Seq<(K, V)>) -> bool {
    forall|i: int, j: int|
        #![trigger rows[i], rows[j]]
        0 <= i < j < rows.len() ==> rows[i].0.name() != rows[j].0.name()
}

/// Rows in the order they first came, one for each key.
#[derive(Debug)]
pub struct Table<K, V> {
    rows: Vec<(K, V)>,
}

impl<K: RowKey, V> View for Table<K, V> {
    type V = Map<Seq<Seq<char>>, V>;

    closed spec fn view(&self) -> Map<Seq<Seq<char>>, V> {
        held(self.rows@)
    }
}

/// What rows hold is what they say, and nothing else.
pub proof fn lemma_held<K: RowKey, V>(rows: Seq<(K, V)>)
    ensures
        forall|k: Seq<Seq<char>>|
            #[trigger] held(rows).dom().contains(k) <==> exists|i: int|
                0 <= i < rows.len() && (#[trigger] rows[i]).0.name() == k,
        keyed_apart(rows) ==> forall|i: int|
            0 <= i < rows.len() ==> held(rows)[(#[trigger] rows[i]).0.name()] == rows[i].1,
    decreases rows.len(),
{
    if rows.len() > 0 {
        let front = rows.drop_last();
        let last = rows.last();
        lemma_held(front);
        assert forall|k: Seq<Seq<char>>|
            #[trigger] held(rows).dom().contains(k) <==> exists|i: int|
                0 <= i < rows.len() && (#[trigger] rows[i]).0.name() == k by {
            if held(front).dom().contains(k) {
                let i = choose|i: int| 0 <= i < front.len() && (#[trigger] front[i]).0.name() == k;
                assert(rows[i].0.name() == k);
            }
            if k == last.0.name() {
                assert(rows[rows.len() - 1].0.name() == k);
            }
            if exists|i: int| 0 <= i < rows.len() && (#[trigger] rows[i]).0.name() == k {
                let i = choose|i: int| 0 <= i < rows.len() && (#[trigger] rows[i]).0.name() == k;
                if i < front.len() {
                    assert(front[i].0.name() == k);
                }
            }
        }
        if keyed_apart(rows) {
            assert(keyed_apart(front)) by {
                assert forall|i: int, j: int|
                    #![trigger front[i], front[j]]
                    0 <= i < j < front.len() implies front[i].0.name() != front[j].0.name() by {
                    assert(front[i] == rows[i] && front[j] == rows[j]);
                }
            }
            assert forall|i: int| 0 <= i < rows.len() implies held(
                rows,
            )[(#[trigger] rows[i]).0.name()] == rows[i].1 by {
                if i < front.len() {
                    assert(front[i] == rows[i]);
                    assert(rows[i].0.name() != rows[rows.len() - 1].0.name());
                }
            }
        }
    }
}

impl<K: RowKey, V> Table<K, V> {
    /// One row for each key.
    pub closed spec fn wf(&self) -> bool {
        keyed_apart(self.rows@)
    }

    pub fn new() -> (r: Self)
        ensures
            r.wf(),
            r@ == Map::<Seq<Seq<char>>, V>::empty(),
    {
        Table { rows: Vec::new() }
    }

    fn position(&self, key: &K) -> (r: Option<usize>)
        ensures
            match r {
                Some(i) => i < self.rows@.len() && self.rows@[i as int].0.name() == key.name(),
                None => forall|i: int|
                    0 <= i < self.rows@.len() ==> (#[trigger] self.rows@[i]).0.name()
                        != key.name(),
            },
    {
        let mut i: usize = 0;
        while i < self.rows.len()
            invariant
                i <= self.rows@.len(),
                forall|k: int|
                    0 <= k < i ==> (#[trigger] self.rows@[k]).0.name() != key.name(),
            decreases self.rows.len() - i,
        {
            if self.rows[i].0.same(key) {
                return Some(i);
            }
            i += 1;
        }
        None
    }

    /// The row of a key.
    pub fn get(&self, key: &K) -> (r: Option<&V>)
        requires
            self.wf(),
        ensures
            match r {
                Some(value) => self@.dom().contains(key.name()) && *value == self@[key.name()],
                None => !self@.dom().contains(key.name()),
            },
    {
        proof {
            lemma_held(self.rows@);
        }
        match self.position(key) {
            Some(i) => Some(&self.rows[i].1),
            None => None,
        }
    }

    /// Put a row in, in place of the one that has its key.
    pub fn set(&mut self, key: K, value: V)
        requires
            old(self).wf(),
        ensures
            final(self).wf(),
            final(self)@ == old(self)@.insert(key.name(), value),
    {
        proof {
            lemma_held(self.rows@);
        }
        let ghost before = self.rows@;
        match self.position(&key) {
            Some(i) => {
                self.rows[i] = (key, value);
                proof {
                    let after = self.rows@;
                    assert(after =~= before.update(i as int, (key, value)));
                    assert forall|a: int, b: int|
                        #![trigger after[a], after[b]]
                        0 <= a < b < after.len() implies after[a].0.name() != after[b].0.name() by {
                        assert(before[a].0.name() != before[b].0.name());
                    }
                    lemma_held(after);
                    assert(held(after) =~= held(before).insert(key.name(), value)) by {
                        lemma_same_keys(before, after, i as int);
                    }
                }
            },
            None => {
                self.rows.push((key, value));
                assert(self.rows@.drop_last() =~= before);
                assert forall|a: int, b: int|
                    #![trigger self.rows@[a], self.rows@[b]]
                    0 <= a < b < self.rows@.len() implies self.rows@[a].0.name()
                    != self.rows@[b].0.name() by {
                    assert(self.rows@[a] == before[a]);
                    if b < before.len() {
                        assert(self.rows@[b] == before[b]);
                    }
                }
            },
        }
    }

    /// Keep the rows that `keeper` keeps; the others go.
    pub fn retain<P: Keeps<K, V>>(&mut self, keeper: &P)
        requires
            old(self).wf(),
        ensures
            final(self).wf(),
            final(self)@ == sifted(old(self)@, *keeper),
    {
        let ghost before = self.rows@;
        proof {
            lemma_held(before);
        }
        let mut kept: Vec<(K, V)> = Vec::new();
        let mut rows: Vec<(K, V)> = Vec::new();
        std::mem::swap(&mut rows, &mut self.rows);
        let ghost mut from: Seq<int> = Seq::empty();
        for row in iter: rows
            invariant
                iter.seq() == before,
                keyed_apart(before),
                kept@.len() == from.len(),
                forall|i: int|
                    0 <= i < from.len() ==> 0 <= #[trigger] from[i] < iter.index() && kept@[i]
                        == before[from[i]] && keeper.stays(
                        before[from[i]].0.name(),
                        before[from[i]].1,
                    ),
                forall|i: int, j: int|
                    0 <= i < j < from.len() ==> #[trigger] from[i] < #[trigger] from[j],
                forall|k: int|
                    0 <= k < iter.index() && keeper.stays(
                        (#[trigger] before[k]).0.name(),
                        before[k].1,
                    ) ==> from.contains(k),
        {
            let ghost n = iter.index() as int;
            let stays = keeper.keeps(&row.0, &row.1);
            assert(stays == keeper.stays(before[n].0.name(), before[n].1));
            if stays {
                let ghost was = from;
                proof {
                    from = from.push(n);
                    assert(from[from.len() - 1] == n);
                    assert forall|k: int| was.contains(k) implies from.contains(k) by {
                        let i = choose|i: int| 0 <= i < was.len() && was[i] == k;
                        assert(from[i] == k);
                    }
                }
                kept.push(row);
            }
        }
        self.rows = kept;
        proof {
            let after = self.rows@;
            assert forall|a: int, b: int|
                #![trigger after[a], after[b]]
                0 <= a < b < after.len() implies after[a].0.name() != after[b].0.name() by {
                assert(from[a] < from[b]);
                assert(before[from[a]].0.name() != before[from[b]].0.name());
            }
            lemma_held(after);
            let want = sifted(held(before), *keeper);
            assert forall|k: Seq<Seq<char>>| #[trigger] held(after).dom().contains(k) implies
                want.dom().contains(k) && held(after)[k] == want[k] by {
                let i = choose|i: int| 0 <= i < after.len() && (#[trigger] after[i]).0.name() == k;
                assert(after[i] == before[from[i]]);
                assert(held(before)[before[from[i]].0.name()] == before[from[i]].1);
            }
            assert forall|k: Seq<Seq<char>>| #[trigger] want.dom().contains(k) implies held(
                after,
            ).dom().contains(k) by {
                let at = choose|i: int|
                    0 <= i < before.len() && (#[trigger] before[i]).0.name() == k;
                assert(held(before)[before[at].0.name()] == before[at].1);
                assert(from.contains(at));
                let i = choose|i: int| 0 <= i < from.len() && from[i] == at;
                assert(after[i].0.name() == before[at].0.name());
            }
            assert(held(after) =~= want);
        }
    }

    /// The rows, in the order they first came: one for each key, and together
    /// all that the table holds.
    pub fn rows(&self) -> (r: &Vec<(K, V)>)
        requires
            self.wf(),
        ensures
            keyed_apart(r@),
            held(r@) == self@,
    {
        &self.rows
    }
}

/// What is left of a table's rows.
pub open spec fn sifted<K: RowKey, V, P: Keeps<K, V>>(
    rows: Map<Seq<Seq<char>>, V>,
    keeper: P,
) -> Map<Seq<Seq<char>>, V> {
    Map::new(|k: Seq<Seq<char>>| rows.dom().contains(k) && keeper.stays(k, rows[k]), |k| rows[k])
}

/// Keeps every row but that of one key.
#[derive(Debug, PartialEq, Eq)]
pub struct AllBut<K> {
    pub key: K,
}

impl<K: RowKey, V> Keeps<K, V> for AllBut<K> {
    open spec fn stays(&self, name: Seq<Seq<char>>, value: V) -> bool {
        name != self.key.name()
    }

    fn keeps(&self, key: &K, value: &V) -> (r: bool) {
        !key.same(&self.key)
    }
}

/// Keeps the rows about files outside one share.
#[derive(Debug, PartialEq, Eq)]
pub struct OutsideShare {
    pub share_id: String,
}

impl<V> Keeps<FileKey, V> for OutsideShare {
    open spec fn stays(&self, name: Seq<Seq<char>>, value: V) -> bool {
        name[0] != self.share_id@
    }

    fn keeps(&self, key: &FileKey, value: &V) -> (r: bool) {
        !text::same_text(key.share_id.as_str(), self.share_id.as_str())
    }
}

proof fn lemma_same_keys<K: RowKey, V>(before: Seq<(K, V)>, after: Seq<(K, V)>, at: int)
    requires
        keyed_apart(before),
        keyed_apart(after),
        0 <= at < before.len(),
        after.len() == before.len(),
        after[at].0.name() == before[at].0.name(),
        forall|i: int| 0 <= i < before.len() && i != at ==> after[i] == before[i],
    ensures
        held(after) =~= held(before).insert(after[at].0.name(), after[at].1),
{
    lemma_held(before);
    lemma_held(after);
    let other = held(before).insert(after[at].0.name(), after[at].1);
    assert forall|k: Seq<Seq<char>>| #[trigger] held(after).dom().contains(k) <==> other.dom().contains(
        k,
    ) by {
        if held(after).dom().contains(k) {
            let i = choose|i: int| 0 <= i < after.len() && (#[trigger] after[i]).0.name() == k;
            assert(before[i].0.name() == k);
        }
        if held(before).dom().contains(k) {
            let i = choose|i: int| 0 <= i < before.len() && (#[trigger] before[i]).0.name() == k;
            assert(after[i].0.name() == k);
        }
        assert(after[at].0.name() == before[at].0.name());
    }
    assert forall|k: Seq<Seq<char>>| #[trigger] held(after).dom().contains(k) implies held(
        after,
    )[k] == other[k] by {
        let i = choose|i: int| 0 <= i < after.len() && (#[trigger] after[i]).0.name() == k;
        assert(held(after)[after[i].0.name()] == after[i].1);
        if i != at {
            assert(after[i] == before[i]);
            assert(held(before)[before[i].0.name()] == before[i].1);
            if i < at {
                assert(after[i].0.name() != after[at].0.name());
            } else {
                assert(after[at].0.name() != after[i].0.name());
            }
        }
    }
}

/// Whether a list is what a table holds, as far as `shown` says, each row read
/// as `reads` says: one entry for each key.
pub open spec fn lists<K: RowKey, V, W>(
    rows: Map<Seq<Seq<char>>, V>,
    list: Seq<(K, W)>,
    shown: spec_fn(Seq<Seq<char>>, V) -> bool,
    reads: spec_fn(Seq<Seq<char>>, V, W) -> bool,
) -> bool {
    &&& forall|i: int, j: int|
        #![trigger list[i], list[j]]
        0 <= i < j < list.len() ==> list[i].0.name() != list[j].0.name()
    &&& forall|i: int|
        0 <= i < list.len() ==> {
            let name = (#[trigger] list[i]).0.name();
            rows.dom().contains(name) && shown(name, rows[name]) && reads(
                name,
                rows[name],
                list[i].1,
            )
        }
    &&& forall|k: Seq<Seq<char>>| #[trigger]
        rows.dom().contains(k) && shown(k, rows[k]) ==> names(list, k)
}

/// Whether a list has an entry of this key.
pub open spec fn names<K: RowKey, W>(list: Seq<(K, W)>, name: Seq<Seq<char>>) -> bool {
    exists|i: int| 0 <= i < list.len() && (#[trigger] list[i]).0.name() == name
}

/// One more row, listed where it is shown.
pub proof fn lemma_lists_step<K: RowKey, V, W>(
    rows: Seq<(K, V)>,
    n: int,
    list: Seq<(K, W)>,
    more: Seq<(K, W)>,
    shown: spec_fn(Seq<Seq<char>>, V) -> bool,
    reads: spec_fn(Seq<Seq<char>>, V, W) -> bool,
)
    requires
        keyed_apart(rows),
        0 <= n < rows.len(),
        lists(held(rows.take(n)), list, shown, reads),
        if shown(rows[n].0.name(), rows[n].1) {
            &&& more.len() == list.len() + 1
            &&& more.drop_last() == list
            &&& more.last().0.name() == rows[n].0.name()
            &&& reads(rows[n].0.name(), rows[n].1, more.last().1)
        } else {
            more == list
        },
    ensures
        lists(held(rows.take(n + 1)), more, shown, reads),
{
    let front = rows.take(n);
    let all = rows.take(n + 1);
    assert(all.drop_last() =~= front);
    assert(all.last() == rows[n]);
    lemma_held(front);
    let name = rows[n].0.name();
    assert(!held(front).dom().contains(name)) by {
        if held(front).dom().contains(name) {
            let i = choose|i: int| 0 <= i < front.len() && (#[trigger] front[i]).0.name() == name;
            assert(rows[i].0.name() != rows[n].0.name());
        }
    }
    let m = held(all);
    assert forall|i: int| 0 <= i < list.len() implies more[i] == #[trigger] list[i] by {
        if shown(name, rows[n].1) {
            assert(more.drop_last()[i] == more[i]);
        }
    }
    assert forall|i: int| 0 <= i < more.len() implies {
        let at = (#[trigger] more[i]).0.name();
        m.dom().contains(at) && shown(at, m[at]) && reads(at, m[at], more[i].1)
    } by {
        if i < list.len() {
            assert(more[i] == list[i]);
        }
    }
    assert forall|i: int, j: int|
        #![trigger more[i], more[j]]
        0 <= i < j < more.len() implies more[i].0.name() != more[j].0.name() by {
        assert(more[i] == list[i]);
        if j < list.len() {
            assert(more[j] == list[j]);
        }
    }
    assert forall|k: Seq<Seq<char>>| #[trigger] m.dom().contains(k) && shown(k, m[k]) implies names(
        more,
        k,
    ) by {
        if k == name {
            assert(more[more.len() - 1].0.name() == k);
        } else {
            assert(held(front).dom().contains(k));
            assert(names(list, k));
            let i = choose|i: int| 0 <= i < list.len() && (#[trigger] list[i]).0.name() == k;
            assert(more[i].0.name() == k);
        }
    }
}

impl<K: RowKey, V> Table<K, V> {
    /// A table of these rows; where two have the same key, the later one.
    pub fn from_rows(rows: Vec<(K, V)>) -> (r: Self)
        ensures
            r.wf(),
            r@ == held(rows@),
    {
        let mut table = Table::new();
        assert(rows@.take(0) =~= Seq::empty());
        for row in iter: rows
            invariant
                iter.seq() == rows@,
                table.wf(),
                table@ == held(rows@.take(iter.index() as int)),
        {
            let ghost n = iter.index() as int;
            assert(rows@.take(n + 1).drop_last() =~= rows@.take(n));
            assert(rows@.take(n + 1).last() == row);
            table.set(row.0, row.1);
        }
        assert(rows@.take(rows@.len() as int) =~= rows@);
        table
    }
}

} // verus!
