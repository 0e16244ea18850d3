//! Tables from names to values.
//!
//! What is put under a name last is what the name stands for.
use crate::text::{begins_with, join2};
use vstd::prelude::*;

verus! {

/// A table from names to values.
#[derive(Debug)]
pub struct Table<T> {
    /// What was put in, in that order; a later entry hides an earlier one of
    /// the same name.
    pub entries: Vec<(String, T)>,
}

/// The map a list of entries comes to.
pub open spec fn entered<V>(entries: Seq<(Seq<char>, V)>) -> Map<Seq<char>, V>
    decreases entries.len(),
{
    if entries.len() == 0 {
        Map::empty()
    } else {
        entered(entries.drop_last()).insert(entries.last().0, entries.last().1)
    }
}

impl<T: DeepView> DeepView for Table<T> {
    type V = Map<Seq<char>, T::V>;

    open spec fn deep_view(&self) -> Map<Seq<char>, T::V> {
        entered(self.entries.deep_view())
    }
}

/// The last entry of a name is what the map holds under it.
pub proof fn lemma_entered<V>(entries: Seq<(Seq<char>, V)>, name: Seq<char>, i: int)
    requires
        0 <= i < entries.len(),
        entries[i].0 == name,
        forall|j: int| i < j < entries.len() ==> (#[trigger] entries[j]).0 != name,
    ensures
        entered(entries).contains_key(name),
        entered(entries)[name] == entries[i].1,
    decreases entries.len(),
{
    if i < entries.len() - 1 {
        let front = entries.drop_last();
        assert forall|j: int| i < j < front.len() implies (#[trigger] front[j]).0 != name by {
            assert(front[j] == entries[j]);
        }
        assert(entries.last().0 != name);
        lemma_entered(front, name, i);
    }
}

/// A name that no entry has stands for nothing.
pub proof fn lemma_not_entered<V>(entries: Seq<(Seq<char>, V)>, name: Seq<char>)
    requires
        forall|j: int| 0 <= j < entries.len() ==> (#[trigger] entries[j]).0 != name,
    ensures
        !entered(entries).contains_key(name),
    decreases entries.len(),
{
    if entries.len() > 0 {
        let front = entries.drop_last();
        assert forall|j: int| 0 <= j < front.len() implies (#[trigger] front[j]).0 != name by {
            assert(front[j] == entries[j]);
        }
        assert(entries.last().0 != name);
        lemma_not_entered(front, name);
    }
}

/// Every entry's name stands for something.
pub proof fn lemma_is_entered<V>(entries: Seq<(Seq<char>, V)>, i: int)
    requires
        0 <= i < entries.len(),
    ensures
        entered(entries).contains_key(entries[i].0),
    decreases entries.len(),
{
    if i < entries.len() - 1 {
        lemma_is_entered(entries.drop_last(), i);
    }
}

/// A name that stands for something has an entry.
pub proof fn lemma_entry_of<V>(entries: Seq<(Seq<char>, V)>, name: Seq<char>) -> (i: int)
    requires
        entered(entries).contains_key(name),
    ensures
        0 <= i < entries.len(),
        entries[i].0 == name,
    decreases entries.len(),
{
    if entries.last().0 == name {
        entries.len() - 1
    } else {
        lemma_entry_of(entries.drop_last(), name)
    }
}

impl<T: DeepView> Table<T> {
    /// A table with nothing in it.
    pub fn new() -> (r: Self)
        ensures
            r.deep_view() == Map::<Seq<char>, T::V>::empty(),
            r.entries.len() == 0,
    {
        let out = Table { entries: Vec::new() };
        assert(out.entries.deep_view() =~= Seq::empty());
        out
    }

    /// What stands under a name.
    pub fn get(&self, name: &str) -> (r: Option<&T>)
        ensures
            match r {
                Some(value) => self.deep_view().contains_key(name@) && self.deep_view()[name@]
                    == value.deep_view(),
                None => !self.deep_view().contains_key(name@),
            },
    {
        let wanted: String = name.to_owned();
        let ghost all = self.entries.deep_view();
        let mut i: usize = self.entries.len();
        while i > 0
            invariant
                i <= self.entries.len(),
                wanted@ == name@,
                all == self.entries.deep_view(),
                forall|k: int| i <= k < all.len() ==> (#[trigger] all[k]).0 != name@,
            decreases i,
        {
            i = i - 1;
            if self.entries[i].0 == wanted {
                proof {
                    assert(all[i as int].0 == name@);
                    lemma_entered(all, name@, i as int);
                }
                return Some(&self.entries[i].1);
            }
        }
        proof {
            lemma_not_entered(all, name@);
        }
        None
    }

    /// Whether anything stands under a name.
    pub fn has(&self, name: &str) -> (r: bool)
        ensures
            r == self.deep_view().contains_key(name@),
    {
        self.get(name).is_some()
    }

    /// Put a value under a name.
    pub fn put(&mut self, name: String, value: T)
        ensures
            final(self).deep_view() == old(self).deep_view().insert(name@, value.deep_view()),
            final(self).entries@ == old(self).entries@.push((name, value)),
    {
        let ghost before = self.entries.deep_view();
        self.entries.push((name, value));
        assert(self.entries.deep_view() =~= before.push((name@, value.deep_view())));
        assert(self.entries.deep_view().drop_last() =~= before);
    }

    pub fn is_empty(&self) -> (r: bool)
        ensures
            r == (self.entries.len() == 0),
            r == (self.deep_view() == Map::<Seq<char>, T::V>::empty()),
    {
        proof {
            if self.entries.len() > 0 {
                let all = self.entries.deep_view();
                assert(entered(all).contains_key(all.last().0));
            } else {
                assert(self.entries.deep_view() =~= Seq::empty());
            }
        }
        self.entries.len() == 0
    }
}

/// A table under another: what the second says of a name is what holds.
pub open spec fn overlaid<V>(under: Map<Seq<char>, V>, over: Map<Seq<char>, V>) -> Map<
    Seq<char>,
    V,
> {
    under.union_prefer_right(over)
}

/// Every name of a table with a prefix in front of it.
pub open spec fn all_prefixed<V>(table: Map<Seq<char>, V>, prefix: Seq<char>) -> Map<Seq<char>, V> {
    Map::new(
        |name: Seq<char>|
            begins_with(name, prefix) && table.contains_key(name.skip(prefix.len() as int)),
        |name: Seq<char>| table[name.skip(prefix.len() as int)],
    )
}

/// One table laid over another.
pub fn overlay<T: DeepView + Copy>(under: &Table<T>, over: &Table<T>) -> (r: Table<T>)
    ensures
        r.deep_view() == overlaid(under.deep_view(), over.deep_view()),
{
    let ghost low = under.entries.deep_view();
    let ghost high = over.entries.deep_view();
    let mut out: Table<T> = Table::new();
    let mut i: usize = 0;
    assert(low.take(0) =~= Seq::empty());
    while i < under.entries.len()
        invariant
            i <= under.entries.len(),
            low == under.entries.deep_view(),
            out.deep_view() == entered(low.take(i as int)),
        decreases under.entries.len() - i,
    {
        assert(low[i as int] == under.entries@[i as int].deep_view());
        assert(low.take(i + 1).drop_last() =~= low.take(i as int));
        out.put(under.entries[i].0.clone(), under.entries[i].1);
        i = i + 1;
    }
    assert(low.take(i as int) =~= low);
    assert(high.take(0) =~= Seq::empty());
    assert(out.deep_view() =~= overlaid(entered(low), entered(high.take(0))));
    let mut i: usize = 0;
    while i < over.entries.len()
        invariant
            i <= over.entries.len(),
            high == over.entries.deep_view(),
            out.deep_view() == overlaid(entered(low), entered(high.take(i as int))),
        decreases over.entries.len() - i,
    {
        assert(high[i as int] == over.entries@[i as int].deep_view());
        assert(high.take(i + 1).drop_last() =~= high.take(i as int));
        out.put(over.entries[i].0.clone(), over.entries[i].1);
        assert(out.deep_view() =~= overlaid(entered(low), entered(high.take(i + 1))));
        i = i + 1;
    }
    assert(high.take(i as int) =~= high);
    out
}

/// A table with a prefix in front of every name.
pub fn prefix_all<T: DeepView + Copy>(table: &Table<T>, prefix: &str) -> (r: Table<T>)
    ensures
        r.deep_view() == all_prefixed(table.deep_view(), prefix@),
{
    let ghost all = table.entries.deep_view();
    let mut out: Table<T> = Table::new();
    let mut i: usize = 0;
    assert(all.take(0) =~= Seq::empty());
    assert(out.deep_view() =~= all_prefixed(entered(all.take(0)), prefix@));
    while i < table.entries.len()
        invariant
            i <= table.entries.len(),
            all == table.entries.deep_view(),
            out.deep_view() == all_prefixed(entered(all.take(i as int)), prefix@),
        decreases table.entries.len() - i,
    {
        assert(all[i as int] == table.entries@[i as int].deep_view());
        assert(all.take(i + 1).drop_last() =~= all.take(i as int));
        let ghost before = out.deep_view();
        let ghost local = table.entries@[i as int].0@;
        let name = join2(prefix, table.entries[i].0.as_str());
        let ghost full = name@;
        out.put(name, table.entries[i].1);
        proof {
            assert(full.skip(prefix@.len() as int) =~= local);
            assert(full.take(prefix@.len() as int) =~= prefix@);
            assert forall|n: Seq<char>| begins_with(n, prefix@) && n.skip(prefix@.len() as int) == local implies n == full by {
                assert(n =~= n.take(prefix@.len() as int) + n.skip(prefix@.len() as int));
            }
            assert(out.deep_view() =~= all_prefixed(entered(all.take(i + 1)), prefix@));
        }
        i = i + 1;
    }
    assert(all.take(i as int) =~= all);
    out
}

}
