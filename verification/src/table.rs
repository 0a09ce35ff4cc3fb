//! Tables: values under names, in the order of the names; and sets of names.

use vstd::prelude::*;
use vstd::string::*;

use crate::text::{before, is_before, law_order_of_strings, names, same};

verus! {

/// Values under names. No name occurs twice, and the entries stand in the order of their names.
#[derive(Debug, PartialEq)]
pub struct Table<'a, V> {
    pub entries: Vec<(&'a str, V)>,
}

/// Whether the entries stand in the order of their names, none of which occurs twice.
pub open spec fn is_sorted<T>(entries: Seq<(Seq<char>, T)>) -> bool {
    forall|i: int, j: int|
        0 <= i < j < entries.len() ==> is_before((#[trigger] entries[i]).0, (#[trigger] entries[j]).0)
}

/// Whether there is a value under `name`.
pub open spec fn is_key<T>(entries: Seq<(Seq<char>, T)>, name: Seq<char>) -> bool {
    exists|i: int| 0 <= i < entries.len() && (#[trigger] entries[i]).0 == name
}

/// Where `name` stands.
pub open spec fn place<T>(entries: Seq<(Seq<char>, T)>, name: Seq<char>) -> int {
    choose|i: int| 0 <= i < entries.len() && (#[trigger] entries[i]).0 == name
}

/// The value under `name`.
pub open spec fn lookup<T>(entries: Seq<(Seq<char>, T)>, name: Seq<char>) -> Option<T> {
    if is_key(entries, name) {
        Some(entries[place(entries, name)].1)
    } else {
        None
    }
}

/// How many entries have names that come before `name`.
pub open spec fn slot<T>(entries: Seq<(Seq<char>, T)>, name: Seq<char>) -> nat
    decreases entries.len(),
{
    if entries.len() == 0 {
        0
    } else {
        slot(entries.drop_last(), name) + (if is_before(entries.last().0, name) {
            1nat
        } else {
            0nat
        })
    }
}

/// The entries with `value` under `name`, in place of what stood there.
pub open spec fn inserted<T>(
    entries: Seq<(Seq<char>, T)>,
    name: Seq<char>,
    value: T,
) -> Seq<(Seq<char>, T)> {
    let i = slot(entries, name) as int;
    if is_key(entries, name) {
        entries.update(i, (name, value))
    } else {
        entries.insert(i, (name, value))
    }
}

/// In a sorted table, the entry at an index is what stands under its name.
pub proof fn lemma_lookup<T>(entries: Seq<(Seq<char>, T)>, i: int)
    requires
        is_sorted(entries),
        0 <= i < entries.len(),
    ensures
        lookup(entries, entries[i].0) == Some(entries[i].1),
{
    let name = entries[i].0;
    let j = place(entries, name);
    assert(is_key(entries, name));
    law_order_of_strings(name, name, name);
    assert(i == j);
}

/// What stands under a name stands at an index.
pub proof fn lemma_found<T>(entries: Seq<(Seq<char>, T)>, name: Seq<char>) -> (i: int)
    requires
        is_key(entries, name),
    ensures
        0 <= i < entries.len(),
        entries[i].0 == name,
        lookup(entries, name) == Some(entries[i].1),
{
    place(entries, name)
}

/// The entries of a table stand in the order of their names.
pub proof fn law_entries_are_in_order<T>(entries: Seq<(Seq<char>, T)>, i: int, j: int)
    requires
        is_sorted(entries),
        0 <= i < entries.len(),
        0 <= j < entries.len(),
    ensures
        i < j <==> is_before(entries[i].0, entries[j].0),
{
    law_order_of_strings(entries[i].0, entries[j].0, entries[i].0);
    if i == j {
        law_order_of_strings(entries[i].0, entries[i].0, entries[i].0);
    }
}

/// What is looked up in a sorted table is what stands there, and nothing else is.
pub proof fn law_lookup_finds_entries<T>(
    entries: Seq<(Seq<char>, T)>,
    name: Seq<char>,
    value: T,
)
    requires
        is_sorted(entries),
    ensures
        lookup(entries, name) == Some(value) <==> entries.contains((name, value)),
        lookup(entries, name) is None <==> forall|i: int|
            0 <= i < entries.len() ==> (#[trigger] entries[i]).0 != name,
        is_key(entries, name) <==> lookup(entries, name) is Some,
{
    if entries.contains((name, value)) {
        let i = choose|i: int| 0 <= i < entries.len() && entries[i] == (name, value);
        lemma_lookup(entries, i);
    }
    if is_key(entries, name) {
        let i = lemma_found(entries, name);
        assert(entries[i] == (name, lookup(entries, name)->0));
    }
}

/// The entries up to `i` and no others come before `name`.
proof fn lemma_slot<T>(entries: Seq<(Seq<char>, T)>, name: Seq<char>, i: int)
    requires
        0 <= i <= entries.len(),
        forall|j: int| 0 <= j < i ==> is_before((#[trigger] entries[j]).0, name),
        forall|j: int| i <= j < entries.len() ==> !is_before((#[trigger] entries[j]).0, name),
    ensures
        slot(entries, name) == i,
    decreases entries.len(),
{
    if entries.len() > 0 {
        let rest = entries.drop_last();
        if i == entries.len() {
            lemma_slot(rest, name, i - 1);
        } else {
            lemma_slot(rest, name, i);
        }
    }
}

impl<'a, V: View> View for Table<'a, V> {
    type V = Seq<(Seq<char>, V::V)>;

    open spec fn view(&self) -> Seq<(Seq<char>, V::V)> {
        self.entries@.map_values(|e: (&'a str, V)| (e.0@, e.1@))
    }
}

impl<'a, V: View> Table<'a, V> {
    /// Whether the entries stand in the order of their names.
    pub open spec fn wf(self) -> bool {
        is_sorted(self@)
    }

    /// A table of nothing.
    pub fn new() -> (r: Self)
        ensures
            r.wf(),
            r@ == Seq::<(Seq<char>, V::V)>::empty(),
    {
        let r: Self = Table { entries: Vec::new() };
        proof {
            assert(r@ =~= Seq::empty());
        }
        r
    }

    /// How many names there are.
    pub fn len(&self) -> (r: usize)
        ensures
            r == self@.len(),
    {
        self.entries.len()
    }

    /// Where `name` stands, or would stand, and whether it stands there.
    fn find(&self, name: &str) -> (r: (usize, bool))
        requires
            self.wf(),
        ensures
            r.0 <= self@.len(),
            r.0 == slot(self@, name@),
            forall|j: int| 0 <= j < r.0 ==> is_before((#[trigger] self@[j]).0, name@),
            forall|j: int| r.0 <= j < self@.len() ==> !is_before((#[trigger] self@[j]).0, name@),
            r.1 == is_key(self@, name@),
            r.1 ==> r.0 < self@.len() && self@[r.0 as int].0 == name@,
    {
        let mut i: usize = 0;
        while i < self.entries.len() && before(self.entries[i].0, name)
            invariant
                self.wf(),
                i <= self@.len(),
                self@.len() == self.entries@.len(),
                forall|j: int| 0 <= j < i ==> is_before((#[trigger] self@[j]).0, name@),
            ensures
                i <= self@.len(),
                forall|j: int| 0 <= j < i ==> is_before((#[trigger] self@[j]).0, name@),
                i < self@.len() ==> !is_before(self@[i as int].0, name@),
            decreases self.entries@.len() - i,
        {
            i += 1;
        }
        proof {
            assert forall|j: int| i <= j < self@.len() implies !is_before(
                (#[trigger] self@[j]).0,
                name@,
            ) by {
                law_order_of_strings(self@[i as int].0, self@[j].0, name@);
            }
            lemma_slot(self@, name@, i as int);
        }
        let found: bool = i < self.entries.len() && same(self.entries[i].0, name);
        proof {
            if found {
                assert(self@[i as int].0 == name@);
            } else if is_key(self@, name@) {
                let j = choose|j: int| 0 <= j < self@.len() && (#[trigger] self@[j]).0 == name@;
                law_order_of_strings(name@, name@, name@);
                assert(i < j);
                assert(is_before(self@[i as int].0, self@[j].0));
            }
        }
        (i, found)
    }

    /// Whether there is a value under `name`.
    pub fn contains_key(&self, name: &str) -> (r: bool)
        requires
            self.wf(),
        ensures
            r == is_key(self@, name@),
    {
        self.find(name).1
    }

    /// The value under `name`.
    pub fn get(&self, name: &str) -> (r: Option<&V>)
        requires
            self.wf(),
        ensures
            match r {
                Some(value) => lookup(self@, name@) == Some(value@) && exists|i: int|
                    0 <= i < self.entries@.len() && self.entries@[i].1 == *value
                        && (#[trigger] self@[i]) == (name@, value@),
                None => lookup(self@, name@) is None,
            },
    {
        let (i, found) = self.find(name);
        if found {
            proof {
                lemma_lookup(self@, i as int);
            }
            Some(&self.entries[i].1)
        } else {
            None
        }
    }

    /// Puts `value` under `name`, in place of what stood there.
    pub fn insert(&mut self, name: &'a str, value: V)
        requires
            old(self).wf(),
        ensures
            final(self).wf(),
            final(self)@ == inserted(old(self)@, name@, value@),
    {
        let ghost was = self@;
        let (i, found) = self.find(name);
        if found {
            self.entries.set(i, (name, value));
            proof {
                assert(self@ =~= inserted(was, name@, value@));
            }
        } else {
            self.entries.insert(i, (name, value));
            proof {
                assert(self@ =~= inserted(was, name@, value@));
                assert forall|j: int, k: int| 0 <= j < k < self@.len() implies is_before(
                    (#[trigger] self@[j]).0,
                    (#[trigger] self@[k]).0,
                ) by {
                    if k == i {
                    } else if j == i {
                        law_order_of_strings(name@, was[k - 1].0, name@);
                        if was[k - 1].0 == name@ {
                            assert(is_key(was, name@));
                        }
                    } else {
                        let j0 = if j < i { j } else { j - 1 };
                        let k0 = if k < i { k } else { k - 1 };
                        assert(self@[j] == was[j0] && self@[k] == was[k0]);
                    }
                }
            }
        }
    }
}

/// What stands in a table after something was put into it stood there before, or is that.
pub proof fn lemma_inserted<T>(entries: Seq<(Seq<char>, T)>, name: Seq<char>, value: T, i: int)
    requires
        is_sorted(entries),
        0 <= i < inserted(entries, name, value).len(),
    ensures
        inserted(entries, name, value)[i] == (name, value) || exists|j: int|
            0 <= j < entries.len() && (#[trigger] entries[j]) == inserted(entries, name, value)[i],
{
    lemma_slot_splits(entries, name);
    let at = slot(entries, name) as int;
    let more = inserted(entries, name, value);
    if is_key(entries, name) {
        let k = choose|k: int| 0 <= k < entries.len() && (#[trigger] entries[k]).0 == name;
        law_order_of_strings(name, name, name);
        assert(at <= k);
        if i != at {
            assert(entries[i] == more[i]);
        }
    } else if i < at {
        assert(entries[i] == more[i]);
    } else if i > at {
        assert(entries[i - 1] == more[i]);
    }
}

/// A table gives back what was put into it, and keeps what it held under other names.
pub proof fn law_lookup_after_insert<T>(
    entries: Seq<(Seq<char>, T)>,
    name: Seq<char>,
    value: T,
    other: Seq<char>,
)
    requires
        is_sorted(entries),
    ensures
        is_sorted(inserted(entries, name, value)),
        lookup(inserted(entries, name, value), name) == Some(value),
        other != name ==> lookup(inserted(entries, name, value), other) == lookup(entries, other),
{
    let i = slot(entries, name) as int;
    let more = inserted(entries, name, value);
    lemma_slot_splits(entries, name);
    if is_key(entries, name) {
        let k = choose|k: int| 0 <= k < entries.len() && (#[trigger] entries[k]).0 == name;
        law_order_of_strings(name, name, name);
        assert(k >= i);
        if k > i {
            assert(is_before(entries[i].0, entries[k].0));
        }
        assert(k == i);
        assert(is_sorted(more));
    } else {
        assert forall|j: int, k: int| 0 <= j < k < more.len() implies is_before(
            (#[trigger] more[j]).0,
            (#[trigger] more[k]).0,
        ) by {
            if k == i {
            } else if j == i {
                law_order_of_strings(name, entries[k - 1].0, name);
                if entries[k - 1].0 == name {
                    assert(is_key(entries, name));
                }
            } else {
                let j0 = if j < i { j } else { j - 1 };
                let k0 = if k < i { k } else { k - 1 };
                assert(more[j] == entries[j0] && more[k] == entries[k0]);
            }
        }
    }
    assert(more[i] == (name, value));
    lemma_lookup(more, i);
    if other != name {
        if is_key(entries, other) {
            let k = choose|k: int| 0 <= k < entries.len() && (#[trigger] entries[k]).0 == other;
            lemma_lookup(entries, k);
            let k1 = if is_key(entries, name) || k < i { k } else { k + 1 };
            assert(more[k1] == entries[k]);
            lemma_lookup(more, k1);
        } else if is_key(more, other) {
            let k = choose|k: int| 0 <= k < more.len() && (#[trigger] more[k]).0 == other;
            let k0 = if is_key(entries, name) || k < i { k } else { k - 1 };
            assert(entries[k0] == more[k]);
        }
    }
}

/// What has a name after all others in a table is put at its end.
pub proof fn lemma_inserted_last<T>(entries: Seq<(Seq<char>, T)>, name: Seq<char>, value: T)
    requires
        forall|j: int| 0 <= j < entries.len() ==> is_before((#[trigger] entries[j]).0, name),
    ensures
        !is_key(entries, name),
        inserted(entries, name, value) == entries.push((name, value)),
{
    lemma_slot(entries, name, entries.len() as int);
    law_order_of_strings(name, name, name);
    assert(inserted(entries, name, value) =~= entries.push((name, value)));
}

/// No more names come before a name than there are.
proof fn lemma_slot_bound<T>(entries: Seq<(Seq<char>, T)>, name: Seq<char>)
    ensures
        slot(entries, name) <= entries.len(),
    decreases entries.len(),
{
    if entries.len() > 0 {
        lemma_slot_bound(entries.drop_last(), name);
    }
}

/// A table grows by one when something is put into it under a new name.
pub proof fn lemma_inserted_len<T>(entries: Seq<(Seq<char>, T)>, name: Seq<char>, value: T)
    requires
        !is_key(entries, name),
    ensures
        inserted(entries, name, value).len() == entries.len() + 1,
{
    lemma_slot_bound(entries, name);
}

/// The names in a table after something was put into it are those before, and its own.
pub proof fn lemma_keys<T>(
    entries: Seq<(Seq<char>, T)>,
    name: Seq<char>,
    value: T,
    other: Seq<char>,
)
    requires
        is_sorted(entries),
    ensures
        is_key(inserted(entries, name, value), other) == (other == name || is_key(entries, other)),
{
    law_lookup_after_insert(entries, name, value, other);
    let more = inserted(entries, name, value);
    assert(is_key(more, name) == lookup(more, name) is Some);
    assert(is_key(more, other) == lookup(more, other) is Some);
    assert(is_key(entries, other) == lookup(entries, other) is Some);
}

/// The slot of a name parts the names before it from the others.
proof fn lemma_slot_splits<T>(entries: Seq<(Seq<char>, T)>, name: Seq<char>)
    requires
        is_sorted(entries),
    ensures
        slot(entries, name) <= entries.len(),
        forall|j: int|
            0 <= j < slot(entries, name) ==> is_before((#[trigger] entries[j]).0, name),
        forall|j: int|
            slot(entries, name) <= j < entries.len() ==> !is_before((#[trigger] entries[j]).0, name),
    decreases entries.len(),
{
    if entries.len() > 0 {
        let rest = entries.drop_last();
        let last = entries.last();
        assert forall|i: int, j: int| 0 <= i < j < rest.len() implies is_before(
            (#[trigger] rest[i]).0,
            (#[trigger] rest[j]).0,
        ) by {
            assert(rest[i] == entries[i] && rest[j] == entries[j]);
        }
        lemma_slot_splits(rest, name);
        assert forall|j: int| 0 <= j < rest.len() implies #[trigger] entries[j] == rest[j] by {}
        if is_before(last.0, name) {
            if slot(rest, name) < rest.len() {
                let j = slot(rest, name) as int;
                assert(is_before(entries[j].0, entries[entries.len() - 1].0));
                law_order_of_strings(entries[j].0, last.0, name);
            }
        }
    }
}

/// How many entries have names that are not among `inside`.
pub open spec fn outside<T>(entries: Seq<(Seq<char>, T)>, inside: Set<Seq<char>>) -> nat
    decreases entries.len(),
{
    if entries.len() == 0 {
        0
    } else {
        outside(entries.drop_last(), inside) + (if inside.contains(entries.last().0) {
            0nat
        } else {
            1nat
        })
    }
}

/// The more names are inside, the fewer are outside; and one fewer for a name that comes inside.
pub proof fn lemma_outside<T>(
    entries: Seq<(Seq<char>, T)>,
    less: Set<Seq<char>>,
    more: Set<Seq<char>>,
)
    requires
        less.subset_of(more),
    ensures
        outside(entries, more) <= outside(entries, less),
        (exists|i: int|
            0 <= i < entries.len() && more.contains((#[trigger] entries[i]).0) && !less.contains(
                entries[i].0,
            )) ==> outside(entries, more) < outside(entries, less),
    decreases entries.len(),
{
    if entries.len() > 0 {
        let rest = entries.drop_last();
        lemma_outside(rest, less, more);
        if exists|i: int|
            0 <= i < entries.len() && more.contains((#[trigger] entries[i]).0) && !less.contains(
                entries[i].0,
            ) {
            let i = choose|i: int|
                0 <= i < entries.len() && more.contains((#[trigger] entries[i]).0)
                    && !less.contains(entries[i].0);
            if i < rest.len() {
                assert(rest[i] == entries[i]);
            }
        }
    }
}

/// A set of names.
#[derive(Debug)]
pub struct Names<'a> {
    pub items: Vec<&'a str>,
}

impl<'a> View for Names<'a> {
    type V = Set<Seq<char>>;

    open spec fn view(&self) -> Set<Seq<char>> {
        names(self.items@).to_set()
    }
}

/// Whether `name` is one of `items`.
pub fn contains(items: &Vec<&str>, name: &str) -> (r: bool)
    ensures
        r == names(items@).contains(name@),
{
    let mut i: usize = 0;
    while i < items.len()
        invariant
            i <= items@.len(),
            forall|j: int| 0 <= j < i ==> (#[trigger] names(items@)[j]) != name@,
        decreases items@.len() - i,
    {
        if same(items[i], name) {
            proof {
                assert(names(items@)[i as int] == name@);
            }
            return true;
        }
        i += 1;
    }
    false
}

impl<'a> Names<'a> {
    /// Whether no name is held twice.
    pub open spec fn wf(self) -> bool {
        names(self.items@).no_duplicates()
    }

    /// The set of no names.
    pub fn new() -> (r: Self)
        ensures
            r.wf(),
            r@ == Set::<Seq<char>>::empty(),
    {
        let r: Names<'a> = Names { items: Vec::new() };
        proof {
            assert(r@ =~= Set::empty());
        }
        r
    }

    /// Whether `name` is in the set.
    pub fn contains(&self, name: &str) -> (r: bool)
        ensures
            r == self@.contains(name@),
    {
        contains(&self.items, name)
    }

    /// Puts `name` into the set.
    pub fn insert(&mut self, name: &'a str)
        requires
            old(self).wf(),
        ensures
            final(self).wf(),
            final(self)@ == old(self)@.insert(name@),
    {
        let ghost was = names(self.items@);
        if self.contains(name) {
            proof {
                assert(self@ =~= old(self)@.insert(name@));
            }
            return ;
        }
        self.items.push(name);
        proof {
            let now = names(self.items@);
            assert(now =~= was.push(name@));
            assert forall|n: Seq<char>| now.contains(n) implies was.contains(n) || n == name@ by {
                let i = choose|i: int| 0 <= i < now.len() && now[i] == n;
                if i < was.len() {
                    assert(was[i] == n);
                }
            }
            assert forall|n: Seq<char>| was.contains(n) || n == name@ implies now.contains(n) by {
                if n == name@ {
                    assert(now[was.len() as int] == n);
                } else {
                    let i = choose|i: int| 0 <= i < was.len() && was[i] == n;
                    assert(now[i] == n);
                }
            }
            assert(self@ =~= old(self)@.insert(name@));
        }
    }
}

} // verus!
