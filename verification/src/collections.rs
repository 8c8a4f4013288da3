//! Collections keyed by identifier or by name.

use std::collections::BTreeMap;
use vstd::prelude::*;

use crate::text::{holds_text, same_text};

verus! {

broadcast use vstd::std_specs::btree::group_btree_axioms;

/// Strictly increasing.
pub open spec fn ascending(s: Seq<u128>) -> bool {
    forall|i: int, j: int| 0 <= i < j < s.len() ==> s[i] < s[j]
}

/// The elements of a finite set, in increasing order.
pub open spec fn sorted(keys: Set<u128>) -> Seq<u128> {
    choose|s: Seq<u128>| ascending(s) && s.to_set() == keys
}

/// Two increasing sequences with the same elements are the same.
pub proof fn lemma_ascending_unique(a: Seq<u128>, b: Seq<u128>)
    requires
        ascending(a),
        ascending(b),
        a.to_set() == b.to_set(),
    ensures
        a == b,
    decreases a.len(),
{
    assert forall|x: u128| a.contains(x) <==> b.contains(x) by {
        assert(a.to_set().contains(x) <==> a.contains(x));
        assert(b.to_set().contains(x) <==> b.contains(x));
    }
    if a.len() == 0 {
        if b.len() > 0 {
            assert(b.contains(b[0]));
        }
        assert(a =~= b);
    } else {
        assert(a.contains(a.last()));
        let i = choose|i: int| 0 <= i < b.len() && b[i] == a.last();
        assert(b.contains(b.last()));
        let j = choose|j: int| 0 <= j < a.len() && a[j] == b.last();
        assert(a.last() == b.last());
        let x = a.drop_last();
        let y = b.drop_last();
        assert forall|v: u128| x.to_set().contains(v) <==> y.to_set().contains(v) by {
            if x.contains(v) {
                let k = choose|k: int| 0 <= k < x.len() && x[k] == v;
                assert(a[k] == v);
                assert(b.contains(v));
                let l = choose|l: int| 0 <= l < b.len() && b[l] == v;
                assert(y[l] == v);
            }
            if y.contains(v) {
                let k = choose|k: int| 0 <= k < y.len() && y[k] == v;
                assert(b[k] == v);
                assert(a.contains(v));
                let l = choose|l: int| 0 <= l < a.len() && a[l] == v;
                assert(x[l] == v);
            }
        }
        assert(x.to_set() =~= y.to_set());
        lemma_ascending_unique(x, y);
        assert(a =~= x.push(a.last()));
        assert(b =~= y.push(b.last()));
    }
}

/// An increasing sequence takes one more value.
proof fn lemma_insert_ascending(s: Seq<u128>, x: u128) -> (t: Seq<u128>)
    requires
        ascending(s),
        !s.contains(x),
    ensures
        ascending(t),
        t.to_set() == s.to_set().insert(x),
    decreases s.len(),
{
    if s.len() == 0 || s.last() < x {
        let t = s.push(x);
        assert forall|v: u128| t.to_set().contains(v) <==> s.to_set().insert(x).contains(v) by {
            if s.contains(v) {
                let i = choose|i: int| 0 <= i < s.len() && s[i] == v;
                assert(t[i] == v);
            }
            assert(t[s.len() as int] == x);
        }
        assert(t.to_set() =~= s.to_set().insert(x));
        t
    } else {
        let shorter = s.drop_last();
        assert(s.contains(s.last()));
        let rest = lemma_insert_ascending(shorter, x);
        let t = rest.push(s.last());
        assert forall|v: u128| rest.contains(v) <==> shorter.contains(v) || v == x by {
            assert(rest.to_set().contains(v) <==> shorter.to_set().insert(x).contains(v));
        }
        assert forall|i: int| 0 <= i < rest.len() implies #[trigger] rest[i] < s.last() by {
            assert(rest.contains(rest[i]));
        }
        assert forall|v: u128| t.to_set().contains(v) <==> s.to_set().insert(x).contains(v) by {
            if rest.contains(v) {
                let i = choose|i: int| 0 <= i < rest.len() && rest[i] == v;
                assert(t[i] == v);
            }
            if s.contains(v) {
                let i = choose|i: int| 0 <= i < s.len() && s[i] == v;
                if i < s.len() - 1 {
                    assert(shorter[i] == v);
                }
            }
            assert(t[rest.len() as int] == s.last());
        }
        assert(t.to_set() =~= s.to_set().insert(x));
        t
    }
}

/// The elements of a finite set can be put in increasing order.
proof fn lemma_has_order(keys: Set<u128>) -> (s: Seq<u128>)
    requires
        keys.finite(),
    ensures
        ascending(s),
        s.to_set() == keys,
    decreases keys.len(),
{
    if keys.is_empty() {
        let s = Seq::<u128>::empty();
        assert(s.to_set() =~= keys);
        s
    } else {
        let x = keys.choose();
        let rest = lemma_has_order(keys.remove(x));
        assert(!rest.contains(x)) by {
            assert(rest.to_set().contains(x) <==> rest.contains(x));
        }
        assert(keys.remove(x).insert(x) =~= keys);
        lemma_insert_ascending(rest, x)
    }
}

/// There are finitely many identifiers.
pub proof fn lemma_identifiers_are_finite(keys: Set<u128>)
    ensures
        keys.finite(),
{
    let range = vstd::set_lib::set_int_range(0, u128::MAX + 1);
    vstd::set_lib::lemma_int_range(0, u128::MAX + 1);
    let all = range.map(|i: int| i as u128);
    range.lemma_map_finite(|i: int| i as u128);
    assert forall|k: u128| keys.contains(k) implies all.contains(k) by {
        assert(range.contains(k as int));
    }
    vstd::set_lib::lemma_set_subset_finite(all, keys);
}

/// The elements of a set of identifiers in increasing order are just those.
pub proof fn lemma_sorted(keys: Set<u128>)
    ensures
        ascending(sorted(keys)),
        sorted(keys).to_set() == keys,
        forall|k: u128| #[trigger] keys.contains(k) <==> sorted(keys).contains(k),
{
    lemma_identifiers_are_finite(keys);
    let s = lemma_has_order(keys);
    assert(ascending(s) && s.to_set() == keys);
    assert forall|k: u128| #[trigger] keys.contains(k) <==> sorted(keys).contains(k) by {
        assert(sorted(keys).to_set().contains(k) <==> sorted(keys).contains(k));
    }
}

/// The views of the values of a map.
pub open spec fn modeled<V: View>(m: Map<u128, V>) -> Map<u128, V::V> {
    Map::new(|k: u128| m.contains_key(k), |k: u128| m[k]@)
}

/// The keys of a map, in increasing order.
pub fn keys_of<V>(map: &BTreeMap<u128, V>) -> (keys: Vec<u128>)
    ensures
        ascending(keys@),
        keys@.to_set() == map@.dom(),
        keys@ == sorted(map@.dom()),
{
    broadcast use vstd::laws_cmp::group_laws_cmp;

    let mut keys: Vec<u128> = Vec::new();
    let ghost all = vstd::std_specs::iter::IteratorSpec::remaining(&map.keys());
    for key in iter: map.keys()
        invariant
            all == vstd::std_specs::iter::IteratorSpec::remaining(&map.keys()),
            iter.seq() == all,
            keys@.len() == iter.index(),
            forall|i: int| 0 <= i < keys@.len() ==> keys@[i] == *iter.seq()[i],
    {
        keys.push(*key);
    }
    proof {
        assert(keys@ =~= all.unref());
        assert forall|i: int, j: int| 0 <= i < j < keys@.len() implies keys@[i] < keys@[j] by {
            assert(vstd::std_specs::cmp::OrdSpec::cmp_spec(&all[i], &all[j]) is Less);
        }
        assert(ascending(keys@) && keys@.to_set() == map@.dom());
        let s = sorted(map@.dom());
        lemma_ascending_unique(keys@, s);
    }
    keys
}

/// One more item is kept by a filter, or not.
pub proof fn lemma_filter_step<T>(s: Seq<T>, keep: spec_fn(T) -> bool, i: int)
    requires
        0 <= i < s.len(),
    ensures
        s.take(i + 1).filter(keep) == if keep(s[i]) {
            s.take(i).filter(keep).push(s[i])
        } else {
            s.take(i).filter(keep)
        },
{
    reveal(Seq::filter);
    assert(s.take(i + 1).drop_last() =~= s.take(i));
}

pub broadcast proof fn lemma_modeled_insert<V: View>(m: Map<u128, V>, k: u128, v: V)
    ensures
        #[trigger] modeled(m.insert(k, v)) == modeled(m).insert(k, v@),
{
    assert(modeled(m.insert(k, v)) =~= modeled(m).insert(k, v@));
}

pub broadcast proof fn lemma_modeled_remove<V: View>(m: Map<u128, V>, k: u128)
    ensures
        #[trigger] modeled(m.remove(k)) == modeled(m).remove(k),
{
    assert(modeled(m.remove(k)) =~= modeled(m).remove(k));
}

pub broadcast proof fn lemma_name_views_insert<V: View>(m: Map<Seq<char>, V>, k: Seq<char>, v: V)
    ensures
        #[trigger] name_views(m.insert(k, v)) == name_views(m).insert(k, v@),
{
    assert(name_views(m.insert(k, v)) =~= name_views(m).insert(k, v@));
}

pub broadcast group group_models {
    lemma_modeled_insert,
    lemma_modeled_remove,
    lemma_name_views_insert,
}

/// The least value that is not in a set.
pub open spec fn least_absent(used: Set<u128>) -> u128 {
    choose|x: u128| !used.contains(x) && forall|y: u128| y < x ==> used.contains(y)
}

/// A list that holds every value below `n` has at least `n` items.
proof fn lemma_pigeonhole(list: Seq<u128>, n: nat)
    requires
        n <= u128::MAX,
        forall|x: u128| x < n ==> list.contains(x),
    ensures
        n <= list.len(),
    decreases n,
{
    if n > 0 {
        let top = (n - 1) as u128;
        assert(list.contains(top));
        let at = choose|i: int| 0 <= i < list.len() && list[i] == top;
        let rest = list.remove(at);
        assert forall|x: u128| x < n - 1 implies rest.contains(x) by {
            assert(list.contains(x));
            let i = choose|i: int| 0 <= i < list.len() && list[i] == x;
            if i < at {
                assert(rest[i] == x);
            } else {
                assert(rest[i - 1] == x);
            }
        }
        lemma_pigeonhole(rest, (n - 1) as nat);
    }
}

/// Below a value that a list lacks there is a least one that it lacks.
proof fn lemma_least_below(list: Seq<u128>, absent: u128) -> (least: u128)
    requires
        !list.contains(absent),
    ensures
        !list.contains(least),
        forall|x: u128| x < least ==> list.contains(x),
    decreases absent,
{
    if exists|x: u128| x < absent && !list.contains(x) {
        lemma_least_below(list, choose|x: u128| x < absent && !list.contains(x))
    } else {
        absent
    }
}

/// A list that does not hold every value lacks the least absent one.
pub proof fn lemma_least_absent(list: Seq<u128>)
    requires
        list.len() < u128::MAX,
    ensures
        !list.contains(least_absent(list.to_set())),
{
    if forall|x: u128| x < u128::MAX ==> list.contains(x) {
        lemma_pigeonhole(list, u128::MAX as nat);
    }
    let absent = choose|x: u128| x < u128::MAX && !list.contains(x);
    let least = lemma_least_below(list, absent);
    let set = list.to_set();
    assert(!set.contains(least) && forall|y: u128| y < least ==> set.contains(y));
    assert(!set.contains(least_absent(set)));
}

fn holds_value(list: &Vec<u128>, value: u128) -> (r: bool)
    ensures
        r == list@.contains(value),
{
    let mut i: usize = 0;
    while i < list.len()
        invariant
            i <= list@.len(),
            forall|j: int| 0 <= j < i ==> list@[j] != value,
        decreases list@.len() - i,
    {
        if list[i] == value {
            return true;
        }
        i = i + 1;
    }
    false
}

/// The least value that a list does not hold.
pub fn least_unused(used: &Vec<u128>) -> (r: u128)
    ensures
        r == least_absent(used@.to_set()),
        !used@.contains(r),
{
    let n: usize = used.len();
    let mut candidate: u128 = 0;
    while holds_value(used, candidate)
        invariant
            n == used@.len(),
            candidate <= n,
            forall|x: u128| x < candidate ==> used@.contains(x),
        decreases n - candidate,
    {
        proof {
            assert forall|x: u128| x < candidate + 1 implies used@.contains(x) by {}
            lemma_pigeonhole(used@, (candidate + 1) as nat);
        }
        candidate = candidate + 1;
    }
    proof {
        let set = used@.to_set();
        let least = least_absent(set);
        assert(!set.contains(candidate) && forall|y: u128| y < candidate ==> set.contains(y));
        assert(!set.contains(least) && forall|y: u128| y < least ==> set.contains(y));
    }
    candidate
}

/// The entries of an association list as a map; a later entry takes precedence.
pub open spec fn entries_map<V>(entries: Seq<(String, V)>) -> Map<Seq<char>, V>
    decreases entries.len(),
{
    if entries.len() == 0 {
        Map::empty()
    } else {
        entries_map(entries.drop_last()).insert(entries.last().0@, entries.last().1)
    }
}

/// A name that no entry from `from` on holds is found among the earlier entries.
proof fn lemma_skip_entries<V>(entries: Seq<(String, V)>, from: int, name: Seq<char>)
    requires
        0 <= from <= entries.len(),
        forall|j: int| from <= j < entries.len() ==> entries[j].0@ != name,
    ensures
        entries_map(entries).contains_key(name) == entries_map(entries.take(from)).contains_key(name),
        entries_map(entries)[name] == entries_map(entries.take(from))[name],
    decreases entries.len() - from,
{
    if from == entries.len() {
        assert(entries.take(from) =~= entries);
    } else {
        let shorter = entries.drop_last();
        assert(shorter.take(from) =~= entries.take(from));
        lemma_skip_entries(shorter, from, name);
    }
}

/// Replacing the last entry of a name changes the map at that name only.
proof fn lemma_replace_entry<V>(entries: Seq<(String, V)>, at: int, entry: (String, V))
    requires
        0 <= at < entries.len(),
        entries[at].0@ == entry.0@,
        forall|j: int| at < j < entries.len() ==> entries[j].0@ != entry.0@,
    ensures
        entries_map(entries.update(at, entry)) == entries_map(entries).insert(entry.0@, entry.1),
    decreases entries.len(),
{
    let updated = entries.update(at, entry);
    if at == entries.len() - 1 {
        assert(updated.drop_last() =~= entries.drop_last());
        assert(entries_map(updated) =~= entries_map(entries).insert(entry.0@, entry.1));
    } else {
        lemma_replace_entry(entries.drop_last(), at, entry);
        assert(updated.drop_last() =~= entries.drop_last().update(at, entry));
        assert(entries_map(updated) =~= entries_map(entries).insert(entry.0@, entry.1));
    }
}

/// A map holds the names of its entries.
pub proof fn lemma_entry_names<V>(entries: Seq<(String, V)>, name: Seq<char>)
    ensures
        entries_map(entries).contains_key(name) <==> exists|i: int|
            0 <= i < entries.len() && (#[trigger] entries[i]).0@ == name,
    decreases entries.len(),
{
    if entries.len() > 0 {
        let shorter = entries.drop_last();
        lemma_entry_names(shorter, name);
        if entries_map(shorter).contains_key(name) {
            let i = choose|i: int| 0 <= i < shorter.len() && (#[trigger] shorter[i]).0@ == name;
            assert(entries[i].0@ == name);
        }
        if exists|i: int| 0 <= i < entries.len() && (#[trigger] entries[i]).0@ == name {
            let i = choose|i: int| 0 <= i < entries.len() && (#[trigger] entries[i]).0@ == name;
            if i < shorter.len() {
                assert(shorter[i].0@ == name);
            }
        }
        if entries.last().0@ == name {
            assert(entries[entries.len() - 1].0@ == name);
        }
    }
}

/// The views of the values of a map by name.
pub open spec fn name_views<V: View>(m: Map<Seq<char>, V>) -> Map<Seq<char>, V::V> {
    Map::new(|k: Seq<char>| m.contains_key(k), |k: Seq<char>| m[k]@)
}

/// A map from names to values.
#[derive(Clone, Debug)]
pub struct NameMap<V> {
    pub entries: Vec<(String, V)>,
}

impl<V> View for NameMap<V> {
    type V = Map<Seq<char>, V>;

    open spec fn view(&self) -> Map<Seq<char>, V> {
        entries_map(self.entries@)
    }
}

impl<V> NameMap<V> {
    pub fn new() -> (map: NameMap<V>)
        ensures
            map@ == Map::<Seq<char>, V>::empty(),
            map.entries@.len() == 0,
    {
        NameMap { entries: Vec::new() }
    }

    /// The position of the last entry of a name.
    fn position(&self, name: &str) -> (at: Option<usize>)
        ensures
            match at {
                Some(i) => {
                    &&& i < self.entries@.len()
                    &&& self.entries@[i as int].0@ == name@
                    &&& forall|j: int| i < j < self.entries@.len() ==> self.entries@[j].0@ != name@
                },
                None => forall|j: int| 0 <= j < self.entries@.len() ==> self.entries@[j].0@ != name@,
            },
    {
        let mut i: usize = self.entries.len();
        while i > 0
            invariant
                i <= self.entries@.len(),
                forall|j: int| i <= j < self.entries@.len() ==> self.entries@[j].0@ != name@,
            decreases i,
        {
            i = i - 1;
            if same_text(self.entries[i].0.as_str(), name) {
                return Some(i);
            }
        }
        None
    }

    pub fn get(&self, name: &str) -> (value: Option<&V>)
        ensures
            match value {
                Some(v) => self@.contains_key(name@) && *v == self@[name@],
                None => !self@.contains_key(name@),
            },
    {
        match self.position(name) {
            Some(i) => {
                proof {
                    lemma_skip_entries(self.entries@, i as int + 1, name@);
                    assert(self.entries@.take(i as int + 1).last() == self.entries@[i as int]);
                }
                Some(&self.entries[i].1)
            },
            None => {
                proof {
                    lemma_skip_entries(self.entries@, 0, name@);
                }
                None
            },
        }
    }

    pub fn contains_key(&self, name: &str) -> (r: bool)
        ensures
            r == self@.contains_key(name@),
    {
        self.get(name).is_some()
    }

    pub fn insert(&mut self, name: String, value: V)
        ensures
            final(self)@ == old(self)@.insert(name@, value),
            old(self)@.contains_key(name@) ==> final(self).entries@.len() == old(self).entries@.len(),
            !old(self)@.contains_key(name@) ==> final(self).entries@.len() == old(self).entries@.len() + 1,
    {
        match self.position(name.as_str()) {
            Some(i) => {
                proof {
                    lemma_skip_entries(self.entries@, i as int + 1, name@);
                    lemma_replace_entry(self.entries@, i as int, (name, value));
                }
                self.entries.set(i, (name, value));
            },
            None => {
                proof {
                    lemma_skip_entries(self.entries@, 0, name@);
                    assert(self.entries@.push((name, value)).drop_last() =~= self.entries@);
                }
                self.entries.push((name, value));
            },
        }
    }
}

/// A set of names.
#[derive(Debug)]
pub struct NameSet {
    pub names: Vec<String>,
}

impl View for NameSet {
    type V = Set<Seq<char>>;

    open spec fn view(&self) -> Set<Seq<char>> {
        crate::text::views(self.names@).to_set()
    }
}

impl Clone for NameSet {
    fn clone(&self) -> (r: NameSet)
        ensures
            r@ == self@,
    {
        let r = NameSet { names: self.names.clone() };
        assert(crate::text::views(r.names@) =~= crate::text::views(self.names@));
        r
    }
}

impl Default for NameSet {
    fn default() -> (r: NameSet)
        ensures
            r@ == Set::<Seq<char>>::empty(),
    {
        NameSet::new()
    }
}

impl NameSet {
    pub fn new() -> (r: NameSet)
        ensures
            r@ == Set::<Seq<char>>::empty(),
    {
        let r = NameSet { names: Vec::new() };
        assert(r@ =~= Set::<Seq<char>>::empty());
        r
    }

    pub fn contains(&self, name: &str) -> (r: bool)
        ensures
            r == self@.contains(name@),
    {
        holds_text(&self.names, name)
    }

    /// Adds a name; tells whether it was new.
    pub fn insert(&mut self, name: String) -> (added: bool)
        ensures
            final(self)@ == old(self)@.insert(name@),
            added == !old(self)@.contains(name@),
    {
        if self.contains(name.as_str()) {
            assert(old(self)@.insert(name@) =~= old(self)@);
            false
        } else {
            let ghost before = crate::text::views(self.names@);
            self.names.push(name);
            proof {
                let after = crate::text::views(self.names@);
                assert(after =~= before.push(name@));
                assert forall|x: Seq<char>| after.to_set().contains(x) <==> before.to_set().insert(
                    name@,
                ).contains(x) by {
                    if before.contains(x) {
                        let i = choose|i: int| 0 <= i < before.len() && before[i] == x;
                        assert(after[i] == x);
                    }
                    assert(after[before.len() as int] == name@);
                }
                assert(after.to_set() =~= before.to_set().insert(name@));
            }
            true
        }
    }

    pub fn from_list(list: Vec<String>) -> (r: NameSet)
        ensures
            r@ == crate::text::views(list@).to_set(),
    {
        let mut r = NameSet::new();
        let mut i: usize = 0;
        while i < list.len()
            invariant
                i <= list@.len(),
                r@ == crate::text::views(list@.take(i as int)).to_set(),
            decreases list@.len() - i,
        {
            r.insert(list[i].clone());
            proof {
                let before = crate::text::views(list@.take(i as int));
                let after = crate::text::views(list@.take(i + 1));
                assert(after =~= before.push(list@[i as int]@));
                assert forall|x: Seq<char>| after.to_set().contains(x) <==> before.to_set().insert(
                    list@[i as int]@,
                ).contains(x) by {
                    if before.contains(x) {
                        let k = choose|k: int| 0 <= k < before.len() && before[k] == x;
                        assert(after[k] == x);
                    }
                    assert(after[before.len() as int] == list@[i as int]@);
                }
                assert(after.to_set() =~= before.to_set().insert(list@[i as int]@));
            }
            i = i + 1;
        }
        assert(list@.take(list@.len() as int) =~= list@);
        r
    }

    pub fn is_subset(&self, other: &NameSet) -> (r: bool)
        ensures
            r == self@.subset_of(other@),
    {
        let mut i: usize = 0;
        while i < self.names.len()
            invariant
                i <= self.names@.len(),
                forall|j: int| 0 <= j < i ==> other@.contains(#[trigger] self.names@[j]@),
            decreases self.names@.len() - i,
        {
            if !other.contains(self.names[i].as_str()) {
                assert(crate::text::views(self.names@)[i as int] == self.names@[i as int]@);
                assert(self@.contains(self.names@[i as int]@));
                return false;
            }
            i = i + 1;
        }
        assert forall|x: Seq<char>| self@.contains(x) implies other@.contains(x) by {
            let k = choose|k: int|
                0 <= k < crate::text::views(self.names@).len() && crate::text::views(self.names@)[k]
                    == x;
            assert(self.names@[k]@ == x);
        }
        true
    }

    /// Adds every name of `other`.
    pub fn extend(&mut self, other: &NameSet)
        ensures
            final(self)@ == old(self)@.union(other@),
    {
        let mut i: usize = 0;
        while i < other.names.len()
            invariant
                i <= other.names@.len(),
                self@ == old(self)@.union(crate::text::views(other.names@.take(i as int)).to_set()),
            decreases other.names@.len() - i,
        {
            let ghost before = crate::text::views(other.names@.take(i as int));
            self.insert(other.names[i].clone());
            proof {
                let after = crate::text::views(other.names@.take(i + 1));
                assert(after =~= before.push(other.names@[i as int]@));
                assert forall|x: Seq<char>| after.contains(x) <==> before.contains(x) || x
                    == other.names@[i as int]@ by {
                    if before.contains(x) {
                        let k = choose|k: int| 0 <= k < before.len() && before[k] == x;
                        assert(after[k] == x);
                    }
                    assert(after[before.len() as int] == other.names@[i as int]@);
                }
                assert(self@ =~= old(self)@.union(after.to_set()));
            }
            i = i + 1;
        }
        assert(other.names@.take(other.names@.len() as int) =~= other.names@);
    }
}

impl PartialEq for NameSet {
    fn eq(&self, other: &NameSet) -> (r: bool) {
        let r = self.is_subset(other) && other.is_subset(self);
        proof {
            if r {
                assert(self@ =~= other@);
            }
        }
        r
    }
}

impl vstd::std_specs::cmp::PartialEqSpecImpl for NameSet {
    open spec fn obeys_eq_spec() -> bool {
        true
    }

    open spec fn eq_spec(&self, other: &NameSet) -> bool {
        self@ == other@
    }
}

}
