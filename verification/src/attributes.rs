//! The attributes of an element, in an insertion-ordered map keyed by expanded names.
use crate::names::{ExpandedName, NameView};
use indexmap::IndexMap;
use vstd::prelude::*;

verus! {

#[verifier::external_type_specification]
#[verifier::external_body]
#[verifier::reject_recursive_types(K)]
#[verifier::reject_recursive_types(V)]
#[verifier::reject_recursive_types(S)]
pub struct ExIndexMap<K, V, S>(IndexMap<K, V, S>);

/// The non-identifying parts of an attribute.
#[derive(Debug, PartialEq, Clone)]
pub struct Attribute {
    /// The namespace prefix, if any.
    pub prefix: Option<String>,
    /// The attribute value.
    pub value: String,
}

/// The text of an attribute: its prefix, if any, and its value.
pub type AttributeView = (Option<Seq<char>>, Seq<char>);

/// The entries of an attribute map: names and attributes by their views, in the map's order.
pub type Entries = Seq<(NameView, AttributeView)>;

/// The text of an optional string.
pub open spec fn opt_view(s: Option<String>) -> Option<Seq<char>> {
    match s {
        Some(p) => Some(p@),
        None => None,
    }
}

impl View for Attribute {
    type V = AttributeView;

    open spec fn view(&self) -> AttributeView {
        (opt_view(self.prefix), self.value@)
    }
}

/// The entries of an attribute map, in the map's order, each key and value taken by its view.
pub uninterp spec fn map_entries(map: IndexMap<ExpandedName, Attribute>) -> Entries;

/// No two entries share a key.
pub open spec fn keys_distinct(entries: Entries) -> bool {
    forall|i: int, j: int|
        0 <= i < entries.len() && 0 <= j < entries.len() && i != j ==> #[trigger] entries[i].0
            != #[trigger] entries[j].0
}

/// Some entry has the key `key`.
pub open spec fn has_key(entries: Entries, key: NameView) -> bool {
    exists|i: int| 0 <= i < entries.len() && #[trigger] entries[i].0 == key
}

/// The position of an entry with the key `key` (meaningful where `has_key` holds).
pub open spec fn key_index(entries: Entries, key: NameView) -> int {
    choose|i: int| 0 <= i < entries.len() && #[trigger] entries[i].0 == key
}

/// The value stored under `key`, if any.
pub open spec fn lookup(entries: Entries, key: NameView) -> Option<AttributeView> {
    if has_key(entries, key) {
        Some(entries[key_index(entries, key)].1)
    } else {
        None
    }
}

/// The entries after inserting `value` under `key`: an existing key keeps its place and gets
/// the new value; a new key goes last.
pub open spec fn entries_after_insert(entries: Entries, key: NameView, value: AttributeView) -> Entries {
    if has_key(entries, key) {
        entries.update(key_index(entries, key), (key, value))
    } else {
        entries.push((key, value))
    }
}

/// The entries after removing the entry at `i` by swapping the last entry into its place.
pub open spec fn swap_remove_at(entries: Entries, i: int) -> Entries {
    entries.update(i, entries.last()).drop_last()
}

/// The entries after removing `key`, the last entry taking its place.
pub open spec fn entries_after_remove(entries: Entries, key: NameView) -> Entries {
    if has_key(entries, key) {
        swap_remove_at(entries, key_index(entries, key))
    } else {
        entries
    }
}

/// The entries after inserting each of `pairs` in turn.
pub open spec fn entries_after_inserts(entries: Entries, pairs: Seq<(NameView, AttributeView)>) -> Entries
    decreases pairs.len(),
{
    if pairs.len() == 0 {
        entries
    } else {
        entries_after_insert(
            entries_after_inserts(entries, pairs.drop_last()),
            pairs.last().0,
            pairs.last().1,
        )
    }
}

/// The views of a list of named attributes.
pub open spec fn pairs_view(pairs: Seq<(ExpandedName, Attribute)>) -> Seq<(NameView, AttributeView)> {
    pairs.map_values(|p: (ExpandedName, Attribute)| (p.0@, p.1@))
}

/// Removing an attribute that was just added, under a name that was not present, gives back
/// the attributes as they were, in the same order.
pub proof fn lemma_remove_undoes_insert(entries: Entries, key: NameView, value: AttributeView)
    requires
        keys_distinct(entries),
        !has_key(entries, key),
    ensures
        entries_after_remove(entries_after_insert(entries, key, value), key) == entries,
{
    let after = entries_after_insert(entries, key, value);
    let n = entries.len() as int;
    assert(after[n].0 == key);
    lemma_insert_lookup(entries, key, value, key);
    assert(key_index(after, key) == n);
    assert(swap_remove_at(after, n) =~= entries);
}

/// An attribute is present exactly when looking it up gives a value.
pub proof fn lemma_contains_iff_lookup(entries: Entries, key: NameView)
    ensures
        has_key(entries, key) <==> lookup(entries, key) is Some,
{
}

/// Inserting keeps keys distinct; afterwards the inserted key maps to the inserted value and
/// every other key maps to what it mapped to before.
pub proof fn lemma_insert_lookup(entries: Entries, key: NameView, value: AttributeView, other: NameView)
    requires
        keys_distinct(entries),
    ensures
        keys_distinct(entries_after_insert(entries, key, value)),
        lookup(entries_after_insert(entries, key, value), key) == Some(value),
        other != key ==> lookup(entries_after_insert(entries, key, value), other) == lookup(
            entries,
            other,
        ),
{
    let after = entries_after_insert(entries, key, value);
    if has_key(entries, key) {
        let i = key_index(entries, key);
        assert(after[i].0 == key);
        assert(keys_distinct(after));
        assert(key_index(after, key) == i);
        if has_key(entries, other) && other != key {
            let j = key_index(entries, other);
            assert(after[j].0 == other);
            assert(key_index(after, other) == j);
        }
        if has_key(after, other) && other != key {
            let j = key_index(after, other);
            assert(entries[j].0 == other);
        }
    } else {
        let n = entries.len() as int;
        assert(after[n].0 == key);
        assert(keys_distinct(after));
        assert(key_index(after, key) == n);
        if has_key(entries, other) && other != key {
            let j = key_index(entries, other);
            assert(after[j].0 == other);
            assert(key_index(after, other) == j);
        }
        if has_key(after, other) && other != key {
            let j = key_index(after, other);
            assert(entries[j].0 == other);
        }
    }
}

/// Removing keeps keys distinct; afterwards the removed key maps to nothing and every other key
/// maps to what it mapped to before.
pub proof fn lemma_remove_lookup(entries: Entries, key: NameView, other: NameView)
    requires
        keys_distinct(entries),
    ensures
        keys_distinct(entries_after_remove(entries, key)),
        lookup(entries_after_remove(entries, key), key) is None,
        other != key ==> lookup(entries_after_remove(entries, key), other) == lookup(entries, other),
{
    let after = entries_after_remove(entries, key);
    if has_key(entries, key) {
        let i = key_index(entries, key);
        let n = entries.len() - 1;
        assert(forall|j: int| 0 <= j < after.len() ==> #[trigger] after[j] == (if j == i { entries[n] } else { entries[j] }));
        assert(keys_distinct(after));
        if has_key(after, key) {
            let j = key_index(after, key);
            if j == i {
                assert(entries[n].0 == key);
            } else {
                assert(entries[j].0 == key);
            }
        }
        if has_key(entries, other) && other != key {
            let j = key_index(entries, other);
            if j == n {
                assert(after[i].0 == other);
                assert(key_index(after, other) == i);
            } else {
                assert(after[j].0 == other);
                assert(key_index(after, other) == j);
            }
        }
        if has_key(after, other) && other != key {
            let j = key_index(after, other);
            if j == i {
                assert(entries[n].0 == other);
            } else {
                assert(entries[j].0 == other);
            }
        }
    }
}

/// Changing the value at a position keeps keys distinct; afterwards that entry's key maps to the
/// new value and every other key maps to what it mapped to before.
pub proof fn lemma_update_lookup(entries: Entries, i: int, value: AttributeView, other: NameView)
    requires
        keys_distinct(entries),
        0 <= i < entries.len(),
    ensures
        keys_distinct(entries.update(i, (entries[i].0, value))),
        lookup(entries.update(i, (entries[i].0, value)), entries[i].0) == Some(value),
        other != entries[i].0 ==> lookup(entries.update(i, (entries[i].0, value)), other) == lookup(entries, other),
{
    lemma_insert_lookup(entries, entries[i].0, value, other);
    assert(i == key_index(entries, entries[i].0));
}

/// Inserting under a name that is present, at position `i`, changes only the value at `i`;
/// inserting under a name that is absent adds the pair after all the others.
pub proof fn lemma_insert_position(entries: Entries, key: NameView, value: AttributeView)
    requires
        keys_distinct(entries),
    ensures
        !has_key(entries, key) ==> entries_after_insert(entries, key, value) == entries.push((key, value)),
        forall|i: int| 0 <= i < entries.len() && #[trigger] entries[i].0 == key
            ==> entries_after_insert(entries, key, value) == entries.update(i, (key, value)),
{
    assert forall|i: int| 0 <= i < entries.len() && #[trigger] entries[i].0 == key
        implies key_index(entries, key) == i by {
        assert(has_key(entries, key));
    }
}

/// Inserting pairs with distinct names, in turn, into attributes that hold none of their names
/// adds them after the attributes already there, in the pairs' order.
pub proof fn lemma_inserts_keep_order(entries: Entries, pairs: Seq<(NameView, AttributeView)>)
    requires
        keys_distinct(entries),
        keys_distinct(pairs),
        forall|i: int| 0 <= i < pairs.len() ==> !has_key(entries, #[trigger] pairs[i].0),
    ensures
        entries_after_inserts(entries, pairs) == entries + pairs,
    decreases pairs.len(),
{
    if pairs.len() == 0 {
        assert(entries + pairs =~= entries);
    } else {
        let init = pairs.drop_last();
        assert forall|i: int| 0 <= i < init.len() implies !has_key(entries, #[trigger] init[i].0) by {
            assert(init[i] == pairs[i]);
        }
        lemma_inserts_keep_order(entries, init);
        let before = entries + init;
        let (k, v) = pairs.last();
        if has_key(before, k) {
            let i = choose|i: int| 0 <= i < before.len() && #[trigger] before[i].0 == k;
            if i < entries.len() {
                assert(entries[i].0 == k);
                assert(has_key(entries, pairs[pairs.len() - 1].0));
            } else {
                assert(init[i - entries.len()] == pairs[i - entries.len()]);
                assert(pairs[i - entries.len()].0 == pairs[pairs.len() - 1].0);
            }
        }
        assert(before.push((k, v)) =~= entries + pairs);
    }
}

/// Inserting pairs in turn leaves, under the name of each pair that no later pair shares, the
/// value of that pair, and under every name that no pair has, what was there before.
pub proof fn lemma_inserts_last_value_wins(entries: Entries, pairs: Seq<(NameView, AttributeView)>)
    requires
        keys_distinct(entries),
    ensures
        keys_distinct(entries_after_inserts(entries, pairs)),
        forall|i: int| 0 <= i < pairs.len() && (forall|j: int| i < j < pairs.len() ==> pairs[j].0 != pairs[i].0)
            ==> #[trigger] lookup(entries_after_inserts(entries, pairs), pairs[i].0) == Some(pairs[i].1),
        forall|k: NameView| (forall|i: int| 0 <= i < pairs.len() ==> pairs[i].0 != k)
            ==> #[trigger] lookup(entries_after_inserts(entries, pairs), k) == lookup(entries, k),
    decreases pairs.len(),
{
    if pairs.len() > 0 {
        let init = pairs.drop_last();
        lemma_inserts_last_value_wins(entries, init);
        let before = entries_after_inserts(entries, init);
        let (k, v) = pairs.last();
        lemma_insert_lookup(before, k, v, k);
        assert forall|i: int| 0 <= i < pairs.len() && (forall|j: int| i < j < pairs.len() ==> pairs[j].0 != pairs[i].0)
            implies #[trigger] lookup(entries_after_inserts(entries, pairs), pairs[i].0) == Some(pairs[i].1) by {
            if i < pairs.len() - 1 {
                assert(pairs[pairs.len() - 1].0 != pairs[i].0);
                lemma_insert_lookup(before, k, v, pairs[i].0);
                assert(init[i] == pairs[i]);
                assert forall|j: int| i < j < init.len() implies init[j].0 != init[i].0 by {
                    assert(init[j] == pairs[j]);
                }
            }
        }
        assert forall|k2: NameView| (forall|i: int| 0 <= i < pairs.len() ==> pairs[i].0 != k2)
            implies #[trigger] lookup(entries_after_inserts(entries, pairs), k2) == lookup(entries, k2) by {
            assert(pairs[pairs.len() - 1].0 != k2);
            lemma_insert_lookup(before, k, v, k2);
            assert forall|i: int| 0 <= i < init.len() implies init[i].0 != k2 by {
                assert(init[i] == pairs[i]);
            }
        }
    }
}

/// Calls `IndexMap::new`. Claimed: the new map has no entries.
#[verifier::external_body]
fn map_new() -> (map: IndexMap<ExpandedName, Attribute>)
    ensures
        map_entries(map) == Seq::<(NameView, AttributeView)>::empty(),
{
    IndexMap::new()
}

/// Calls `IndexMap::contains_key`. Claimed: the result tells whether some entry's key equals
/// `key` (names are equal when their namespaces and local names are equal strings).
#[verifier::external_body]
fn map_contains_key(map: &IndexMap<ExpandedName, Attribute>, key: &ExpandedName) -> (r: bool)
    ensures
        r == has_key(map_entries(*map), key@),
{
    map.contains_key(key)
}

/// Calls `IndexMap::get`. Claimed: `None` exactly when no entry's key equals `key`, else the
/// value of an entry whose key equals `key`.
#[verifier::external_body]
fn map_get<'a>(map: &'a IndexMap<ExpandedName, Attribute>, key: &ExpandedName) -> (r: Option<&'a Attribute>)
    ensures
        r is None <==> !has_key(map_entries(*map), key@),
        r matches Some(a) ==> exists|i: int|
            0 <= i < map_entries(*map).len() && map_entries(*map)[i] == (key@, a@),
{
    map.get(key)
}

/// Calls `IndexMap::get_mut`. Claimed: `None` exactly when no entry's key equals `key`, the map
/// then unchanged; else a reference to the value of the entry whose key equals `key`, the map
/// afterwards differing only in holding at that position what the reference holds last. The
/// call only hashes and compares strings, and does not panic.
#[verifier::external_body]
fn map_get_mut<'a>(map: &'a mut IndexMap<ExpandedName, Attribute>, key: &ExpandedName) -> (r: Option<&'a mut Attribute>)
    requires
        keys_distinct(map_entries(*old(map))),
    ensures
        r is None <==> !has_key(map_entries(*old(map)), key@),
        r is None ==> map_entries(*final(map)) == map_entries(*old(map)),
        r matches Some(a) ==> exists|i: int|
            0 <= i < map_entries(*old(map)).len() && map_entries(*old(map))[i].0 == key@
                && map_entries(*old(map))[i].1 == a@
                && map_entries(*final(map)) == map_entries(*old(map)).update(i, (key@, final(a)@)),
    no_unwind
{
    map.get_mut(key)
}

/// Calls `IndexMap::insert`. Claimed: where an entry's key equals `key`, that entry keeps its
/// place and gets the new value, and its old value is returned; otherwise the pair is added
/// last and `None` is returned.
#[verifier::external_body]
fn map_insert(map: &mut IndexMap<ExpandedName, Attribute>, key: ExpandedName, value: Attribute) -> (r: Option<Attribute>)
    requires
        keys_distinct(map_entries(*old(map))),
    ensures
        has_key(map_entries(*old(map)), key@) ==> exists|i: int|
            0 <= i < map_entries(*old(map)).len() && map_entries(*old(map))[i].0 == key@
                && map_entries(*final(map)) == map_entries(*old(map)).update(i, (key@, value@))
                && (r matches Some(o) && o@ == map_entries(*old(map))[i].1),
        !has_key(map_entries(*old(map)), key@) ==> map_entries(*final(map)) == map_entries(*old(map)).push((key@, value@))
            && r is None,
{
    map.insert(key, value)
}

/// Calls `IndexMap::swap_remove`. Claimed: where an entry's key equals `key`, it is removed,
/// the last entry takes its place, and its value is returned; otherwise the map is unchanged and
/// `None` is returned. The call does not allocate and does not panic.
#[verifier::external_body]
fn map_swap_remove(map: &mut IndexMap<ExpandedName, Attribute>, key: &ExpandedName) -> (r: Option<Attribute>)
    requires
        keys_distinct(map_entries(*old(map))),
    ensures
        has_key(map_entries(*old(map)), key@) ==> exists|i: int|
            0 <= i < map_entries(*old(map)).len() && map_entries(*old(map))[i].0 == key@
                && map_entries(*final(map)) == swap_remove_at(map_entries(*old(map)), i)
                && (r matches Some(o) && o@ == map_entries(*old(map))[i].1),
        !has_key(map_entries(*old(map)), key@) ==> map_entries(*final(map)) == map_entries(*old(map))
            && r is None,
    no_unwind
{
    map.swap_remove(key)
}

/// The position that the entry for `key` refers to: that of the entry with that name, or the
/// end of the map where no entry has it.
pub open spec fn entry_index(entries: Entries, key: NameView) -> int {
    if has_key(entries, key) {
        key_index(entries, key)
    } else {
        entries.len() as int
    }
}

/// Calls `IndexMap::get_index_of`. Claimed: the position of the entry whose key equals `key`,
/// or `None` exactly when no entry's key equals `key`.
#[verifier::external_body]
fn map_get_index_of(map: &IndexMap<ExpandedName, Attribute>, key: &ExpandedName) -> (r: Option<usize>)
    ensures
        r is None <==> !has_key(map_entries(*map), key@),
        r matches Some(i) ==> i < map_entries(*map).len() && map_entries(*map)[i as int].0 == key@,
{
    map.get_index_of(key)
}

/// Calls `IndexMap::clone`. Claimed: the copy holds the same entries in the same order (the
/// names and attributes are copied field by field, their strings by their text).
#[verifier::external_body]
fn map_clone(map: &IndexMap<ExpandedName, Attribute>) -> (r: IndexMap<ExpandedName, Attribute>)
    ensures
        map_entries(r) == map_entries(*map),
{
    map.clone()
}

/// Calls `IndexMap::len`. Claimed: the number of entries.
#[verifier::external_body]
fn map_len(map: &IndexMap<ExpandedName, Attribute>) -> (r: usize)
    ensures
        r == map_entries(*map).len(),
{
    map.len()
}

/// The entry for one attribute name, present or not, borrowed from its attributes.
pub struct Entry<'a> {
    /// The attributes that the entry belongs to.
    pub attributes: &'a mut Attributes,
    /// The name of the entry's attribute.
    pub key: ExpandedName,
}

/// A copy of `name`.
fn copy_name(name: &ExpandedName) -> (r: ExpandedName)
    ensures
        r@ == name@,
{
    ExpandedName { ns: name.ns.clone(), local: name.local.clone() }
}

impl<'a> Entry<'a> {
    /// The attributes that the entry belongs to, as they are now.
    pub open spec fn entries(&self) -> Entries {
        (*self.attributes).entries()
    }

    /// The name of the entry's attribute.
    pub fn key(&self) -> (r: &ExpandedName)
        ensures
            *r == self.key,
    {
        &self.key
    }

    /// The position of the entry's attribute where it is present, else the position where
    /// inserting it would put it: the end.
    pub fn index(&self) -> (r: usize)
        ensures
            r == entry_index(self.entries(), self.key@),
    {
        match self.attributes.index_of_name(&self.key) {
            Some(i) => i,
            None => self.attributes.len(),
        }
    }

    /// The attribute, inserting `default` last where it is absent; the attributes afterwards
    /// hold at its place what the returned reference holds last.
    pub fn or_insert(self, default: Attribute) -> (r: &'a mut Attribute)
        ensures
            ({
                let e = self.entries();
                let k = self.key@;
                &&& has_key(e, k) ==> lookup(e, k) == Some(r@) && final(self.attributes).entries()
                    == e.update(key_index(e, k), (k, final(r)@))
                &&& !has_key(e, k) ==> r@ == default@ && final(self.attributes).entries()
                    == e.push((k, final(r)@))
            }),
    {
        let Entry { attributes, key } = self;
        proof {
            use_type_invariant(&*attributes);
        }
        let ghost e = attributes.entries();
        if !attributes.contains_name(&key) {
            attributes.insert_named(copy_name(&key), default);
            proof {
                lemma_insert_lookup(e, key@, default@, key@);
                let n = e.len() as int;
                assert(attributes.entries()[n].0 == key@);
                assert(key_index(attributes.entries(), key@) == n);
                assert(attributes.entries().update(n, (key@, default@)) =~= attributes.entries());
            }
        }
        attributes.get_mut_named(&key).unwrap()
    }

    /// The attribute, inserting what `default` returns last where it is absent (`default` is
    /// then called once, else not at all); the attributes afterwards hold at its place what the
    /// returned reference holds last.
    pub fn or_insert_with<F: FnOnce() -> Attribute>(self, default: F) -> (r: &'a mut Attribute)
        requires
            !has_key(self.entries(), self.key@) ==> default.requires(()),
        ensures
            ({
                let e = self.entries();
                let k = self.key@;
                &&& has_key(e, k) ==> lookup(e, k) == Some(r@) && final(self.attributes).entries()
                    == e.update(key_index(e, k), (k, final(r)@))
                &&& !has_key(e, k) ==> (exists|v: Attribute| #[trigger] default.ensures((), v) && v@ == r@)
                    && final(self.attributes).entries()
                    == e.push((k, final(r)@))
            }),
    {
        if self.attributes.contains_name(&self.key) {
            let Entry { attributes, key } = self;
            attributes.get_mut_named(&key).unwrap()
        } else {
            let v = default();
            self.or_insert(v)
        }
    }

    /// Calls `f` on the attribute where it is present, and gives back the entry.
    pub fn and_modify<F: FnOnce(&mut Attribute)>(self, f: F) -> (r: Entry<'a>)
        requires
            has_key(self.entries(), self.key@) ==> forall|m: &mut Attribute| f.requires((m,)),
        ensures
            r.key == self.key,
            *final(r.attributes) == *final(self.attributes),
            !has_key(self.entries(), self.key@) ==> r.entries() == self.entries(),
            has_key(self.entries(), self.key@) ==> exists|m: &mut Attribute| {
                let e = self.entries();
                let k = self.key@;
                &&& #[trigger] f.ensures((m,), ())
                &&& (*m)@ == lookup(e, k).unwrap()
                &&& r.entries() == e.update(key_index(e, k), (k, (*final(m))@))
            },
    {
        let Entry { attributes, key } = self;
        match attributes.get_mut_named(&key) {
            Some(a) => {
                f(a);
            },
            None => {},
        }
        Entry { attributes, key }
    }
}

/// Convenience wrapper around an insertion-ordered map that adds methods for attributes in the
/// null namespace.
#[derive(Debug, PartialEq)]
pub struct Attributes {
    /// A map of attributes whose name can have namespaces.
    map: IndexMap<ExpandedName, Attribute>,
}

impl Default for Attributes {
    fn default() -> (r: Attributes)
        ensures
            r.entries() == Seq::<(NameView, AttributeView)>::empty(),
    {
        Attributes { map: map_new() }
    }
}

impl Clone for Attributes {
    fn clone(&self) -> (r: Attributes)
        ensures
            r.entries() == self.entries(),
    {
        proof {
            use_type_invariant(self);
        }
        Attributes { map: map_clone(&self.map) }
    }
}

impl Attributes {
    /// The attributes in the map's order, each name and attribute taken by its view.
    pub closed spec fn entries(&self) -> Entries {
        map_entries(self.map)
    }

    #[verifier::type_invariant]
    spec fn inv(self) -> bool {
        keys_distinct(map_entries(self.map))
    }

    /// The underlying map, for reading.
    pub fn map(&self) -> (map: &IndexMap<ExpandedName, Attribute>)
        ensures
            map_entries(*map) == self.entries(),
    {
        &self.map
    }

    /// The key under which an attribute of the null namespace is stored.
    pub open spec fn null_ns_key(local_name: Seq<char>) -> NameView {
        (Seq::empty(), local_name)
    }

    /// The name of `local_name` in the null namespace.
    fn null_ns_name(local_name: &str) -> (name: ExpandedName)
        ensures
            name@ == Self::null_ns_key(local_name@),
    {
        let name = ExpandedName::new("", local_name);
        proof {
            reveal_strlit("");
        }
        name
    }

    /// The attributes of `pairs`, inserted in turn: a later pair replaces the value of an
    /// earlier one with the same name.
    pub fn from_pairs(pairs: Vec<(ExpandedName, Attribute)>) -> (attrs: Attributes)
        ensures
            attrs.entries() == entries_after_inserts(Seq::empty(), pairs_view(pairs@)),
            keys_distinct(pairs_view(pairs@)) ==> attrs.entries() == pairs_view(pairs@),
    {
        let ghost all = pairs_view(pairs@);
        let mut attrs = Attributes::default();
        let mut rest = pairs;
        let ghost done: int = 0;
        while rest.len() > 0
            invariant
                0 <= done <= all.len(),
                pairs_view(rest@) == all.skip(done),
                attrs.entries() == entries_after_inserts(Seq::empty(), all.take(done)),
            decreases rest.len(),
        {
            let ghost before = rest@;
            assert(pairs_view(before).len() == before.len());
            assert(pairs_view(before)[0] == all[done]);
            let (name, attr) = rest.remove(0);
            proof {
                assert(before[0] == (name, attr));
                assert forall|j: int| 0 <= j < rest@.len() implies #[trigger] pairs_view(rest@)[j] == all.skip(done + 1)[j] by {
                    assert(rest@[j] == before[j + 1]);
                    assert(pairs_view(before)[j + 1] == all.skip(done)[j + 1]);
                }
                assert(pairs_view(rest@) =~= all.skip(done + 1));
                assert(all.take(done + 1).drop_last() =~= all.take(done));
                assert((name@, attr@) == all[done]);
            }
            attrs.insert_named(name, attr);
            proof {
                done = done + 1;
            }
        }
        proof {
            assert(all.take(done) =~= all);
            if keys_distinct(all) {
                lemma_inserts_keep_order(Seq::empty(), all);
                assert(Seq::<(NameView, AttributeView)>::empty() + all =~= all);
            }
        }
        attrs
    }

    /// Like IndexMap::contains, for the attribute `local_name` in the null namespace.
    pub fn contains(&self, local_name: &str) -> (r: bool)
        ensures
            r == has_key(self.entries(), Self::null_ns_key(local_name@)),
    {
        map_contains_key(&self.map, &Self::null_ns_name(local_name))
    }

    /// Whether an attribute with the expanded name `name` is present.
    pub fn contains_name(&self, name: &ExpandedName) -> (r: bool)
        ensures
            r == has_key(self.entries(), name@),
    {
        map_contains_key(&self.map, name)
    }

    /// Like IndexMap::get, the value of the attribute `local_name` in the null namespace.
    pub fn get(&self, local_name: &str) -> (r: Option<&str>)
        ensures
            match lookup(self.entries(), Self::null_ns_key(local_name@)) {
                Some(a) => r matches Some(s) && s@ == a.1,
                None => r is None,
            },
    {
        proof {
            use_type_invariant(self);
        }
        let key = Self::null_ns_name(local_name);
        match map_get(&self.map, &key) {
            Some(attr) => {
                proof {
                    let e = self.entries();
                    let i = choose|i: int| 0 <= i < e.len() && e[i] == (key@, attr@);
                    assert(e[i].0 == key@);
                    assert(i == key_index(e, key@));
                }
                Some(attr.value.as_str())
            },
            None => None,
        }
    }

    /// Like IndexMap::get_mut, a reference to the value of the attribute `local_name` in the
    /// null namespace; the attribute afterwards holds what the reference holds last.
    pub fn get_mut(&mut self, local_name: &str) -> (r: Option<&mut String>)
        ensures
            r is None <==> !has_key(old(self).entries(), Self::null_ns_key(local_name@)),
            r is None ==> final(self).entries() == old(self).entries(),
            r matches Some(v) ==> {
                let k = Self::null_ns_key(local_name@);
                let i = key_index(old(self).entries(), k);
                &&& has_key(old(self).entries(), k)
                &&& old(self).entries()[i].1.1 == v@
                &&& final(self).entries() == old(self).entries().update(
                    i,
                    (k, (old(self).entries()[i].1.0, final(v)@)),
                )
                &&& lookup(final(self).entries(), k) == Some((old(self).entries()[i].1.0, final(v)@))
            },
    {
        proof {
            use_type_invariant(&*self);
        }
        let key = Self::null_ns_name(local_name);
        let ghost e = self.entries();
        proof {
            if has_key(e, key@) {
                let i = key_index(e, key@);
                assert forall|v: AttributeView| #[trigger] lookup(e.update(i, (key@, v)), key@) == Some(v) by {
                    lemma_update_lookup(e, i, v, key@);
                }
            }
        }
        match map_get_mut(&mut self.map, &key) {
            Some(attr) => Some(&mut attr.value),
            None => None,
        }
    }

    /// Like IndexMap::entry, the entry for the attribute `local_name` in the null namespace,
    /// borrowing these attributes: what is done through the entry is what these attributes
    /// hold afterwards.
    pub fn entry(&mut self, local_name: &str) -> (r: Entry<'_>)
        ensures
            r.key@ == Self::null_ns_key(local_name@),
            *r.attributes == *old(self),
            *final(self) == *final(r.attributes),
    {
        Entry { attributes: self, key: Self::null_ns_name(local_name) }
    }

    /// A reference to the attribute named `name`; the attributes afterwards hold at its place
    /// what the reference holds last.
    pub fn get_mut_named(&mut self, name: &ExpandedName) -> (r: Option<&mut Attribute>)
        ensures
            r is None <==> !has_key(old(self).entries(), name@),
            r is None ==> final(self).entries() == old(self).entries(),
            r matches Some(a) ==> {
                let i = key_index(old(self).entries(), name@);
                &&& has_key(old(self).entries(), name@)
                &&& old(self).entries()[i].1 == a@
                &&& final(self).entries() == old(self).entries().update(i, (name@, final(a)@))
                &&& lookup(final(self).entries(), name@) == Some(final(a)@)
            },
    {
        proof {
            use_type_invariant(&*self);
        }
        let ghost e = self.entries();
        proof {
            if has_key(e, name@) {
                let i = key_index(e, name@);
                assert forall|v: AttributeView| #[trigger] lookup(e.update(i, (name@, v)), name@) == Some(v) by {
                    lemma_update_lookup(e, i, v, name@);
                }
            }
        }
        map_get_mut(&mut self.map, name)
    }

    /// The position of the attribute named `name`, if present.
    fn index_of_name(&self, name: &ExpandedName) -> (r: Option<usize>)
        ensures
            r is None <==> !has_key(self.entries(), name@),
            r matches Some(i) ==> i == key_index(self.entries(), name@),
    {
        proof {
            use_type_invariant(self);
        }
        let r = map_get_index_of(&self.map, name);
        proof {
            if let Some(i) = r {
                assert(self.entries()[i as int].0 == name@);
                assert(i == key_index(self.entries(), name@));
            }
        }
        r
    }

    /// The number of attributes.
    pub fn len(&self) -> (n: usize)
        ensures
            n == self.entries().len(),
    {
        map_len(&self.map)
    }

    /// Like IndexMap::insert, sets the attribute `local_name` in the null namespace, without a
    /// prefix, and returns the attribute that it replaced.
    pub fn insert(&mut self, local_name: &str, value: String) -> (r: Option<Attribute>)
        ensures
            final(self).entries() == entries_after_insert(
                old(self).entries(),
                Self::null_ns_key(local_name@),
                (None, value@),
            ),
            match lookup(old(self).entries(), Self::null_ns_key(local_name@)) {
                Some(a) => r matches Some(o) && o@ == a,
                None => r is None,
            },
            lookup(final(self).entries(), Self::null_ns_key(local_name@)) == Some((None::<Seq<char>>, value@)),
            forall|k: NameView| k != Self::null_ns_key(local_name@) ==>
                #[trigger] lookup(final(self).entries(), k) == lookup(old(self).entries(), k),
    {
        self.insert_named(Self::null_ns_name(local_name), Attribute { prefix: None, value })
    }

    /// Sets the attribute with the expanded name `name`, and returns the attribute that it
    /// replaced.
    pub fn insert_named(&mut self, name: ExpandedName, attr: Attribute) -> (r: Option<Attribute>)
        ensures
            final(self).entries() == entries_after_insert(old(self).entries(), name@, attr@),
            match lookup(old(self).entries(), name@) {
                Some(a) => r matches Some(o) && o@ == a,
                None => r is None,
            },
            lookup(final(self).entries(), name@) == Some(attr@),
            forall|k: NameView| k != name@ ==>
                #[trigger] lookup(final(self).entries(), k) == lookup(old(self).entries(), k),
    {
        proof {
            use_type_invariant(&*self);
        }
        let ghost k = name@;
        let ghost v = attr@;
        let ghost e = self.entries();
        let mut map = map_new();
        std::mem::swap(&mut map, &mut self.map);
        let r = map_insert(&mut map, name, attr);
        self.map = map;
        proof {
            if has_key(e, k) {
                let i = choose|i: int|
                    0 <= i < e.len() && e[i].0 == k && map_entries(self.map) == e.update(i, (k, v))
                        && (r matches Some(o) && o@ == e[i].1);
                assert(i == key_index(e, k));
            }
            lemma_insert_lookup(e, k, v, k);
            assert forall|k2: NameView| k2 != k implies #[trigger] lookup(self.entries(), k2) == lookup(e, k2) by {
                lemma_insert_lookup(e, k, v, k2);
            }
        }
        r
    }

    /// Like IndexMap::swap_remove, removes the attribute `local_name` in the null namespace,
    /// moving the last attribute into its place, and returns it.
    pub fn remove(&mut self, local_name: &str) -> (r: Option<Attribute>)
        ensures
            final(self).entries() == entries_after_remove(
                old(self).entries(),
                Self::null_ns_key(local_name@),
            ),
            match lookup(old(self).entries(), Self::null_ns_key(local_name@)) {
                Some(a) => r matches Some(o) && o@ == a,
                None => r is None,
            },
            lookup(final(self).entries(), Self::null_ns_key(local_name@)) is None,
            forall|k: NameView| k != Self::null_ns_key(local_name@) ==>
                #[trigger] lookup(final(self).entries(), k) == lookup(old(self).entries(), k),
    {
        proof {
            use_type_invariant(&*self);
        }
        let key = Self::null_ns_name(local_name);
        let ghost e = self.entries();
        let r = map_swap_remove(&mut self.map, &key);
        proof {
            if has_key(e, key@) {
                let i = choose|i: int|
                    0 <= i < e.len() && e[i].0 == key@ && map_entries(self.map) == swap_remove_at(e, i)
                        && (r matches Some(o) && o@ == e[i].1);
                assert(i == key_index(e, key@));
            }
            lemma_remove_lookup(e, key@, key@);
            assert forall|k2: NameView| k2 != key@ implies #[trigger] lookup(self.entries(), k2) == lookup(e, k2) by {
                lemma_remove_lookup(e, key@, k2);
            }
        }
        r
    }
}

} // verus!
