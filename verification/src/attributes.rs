//! The attributes of an element.

use vstd::prelude::*;

use crate::name::{clone_qname, qname_of, same_qname, QName, QNameView};
use crate::text::same_text;

verus! {

/// The attributes of an element by their resolved names. No two of them have the same name.
#[derive(Debug)]
pub struct AttributeMap {
    entries: Vec<(QName, String)>,
}

/// The map that a list of entries stands for.
spec fn map_of(entries: Seq<(QName, String)>) -> Map<QNameView, Seq<char>>
    decreases entries.len(),
{
    if entries.len() == 0 {
        Map::empty()
    } else {
        map_of(entries.drop_last()).insert(qname_of(entries.last().0), entries.last().1@)
    }
}

/// No name occurs twice.
spec fn distinct(entries: Seq<(QName, String)>) -> bool {
    forall|i: int, j: int|
        0 <= i < j < entries.len() ==> qname_of(#[trigger] entries[i].0) != qname_of(
            #[trigger] entries[j].0,
        )
}

proof fn map_of_contents(entries: Seq<(QName, String)>)
    requires
        distinct(entries),
    ensures
        map_of(entries).dom().finite(),
        map_of(entries).len() == entries.len(),
        forall|i: int|
            0 <= i < entries.len() ==> map_of(entries).contains_key(
                qname_of(#[trigger] entries[i].0),
            ) && map_of(entries)[qname_of(entries[i].0)] == entries[i].1@,
        forall|k: QNameView| #[trigger]
            map_of(entries).contains_key(k) ==> exists|i: int|
                0 <= i < entries.len() && qname_of(#[trigger] entries[i].0) == k,
    decreases entries.len(),
{
    if entries.len() > 0 {
        let rest = entries.drop_last();
        map_of_contents(rest);
        assert forall|i: int| 0 <= i < entries.len() implies map_of(entries).contains_key(
            qname_of(#[trigger] entries[i].0),
        ) && map_of(entries)[qname_of(entries[i].0)] == entries[i].1@ by {
            if i < rest.len() {
                assert(entries[i] == rest[i]);
            }
        }
        assert forall|k: QNameView| #[trigger]
            map_of(entries).contains_key(k) implies exists|i: int|
            0 <= i < entries.len() && qname_of(#[trigger] entries[i].0) == k by {
            if k == qname_of(entries.last().0) {
                assert(qname_of(entries[entries.len() - 1].0) == k);
            } else {
                assert(map_of(rest).contains_key(k));
                let i = choose|i: int| 0 <= i < rest.len() && qname_of(#[trigger] rest[i].0) == k;
                assert(entries[i] == rest[i]);
            }
        }
        if map_of(rest).contains_key(qname_of(entries.last().0)) {
            let i = choose|i: int|
                0 <= i < rest.len() && qname_of(#[trigger] rest[i].0) == qname_of(entries.last().0);
            assert(entries[i] == rest[i]);
            assert(entries[entries.len() - 1] == entries.last());
            assert(false);
        }
    }
}

impl View for AttributeMap {
    type V = Map<QNameView, Seq<char>>;

    closed spec fn view(&self) -> Map<QNameView, Seq<char>> {
        map_of(self.entries@)
    }
}

impl AttributeMap {
    #[verifier::type_invariant]
    spec fn inv(self) -> bool {
        distinct(self.entries@)
    }

    /// A map without attributes.
    pub fn new() -> (map: AttributeMap)
        ensures
            map@ == Map::<QNameView, Seq<char>>::empty(),
    {
        AttributeMap { entries: Vec::new() }
    }

    /// The position of the entry with the given name.
    fn find(&self, name: &QName) -> (found: Option<usize>)
        ensures
            match found {
                Some(i) => i < self.entries@.len() && qname_of(self.entries@[i as int].0)
                    == qname_of(*name),
                None => !self@.contains_key(qname_of(*name)),
            },
    {
        proof {
            use_type_invariant(self);
            map_of_contents(self.entries@);
        }
        let mut i: usize = 0;
        while i < self.entries.len()
            invariant
                i <= self.entries@.len(),
                forall|j: int|
                    0 <= j < i ==> qname_of(#[trigger] self.entries@[j].0) != qname_of(*name),
            decreases self.entries@.len() - i,
        {
            if same_qname(&self.entries[i].0, name) {
                return Some(i);
            }
            i += 1;
        }
        None
    }

    /// The number of attributes.
    pub fn len(&self) -> (len: usize)
        ensures
            len == self@.len(),
    {
        proof {
            use_type_invariant(self);
            map_of_contents(self.entries@);
        }
        self.entries.len()
    }

    /// The value of the attribute with the given name.
    pub fn get(&self, name: &QName) -> (value: Option<&String>)
        ensures
            match value {
                Some(value) => self@.contains_key(qname_of(*name)) && self@[qname_of(*name)]
                    == value@,
                None => !self@.contains_key(qname_of(*name)),
            },
    {
        proof {
            use_type_invariant(self);
            map_of_contents(self.entries@);
        }
        match self.find(name) {
            Some(i) => Some(&self.entries[i].1),
            None => None,
        }
    }

    /// The attributes, each with its name and value, in no particular order.
    pub fn entries(&self) -> (entries: &Vec<(QName, String)>)
        ensures
            entries@.len() == self@.len(),
            forall|i: int|
                0 <= i < entries@.len() ==> self@.contains_key(qname_of(#[trigger] entries@[i].0))
                    && self@[qname_of(entries@[i].0)] == entries@[i].1@,
            forall|name: QNameView| #[trigger]
                self@.contains_key(name) ==> exists|i: int|
                    0 <= i < entries@.len() && qname_of(#[trigger] entries@[i].0) == name,
    {
        proof {
            use_type_invariant(self);
            map_of_contents(self.entries@);
        }
        &self.entries
    }

    /// Adds an attribute, unless there is one of that name already. Says whether it was added.
    pub fn insert(&mut self, name: QName, value: String) -> (added: bool)
        ensures
            added == !old(self)@.contains_key(qname_of(name)),
            final(self)@ == if added {
                old(self)@.insert(qname_of(name), value@)
            } else {
                old(self)@
            },
    {
        proof {
            use_type_invariant(&*self);
            map_of_contents(self.entries@);
        }
        if self.find(&name).is_some() {
            return false;
        }
        let mut entries: Vec<(QName, String)> = Vec::new();
        std::mem::swap(&mut entries, &mut self.entries);
        let ghost before = entries@;
        entries.push((name, value));
        assert(entries@.drop_last() =~= before);
        self.entries = entries;
        true
    }
}

impl Clone for AttributeMap {
    fn clone(&self) -> (copy: AttributeMap)
        ensures
            copy@ == self@,
    {
        proof {
            use_type_invariant(self);
        }
        let mut entries: Vec<(QName, String)> = Vec::new();
        let mut i: usize = 0;
        assert(map_of(self.entries@.take(0)) =~= map_of(entries@));
        while i < self.entries.len()
            invariant
                i <= self.entries@.len(),
                entries@.len() == i,
                distinct(self.entries@),
                forall|j: int|
                    0 <= j < i ==> qname_of(#[trigger] entries@[j].0) == qname_of(
                        self.entries@[j].0,
                    ),
                map_of(entries@) == map_of(self.entries@.take(i as int)),
            decreases self.entries@.len() - i,
        {
            let entry: &(QName, String) = &self.entries[i];
            let ghost before = entries@;
            entries.push(
                (clone_qname(&entry.0), entry.1.clone()),
            );
            proof {
                let prefix = self.entries@.take(i + 1);
                assert(entries@.drop_last() =~= before);
                assert(prefix.drop_last() =~= self.entries@.take(i as int));
                assert(qname_of(entries@.last().0) == qname_of(prefix.last().0));
            }
            i += 1;
        }
        assert(self.entries@.take(i as int) =~= self.entries@);
        assert forall|i: int, j: int| 0 <= i < j < entries@.len() implies qname_of(
            #[trigger] entries@[i].0,
        ) != qname_of(#[trigger] entries@[j].0) by {
            assert(qname_of(self.entries@[i].0) != qname_of(self.entries@[j].0));
        }
        AttributeMap { entries }
    }
}

impl PartialEq for AttributeMap {
    fn eq(&self, other: &AttributeMap) -> (same: bool) {
        proof {
            use_type_invariant(self);
            use_type_invariant(other);
            map_of_contents(self.entries@);
            map_of_contents(other.entries@);
        }
        if self.entries.len() != other.entries.len() {
            return false;
        }
        let mut i: usize = 0;
        while i < self.entries.len()
            invariant
                i <= self.entries@.len(),
                distinct(self.entries@),
                forall|j: int|
                    0 <= j < i ==> other@.contains_key(qname_of(#[trigger] self.entries@[j].0))
                        && other@[qname_of(self.entries@[j].0)] == self.entries@[j].1@,
            decreases self.entries@.len() - i,
        {
            let entry: &(QName, String) = &self.entries[i];
            proof {
                map_of_contents(self.entries@);
                assert(self@.contains_key(qname_of(self.entries@[i as int].0)));
            }
            match other.get(&entry.0) {
                Some(value) => {
                    if !same_text(value.as_str(), entry.1.as_str()) {
                        return false;
                    }
                },
                None => {
                    return false;
                },
            }
            i += 1;
        }
        proof {
            assert(self@.dom().subset_of(other@.dom()));
            vstd::set_lib::lemma_subset_equality(self@.dom(), other@.dom());
            assert(self@ =~= other@);
        }
        true
    }
}

impl vstd::std_specs::cmp::PartialEqSpecImpl for AttributeMap {
    open spec fn obeys_eq_spec() -> bool {
        true
    }

    /// Two maps are equal if they hold the same attributes, in whatever order.
    open spec fn eq_spec(&self, other: &AttributeMap) -> bool {
        self@ == other@
    }
}

} // verus!
