//! Front end of a small browser engine: turns markup text into an element
//! tree and stylesheet text into a list of style rules.

use vstd::prelude::*;

pub mod css;
pub mod dom;
pub mod helper;
pub mod tokenizer;

verus! {

/// The model of an attribute mapping: from a name to its value, if the
/// attribute was given one.
pub type SpecAttrMap = Map<Seq<char>, Option<Seq<char>>>;

/// The mapping that a list of entries stands for: a later entry of a name
/// takes the place of an earlier one.
pub open spec fn entries_map(entries: Seq<(String, Option<String>)>) -> SpecAttrMap
    decreases entries.len(),
{
    if entries.len() == 0 {
        Map::empty()
    } else {
        entries_map(entries.drop_last()).insert(
            entries.last().0@,
            entries.last().1.deep_view(),
        )
    }
}

/// No name stands twice in `entries`.
pub open spec fn distinct_names(entries: Seq<(String, Option<String>)>) -> bool {
    forall|i: int, j: int|
        0 <= i < j < entries.len() ==> (#[trigger] entries[i]).0@ != (#[trigger] entries[j]).0@
}

/// Entries without their last are still entries of distinct names.
proof fn lemma_distinct_front(entries: Seq<(String, Option<String>)>)
    requires
        distinct_names(entries),
        entries.len() > 0,
    ensures
        distinct_names(entries.drop_last()),
{
    let front = entries.drop_last();
    assert forall|a: int, b: int| 0 <= a < b < front.len() implies (#[trigger] front[a]).0@ != (
    #[trigger] front[b]).0@ by {
        assert(entries[a].0@ != entries[b].0@);
    }
}

/// The names of the mapping are the names of the entries, and they are
/// finitely many.
proof fn lemma_entries_map_dom(entries: Seq<(String, Option<String>)>, name: Seq<char>)
    ensures
        entries_map(entries).contains_key(name) <==> exists|i: int|
            0 <= i < entries.len() && (#[trigger] entries[i]).0@ == name,
        entries_map(entries).dom().finite(),
    decreases entries.len(),
{
    if entries.len() > 0 {
        let front = entries.drop_last();
        lemma_entries_map_dom(front, name);
        if entries_map(entries).contains_key(name) {
            if entries.last().0@ == name {
                assert(entries[entries.len() - 1].0@ == name);
            } else {
                let i = choose|i: int| 0 <= i < front.len() && (#[trigger] front[i]).0@ == name;
                assert(entries[i].0@ == name);
            }
        }
        if exists|i: int| 0 <= i < entries.len() && (#[trigger] entries[i]).0@ == name {
            let i = choose|i: int| 0 <= i < entries.len() && (#[trigger] entries[i]).0@ == name;
            if i < entries.len() - 1 {
                assert(front[i].0@ == name);
            }
        }
    }
}

/// Among entries of distinct names, each name is mapped to the value of
/// its entry.
proof fn lemma_entries_map_at(entries: Seq<(String, Option<String>)>, i: int)
    requires
        distinct_names(entries),
        0 <= i < entries.len(),
    ensures
        entries_map(entries).contains_key(entries[i].0@),
        entries_map(entries)[entries[i].0@] == entries[i].1.deep_view(),
    decreases entries.len(),
{
    let front = entries.drop_last();
    if i < entries.len() - 1 {
        lemma_distinct_front(entries);
        lemma_entries_map_at(front, i);
        assert(front[i] == entries[i]);
        assert(entries[i].0@ != entries[entries.len() - 1].0@);
    }
}

/// Among entries of distinct names, a new value in the place of an
/// entry is a new value for its name.
proof fn lemma_entries_map_update(
    entries: Seq<(String, Option<String>)>,
    i: int,
    entry: (String, Option<String>),
)
    requires
        distinct_names(entries),
        0 <= i < entries.len(),
        entry.0@ == entries[i].0@,
    ensures
        distinct_names(entries.update(i, entry)),
        entries_map(entries.update(i, entry)) == entries_map(entries).insert(
            entry.0@,
            entry.1.deep_view(),
        ),
    decreases entries.len(),
{
    let after = entries.update(i, entry);
    assert(distinct_names(after)) by {
        assert forall|a: int, b: int| 0 <= a < b < after.len() implies (#[trigger] after[a]).0@
            != (#[trigger] after[b]).0@ by {
            assert(entries[a].0@ != entries[b].0@);
        }
    }
    let front = entries.drop_last();
    if i == entries.len() - 1 {
        assert(after.drop_last() =~= front);
        assert(entries_map(after) =~= entries_map(entries).insert(entry.0@, entry.1.deep_view()));
    } else {
        lemma_distinct_front(entries);
        lemma_entries_map_update(front, i, entry);
        assert(after.drop_last() =~= front.update(i, entry));
        assert(after.last() == entries.last());
        assert(entries[i].0@ != entries[entries.len() - 1].0@);
        assert(entries_map(after) =~= entries_map(entries).insert(entry.0@, entry.1.deep_view()));
    }
}

/// Entries of distinct names make a mapping of as many names.
proof fn lemma_entries_map_len(entries: Seq<(String, Option<String>)>)
    requires
        distinct_names(entries),
    ensures
        entries_map(entries).dom().finite(),
        entries_map(entries).len() == entries.len(),
    decreases entries.len(),
{
    if entries.len() > 0 {
        let front = entries.drop_last();
        lemma_distinct_front(entries);
        lemma_entries_map_len(front);
        lemma_entries_map_dom(front, entries.last().0@);
        if entries_map(front).contains_key(entries.last().0@) {
            let i = choose|i: int|
                0 <= i < front.len() && (#[trigger] front[i]).0@ == entries.last().0@;
            assert(entries[i].0@ != entries[entries.len() - 1].0@);
        }
    }
}

/// The attributes of a tag: each name once, with the value it was given,
/// in the order in which the names first came. Two mappings are equal
/// where they map the same names to the same values, in whatever order.
#[derive(Debug)]
pub struct AttrMap {
    entries: Vec<(String, Option<String>)>,
}

impl View for AttrMap {
    type V = SpecAttrMap;

    closed spec fn view(&self) -> SpecAttrMap {
        entries_map(self.entries@)
    }
}

impl DeepView for AttrMap {
    type V = SpecAttrMap;

    open spec fn deep_view(&self) -> SpecAttrMap {
        self@
    }
}

impl Clone for AttrMap {
    fn clone(&self) -> (res: Self)
        ensures
            res@ == self@,
    {
        proof {
            use_type_invariant(self);
        }
        let mut entries: Vec<(String, Option<String>)> = Vec::new();
        let mut i: usize = 0;
        while i < self.entries.len()
            invariant
                0 <= i <= self.entries.len(),
                entries@ == self.entries@.take(i as int),
            decreases self.entries.len() - i,
        {
            let value = match &self.entries[i].1 {
                Some(v) => Some(v.clone()),
                None => None,
            };
            entries.push((self.entries[i].0.clone(), value));
            assert(entries@ =~= self.entries@.take(i + 1));
            i += 1;
        }
        assert(entries@ =~= self.entries@);
        AttrMap { entries }
    }
}

/// Whether two values of an attribute are the same.
fn same_value(a: &Option<String>, b: &Option<String>) -> (r: bool)
    ensures
        r == (a.deep_view() == b.deep_view()),
{
    match (a, b) {
        (Some(x), Some(y)) => *x == *y,
        (None, None) => true,
        _ => false,
    }
}

impl PartialEq for AttrMap {
    fn eq(&self, other: &Self) -> (res: bool) {
        proof {
            use_type_invariant(self);
            use_type_invariant(other);
            lemma_entries_map_len(self.entries@);
            lemma_entries_map_len(other.entries@);
        }
        if self.entries.len() != other.entries.len() {
            return false;
        }
        let mut i: usize = 0;
        while i < self.entries.len()
            invariant
                0 <= i <= self.entries.len(),
                distinct_names(self.entries@),
                forall|k: int|
                    0 <= k < i ==> other@.contains_key((#[trigger] self.entries[k]).0@)
                        && other@[self.entries[k].0@] == self.entries[k].1.deep_view(),
            decreases self.entries.len() - i,
        {
            proof {
                lemma_entries_map_at(self.entries@, i as int);
            }
            match other.get(self.entries[i].0.as_str()) {
                None => {
                    return false;
                },
                Some(value) => {
                    if !same_value(value, &self.entries[i].1) {
                        return false;
                    }
                },
            }
            i += 1;
        }
        proof {
            assert forall|name: Seq<char>| #[trigger]
                self@.dom().contains(name) implies other@.dom().contains(name) && other@[name]
                == self@[name] by {
                lemma_entries_map_dom(self.entries@, name);
                let k = choose|k: int|
                    0 <= k < self.entries.len() && (#[trigger] self.entries[k]).0@ == name;
                lemma_entries_map_at(self.entries@, k);
            }
            assert(self@.dom().subset_of(other@.dom()));
            vstd::set_lib::lemma_subset_equality(self@.dom(), other@.dom());
            assert(self@ =~= other@);
        }
        true
    }
}

impl vstd::std_specs::cmp::PartialEqSpecImpl for AttrMap {
    open spec fn obeys_eq_spec() -> bool {
        true
    }

    open spec fn eq_spec(&self, other: &Self) -> bool {
        self@ == other@
    }
}

impl Eq for AttrMap {

}

impl AttrMap {
    /// No name stands twice among the entries.
    #[verifier::type_invariant]
    spec fn no_name_twice(self) -> bool {
        distinct_names(self.entries@)
    }

    /// The mapping without attributes.
    pub fn new() -> (m: Self)
        ensures
            m@ == Map::<Seq<char>, Option<Seq<char>>>::empty(),
    {
        AttrMap { entries: Vec::new() }
    }

    /// The number of attributes.
    pub fn len(&self) -> (n: usize)
        ensures
            self@.dom().finite(),
            n == self@.len(),
    {
        proof {
            use_type_invariant(self);
            lemma_entries_map_len(self.entries@);
        }
        self.entries.len()
    }

    /// The place of the entry of `name`, if there is one.
    fn position(&self, name: &String) -> (r: Option<usize>)
        ensures
            match r {
                Some(i) => i < self.entries.len() && self.entries[i as int].0@ == name@,
                None => !self@.contains_key(name@),
            },
    {
        let mut i: usize = 0;
        while i < self.entries.len()
            invariant
                0 <= i <= self.entries.len(),
                forall|k: int| 0 <= k < i ==> (#[trigger] self.entries[k]).0@ != name@,
            decreases self.entries.len() - i,
        {
            if self.entries[i].0 == *name {
                return Some(i);
            }
            i += 1;
        }
        proof {
            lemma_entries_map_dom(self.entries@, name@);
        }
        None
    }

    /// The value of the attribute `name`: `None` where the tag has no such
    /// attribute, `Some(None)` where it has it without a value.
    pub fn get(&self, name: &str) -> (r: Option<&Option<String>>)
        ensures
            match r {
                Some(value) => self@.contains_key(name@) && self@[name@] == value.deep_view(),
                None => !self@.contains_key(name@),
            },
    {
        let key = name.to_owned();
        match self.position(&key) {
            Some(i) => {
                proof {
                    use_type_invariant(self);
                    lemma_entries_map_at(self.entries@, i as int);
                }
                Some(&self.entries[i].1)
            },
            None => None,
        }
    }

    /// Whether the tag has the attribute `name`.
    pub fn contains_key(&self, name: &str) -> (b: bool)
        ensures
            b == self@.contains_key(name@),
    {
        let key = name.to_owned();
        match self.position(&key) {
            Some(i) => {
                proof {
                    use_type_invariant(self);
                    lemma_entries_map_at(self.entries@, i as int);
                }
                true
            },
            None => false,
        }
    }

    /// Gives the attribute `name` the value `value`, in place of the value
    /// it had, if it had one.
    pub fn insert(&mut self, name: String, value: Option<String>)
        ensures
            final(self)@ == old(self)@.insert(name@, value.deep_view()),
    {
        proof {
            use_type_invariant(&*self);
        }
        let found = self.position(&name);
        let mut entries: Vec<(String, Option<String>)> = Vec::new();
        core::mem::swap(&mut entries, &mut self.entries);
        match found {
            Some(i) => {
                proof {
                    lemma_entries_map_update(entries@, i as int, (name, value));
                }
                entries[i] = (name, value);
            },
            None => {
                proof {
                    lemma_entries_map_dom(entries@, name@);
                    assert(entries@.push((name, value)).drop_last() =~= entries@);
                }
                entries.push((name, value));
            },
        }
        self.entries = entries;
    }
}

} // verus!
