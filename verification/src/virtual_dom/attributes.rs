//! The attributes of an element: names mapped to values, kept in the order
//! in which the names were first given.

use vstd::prelude::*;

verus! {

/// No name stands at two places of `pairs`.
pub open spec fn distinct_names(pairs: Seq<(Seq<char>, Seq<char>)>) -> bool {
    forall|i: int, j: int|
        0 <= i < j < pairs.len() ==> (#[trigger] pairs[i]).0 != (#[trigger] pairs[j]).0
}

/// Some entry of `pairs` carries `name`.
pub open spec fn has_name(pairs: Seq<(Seq<char>, Seq<char>)>, name: Seq<char>) -> bool {
    exists|i: int| 0 <= i < pairs.len() && (#[trigger] pairs[i]).0 == name
}

/// A place of `pairs` that carries `name`, where there is one.
pub open spec fn position_of(pairs: Seq<(Seq<char>, Seq<char>)>, name: Seq<char>) -> int {
    choose|i: int| 0 <= i < pairs.len() && (#[trigger] pairs[i]).0 == name
}

/// `pairs` after `name` was mapped to `value`: a name that is listed keeps
/// its place, a new one goes to the end.
pub open spec fn inserted(pairs: Seq<(Seq<char>, Seq<char>)>, name: Seq<char>, value: Seq<char>) -> Seq<
    (Seq<char>, Seq<char>),
> {
    if has_name(pairs, name) {
        pairs.update(position_of(pairs, name), (name, value))
    } else {
        pairs.push((name, value))
    }
}

/// The mapping that `pairs` stands for, without its order.
pub open spec fn as_map(pairs: Seq<(Seq<char>, Seq<char>)>) -> Map<Seq<char>, Seq<char>> {
    Map::new(
        |name: Seq<char>| has_name(pairs, name),
        |name: Seq<char>| pairs[position_of(pairs, name)].1,
    )
}

/// With distinct names, the mapping holds at each name the value listed with it.
pub proof fn lemma_as_map_entry(pairs: Seq<(Seq<char>, Seq<char>)>, i: int)
    requires
        distinct_names(pairs),
        0 <= i < pairs.len(),
    ensures
        as_map(pairs).contains_key(pairs[i].0),
        as_map(pairs)[pairs[i].0] == pairs[i].1,
{
    let name = pairs[i].0;
    assert(has_name(pairs, name));
    let p = position_of(pairs, name);
    assert(0 <= p < pairs.len() && pairs[p].0 == name);
    assert(p == i);
}

/// An ordered mapping from attribute names to values.
#[derive(Debug)]
pub struct Attributes {
    entries: Vec<(String, String)>,
}

impl View for Attributes {
    type V = Map<Seq<char>, Seq<char>>;

    open spec fn view(&self) -> Map<Seq<char>, Seq<char>> {
        as_map(self.pairs())
    }
}

impl Attributes {
    /// The entries in insertion order.
    pub closed spec fn pairs(&self) -> Seq<(Seq<char>, Seq<char>)> {
        self.entries@.map_values(|e: (String, String)| (e.0@, e.1@))
    }

    /// Validity: every name is listed once.
    #[verifier::type_invariant]
    pub closed spec fn wf(&self) -> bool {
        distinct_names(self.pairs())
    }

    /// What validity amounts to, for those who cannot see into it: every
    /// name is listed once.
    pub proof fn lemma_wf(&self)
        requires
            self.wf(),
        ensures
            distinct_names(self.pairs()),
    {
    }

    pub fn new() -> (r: Self)
        ensures
            r.pairs() == Seq::<(Seq<char>, Seq<char>)>::empty(),
            r@ == Map::<Seq<char>, Seq<char>>::empty(),
    {
        let r = Attributes { entries: Vec::new() };
        assert(r.pairs() =~= Seq::empty());
        assert(r@ =~= Map::empty());
        r
    }

    pub fn len(&self) -> (n: usize)
        ensures
            n == self.pairs().len(),
    {
        self.entries.len()
    }

    /// The place of `name` among the entries.
    pub fn position(&self, name: &String) -> (r: Option<usize>)
        ensures
            match r {
                Some(i) => i < self.pairs().len() && self.pairs()[i as int].0 == name@,
                None => !has_name(self.pairs(), name@),
            },
    {
        let mut i: usize = 0;
        while i < self.entries.len()
            invariant
                i <= self.entries.len(),
                forall|j: int| 0 <= j < i ==> (#[trigger] self.pairs()[j]).0 != name@,
            decreases self.entries.len() - i,
        {
            if self.entries[i].0 == *name {
                return Some(i);
            }
            i += 1;
        }
        None
    }

    /// The name of the entry at place `i`.
    pub fn name_at(&self, i: usize) -> (r: &String)
        requires
            i < self.pairs().len(),
        ensures
            r@ == self.pairs()[i as int].0,
    {
        &self.entries[i].0
    }

    /// The value of the entry at place `i`.
    pub fn value_at(&self, i: usize) -> (r: &String)
        requires
            i < self.pairs().len(),
        ensures
            r@ == self.pairs()[i as int].1,
    {
        &self.entries[i].1
    }

    /// The value that `name` is mapped to.
    pub fn get(&self, name: &str) -> (r: Option<&String>)
        ensures
            match r {
                Some(value) => self@.contains_key(name@) && self@[name@] == value@,
                None => !self@.contains_key(name@),
            },
    {
        let owned = name.to_owned();
        match self.position(&owned) {
            Some(i) => {
                proof {
                    use_type_invariant(self);
                    lemma_as_map_entry(self.pairs(), i as int);
                }
                Some(&self.entries[i].1)
            },
            None => None,
        }
    }

    /// Whether `name` is mapped to a value.
    pub fn contains_key(&self, name: &str) -> (r: bool)
        ensures
            r == self@.contains_key(name@),
    {
        let owned = name.to_owned();
        self.position(&owned).is_some()
    }

    /// Maps `name` to `value`. A name that is new goes to the end of the
    /// order; one that is there keeps its place. Returns the value that
    /// `name` was mapped to before.
    pub fn insert(&mut self, name: String, value: String) -> (previous: Option<String>)
        ensures
            final(self)@ == old(self)@.insert(name@, value@),
            final(self).pairs() == inserted(old(self).pairs(), name@, value@),
            match previous {
                Some(v) => old(self)@.contains_key(name@) && old(self)@[name@] == v@,
                None => !old(self)@.contains_key(name@),
            },
    {
        proof {
            use_type_invariant(&*self);
        }
        let ghost before = self.pairs();
        let ghost key = name@;
        let ghost val = value@;
        match self.position(&name) {
            Some(i) => {
                proof {
                    lemma_as_map_entry(before, i as int);
                }
                let mut entries = Vec::new();
                std::mem::swap(&mut entries, &mut self.entries);
                // the new entry goes to the end and is then exchanged with place `i`
                entries.push((name, value));
                let old_entry = entries.swap_remove(i);
                proof {
                    let after = entries@.map_values(|e: (String, String)| (e.0@, e.1@));
                    assert(after =~= before.update(i as int, (key, val)));
                    lemma_update_value(before, i as int, val);
                }
                self.entries = entries;
                Some(old_entry.1)
            },
            None => {
                let mut entries = Vec::new();
                std::mem::swap(&mut entries, &mut self.entries);
                entries.push((name, value));
                proof {
                    let after = entries@.map_values(|e: (String, String)| (e.0@, e.1@));
                    assert(after =~= before.push((key, val)));
                    lemma_push_new(before, key, val);
                }
                self.entries = entries;
                None
            },
        }
    }

    /// Whether each entry of `self` is an entry of `other`.
    pub fn included_in(&self, other: &Attributes) -> (r: bool)
        ensures
            r == self@.submap_of(other@),
    {
        proof {
            use_type_invariant(self);
            use_type_invariant(other);
        }
        let mut i: usize = 0;
        while i < self.entries.len()
            invariant
                i <= self.entries.len(),
                self.wf(),
                other.wf(),
                forall|j: int|
                    0 <= j < i ==> other@.contains_key((#[trigger] self.pairs()[j]).0) && other@[self.pairs()[j].0]
                        == self.pairs()[j].1,
            decreases self.entries.len() - i,
        {
            proof {
                lemma_as_map_entry(self.pairs(), i as int);
            }
            match other.position(&self.entries[i].0) {
                Some(j) => {
                    proof {
                        lemma_as_map_entry(other.pairs(), j as int);
                    }
                    if !(other.entries[j].1 == self.entries[i].1) {
                        assert(self@.dom().contains(self.pairs()[i as int].0));
                        return false;
                    }
                },
                None => {
                    assert(self@.dom().contains(self.pairs()[i as int].0));
                    assert(!other@.dom().contains(self.pairs()[i as int].0));
                    return false;
                },
            }
            i += 1;
        }
        proof {
            assert forall|name: Seq<char>| self@.contains_key(name) implies other@.contains_key(
                name,
            ) && self@[name] == other@[name] by {
                let p = position_of(self.pairs(), name);
                assert(0 <= p < self.pairs().len() && self.pairs()[p].0 == name);
                lemma_as_map_entry(self.pairs(), p);
            }
        }
        true
    }

    /// Whether both map the same names to the same values, in whatever order.
    pub fn same_as(&self, other: &Attributes) -> (r: bool)
        ensures
            r == (self@ == other@),
    {
        let r = self.included_in(other) && other.included_in(self);
        proof {
            if r {
                assert(self@ =~= other@);
            }
        }
        r
    }
}

/// Replacing the value at one place of a list with distinct names maps that
/// place's name to the new value and leaves the rest of the mapping.
pub proof fn lemma_update_value(pairs: Seq<(Seq<char>, Seq<char>)>, i: int, value: Seq<char>)
    requires
        distinct_names(pairs),
        0 <= i < pairs.len(),
    ensures
        distinct_names(pairs.update(i, (pairs[i].0, value))),
        as_map(pairs.update(i, (pairs[i].0, value))) == as_map(pairs).insert(pairs[i].0, value),
{
    let after = pairs.update(i, (pairs[i].0, value));
    assert(distinct_names(after)) by {
        assert forall|a: int, b: int| 0 <= a < b < after.len() implies (#[trigger] after[a]).0 != (
        #[trigger] after[b]).0 by {
            assert(after[a].0 == pairs[a].0);
            assert(after[b].0 == pairs[b].0);
        }
    }
    let left = as_map(after);
    let right = as_map(pairs).insert(pairs[i].0, value);
    assert forall|name: Seq<char>| left.contains_key(name) <==> right.contains_key(name) by {
        if has_name(after, name) {
            let p = position_of(after, name);
            assert(pairs[p].0 == name);
        }
        if has_name(pairs, name) {
            let p = position_of(pairs, name);
            assert(after[p].0 == name);
        }
        assert(after[i].0 == pairs[i].0);
    }
    assert forall|name: Seq<char>| left.contains_key(name) implies left[name] == right[name] by {
        let p = position_of(after, name);
        assert(0 <= p < after.len() && after[p].0 == name);
        lemma_as_map_entry(after, p);
        if p != i {
            assert(pairs[p].0 == name);
            lemma_as_map_entry(pairs, p);
        }
    }
    assert(left =~= right);
}

/// Appending a name that is not listed keeps the names distinct and adds the
/// entry to the mapping.
pub proof fn lemma_push_new(pairs: Seq<(Seq<char>, Seq<char>)>, name: Seq<char>, value: Seq<char>)
    requires
        distinct_names(pairs),
        !has_name(pairs, name),
    ensures
        distinct_names(pairs.push((name, value))),
        as_map(pairs.push((name, value))) == as_map(pairs).insert(name, value),
{
    let after = pairs.push((name, value));
    assert(distinct_names(after)) by {
        assert forall|a: int, b: int| 0 <= a < b < after.len() implies (#[trigger] after[a]).0 != (
        #[trigger] after[b]).0 by {
            if b < pairs.len() {
                assert(after[a] == pairs[a]);
                assert(after[b] == pairs[b]);
            } else {
                assert(after[a] == pairs[a]);
            }
        }
    }
    let left = as_map(after);
    let right = as_map(pairs).insert(name, value);
    assert forall|n: Seq<char>| left.contains_key(n) <==> right.contains_key(n) by {
        if has_name(after, n) {
            let p = position_of(after, n);
            if p < pairs.len() {
                assert(pairs[p].0 == n);
            }
        }
        if has_name(pairs, n) {
            let p = position_of(pairs, n);
            assert(after[p].0 == n);
        }
        assert(after[pairs.len() as int].0 == name);
    }
    assert forall|n: Seq<char>| left.contains_key(n) implies left[n] == right[n] by {
        let p = position_of(after, n);
        assert(0 <= p < after.len() && after[p].0 == n);
        lemma_as_map_entry(after, p);
        if p < pairs.len() {
            assert(pairs[p] == after[p]);
            lemma_as_map_entry(pairs, p);
        }
    }
    assert(left =~= right);
}

} // verus!
