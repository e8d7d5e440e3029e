//! The class tokens of an element: a set, kept in the order in which the
//! tokens were first given.

use vstd::prelude::*;

verus! {

/// The class set of an element.
#[derive(Debug)]
pub struct Classes {
    tokens: Vec<String>,
}

impl View for Classes {
    type V = Set<Seq<char>>;

    open spec fn view(&self) -> Set<Seq<char>> {
        self.tokens().to_set()
    }
}

impl Classes {
    /// The tokens in insertion order.
    pub closed spec fn tokens(&self) -> Seq<Seq<char>> {
        self.tokens@.map_values(|t: String| t@)
    }

    /// Validity: no token is listed twice.
    #[verifier::type_invariant]
    pub closed spec fn wf(&self) -> bool {
        self.tokens().no_duplicates()
    }

    pub fn new() -> (r: Self)
        ensures
            r.tokens() == Seq::<Seq<char>>::empty(),
            r@ == Set::<Seq<char>>::empty(),
    {
        let r = Classes { tokens: Vec::new() };
        assert(r.tokens() =~= Seq::empty());
        assert(r@ =~= Set::empty());
        r
    }

    pub fn len(&self) -> (n: usize)
        ensures
            n == self.tokens().len(),
    {
        self.tokens.len()
    }

    /// The token at place `i`.
    pub fn token_at(&self, i: usize) -> (r: &String)
        requires
            i < self.tokens().len(),
        ensures
            r@ == self.tokens()[i as int],
    {
        &self.tokens[i]
    }

    /// Whether `token` is in the set.
    pub fn has(&self, token: &String) -> (r: bool)
        ensures
            r == self@.contains(token@),
            r == self.tokens().contains(token@),
    {
        let mut i: usize = 0;
        while i < self.tokens.len()
            invariant
                i <= self.tokens.len(),
                forall|j: int| 0 <= j < i ==> self.tokens()[j] != token@,
            decreases self.tokens.len() - i,
        {
            if self.tokens[i] == *token {
                assert(self.tokens()[i as int] == token@);
                return true;
            }
            i += 1;
        }
        false
    }

    /// Whether `token` is in the set.
    pub fn contains(&self, token: &str) -> (r: bool)
        ensures
            r == self@.contains(token@),
    {
        let owned = token.to_owned();
        self.has(&owned)
    }

    /// Adds `token`, at the end of the order where it is new. Returns whether
    /// it was new.
    pub fn insert(&mut self, token: String) -> (added: bool)
        ensures
            final(self)@ == old(self)@.insert(token@),
            added == !old(self)@.contains(token@),
            final(self).tokens() == if added {
                old(self).tokens().push(token@)
            } else {
                old(self).tokens()
            },
    {
        proof {
            use_type_invariant(&*self);
        }
        let ghost before = self.tokens();
        let ghost t = token@;
        if self.has(&token) {
            assert(self@.insert(t) =~= self@);
            false
        } else {
            let mut tokens = Vec::new();
            std::mem::swap(&mut tokens, &mut self.tokens);
            tokens.push(token);
            proof {
                let after = tokens@.map_values(|t: String| t@);
                assert(after =~= before.push(t));
                assert(after.no_duplicates());
                assert(after.to_set() =~= before.to_set().insert(t)) by {
                    assert forall|x: Seq<char>| after.to_set().contains(x) <==> before.to_set().insert(
                        t,
                    ).contains(x) by {
                        if after.contains(x) {
                            let k = choose|k: int| 0 <= k < after.len() && after[k] == x;
                            if k < before.len() {
                                assert(before[k] == x);
                            }
                        }
                        if before.contains(x) {
                            let k = choose|k: int| 0 <= k < before.len() && before[k] == x;
                            assert(after[k] == x);
                        }
                        assert(after[before.len() as int] == t);
                    }
                }
            }
            self.tokens = tokens;
            true
        }
    }

    /// Whether each token of `self` is a token of `other`.
    pub fn included_in(&self, other: &Classes) -> (r: bool)
        ensures
            r == self@.subset_of(other@),
    {
        let mut i: usize = 0;
        while i < self.tokens.len()
            invariant
                i <= self.tokens.len(),
                forall|j: int| 0 <= j < i ==> other@.contains(#[trigger] self.tokens()[j]),
            decreases self.tokens.len() - i,
        {
            if !other.has(&self.tokens[i]) {
                assert(self@.contains(self.tokens()[i as int]));
                return false;
            }
            i += 1;
        }
        true
    }

    /// Whether both hold the same tokens, in whatever order.
    pub fn same_as(&self, other: &Classes) -> (r: bool)
        ensures
            r == (self@ == other@),
    {
        let r = self.included_in(other) && other.included_in(self);
        proof {
            if r {
                assert(self@ =~= other@);
            }
        }
        r
    }
}

} // verus!
