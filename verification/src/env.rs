//! The environment: the bindings of variable names to arrays that one line
//! leaves to the next.

use crate::array::{array_from_i64, single, Array, Elem};
use vstd::hash_map::StringHashMap;
use vstd::prelude::*;

verus! {

/// Bindings as a mathematical value: a map from names to arrays.
pub type Bindings = Map<Seq<char>, Seq<Elem>>;

/// What a read of `name` yields: its binding, or `[0]` where it has none.
pub open spec fn lookup(bindings: Bindings, name: Seq<char>) -> Seq<Elem> {
    if bindings.contains_key(name) {
        bindings[name]
    } else {
        single(0)
    }
}

/// The bindings after a read of `name`: an unbound name is bound to `[0]`,
/// and nothing else changes.
pub open spec fn touched(bindings: Bindings, name: Seq<char>) -> Bindings {
    if bindings.contains_key(name) {
        bindings
    } else {
        bindings.insert(name, single(0))
    }
}

/// The variables of a session. Names are unique, a binding stays until it is
/// overwritten, and none is ever removed.
pub struct Environment {
    map: StringHashMap<Array>,
}

impl View for Environment {
    type V = Bindings;

    closed spec fn view(&self) -> Bindings {
        self.map@.map_values(|a: Array| a@)
    }
}

impl Environment {
    /// An environment without bindings.
    pub fn new() -> (r: Environment)
        ensures
            r@ == Map::<Seq<char>, Seq<Elem>>::empty(),
    {
        let r = Environment { map: StringHashMap::new() };
        assert(r@ =~= Map::<Seq<char>, Seq<Elem>>::empty());
        r
    }

    /// A copy of the array bound to `name`, if there is one. Reads nothing in.
    pub fn get(&self, name: &str) -> (r: Option<Array>)
        ensures
            match r {
                Some(a) => self@.contains_key(name@) && a@ == self@[name@],
                None => !self@.contains_key(name@),
            },
    {
        match self.map.get(name) {
            Some(a) => Some(a.clone()),
            None => None,
        }
    }

    /// Reads `name`: a copy of its array. A name without a binding is bound
    /// to `[0]` by the read, and that is what comes back.
    pub fn get_or_default(&mut self, name: &str) -> (r: Array)
        ensures
            r@ == lookup(old(self)@, name@),
            final(self)@ == touched(old(self)@, name@),
    {
        match self.map.get(name) {
            Some(a) => a.clone(),
            None => {
                self.map.insert(name.to_owned(), array_from_i64(0));
                assert(self@ =~= old(self)@.insert(name@, single(0)));
                array_from_i64(0)
            },
        }
    }

    /// Binds `name` to `value`, whatever it was bound to before.
    pub fn set(&mut self, name: String, value: Array)
        ensures
            final(self)@ == old(self)@.insert(name@, value@),
    {
        self.map.insert(name, value);
        assert(self@ =~= old(self)@.insert(name@, value@));
    }
}

} // verus!
