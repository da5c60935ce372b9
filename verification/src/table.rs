//! An in-memory table of named string variables, the model of a process
//! environment: a finite map from variable names to values.

use vstd::prelude::*;

verus! {

/// A table of named string variables. Its mathematical view is a
/// `Map<Seq<char>, Seq<char>>` from variable names to their values; a name
/// absent from the map is an unset variable.
pub struct EnvTable {
    vars: vstd::hash_map::StringHashMap<String>,
}

impl View for EnvTable {
    type V = Map<Seq<char>, Seq<char>>;

    closed spec fn view(&self) -> Map<Seq<char>, Seq<char>> {
        self.vars@.map_values(|v: String| v@)
    }
}

impl EnvTable {
    /// Creates a table with no variables set.
    pub fn new() -> (table: Self)
        ensures
            table@ == Map::<Seq<char>, Seq<char>>::empty(),
    {
        let table = EnvTable { vars: vstd::hash_map::StringHashMap::new() };
        proof {
            assert(table@ =~= Map::<Seq<char>, Seq<char>>::empty());
        }
        table
    }

    /// Returns the value of the variable `name`, or `None` if it is unset.
    pub fn get(&self, name: &str) -> (value: Option<&String>)
        ensures
            match value {
                Some(v) => self@.contains_key(name@) && v@ == self@[name@],
                None => !self@.contains_key(name@),
            },
    {
        self.vars.get(name)
    }

    /// Returns true if the variable `name` is set.
    pub fn contains(&self, name: &str) -> (present: bool)
        ensures
            present == self@.contains_key(name@),
    {
        self.vars.contains_key(name)
    }

    /// Sets the variable `name` to `value`, replacing any prior value.
    pub fn set_var(&mut self, name: String, value: String)
        ensures
            final(self)@ == old(self)@.insert(name@, value@),
    {
        let ghost value_view = value@;
        self.vars.insert(name, value);
        proof {
            assert(self@ =~= old(self)@.insert(name@, value_view));
        }
    }

    /// Unsets the variable `name`; a name that is not set stays unset.
    pub fn remove_var(&mut self, name: &str)
        ensures
            final(self)@ == old(self)@.remove(name@),
    {
        self.vars.remove(name);
        proof {
            assert(self@ =~= old(self)@.remove(name@));
        }
    }
}

} // verus!
