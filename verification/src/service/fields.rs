//! Named values.

use vstd::prelude::*;

use crate::text::same_text;

verus! {

/// Values by name; a name that comes again replaces its value.
#[derive(Debug)]
pub struct Fields<V> {
    entries: Vec<(String, V)>,
}

/// What a list of named values holds.
pub open spec fn named<V>(entries: Seq<(String, V)>) -> Map<Seq<char>, V>
    decreases entries.len(),
{
    if entries.len() == 0 {
        Map::empty()
    } else {
        named(entries.drop_last()).insert(entries.last().0@, entries.last().1)
    }
}

impl<V> View for Fields<V> {
    type V = Map<Seq<char>, V>;

    closed spec fn view(&self) -> Map<Seq<char>, V> {
        named(self.entries@)
    }
}

impl<V> Fields<V> {
    pub fn new() -> (r: Fields<V>)
        ensures
            r@ == Map::<Seq<char>, V>::empty(),
    {
        Fields { entries: Vec::new() }
    }

    pub fn insert(&mut self, name: String, value: V)
        ensures
            final(self)@ == old(self)@.insert(name@, value),
    {
        self.entries.push((name, value));
        assert(self.entries@.drop_last() =~= old(self).entries@);
    }

    pub fn get(&self, name: &str) -> (r: Option<&V>)
        ensures
            match r {
                Some(value) => self@.dom().contains(name@) && *value == self@[name@],
                None => !self@.dom().contains(name@),
            },
    {
        let total: usize = self.entries.len();
        let mut n: usize = total;
        assert(self.entries@.take(total as int) =~= self.entries@);
        while n > 0
            invariant
                n <= self.entries@.len(),
                self@.dom().contains(name@) == named(self.entries@.take(n as int)).dom().contains(
                    name@,
                ),
                self@.dom().contains(name@) ==> self@[name@] == named(
                    self.entries@.take(n as int),
                )[name@],
            decreases n,
        {
            assert(self.entries@.take(n as int).drop_last() =~= self.entries@.take(n - 1));
            assert(self.entries@.take(n as int).last() == self.entries@[n - 1]);
            if same_text(self.entries[n - 1].0.as_str(), name) {
                return Some(&self.entries[n - 1].1);
            }
            n -= 1;
        }
        assert(self.entries@.take(0) =~= Seq::<(String, V)>::empty());
        None
    }
}

} // verus!
