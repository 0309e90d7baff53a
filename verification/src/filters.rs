//! The editable, ordered list of exact directory-name patterns that a scan
//! matches directory base names against.

use vstd::prelude::*;

verus! {

/// The five patterns a freshly reset list holds, in order.
pub open spec fn default_patterns() -> Seq<Seq<char>> {
    seq!["target"@, "node_modules"@, "dist"@, "out"@, "__pycache__"@]
}

/// `all` with every element equal to `pattern` removed; the order of the
/// rest is kept.
pub open spec fn without(all: Seq<Seq<char>>, pattern: Seq<char>) -> Seq<Seq<char>>
    decreases all.len(),
{
    if all.len() == 0 {
        Seq::empty()
    } else if all.last() == pattern {
        without(all.drop_last(), pattern)
    } else {
        without(all.drop_last(), pattern).push(all.last())
    }
}

/// An ordered collection of exact directory-name patterns.
///
/// Duplicates are allowed and kept; insertion order is preserved. Patterns
/// are compared by exact equality only: no wildcard or case folding.
pub struct Filters(Vec<String>);

impl View for Filters {
    type V = Seq<Seq<char>>;

    closed spec fn view(&self) -> Seq<Seq<char>> {
        self.0.deep_view()
    }
}

impl Default for Filters {
    fn default() -> (filters: Filters)
        ensures
            filters@ == Seq::<Seq<char>>::empty(),
    {
        let filters = Filters(Vec::new());
        proof {
            assert(filters@ =~= Seq::<Seq<char>>::empty());
        }
        filters
    }
}

impl Filters {
    /// Wraps the given patterns, in the given order.
    pub fn new(values: Vec<String>) -> (filters: Filters)
        ensures
            filters@ == values.deep_view(),
    {
        Filters(values)
    }

    /// Appends `pattern` unconditionally; a duplicate is not merged.
    pub fn add(&mut self, pattern: String)
        ensures
            final(self)@ == old(self)@.push(pattern@),
    {
        let ghost before = self@;
        self.0.push(pattern);
        proof {
            assert(self@ =~= before.push(pattern@));
        }
    }

    /// Removes every element exactly equal to `pattern`; if none is
    /// present, the list is unchanged.
    pub fn remove(&mut self, pattern: &String)
        ensures
            final(self)@ == without(old(self)@, pattern@),
    {
        let ghost all = old(self)@;
        let mut kept: Vec<String> = Vec::new();
        proof {
            assert(all.take(0) =~= Seq::<Seq<char>>::empty());
            assert(kept.deep_view() =~= without(all.take(0), pattern@));
        }
        let mut i: usize = 0;
        while i < self.0.len()
            invariant
                *self == *old(self),
                i <= self.0.len(),
                all == self@,
                kept.deep_view() == without(all.take(i as int), pattern@),
            decreases self.0.len() - i,
        {
            let ghost kept_before = kept.deep_view();
            if !(self.0[i] == *pattern) {
                kept.push(self.0[i].clone());
                proof {
                    assert(all[i as int] == self.0@[i as int]@);
                    assert(kept.deep_view() =~= kept_before.push(all[i as int]));
                }
            }
            proof {
                let step = all.take(i as int + 1);
                assert(step.drop_last() =~= all.take(i as int));
                assert(step.drop_last() == all.take(i as int));
                assert(step.last() == all[i as int]);
                assert(all[i as int] == self.0@[i as int]@);
                assert(kept.deep_view() == without(step, pattern@));
            }
            i += 1;
        }
        proof {
            assert(all.take(self.0.len() as int) =~= all);
        }
        self.0 = kept;
    }

    /// Returns the ordered pattern list as it stands; no side effect.
    pub fn list(&self) -> (values: &Vec<String>)
        ensures
            values.deep_view() == self@,
    {
        &self.0
    }

    /// Replaces the whole contents with the fixed default list, whatever
    /// was there before.
    pub fn reset(&mut self)
        ensures
            final(self)@ == default_patterns(),
    {
        let mut values: Vec<String> = Vec::new();
        values.push("target".to_owned());
        values.push("node_modules".to_owned());
        values.push("dist".to_owned());
        values.push("out".to_owned());
        values.push("__pycache__".to_owned());
        self.0 = values;
        proof {
            assert(self@ =~= default_patterns());
        }
    }
}

} // verus!
