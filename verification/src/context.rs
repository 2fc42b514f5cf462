use vstd::prelude::*;

verus! {

/// What a name resolves to among the store's entries: the newest entry for
/// the name wins.
pub open spec fn spec_lookup(entries: Seq<(String, String)>, name: Seq<char>) -> Option<Seq<char>>
    decreases entries.len(),
{
    if entries.len() == 0 {
        None
    } else if entries.last().0@ == name {
        Some(entries.last().1@)
    } else {
        spec_lookup(entries.drop_last(), name)
    }
}

/// The mutable variable store of a session: a mapping from variable name to
/// the numeral standing for its current value. The store treats numerals as
/// opaque text; the numeric driver outside this crate interprets them.
pub struct Context {
    vars: Vec<(String, String)>,
}

impl Context {
    /// The mapping this store holds.
    pub closed spec fn vars_map(&self) -> Map<Seq<char>, Seq<char>> {
        Map::new(
            |k: Seq<char>| spec_lookup(self.vars@, k) is Some,
            |k: Seq<char>| spec_lookup(self.vars@, k).unwrap(),
        )
    }

    /// A fresh store, seeded with the two mathematical constants, as the
    /// numerals that round-trip to the nearest machine values of `pi` and
    /// `e`.
    pub fn new() -> (r: Context)
        ensures
            r.vars_map() == Map::<Seq<char>, Seq<char>>::empty().insert("pi"@, "3.1415927"@).insert(
                "e"@,
                "2.7182817"@,
            ),
    {
        let mut r = Context { vars: Vec::new() };
        proof {
            assert(r.vars_map() =~= Map::<Seq<char>, Seq<char>>::empty());
        }
        r.set_var("pi", "3.1415927");
        r.set_var("e", "2.7182817");
        r
    }

    /// The numeral currently bound to `var_name`, if any.
    pub fn var(&self, var_name: &str) -> (r: Option<String>)
        ensures
            match r {
                Some(s) => self.vars_map().contains_key(var_name@) && s@
                    == self.vars_map()[var_name@],
                None => !self.vars_map().contains_key(var_name@),
            },
    {
        let key = var_name.to_owned();
        let mut i: usize = self.vars.len();
        proof {
            assert(self.vars@.take(self.vars@.len() as int) =~= self.vars@);
        }
        while i > 0
            invariant
                i <= self.vars@.len(),
                key@ == var_name@,
                spec_lookup(self.vars@.take(i as int), var_name@) == spec_lookup(
                    self.vars@,
                    var_name@,
                ),
            decreases i,
        {
            i = i - 1;
            proof {
                assert(self.vars@.take(i + 1).drop_last() =~= self.vars@.take(i as int));
                assert(self.vars@.take(i + 1).last() == self.vars@[i as int]);
            }
            if self.vars[i].0 == key {
                return Some(self.vars[i].1.clone());
            }
        }
        proof {
            assert(self.vars@.take(0) =~= Seq::<(String, String)>::empty());
        }
        None
    }

    /// Binds `var_name` to the numeral `value`, shadowing any earlier
    /// binding.
    pub fn set_var(&mut self, var_name: &str, value: &str)
        ensures
            final(self).vars_map() == old(self).vars_map().insert(var_name@, value@),
    {
        self.vars.push((var_name.to_owned(), value.to_owned()));
        proof {
            assert(self.vars@.drop_last() =~= old(self).vars@);
            assert(self.vars@.last().0@ == var_name@);
            assert(final(self).vars_map() =~= old(self).vars_map().insert(var_name@, value@));
        }
    }
}

} // verus!
