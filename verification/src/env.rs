//! The settings a program is started with: named text values.
use vstd::prelude::*;

use crate::text::{chars_equal, chars_of};

verus! {

/// The value last set for `key`.
pub open spec fn latest(vars: Seq<(Seq<char>, Seq<char>)>, key: Seq<char>) -> Option<Seq<char>>
    decreases vars.len(),
{
    if vars.len() == 0 {
        None
    } else if vars.last().0 == key {
        Some(vars.last().1)
    } else {
        latest(vars.drop_last(), key)
    }
}

/// Named settings; setting a name again replaces its value.
#[derive(Clone)]
pub struct EnvArgs {
    vars: Vec<(String, String)>,
}

impl EnvArgs {
    /// The value of the setting `key`.
    pub closed spec fn var(&self, key: Seq<char>) -> Option<Seq<char>> {
        latest(self.vars@.map_values(|p: (String, String)| (p.0@, p.1@)), key)
    }

    /// No settings.
    pub fn new() -> (a: EnvArgs)
        ensures
            forall|k: Seq<char>| a.var(k) is None,
    {
        EnvArgs { vars: Vec::new() }
    }

    /// Sets `key` to `value`.
    pub fn insert(&mut self, key: String, value: String)
        ensures
            final(self).var(key@) == Some(value@),
            forall|k: Seq<char>| k != key@ ==> final(self).var(k) == old(self).var(k),
    {
        let ghost before = self.vars@.map_values(|p: (String, String)| (p.0@, p.1@));
        let ghost kv = (key@, value@);
        self.vars.push((key, value));
        assert(self.vars@.map_values(|p: (String, String)| (p.0@, p.1@)) =~= before.push(kv));
        assert(before.push(kv).drop_last() =~= before);
    }

    /// The value of the setting `key`.
    pub fn get(&self, key: &str) -> (r: Option<&String>)
        ensures
            match r {
                Some(v) => self.var(key@) == Some(v@),
                None => self.var(key@) is None,
            },
    {
        let ghost views = self.vars@.map_values(|p: (String, String)| (p.0@, p.1@));
        let k = chars_of(key);
        let mut i = self.vars.len();
        assert(views.take(i as int) =~= views);
        while i > 0
            invariant
                i <= self.vars@.len(),
                k@ == key@,
                views == self.vars@.map_values(|p: (String, String)| (p.0@, p.1@)),
                latest(views, key@) == latest(views.take(i as int), key@),
            decreases i,
        {
            let ghost prefix = views.take(i as int);
            assert(prefix.drop_last() =~= views.take(i - 1));
            assert(prefix.last() == views[i - 1]);
            assert(views[i - 1] == (self.vars@[i - 1].0@, self.vars@[i - 1].1@));
            let name = chars_of(self.vars[i - 1].0.as_str());
            if chars_equal(name.as_slice(), k.as_slice()) {
                return Some(&self.vars[i - 1].1);
            }
            i = i - 1;
        }
        None
    }
}

} // verus!
