//! Named cells and ranges, kept in the order they were first defined.
use vstd::prelude::*;
use crate::formula::Range;
use crate::text::{chars_eq, chars_of};

verus! {

/// Names bound to ranges. Each name occurs once; redefining a name keeps its place.
pub struct NamedRanges {
    entries: Vec<(String, Range)>,
}

impl NamedRanges {
    /// The bindings in definition order, names as characters.
    pub closed spec fn view(&self) -> Seq<(Seq<char>, Range)> {
        self.entries@.map_values(|e: (String, Range)| (e.0@, e.1))
    }

    /// No name occurs twice.
    pub open spec fn wf(&self) -> bool {
        forall|i: int, j: int|
            0 <= i < j < self.view().len() ==> (#[trigger] self.view()[i]).0 != (
            #[trigger] self.view()[j]).0
    }

    /// The range bound to `name`, if any.
    pub open spec fn lookup(&self, name: Seq<char>) -> Option<Range> {
        if exists|i: int| 0 <= i < self.view().len() && (#[trigger] self.view()[i]).0 == name {
            let i = choose|i: int| 0 <= i < self.view().len() && (#[trigger] self.view()[i]).0 == name;
            Some(self.view()[i].1)
        } else {
            None
        }
    }

    /// No names.
    pub fn new() -> (n: Self)
        ensures
            n.view() == Seq::<(Seq<char>, Range)>::empty(),
            n.wf(),
    {
        let n = NamedRanges { entries: Vec::new() };
        proof {
            assert(n.view() =~= Seq::<(Seq<char>, Range)>::empty());
        }
        n
    }

    /// Number of names.
    pub fn len(&self) -> (l: usize)
        ensures
            l == self.view().len(),
    {
        self.entries.len()
    }

    /// The `i`-th binding in definition order.
    pub fn entry(&self, i: usize) -> (e: (&String, Range))
        requires
            i < self.view().len(),
        ensures
            e.0@ == self.view()[i as int].0,
            e.1 == self.view()[i as int].1,
    {
        let e = &self.entries[i];
        (&e.0, e.1)
    }

    /// Position of `name`, if bound.
    pub fn position(&self, name: &Vec<char>) -> (r: Option<usize>)
        ensures
            match r {
                Some(i) => i < self.view().len() && self.view()[i as int].0 == name@ && forall|
                    j: int,
                | 0 <= j < i ==> (#[trigger] self.view()[j]).0 != name@,
                None => forall|j: int|
                    0 <= j < self.view().len() ==> (#[trigger] self.view()[j]).0 != name@,
            },
    {
        let mut i: usize = 0;
        while i < self.entries.len()
            invariant
                0 <= i <= self.entries@.len(),
                self.view().len() == self.entries@.len(),
                forall|j: int| 0 <= j < i ==> (#[trigger] self.view()[j]).0 != name@,
            decreases self.entries@.len() - i,
        {
            let e = &self.entries[i];
            let t = chars_of(e.0.as_str());
            if chars_eq(&t, name) {
                return Some(i);
            }
            i += 1;
        }
        None
    }

    /// The range bound to `name`, if any.
    pub fn get(&self, name: &str) -> (r: Option<Range>)
        requires
            self.wf(),
        ensures
            r == self.lookup(name@),
    {
        let t = chars_of(name);
        match self.position(&t) {
            Some(i) => {
                proof {
                    assert(self.view()[i as int].0 == name@);
                    let j = choose|j: int|
                        0 <= j < self.view().len() && (#[trigger] self.view()[j]).0 == name@;
                    assert(j == i);
                }
                Some(self.entries[i].1)
            },
            None => None,
        }
    }

    /// Whether `name` is bound.
    pub fn contains_key(&self, name: &str) -> (b: bool)
        requires
            self.wf(),
        ensures
            b == self.lookup(name@) is Some,
    {
        self.get(name).is_some()
    }

    /// Binds `name` to `range`, replacing an earlier binding of the same name in place.
    pub fn insert(&mut self, name: String, range: Range)
        requires
            old(self).wf(),
        ensures
            final(self).wf(),
            final(self).lookup(name@) == Some(range),
            forall|n: Seq<char>| n != name@ ==> final(self).lookup(n) == old(self).lookup(n),
            (exists|i: int| 0 <= i < old(self).view().len() && (#[trigger] old(self).view()[i]).0 == name@)
                ==> final(self).view().len() == old(self).view().len(),
            !(exists|i: int| 0 <= i < old(self).view().len() && (#[trigger] old(self).view()[i]).0 == name@)
                ==> final(self).view() == old(self).view().push((name@, range)),
    {
        let t = chars_of(name.as_str());
        match self.position(&t) {
            Some(i) => {
                self.entries.set(i, (name, range));
                proof {
                    assert(self.view() =~= old(self).view().update(i as int, (t@, range)));
                    assert forall|n: Seq<char>| n != t@ implies self.lookup(n) == old(self).lookup(n) by {
                        if exists|k: int| 0 <= k < old(self).view().len() && (#[trigger] old(self).view()[k]).0 == n {
                            let k = choose|k: int| 0 <= k < old(self).view().len() && (#[trigger] old(self).view()[k]).0 == n;
                            assert(self.view()[k].0 == n);
                            let k2 = choose|k2: int| 0 <= k2 < self.view().len() && (#[trigger] self.view()[k2]).0 == n;
                            assert(k == k2);
                        } else {
                            if exists|k: int| 0 <= k < self.view().len() && (#[trigger] self.view()[k]).0 == n {
                                let k = choose|k: int| 0 <= k < self.view().len() && (#[trigger] self.view()[k]).0 == n;
                                assert(old(self).view()[k].0 == n);
                            }
                        }
                    }
                    let k2 = choose|k2: int| 0 <= k2 < self.view().len() && (#[trigger] self.view()[k2]).0 == t@;
                    assert(self.view()[i as int].0 == t@);
                }
            },
            None => {
                self.entries.push((name, range));
                proof {
                    assert(self.view() =~= old(self).view().push((t@, range)));
                    let last = old(self).view().len() as int;
                    assert(self.view()[last].0 == t@);
                    assert forall|n: Seq<char>| n != t@ implies self.lookup(n) == old(self).lookup(n) by {
                        if exists|k: int| 0 <= k < old(self).view().len() && (#[trigger] old(self).view()[k]).0 == n {
                            let k = choose|k: int| 0 <= k < old(self).view().len() && (#[trigger] old(self).view()[k]).0 == n;
                            assert(self.view()[k].0 == n);
                            let k2 = choose|k2: int| 0 <= k2 < self.view().len() && (#[trigger] self.view()[k2]).0 == n;
                            assert(k == k2);
                        } else {
                            if exists|k: int| 0 <= k < self.view().len() && (#[trigger] self.view()[k]).0 == n {
                                let k = choose|k: int| 0 <= k < self.view().len() && (#[trigger] self.view()[k]).0 == n;
                                assert(old(self).view()[k].0 == n);
                            }
                        }
                    }
                    let k2 = choose|k2: int| 0 <= k2 < self.view().len() && (#[trigger] self.view()[k2]).0 == t@;
                    assert(k2 == last);
                }
            },
        }
    }
}

} // verus!
