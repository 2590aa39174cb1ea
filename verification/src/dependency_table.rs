//! A table of dependent lists addressed by 1-based indices, whose emptied slots are handed
//! out again.
use vstd::prelude::*;

verus! {

/// A cell as (row, column).
pub type CellId = (u16, u16);

/// Lists of dependent cells, and the slots freed for reuse (most recently freed last).
pub struct DependencyTable {
    entries: Vec<Vec<CellId>>,
    free_indices: Vec<u16>,
}

impl DependencyTable {
    /// The lists, by slot (index - 1).
    pub closed spec fn lists(&self) -> Seq<Seq<CellId>> {
        self.entries@.map_values(|v: Vec<CellId>| v@)
    }

    /// The freed slots, the next to be reused last.
    pub closed spec fn free(&self) -> Seq<u16> {
        self.free_indices@
    }

    /// Every freed slot is a slot of the table.
    pub open spec fn wf(&self) -> bool {
        &&& self.lists().len() < u16::MAX
        &&& forall|i: int| 0 <= i < self.free().len() ==> #[trigger] self.free()[i] < self.lists().len()
    }

    /// No lists.
    pub fn new() -> (t: Self)
        ensures
            t.wf(),
            t.lists() == Seq::<Seq<CellId>>::empty(),
            t.free() == Seq::<u16>::empty(),
    {
        let t = DependencyTable { entries: Vec::new(), free_indices: Vec::new() };
        proof {
            assert(t.lists() =~= Seq::<Seq<CellId>>::empty());
        }
        t
    }

    /// Stores `deps` in the last freed slot, or in a new slot, and returns its index.
    pub fn add_deps(&mut self, deps: Vec<CellId>) -> (index: u16)
        requires
            old(self).wf(),
            old(self).free().len() == 0 ==> old(self).lists().len() + 1 < u16::MAX,
        ensures
            final(self).wf(),
            old(self).free().len() > 0 ==> {
                let slot = old(self).free().last();
                &&& index == slot + 1
                &&& final(self).free() == old(self).free().drop_last()
                &&& final(self).lists() == old(self).lists().update(slot as int, deps@)
            },
            old(self).free().len() == 0 ==> {
                &&& index == old(self).lists().len() + 1
                &&& final(self).free() == old(self).free()
                &&& final(self).lists() == old(self).lists().push(deps@)
            },
    {
        let ghost dv = deps@;
        match self.free_indices.pop() {
            Some(reused) => {
                proof {
                    assert(reused == old(self).free().last());
                    assert(reused < old(self).lists().len());
                }
                self.entries.set(reused as usize, deps);
                proof {
                    assert(self.lists() =~= old(self).lists().update(reused as int, dv));
                    assert forall|i: int| 0 <= i < self.free().len() implies #[trigger] self.free()[i] < self.lists().len() by {
                        assert(self.free()[i] == old(self).free()[i]);
                    }
                }
                reused + 1
            },
            None => {
                let index = self.entries.len();
                self.entries.push(deps);
                proof {
                    assert(self.lists() =~= old(self).lists().push(dv));
                }
                (index + 1) as u16
            },
        }
    }

    /// The list at `index`.
    pub fn get_deps(&self, index: u16) -> (d: &Vec<CellId>)
        requires
            1 <= index <= self.lists().len(),
        ensures
            d@ == self.lists()[index - 1],
    {
        &self.entries[(index - 1) as usize]
    }

    /// The list at `index`, to be changed in place.
    pub fn get_deps_mut(&mut self, index: u16) -> (d: &mut Vec<CellId>)
        requires
            1 <= index <= old(self).lists().len(),
        ensures
            d@ == old(self).lists()[index - 1],
            final(self).lists() == old(self).lists().update(index - 1, final(d)@),
            final(self).free() == old(self).free(),
    {
        &mut self.entries[(index - 1) as usize]
    }

    /// Adds `dep` to the list at `index` unless it is there, or stores a new list of `dep`
    /// as [`DependencyTable::add_deps`] does when there is no index; returns the index.
    pub fn add_single_dep(&mut self, index: Option<u16>, dep: CellId) -> (r: u16)
        requires
            old(self).wf(),
            index matches Some(i) ==> 1 <= i <= old(self).lists().len(),
            index is None && old(self).free().len() == 0 ==> old(self).lists().len() + 1 < u16::MAX,
        ensures
            final(self).wf(),
            index matches Some(i) ==> {
                &&& r == i
                &&& final(self).free() == old(self).free()
                &&& final(self).lists() == old(self).lists().update(
                    i - 1,
                    if old(self).lists()[i - 1].contains(dep) {
                        old(self).lists()[i - 1]
                    } else {
                        old(self).lists()[i - 1].push(dep)
                    },
                )
            },
            index is None && old(self).free().len() > 0 ==> {
                let slot = old(self).free().last();
                &&& r == slot + 1
                &&& final(self).free() == old(self).free().drop_last()
                &&& final(self).lists() == old(self).lists().update(slot as int, seq![dep])
            },
            index is None && old(self).free().len() == 0 ==> {
                &&& r == old(self).lists().len() + 1
                &&& final(self).free() == old(self).free()
                &&& final(self).lists() == old(self).lists().push(seq![dep])
            },
    {
        match index {
            Some(idx) => {
                let deps = self.get_deps_mut(idx);
                if !contains_dep(deps, dep) {
                    deps.push(dep);
                }
                idx
            },
            None => {
                let mut deps: Vec<CellId> = Vec::new();
                deps.push(dep);
                proof {
                    assert(deps@ =~= seq![dep]);
                }
                self.add_deps(deps)
            },
        }
    }

    /// Takes `dep` out of the list at `index` (the last entry fills its place); when that
    /// empties the list its slot is freed and the result is `None`, else it is `index`.
    pub fn remove_dep(&mut self, index: u16, dep: CellId) -> (r: Option<u16>)
        requires
            old(self).wf(),
            1 <= index <= old(self).lists().len(),
        ensures
            final(self).wf(),
            ({
                let l = old(self).lists()[index - 1];
                match position(l, dep) {
                    Some(p) => {
                        let l2 = l.update(p, l.last()).drop_last();
                        &&& final(self).lists() == old(self).lists().update(index - 1, l2)
                        &&& l2.len() == 0 ==> r is None && final(self).free() == old(self).free().push((index - 1) as u16)
                        &&& l2.len() > 0 ==> r == Some(index) && final(self).free() == old(self).free()
                    },
                    None => *final(self) == *old(self) && r == Some(index),
                }
            }),
    {
        let ghost l = self.lists()[index - 1];
        match find_dep(self.get_deps(index), dep) {
            Some(pos) => {
                let deps = self.get_deps_mut(index);
                deps.swap_remove(pos);
                if deps.len() == 0 {
                    self.free_indices.push(index - 1);
                    proof {
                        assert forall|i: int| 0 <= i < self.free().len() implies #[trigger] self.free()[i] < self.lists().len() by {
                            if i < old(self).free().len() {
                                assert(self.free()[i] == old(self).free()[i]);
                            }
                        }
                    }
                    return None;
                }
                Some(index)
            },
            None => Some(index),
        }
    }
}

/// Where `dep` first comes in `l`, if anywhere.
pub open spec fn position(l: Seq<CellId>, dep: CellId) -> Option<int> {
    if exists|p: int| 0 <= p < l.len() && l[p] == dep {
        Some(choose|p: int| 0 <= p < l.len() && l[p] == dep && forall|q: int| 0 <= q < p ==> l[q] != dep)
    } else {
        None
    }
}

/// Whether `dep` is in `deps`.
fn contains_dep(deps: &Vec<CellId>, dep: CellId) -> (b: bool)
    ensures
        b == deps@.contains(dep),
{
    match find_dep(deps, dep) {
        Some(p) => true,
        None => false,
    }
}

/// Where `dep` first comes in `deps`, as [`position`] says.
fn find_dep(deps: &Vec<CellId>, dep: CellId) -> (r: Option<usize>)
    ensures
        match position(deps@, dep) {
            Some(p) => r == Some(p as usize),
            None => r is None,
        },
        r is None <==> !deps@.contains(dep),
        r matches Some(i) ==> i < deps@.len() && deps@[i as int] == dep && forall|q: int| 0 <= q < i ==> deps@[q] != dep,
{
    let mut i: usize = 0;
    while i < deps.len()
        invariant
            0 <= i <= deps@.len(),
            forall|q: int| 0 <= q < i ==> deps@[q] != dep,
        decreases deps@.len() - i,
    {
        if deps[i].0 == dep.0 && deps[i].1 == dep.1 {
            proof {
                assert(deps@[i as int] == dep);
                let p = choose|p: int| 0 <= p < deps@.len() && deps@[p] == dep && forall|q: int| 0 <= q < p ==> deps@[q] != dep;
                assert(p == i);
            }
            return Some(i);
        }
        i += 1;
    }
    None
}

} // verus!
