//! Relationships between cells kept in maps of their own: each cell's parents, in the order
//! they were added, its children, and its formula code.
use vstd::prelude::*;
use std::collections::{HashMap, HashSet};
use vstd::set_lib::lemma_len_subset;
use crate::dfs::set_elements;

verus! {

broadcast use vstd::std_specs::hash::group_hash_axioms;

/// Parents, children and formula codes by cell key.
pub struct CellRelationships {
    pub parents: HashMap<i32, Vec<i32>>,
    pub children: HashMap<i32, HashSet<i32>>,
    pub formulas: HashMap<i32, i16>,
}

impl CellRelationships {
    /// The parents recorded for `k`, in the order they were added.
    pub open spec fn parents_of(&self, k: i32) -> Seq<i32> {
        if self.parents@.contains_key(k) {
            self.parents@[k]@
        } else {
            Seq::empty()
        }
    }

    /// The children recorded for `k`.
    pub open spec fn children_of(&self, k: i32) -> Set<i32> {
        if self.children@.contains_key(k) {
            self.children@[k]@
        } else {
            Set::empty()
        }
    }

    /// The formula code recorded for `k`, or -1.
    pub open spec fn formula_of(&self, k: i32) -> i16 {
        if self.formulas@.contains_key(k) {
            self.formulas@[k]
        } else {
            -1i16
        }
    }

    /// Nothing recorded.
    pub fn new() -> (r: Self)
        ensures
            forall|k: i32| #[trigger] r.parents_of(k) == Seq::<i32>::empty(),
            forall|k: i32| #[trigger] r.children_of(k) == Set::<i32>::empty(),
            forall|k: i32| #[trigger] r.formula_of(k) == -1i16,
    {
        CellRelationships { parents: HashMap::new(), children: HashMap::new(), formulas: HashMap::new() }
    }

    /// Records `parent_key` as the last parent of `cell_key`.
    pub fn add_parent(&mut self, cell_key: i32, parent_key: i32)
        ensures
            forall|k: i32| #[trigger] final(self).parents_of(k) == if k == cell_key {
                old(self).parents_of(k).push(parent_key)
            } else {
                old(self).parents_of(k)
            },
            final(self).children == old(self).children,
            final(self).formulas == old(self).formulas,
    {
        let mut v = match self.parents.remove(&cell_key) {
            Some(v) => v,
            None => Vec::new(),
        };
        v.push(parent_key);
        self.parents.insert(cell_key, v);
    }

    /// Records `child_key` as a child of `parent_key`.
    pub fn add_child(&mut self, parent_key: i32, child_key: i32)
        ensures
            forall|k: i32| #[trigger] final(self).children_of(k) == if k == parent_key {
                old(self).children_of(k).insert(child_key)
            } else {
                old(self).children_of(k)
            },
            final(self).parents == old(self).parents,
            final(self).formulas == old(self).formulas,
    {
        let mut s = match self.children.remove(&parent_key) {
            Some(s) => s,
            None => HashSet::new(),
        };
        s.insert(child_key);
        self.children.insert(parent_key, s);
    }

    /// Records the formula code of `cell_key`.
    pub fn set_formula(&mut self, cell_key: i32, formula: i16)
        ensures
            forall|k: i32| #[trigger] final(self).formula_of(k) == if k == cell_key {
                formula
            } else {
                old(self).formula_of(k)
            },
            final(self).parents == old(self).parents,
            final(self).children == old(self).children,
    {
        self.formulas.insert(cell_key, formula);
    }

    /// The formula code of `cell_key`, or -1.
    pub fn get_formula(&self, cell_key: i32) -> (f: i16)
        ensures
            f == self.formula_of(cell_key),
    {
        match self.formulas.get(&cell_key) {
            Some(f) => *f,
            None => -1,
        }
    }

    /// The parents of `cell_key`, in the order they were added.
    pub fn get_parents(&self, cell_key: i32) -> (v: Vec<i32>)
        ensures
            v@ == self.parents_of(cell_key),
    {
        match self.parents.get(&cell_key) {
            Some(v) => {
                let c = v.clone();
                proof {
                    assert(c@ =~= v@);
                }
                c
            },
            None => Vec::new(),
        }
    }

    /// The children of `cell_key`.
    pub fn get_children(&self, cell_key: i32) -> (s: HashSet<i32>)
        ensures
            s@ == self.children_of(cell_key),
    {
        let mut s: HashSet<i32> = HashSet::new();
        match self.children.get(&cell_key) {
            Some(set) => {
                let v = set_elements(set);
                let mut i: usize = 0;
                while i < v.len()
                    invariant
                        0 <= i <= v@.len(),
                        s@ == v@.take(i as int).to_set(),
                    decreases v@.len() - i,
                {
                    s.insert(v[i]);
                    proof {
                        assert(v@.take(i + 1) =~= v@.take(i as int).push(v@[i as int]));
                        v@.take(i as int).lemma_push_to_set_commute(v@[i as int]);
                    }
                    i += 1;
                }
                proof {
                    assert(v@.take(v@.len() as int) =~= v@);
                }
            },
            None => {
                proof {
                    assert(s@ =~= Set::<i32>::empty());
                }
            },
        }
        s
    }

    /// Forgets the parents of `cell_key`, and `cell_key` as a child of each of them.
    pub fn remove_all_parents(&mut self, cell_key: i32)
        ensures
            final(self).parents@ == old(self).parents@.remove(cell_key),
            final(self).children@.dom() == old(self).children@.dom(),
            forall|k: i32| #[trigger] final(self).children@.contains_key(k) && !old(self).parents_of(cell_key).contains(k)
                ==> final(self).children@[k] == old(self).children@[k],
            final(self).parents_of(cell_key) == Seq::<i32>::empty(),
            forall|k: i32| k != cell_key ==> #[trigger] final(self).parents_of(k) == old(self).parents_of(k),
            forall|k: i32| #[trigger] final(self).children_of(k) == if old(self).parents_of(cell_key).contains(k) {
                old(self).children_of(k).remove(cell_key)
            } else {
                old(self).children_of(k)
            },
            final(self).formulas == old(self).formulas,
    {
        let ghost ps = self.parents_of(cell_key);
        let ghost c0 = *self;
        match self.parents.remove(&cell_key) {
            Some(parents) => {
                let mut i: usize = 0;
                while i < parents.len()
                    invariant
                        0 <= i <= parents@.len(),
                        parents@ == ps,
                        self.formulas == c0.formulas,
                        self.parents@ == c0.parents@.remove(cell_key),
                        self.children@.dom() == c0.children@.dom(),
                        forall|k: i32| #[trigger] self.children@.contains_key(k) && !ps.take(i as int).contains(k)
                            ==> self.children@[k] == c0.children@[k],
                        forall|k: i32| #[trigger] self.children_of(k) == if ps.take(i as int).contains(k) {
                            c0.children_of(k).remove(cell_key)
                        } else {
                            c0.children_of(k)
                        },
                    decreases parents@.len() - i,
                {
                    let p = parents[i];
                    let ghost before = *self;
                    if let Some(mut set) = self.children.remove(&p) {
                        set.remove(&cell_key);
                        self.children.insert(p, set);
                    }
                    proof {
                        assert(ps.take(i + 1) =~= ps.take(i as int).push(p));
                        assert forall|k: i32| #[trigger] self.children@.contains_key(k) && !ps.take(i + 1).contains(k)
                            implies self.children@[k] == c0.children@[k] by {
                            assert(ps.take(i + 1)[i as int] == p);
                            assert(k != p);
                            if ps.take(i as int).contains(k) {
                                let j = choose|j: int| 0 <= j < i && ps.take(i as int)[j] == k;
                                assert(ps.take(i + 1)[j] == k);
                            }
                            assert(before.children@.contains_key(k));
                        }
                        assert forall|k: i32| #[trigger] self.children_of(k) == if ps.take(i + 1).contains(k) {
                            c0.children_of(k).remove(cell_key)
                        } else {
                            c0.children_of(k)
                        } by {
                            if k == p {
                                assert(ps.take(i + 1)[i as int] == p);
                                assert(before.children_of(k) == if ps.take(i as int).contains(k) {
                                    c0.children_of(k).remove(cell_key)
                                } else {
                                    c0.children_of(k)
                                });
                                assert(self.children_of(k) =~= c0.children_of(k).remove(cell_key));
                            } else {
                                assert(self.children_of(k) == before.children_of(k));
                                assert(ps.take(i + 1).contains(k) == ps.take(i as int).contains(k)) by {
                                    if ps.take(i + 1).contains(k) {
                                        let j = choose|j: int| 0 <= j < i + 1 && #[trigger] ps.take(i + 1)[j] == k;
                                        assert(ps.take(i as int)[j] == k);
                                    }
                                    if ps.take(i as int).contains(k) {
                                        let j = choose|j: int| 0 <= j < i && #[trigger] ps.take(i as int)[j] == k;
                                        assert(ps.take(i + 1)[j] == k);
                                    }
                                }
                            }
                        }
                    }
                    i += 1;
                }
                proof {
                    assert(ps.take(ps.len() as int) =~= ps);
                }
            },
            None => {
                proof {
                    assert(self.parents@ =~= c0.parents@.remove(cell_key));
                    assert(ps == Seq::<i32>::empty());
                    assert forall|k: i32| #[trigger] self.children_of(k) == if ps.contains(k) {
                        c0.children_of(k).remove(cell_key)
                    } else {
                        c0.children_of(k)
                    } by {}
                }
            },
        }
    }
}

/// Consecutive keys of `p` are recorded as parent and child.
pub open spec fn rel_path(rels: &CellRelationships, p: Seq<i32>) -> bool {
    forall|i: int| 0 <= i < p.len() - 1 ==> (#[trigger] rels.children_of(p[i])).contains(p[i + 1])
}

/// `b` depends on `a` through one or more recorded children.
pub open spec fn rel_reaches(rels: &CellRelationships, a: i32, b: i32) -> bool {
    exists|p: Seq<i32>| p.len() >= 2 && p[0] == a && p.last() == b && #[trigger] rel_path(rels, p)
}

/// Some cell that `start` reaches through recorded children, `start` included, depends on
/// itself.
pub open spec fn cycle_reachable(rels: &CellRelationships, start: i32) -> bool {
    exists|k: i32| (k == start || rel_reaches(rels, start, k)) && #[trigger] rel_reaches(rels, k, k)
}

/// What the search keeps true: the cells on the current path have been visited, and each
/// visited cell off the path (a finished one) has only finished children and does not
/// depend on itself.
pub open spec fn search_ok(rels: &CellRelationships, vis: Set<i32>, path: Set<i32>) -> bool {
    &&& path.subset_of(vis)
    &&& forall|f: i32, c: i32|
        vis.contains(f) && !path.contains(f) && #[trigger] rels.children_of(f).contains(c) ==> vis.contains(c)
            && !path.contains(c)
    &&& forall|f: i32| vis.contains(f) && !path.contains(f) ==> !#[trigger] rel_reaches(rels, f, f)
}

/// The path `gp` leads from `start` through recorded children to `current`.
pub open spec fn leads_to(rels: &CellRelationships, start: i32, gp: Seq<i32>, current: i32) -> bool {
    if gp.len() == 0 {
        current == start
    } else {
        gp[0] == start && rel_path(rels, gp.push(current))
    }
}

/// The keys not in `vis`.
pub open spec fn unvisited(vis: Set<i32>) -> Set<i32> {
    Set::new(|k: i32| !vis.contains(k))
}

/// The keys from `lo` up to `hi`.
spec fn keys_between(lo: int, hi: int) -> Set<i32> {
    Set::new(|k: i32| lo <= k < hi)
}

proof fn lemma_keys_between(lo: int, hi: int)
    requires
        i32::MIN <= lo <= hi <= i32::MAX + 1,
    ensures
        keys_between(lo, hi).finite(),
        keys_between(lo, hi).len() == hi - lo,
    decreases hi - lo,
{
    if hi == lo {
        assert(keys_between(lo, hi) =~= Set::empty());
    } else {
        lemma_keys_between(lo, hi - 1);
        assert(keys_between(lo, hi) =~= keys_between(lo, hi - 1).insert((hi - 1) as i32));
    }
}

/// Marking one more key visited leaves fewer keys unvisited.
proof fn lemma_unvisited_shrinks(a: Set<i32>, b: Set<i32>, k: i32)
    requires
        a.subset_of(b),
        !a.contains(k),
        b.contains(k),
    ensures
        unvisited(b).finite(),
        unvisited(b).len() < unvisited(a).len(),
{
    lemma_keys_between(i32::MIN as int, i32::MAX as int + 1);
    let all = keys_between(i32::MIN as int, i32::MAX as int + 1);
    assert(unvisited(a).subset_of(all));
    lemma_len_subset(unvisited(a), all);
    assert(unvisited(b).subset_of(unvisited(a).remove(k)));
    lemma_len_subset(unvisited(b), unvisited(a).remove(k));
}

/// A cell that a finished cell reaches is finished too.
proof fn lemma_finished_reach(rels: &CellRelationships, vis: Set<i32>, path: Set<i32>, f: i32, x: i32)
    requires
        search_ok(rels, vis, path),
        vis.contains(f),
        !path.contains(f),
        rel_reaches(rels, f, x),
    ensures
        vis.contains(x),
        !path.contains(x),
{
    let p = choose|p: Seq<i32>| p.len() >= 2 && p[0] == f && p.last() == x && #[trigger] rel_path(rels, p);
    assert forall|j: int| 0 <= j < p.len() implies vis.contains(#[trigger] p[j]) && !path.contains(p[j]) by {
        lemma_finished_path(rels, vis, path, p, j);
    }
    assert(vis.contains(p[p.len() - 1]));
}

proof fn lemma_finished_path(rels: &CellRelationships, vis: Set<i32>, path: Set<i32>, p: Seq<i32>, j: int)
    requires
        search_ok(rels, vis, path),
        p.len() >= 1,
        vis.contains(p[0]),
        !path.contains(p[0]),
        rel_path(rels, p),
        0 <= j < p.len(),
    ensures
        vis.contains(p[j]),
        !path.contains(p[j]),
    decreases j,
{
    if j > 0 {
        lemma_finished_path(rels, vis, path, p, j - 1);
        assert(rels.children_of(p[j - 1]).contains(p[j - 1 + 1]));
        assert(p[j - 1 + 1] == p[j]);
    }
}

/// A cell on the current path, met again as a child of the cell being searched, closes a
/// ring that the start reaches.
proof fn lemma_back_edge(rels: &CellRelationships, start: i32, gp: Seq<i32>, current: i32, c: i32)
    requires
        leads_to(rels, start, gp, current),
        gp.push(current).contains(c),
        rels.children_of(current).contains(c),
    ensures
        cycle_reachable(rels, start),
{
    let g = gp.push(current);
    let i = choose|i: int| 0 <= i < g.len() && g[i] == c;
    assert(g[0] == start);
    assert(rel_path(rels, g)) by {
        if gp.len() == 0 {
        }
    }
    let q = g.subrange(i, g.len() as int).push(c);
    assert forall|j: int| 0 <= j < q.len() - 1 implies (#[trigger] rels.children_of(q[j])).contains(q[j + 1]) by {
        if j < q.len() - 2 {
            assert(q[j] == g[i + j] && q[j + 1] == g[i + j + 1]);
            assert(rels.children_of(g[i + j]).contains(g[i + j + 1]));
        } else {
            assert(q[j] == g[g.len() - 1]);
        }
    }
    assert(rel_path(rels, q));
    assert(q[0] == c && q.last() == c);
    assert(rel_reaches(rels, c, c));
    if i > 0 {
        let r = g.subrange(0, i + 1);
        assert forall|j: int| 0 <= j < r.len() - 1 implies (#[trigger] rels.children_of(r[j])).contains(r[j + 1]) by {
            assert(r[j] == g[j] && r[j + 1] == g[j + 1]);
            assert(rels.children_of(g[j]).contains(g[j + 1]));
        }
        assert(rel_path(rels, r));
        assert(r[0] == start && r.last() == c);
        assert(rel_reaches(rels, start, c));
    }
}

impl CellRelationships {
    /// Searches depth first from `current`, which the path `gp` from `start` leads to: true
    /// when some cell it reaches is met again on the current path.
    fn dfs(
        &self,
        current: i32,
        visited: &mut HashMap<i32, bool>,
        path: &mut HashSet<i32>,
        Ghost(start): Ghost<i32>,
        Ghost(gp): Ghost<Seq<i32>>,
    ) -> (b: bool)
        requires
            !old(visited)@.contains_key(current),
            old(path)@ == gp.to_set(),
            gp.no_duplicates(),
            search_ok(self, old(visited)@.dom(), old(path)@),
            leads_to(self, start, gp, current),
        ensures
            b ==> cycle_reachable(self, start),
            !b ==> {
                &&& final(visited)@.contains_key(current)
                &&& final(path)@ == old(path)@
                &&& old(visited)@.dom().subset_of(final(visited)@.dom())
                &&& search_ok(self, final(visited)@.dom(), final(path)@)
            },
        decreases unvisited(visited@.dom()).len(),
    {
        let ghost v0 = visited@.dom();
        visited.insert(current, true);
        path.insert(current);
        let ghost g = gp.push(current);
        proof {
            assert(!gp.contains(current));
            gp.lemma_push_to_set_commute(current);
            assert(path@ == g.to_set());
            assert(g.no_duplicates()) by {
                assert forall|a: int, b: int| 0 <= a < b < g.len() implies g[a] != g[b] by {
                    if b == g.len() - 1 {
                        assert(gp.contains(g[a]));
                    }
                }
            }
            assert(visited@.dom() =~= v0.insert(current));
            assert forall|f: i32, c: i32|
                visited@.dom().contains(f) && !path@.contains(f) && #[trigger] self.children_of(f).contains(c)
                implies visited@.dom().contains(c) && !path@.contains(c) by {
                assert(v0.contains(f) && !old(path)@.contains(f));
                if c == current {
                    assert(v0.contains(c));
                }
            }
        }
        let children = self.get_children(current);
        let kids = crate::dfs::set_elements(&children);
        let mut found = false;
        let mut j: usize = 0;
        while j < kids.len() && !found
            invariant
                0 <= j <= kids@.len(),
                kids@.to_set() == self.children_of(current),
                !found ==> path@ == g.to_set(),
                g == gp.push(current),
                g.no_duplicates(),
                !v0.contains(current),
                v0 == old(visited)@.dom(),
                old(path)@ == gp.to_set(),
                leads_to(self, start, gp, current),
                !found ==> visited@.contains_key(current),
                !found ==> v0.insert(current).subset_of(visited@.dom()),
                !found ==> search_ok(self, visited@.dom(), path@),
                found ==> cycle_reachable(self, start),
                !found ==> forall|i: int| 0 <= i < j ==> visited@.contains_key(#[trigger] kids@[i]) && !path@.contains(kids@[i]),
            decreases kids@.len() - j,
        {
            let c = kids[j];
            proof {
                assert(kids@.to_set().contains(c));
            }
            if !visited.contains_key(&c) {
                proof {
                    lemma_unvisited_shrinks(v0, visited@.dom(), current);
                    assert(leads_to(self, start, g, c)) by {
                        assert(g[0] == start);
                        let h = g.push(c);
                        assert forall|i: int| 0 <= i < h.len() - 1 implies (#[trigger] self.children_of(h[i])).contains(h[i + 1]) by {
                            if i < h.len() - 2 {
                                assert(h[i] == g[i] && h[i + 1] == g[i + 1]);
                                if gp.len() > 0 {
                                    assert(rel_path(self, gp.push(current)));
                                    assert(self.children_of(g[i]).contains(g[i + 1]));
                                }
                            }
                        }
                    }
                }
                let ghost vb = visited@.dom();
                if self.dfs(c, visited, path, Ghost(start), Ghost(g)) {
                    found = true;
                } else {
                    proof {
                        assert forall|i: int| 0 <= i < j + 1 implies visited@.contains_key(#[trigger] kids@[i]) && !path@.contains(kids@[i]) by {
                            if i < j {
                                assert(vb.contains(kids@[i]));
                            }
                        }
                    }
                }
            } else if path.contains(&c) {
                proof {
                    assert(g.to_set().contains(c));
                    lemma_back_edge(self, start, gp, current, c);
                }
                found = true;
            }
            j += 1;
        }
        if found {
            return true;
        }
        proof {
            assert forall|c: i32| #[trigger] self.children_of(current).contains(c) implies visited@.contains_key(c) && !path@.contains(c) by {
                assert(kids@.to_set().contains(c));
                let i = choose|i: int| 0 <= i < kids@.len() && kids@[i] == c;
                assert(visited@.contains_key(kids@[i]));
            }
        }
        let ghost vis = visited@.dom();
        let ghost p1 = path@;
        path.remove(&current);
        proof {
            assert(path@ =~= gp.to_set()) by {
                assert forall|x: i32| path@.contains(x) <==> gp.to_set().contains(x) by {
                    if gp.to_set().contains(x) {
                        assert(x != current);
                        assert(g.to_set().contains(x)) by {
                            let i = choose|i: int| 0 <= i < gp.len() && gp[i] == x;
                            assert(g[i] == x);
                        }
                    }
                    if path@.contains(x) {
                        assert(g.to_set().contains(x));
                        let i = choose|i: int| 0 <= i < g.len() && g[i] == x;
                        if i < gp.len() {
                            assert(gp[i] == x);
                        }
                    }
                }
            }
            assert(!rel_reaches(self, current, current)) by {
                if rel_reaches(self, current, current) {
                    let p = choose|p: Seq<i32>| p.len() >= 2 && p[0] == current && p.last() == current && #[trigger] rel_path(self, p);
                    let c = p[1];
                    assert(self.children_of(p[0]).contains(p[1]));
                    assert(vis.contains(c) && !p1.contains(c));
                    if p.len() == 2 {
                        assert(c == current);
                    } else {
                        let q = p.subrange(1, p.len() as int);
                        assert forall|i: int| 0 <= i < q.len() - 1 implies (#[trigger] self.children_of(q[i])).contains(q[i + 1]) by {
                            assert(q[i] == p[i + 1] && q[i + 1] == p[i + 2]);
                            assert(self.children_of(p[i + 1]).contains(p[i + 1 + 1]));
                        }
                        assert(rel_path(self, q));
                        lemma_finished_reach(self, vis, p1, c, current);
                    }
                }
            }
            assert forall|f: i32, c: i32|
                vis.contains(f) && !path@.contains(f) && #[trigger] self.children_of(f).contains(c)
                implies vis.contains(c) && !path@.contains(c) by {
                if f != current {
                    assert(!p1.contains(f));
                }
            }
            assert forall|f: i32| vis.contains(f) && !path@.contains(f) implies !#[trigger] rel_reaches(self, f, f) by {
                if f != current {
                    assert(!p1.contains(f));
                }
            }
            assert(v0.subset_of(vis));
        }
        false
    }

    /// Whether some cell that `start_key` reaches through the recorded children,
    /// `start_key` included, depends on itself: a depth-first search that meets a cell of
    /// its current path again.
    pub fn detect_cycle(&self, start_key: i32) -> (b: bool)
        ensures
            b == cycle_reachable(self, start_key),
    {
        let mut visited: HashMap<i32, bool> = HashMap::new();
        let mut path: HashSet<i32> = HashSet::new();
        proof {
            assert(path@ =~= Seq::<i32>::empty().to_set());
            assert(visited@.dom() =~= Set::<i32>::empty());
        }
        let b = self.dfs(start_key, &mut visited, &mut path, Ghost(start_key), Ghost(Seq::empty()));
        proof {
            if !b {
                assert(path@ =~= Set::<i32>::empty());
                assert forall|k: i32| (k == start_key || rel_reaches(self, start_key, k)) implies !#[trigger] rel_reaches(self, k, k) by {
                    if k != start_key {
                        lemma_finished_reach(self, visited@.dom(), path@, start_key, k);
                    }
                }
            }
        }
        b
    }
}

} // verus!
