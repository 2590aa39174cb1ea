//! Depth-first search over the recorded dependencies: which cells a change reaches, in
//! which order they can be re-evaluated, and whether they depend on each other in a ring.
use std::collections::HashSet;
use vstd::prelude::*;
use crate::graph::{edge, range_edge, is_path, reaches, is_cycle, cycle_from, formula_kind, rem10};
use crate::reevaluate_topo::{deps_ok, key_ok, reeval_ok};
use crate::spreadsheet::Spreadsheet;
use vstd::set_lib::{lemma_int_range, lemma_len_subset, set_int_range};

verus! {

broadcast use vstd::std_specs::hash::group_hash_axioms;

/// The elements of a set of children, each once, in the order the set hands them out.
pub(crate) fn set_elements(set: &HashSet<i32>) -> (v: Vec<i32>)
    ensures
        v@.to_set() == set@,
        v@.no_duplicates(),
{
    let mut v: Vec<i32> = Vec::new();
    for c in it: set.iter()
        invariant
            v@ == it.seq().unref().take(it.index() as int),
            it.seq().unref().to_set() == set@,
            it.seq().unref().no_duplicates(),
            it.index() == it.seq().len() ==> v@.to_set() == set@,
    {
        assert(it.seq().unref().take(it.index() + 1) =~= v@.push(*c));
        v.push(*c);
        assert(it.index() + 1 == it.seq().len() ==> it.seq().unref().take(it.index() + 1) =~= it.seq().unref());
    }
    v
}


/// Some of the first `n` recorded ranges makes `c` read the cell `p`.
spec fn range_edge_upto(sheet: &Spreadsheet, p: i32, c: i32, n: int) -> bool {
    exists|i: int|
        0 <= i < n && (#[trigger] sheet.range_children@[i]).child_key == c
            && sheet.key_in_range(p as int, sheet.range_children@[i].start_key as int, sheet.range_children@[i].end_key as int)
}

/// The cells that read the cell `x`, directly or through a range (a cell may come twice).
pub(crate) fn successors(sheet: &Spreadsheet, x: i32) -> (v: Vec<i32>)
    requires
        sheet.dims_ok(),
    ensures
        forall|c: i32| #[trigger] v@.contains(c) <==> edge(sheet, x, c),
{
    let mut v: Vec<i32> = match sheet.get_cell_children(x) {
        Some(set) => set_elements(set),
        None => Vec::new(),
    };
    proof {
        assert forall|c: i32| #[trigger] v@.contains(c) <==> sheet.children_of(x).contains(c) by {
            if sheet.children@.contains_key(x) {
                assert(v@.to_set().contains(c) == v@.contains(c));
            }
        }
    }
    let mut i: usize = 0;
    while i < sheet.range_children.len()
        invariant
            sheet.dims_ok(),
            0 <= i <= sheet.range_children@.len(),
            forall|c: i32| #[trigger] v@.contains(c) <==> (sheet.children_of(x).contains(c)
                || range_edge_upto(sheet, x, c, i as int)),
        decreases sheet.range_children@.len() - i,
    {
        let rc = sheet.range_children[i];
        let inside = sheet.is_cell_in_range(x, rc.start_key, rc.end_key);
        let ghost v0 = v@;
        if inside {
            v.push(rc.child_key);
        }
        proof {
            assert forall|c: i32| #[trigger] v@.contains(c) <==> (sheet.children_of(x).contains(c)
                || range_edge_upto(sheet, x, c, i + 1)) by {
                if range_edge_upto(sheet, x, c, i + 1) && !range_edge_upto(sheet, x, c, i as int) {
                    let j = choose|j: int|
                        0 <= j < i + 1 && (#[trigger] sheet.range_children@[j]).child_key == c
                            && sheet.key_in_range(x as int, sheet.range_children@[j].start_key as int, sheet.range_children@[j].end_key as int);
                    assert(j == i);
                    assert(v@[v@.len() - 1] == c);
                }
                if v@.contains(c) && !v0.contains(c) {
                    assert(c == rc.child_key);
                    assert(sheet.range_children@[i as int] == rc);
                }
                if range_edge_upto(sheet, x, c, i as int) {
                    let j = choose|j: int|
                        0 <= j < i && (#[trigger] sheet.range_children@[j]).child_key == c
                            && sheet.key_in_range(x as int, sheet.range_children@[j].start_key as int, sheet.range_children@[j].end_key as int);
                    assert(range_edge_upto(sheet, x, c, i + 1));
                }
                if v0.contains(c) {
                    let k = choose|k: int| 0 <= k < v0.len() && v0[k] == c;
                    assert(v@[k] == c);
                }
            }
        }
        i += 1;
    }
    proof {
        assert forall|c: i32| #[trigger] v@.contains(c) <==> edge(sheet, x, c) by {
            assert(range_edge_upto(sheet, x, c, sheet.range_children@.len() as int) == range_edge(sheet, x, c));
        }
    }
    v
}


/// Every cell that reads another cell is a cell of the grid.
pub open spec fn targets_in_grid(sheet: &Spreadsheet) -> bool {
    forall|p: i32, c: i32| #[trigger] edge(sheet, p, c) ==> 0 <= c < sheet.grid@.len()
}

/// Number of cells not yet seen (colour 0).
spec fn count_white(s: Seq<u8>) -> nat
    decreases s.len(),
{
    if s.len() == 0 {
        0
    } else {
        count_white(s.drop_last()) + if s.last() == 0 {
            1nat
        } else {
            0nat
        }
    }
}

proof fn lemma_count_white_mono(a: Seq<u8>, b: Seq<u8>)
    requires
        a.len() == b.len(),
        forall|i: int| 0 <= i < a.len() && a[i] != 0 ==> b[i] != 0,
    ensures
        count_white(b) <= count_white(a),
    decreases a.len(),
{
    if a.len() > 0 {
        lemma_count_white_mono(a.drop_last(), b.drop_last());
    }
}

proof fn lemma_count_white_mark(a: Seq<u8>, x: int, v: u8)
    requires
        0 <= x < a.len(),
        a[x] == 0,
        v != 0,
    ensures
        count_white(a.update(x, v)) + 1 == count_white(a),
    decreases a.len(),
{
    if x < a.len() - 1 {
        assert(a.update(x, v).drop_last() =~= a.drop_last().update(x, v));
        lemma_count_white_mark(a.drop_last(), x, v);
    } else {
        assert(a.update(x, v).drop_last() =~= a.drop_last());
    }
}

/// The state of the search from `start`: colour 0 for unseen cells, 1 for the cells on the
/// current `path`, 2 for the finished cells, listed in `order` as they finished.
#[verifier::opaque]
spec fn dfs_inv(sheet: &Spreadsheet, start: i32, color: Seq<u8>, order: Seq<i32>, path: Seq<i32>) -> bool {
    &&& color.len() == sheet.grid@.len()
    &&& color.len() <= i32::MAX
    &&& forall|k: int| 0 <= k < color.len() ==> #[trigger] color[k] <= 2
    &&& forall|k: i32| 0 <= k < color.len() ==> (color[k as int] == 1 <==> #[trigger] path.contains(k))
    &&& forall|k: i32| 0 <= k < color.len() ==> (color[k as int] == 2 <==> #[trigger] order.contains(k))
    &&& forall|i: int| 0 <= i < path.len() ==> 0 <= #[trigger] path[i] < color.len()
    &&& forall|i: int| 0 <= i < order.len() ==> 0 <= #[trigger] order[i] < color.len()
    &&& order.no_duplicates()
    &&& is_path(sheet, path)
    &&& (path.len() > 0 ==> edge(sheet, start, path[0]))
    &&& forall|k: i32| 0 <= k < color.len() && #[trigger] color[k as int] != 0 ==> reaches(sheet, start, k)
    &&& forall|p: i32, c: i32|
        #[trigger] edge(sheet, p, c) && 0 <= p < color.len() && color[p as int] == 2 ==> color[c as int] == 2
    &&& topo_listed(sheet, order)
}

pub(crate) proof fn lemma_reaches_step(sheet: &Spreadsheet, s: i32, a: i32, b: i32)
    requires
        reaches(sheet, s, a) || a == s,
        edge(sheet, a, b),
    ensures
        reaches(sheet, s, b),
{
    if a == s {
        let p = seq![s, b];
        assert(is_path(sheet, p));
    } else {
        let p = choose|p: Seq<i32>| p.len() >= 2 && p[0] == s && p.last() == a && #[trigger] is_path(sheet, p);
        let q = p.push(b);
        assert forall|i: int| 0 <= i < q.len() - 1 implies edge(sheet, #[trigger] q[i], q[i + 1]) by {
            if i < p.len() - 1 {
                assert(q[i] == p[i] && q[i + 1] == p[i + 1]);
            }
        }
        assert(is_path(sheet, q));
    }
}


/// Colouring `x` (unseen, and reached from `start` by `path` and one more step) puts it on
/// the path.
proof fn lemma_enter(sheet: &Spreadsheet, start: i32, color: Seq<u8>, order: Seq<i32>, path: Seq<i32>, x: i32)
    requires
        targets_in_grid(sheet),
        dfs_inv(sheet, start, color, order, path),
        0 <= x < color.len(),
        color[x as int] == 0,
        path.len() == 0 ==> edge(sheet, start, x),
        path.len() > 0 ==> edge(sheet, path.last(), x),
    ensures
        dfs_inv(sheet, start, color.update(x as int, 1), order, path.push(x)),
        !path.contains(x),
        reaches(sheet, start, x),
{
    reveal(dfs_inv);
    let c1 = color.update(x as int, 1);
    let p1 = path.push(x);
    if path.len() == 0 {
        lemma_reaches_step(sheet, start, start, x);
    } else {
        let l = path.last();
        assert(path[path.len() - 1] == l);
        assert(path.contains(l));
        assert(color[l as int] != 0);
        lemma_reaches_step(sheet, start, l, x);
    }
    assert forall|k: i32| 0 <= k < c1.len() implies (c1[k as int] == 1 <==> #[trigger] p1.contains(k)) by {
        if k != x {
            if path.contains(k) {
                let i = choose|i: int| 0 <= i < path.len() && path[i] == k;
                assert(p1[i] == k);
            }
            if p1.contains(k) {
                let i = choose|i: int| 0 <= i < p1.len() && p1[i] == k;
                assert(path[i] == k);
            }
        } else {
            assert(p1[p1.len() - 1] == x);
        }
    }
    assert forall|k: i32| 0 <= k < c1.len() implies (c1[k as int] == 2 <==> #[trigger] order.contains(k)) by {
        assert(color[k as int] == 2 <==> order.contains(k));
    }
    assert forall|i: int| 0 <= i < p1.len() implies 0 <= #[trigger] p1[i] < c1.len() by {
        if i < path.len() {
            assert(p1[i] == path[i]);
        }
    }
    assert forall|i: int| 0 <= i < p1.len() - 1 implies edge(sheet, #[trigger] p1[i], p1[i + 1]) by {
        if i < path.len() - 1 {
            assert(p1[i] == path[i] && p1[i + 1] == path[i + 1]);
        } else {
            assert(p1[i] == path.last());
        }
    }
    assert forall|k: i32| 0 <= k < c1.len() && #[trigger] c1[k as int] != 0 implies reaches(sheet, start, k) by {
        if k != x {
            assert(color[k as int] != 0);
        }
    }
    assert forall|p: i32, c: i32|
        #[trigger] edge(sheet, p, c) && 0 <= p < c1.len() && c1[p as int] == 2 implies c1[c as int] == 2 by {
        assert(0 <= c < color.len());
        assert(color[p as int] == 2);
    }
    assert forall|k: int| 0 <= k < c1.len() implies #[trigger] c1[k] <= 2 by {
        assert(color[k] <= 2);
    }
    assert(!path.contains(x)) by {
        assert(color[x as int] != 1);
    }
}

/// Moving `x` from the end of the path to the finished cells, once everything it reaches
/// directly is finished.
proof fn lemma_finish(sheet: &Spreadsheet, start: i32, color: Seq<u8>, order: Seq<i32>, path: Seq<i32>, x: i32)
    requires
        targets_in_grid(sheet),
        dfs_inv(sheet, start, color, order, path.push(x)),
        is_path(sheet, path),
        path.len() > 0 ==> edge(sheet, start, path[0]),
        !path.contains(x),
        0 <= x < color.len(),
        color[x as int] == 1,
        forall|c: i32| #[trigger] edge(sheet, x, c) ==> 0 <= c < color.len() && color[c as int] == 2,
    ensures
        dfs_inv(sheet, start, color.update(x as int, 2), order.push(x), path),
{
    reveal(dfs_inv);
    let c2 = color.update(x as int, 2);
    let o2 = order.push(x);
    let p1 = path.push(x);
    assert(!order.contains(x));
    assert forall|k: i32| 0 <= k < c2.len() implies (c2[k as int] == 1 <==> #[trigger] path.contains(k)) by {
        if k != x {
            if path.contains(k) {
                let i = choose|i: int| 0 <= i < path.len() && path[i] == k;
                assert(p1[i] == k);
            }
            if p1.contains(k) {
                let i = choose|i: int| 0 <= i < p1.len() && p1[i] == k;
                if i < path.len() {
                    assert(path[i] == k);
                }
            }
            assert(c2[k as int] == color[k as int]);
            assert(color[k as int] == 1 <==> p1.contains(k));
        }
    }
    assert forall|k: i32| 0 <= k < c2.len() implies (c2[k as int] == 2 <==> #[trigger] o2.contains(k)) by {
        if k != x {
            if order.contains(k) {
                let i = choose|i: int| 0 <= i < order.len() && order[i] == k;
                assert(o2[i] == k);
            }
            if o2.contains(k) {
                let i = choose|i: int| 0 <= i < o2.len() && o2[i] == k;
                assert(order[i] == k);
            }
            assert(color[k as int] == 2 <==> order.contains(k));
        } else {
            assert(o2[o2.len() - 1] == x);
        }
    }
    assert forall|i: int| 0 <= i < path.len() implies 0 <= #[trigger] path[i] < c2.len() by {
        assert(p1[i] == path[i]);
    }
    assert forall|i: int| 0 <= i < o2.len() implies 0 <= #[trigger] o2[i] < c2.len() by {
        if i < order.len() {
            assert(o2[i] == order[i]);
        }
    }
    assert(o2.no_duplicates()) by {
        assert forall|i: int, j: int| 0 <= i < o2.len() && 0 <= j < o2.len() && i != j implies o2[i] != o2[j] by {
            if i < order.len() && j < order.len() {
                assert(o2[i] == order[i] && o2[j] == order[j]);
            } else if i < order.len() {
                assert(o2[i] == order[i]);
                assert(order.contains(order[i]));
            } else if j < order.len() {
                assert(o2[j] == order[j]);
                assert(order.contains(order[j]));
            }
        }
    }
    assert forall|k: i32| 0 <= k < c2.len() && #[trigger] c2[k as int] != 0 implies reaches(sheet, start, k) by {
        assert(color[k as int] != 0);
    }
    assert forall|p: i32, c: i32|
        #[trigger] edge(sheet, p, c) && 0 <= p < c2.len() && c2[p as int] == 2 implies c2[c as int] == 2 by {
        assert(0 <= c < color.len());
        if p != x {
            assert(color[p as int] == 2);
        }
    }
    assert forall|i: int, j: int|
        0 <= i < o2.len() && 0 <= j < o2.len() && #[trigger] edge(sheet, o2[i], o2[j]) implies j < i by {
        if i < order.len() && j < order.len() {
            assert(o2[i] == order[i] && o2[j] == order[j]);
        } else if i < order.len() {
            assert(o2[i] == order[i]);
            assert(order.contains(order[i]));
            assert(o2[j] == x);
        } else if j == i {
            assert(o2[i] == x);
        }
    }
    assert forall|k: int| 0 <= k < c2.len() implies #[trigger] c2[k] <= 2 by {
        assert(color[k] <= 2);
    }
}


/// What the search state says of one cell.
proof fn lemma_inv_cell(sheet: &Spreadsheet, start: i32, color: Seq<u8>, order: Seq<i32>, path: Seq<i32>, k: i32)
    requires
        dfs_inv(sheet, start, color, order, path),
        0 <= k < color.len(),
    ensures
        color.len() == sheet.grid@.len(),
        color[k as int] == 2 <==> order.contains(k),
        color[k as int] == 1 <==> path.contains(k),
        color[k as int] <= 2,
        is_path(sheet, path),
        path.len() > 0 ==> edge(sheet, start, path[0]),
{
    reveal(dfs_inv);
}

/// A cell on the current path that `x` (the end of the path) reaches directly closes a ring.
proof fn lemma_back_edge(sheet: &Spreadsheet, start: i32, color: Seq<u8>, order: Seq<i32>, p1: Seq<i32>, x: i32, y: i32)
    requires
        dfs_inv(sheet, start, color, order, p1),
        p1.len() > 0,
        p1.last() == x,
        edge(sheet, x, y),
        0 <= y < color.len(),
        color[y as int] == 1,
    ensures
        cycle_from(sheet, start),
{
    reveal(dfs_inv);
    assert(p1.contains(y));
    let j = choose|j: int| 0 <= j < p1.len() && p1[j] == y;
    let c = p1.subrange(j, p1.len() as int);
    assert forall|i: int| 0 <= i < c.len() - 1 implies edge(sheet, #[trigger] c[i], c[i + 1]) by {
        assert(c[i] == p1[j + i] && c[i + 1] == p1[j + i + 1]);
    }
    assert(c.last() == x);
    assert(c[0] == y);
    assert(is_cycle(sheet, c));
    assert(color[y as int] != 0);
}

/// Visits `x` and the unseen cells it reaches, finishing each after everything it reaches
/// directly; `true` as soon as a ring of dependencies turns up.
fn visit(
    sheet: &Spreadsheet,
    x: i32,
    color: &mut Vec<u8>,
    order: &mut Vec<i32>,
    Ghost(start): Ghost<i32>,
    Ghost(path): Ghost<Seq<i32>>,
) -> (cyc: bool)
    requires
        sheet.dims_ok(),
        targets_in_grid(sheet),
        dfs_inv(sheet, start, old(color)@, old(order)@, path),
        0 <= x < old(color)@.len(),
        old(color)@[x as int] == 0,
        path.len() == 0 ==> edge(sheet, start, x),
        path.len() > 0 ==> edge(sheet, path.last(), x),
    ensures
        cyc ==> cycle_from(sheet, start),
        !cyc ==> dfs_inv(sheet, start, final(color)@, final(order)@, path),
        !cyc ==> final(color)@[x as int] == 2,
        !cyc ==> old(order)@.len() <= final(order)@.len(),
        !cyc ==> final(order)@.subrange(0, old(order)@.len() as int) == old(order)@,
        final(color)@.len() == old(color)@.len(),
        forall|k: int| 0 <= k < old(color)@.len() && old(color)@[k] != 0 ==> #[trigger] final(color)@[k] != 0,
        count_white(final(color)@) < count_white(old(color)@),
    decreases count_white(old(color)@),
{
    let ghost c0 = color@;
    let ghost o0 = order@;
    let ghost p1 = path.push(x);
    proof {
        lemma_inv_cell(sheet, start, c0, o0, path, x);
        lemma_enter(sheet, start, c0, o0, path, x);
        lemma_count_white_mark(c0, x as int, 1);
    }
    color.set(x as usize, 1);
    let succ = successors(sheet, x);
    let mut i: usize = 0;
    while i < succ.len()
        invariant
            sheet.dims_ok(),
            targets_in_grid(sheet),
            forall|c: i32| #[trigger] succ@.contains(c) <==> edge(sheet, x, c),
            0 <= i <= succ@.len(),
            dfs_inv(sheet, start, color@, order@, p1),
            p1 == path.push(x),
            is_path(sheet, path),
            path.len() > 0 ==> edge(sheet, start, path[0]),
            !path.contains(x),
            color@.len() == sheet.grid@.len(),
            0 <= x < color@.len(),
            color@[x as int] == 1,
            forall|j: int| 0 <= j < i ==> color@[#[trigger] succ@[j] as int] == 2,
            o0.len() <= order@.len(),
            order@.subrange(0, o0.len() as int) == o0,
            c0 == old(color)@,
            o0 == old(order)@,
            color@.len() == c0.len(),
            forall|k: int| 0 <= k < c0.len() && c0[k] != 0 ==> #[trigger] color@[k] != 0,
            count_white(color@) < count_white(c0),
        decreases succ@.len() - i,
    {
        let y = succ[i];
        proof {
            assert(succ@.contains(y));
            assert(0 <= y < color@.len());
        }
        let cy = color[y as usize];
        proof {
            lemma_inv_cell(sheet, start, color@, order@, p1, y);
        }
        if cy == 1 {
            proof {
                lemma_back_edge(sheet, start, color@, order@, p1, x, y);
            }
            return true;
        }
        if cy == 0 {
            let ghost cb = color@;
            let ghost ob = order@;
            let found = visit(sheet, y, color, order, Ghost(start), Ghost(p1));
            proof {
                lemma_count_white_mono(cb, color@);
                assert forall|k: int| 0 <= k < c0.len() && c0[k] != 0 implies #[trigger] color@[k] != 0 by {
                    assert(cb[k] != 0);
                }
            }
            if found {
                return true;
            }
            proof {
                lemma_inv_cell(sheet, start, color@, order@, p1, x);
                assert(p1[p1.len() - 1] == x);
                assert forall|j: int| 0 <= j < i + 1 implies color@[#[trigger] succ@[j] as int] == 2 by {
                    if j < i {
                        let k = succ@[j];
                        assert(succ@.contains(k));
                        assert(cb[k as int] == 2);
                        lemma_inv_cell(sheet, start, cb, ob, p1, k);
                        lemma_inv_cell(sheet, start, color@, order@, p1, k);
                        assert(ob.contains(k));
                        let m = choose|m: int| 0 <= m < ob.len() && ob[m] == k;
                        assert(order@.subrange(0, ob.len() as int)[m] == k);
                        assert(order@.contains(k));
                    }
                }
                assert(order@.subrange(0, o0.len() as int) =~= o0) by {
                    assert(order@.subrange(0, o0.len() as int) =~= order@.subrange(0, ob.len() as int).subrange(0, o0.len() as int));
                }
            }
        }
        i += 1;
    }
    let ghost cb = color@;
    let ghost ob = order@;
    proof {
        assert forall|c: i32| #[trigger] edge(sheet, x, c) implies 0 <= c < cb.len() && cb[c as int] == 2 by {
            assert(succ@.contains(c));
            let j = choose|j: int| 0 <= j < succ@.len() && succ@[j] == c;
            assert(0 <= c < cb.len());
            assert(cb[succ@[j] as int] == 2);
        }
        lemma_finish(sheet, start, cb, ob, path, x);
    }
    color.set(x as usize, 2);
    order.push(x);
    proof {
        lemma_count_white_mono(cb, color@);
        assert(order@.subrange(0, o0.len() as int) =~= o0) by {
            assert(order@.subrange(0, o0.len() as int) =~= ob.subrange(0, o0.len() as int));
        }
    }
    false
}


/// Cells are listed so that a cell comes after every listed cell that reads it.
pub open spec fn topo_listed(sheet: &Spreadsheet, order: Seq<i32>) -> bool {
    forall|i: int, j: int|
        0 <= i < order.len() && 0 <= j < order.len() && #[trigger] edge(sheet, order[i], order[j]) ==> j < i
}

proof fn lemma_ring_reached(sheet: &Spreadsheet, start: i32, c: Seq<i32>, i: int)
    requires
        is_cycle(sheet, c),
        reaches(sheet, start, c[0]),
        0 <= i < c.len(),
    ensures
        reaches(sheet, start, c[i]),
    decreases i,
{
    if i > 0 {
        lemma_ring_reached(sheet, start, c, i - 1);
        assert(edge(sheet, c[i - 1], c[i]));
        lemma_reaches_step(sheet, start, c[i - 1], c[i]);
    }
}

proof fn lemma_ring_positions(sheet: &Spreadsheet, order: Seq<i32>, c: Seq<i32>, i: int, a0: int)
    requires
        order.no_duplicates(),
        topo_listed(sheet, order),
        forall|m: int| 0 <= m < c.len() ==> order.contains(#[trigger] c[m]),
        is_path(sheet, c),
        0 <= a0 < order.len(),
        order[a0] == c[0],
        0 <= i < c.len(),
    ensures
        forall|a: int| 0 <= a < order.len() && order[a] == c[i] ==> a + i <= a0,
    decreases i,
{
    if i > 0 {
        lemma_ring_positions(sheet, order, c, i - 1, a0);
        assert(order.contains(c[i - 1]));
        let b = choose|b: int| 0 <= b < order.len() && order[b] == c[i - 1];
        assert forall|a: int| 0 <= a < order.len() && order[a] == c[i] implies a + i <= a0 by {
            assert(edge(sheet, c[i - 1], c[i]));
            assert(edge(sheet, order[b], order[a]));
        }
    }
}

/// A listing in dependency order of every cell reached from `start` leaves no room for a
/// reachable ring.
proof fn lemma_no_ring(sheet: &Spreadsheet, start: i32, order: Seq<i32>)
    requires
        order.no_duplicates(),
        topo_listed(sheet, order),
        forall|k: i32| #[trigger] reaches(sheet, start, k) ==> order.contains(k),
    ensures
        !cycle_from(sheet, start),
{
    if cycle_from(sheet, start) {
        let c = choose|c: Seq<i32>| #[trigger] is_cycle(sheet, c) && reaches(sheet, start, c[0]);
        assert forall|m: int| 0 <= m < c.len() implies order.contains(#[trigger] c[m]) by {
            lemma_ring_reached(sheet, start, c, m);
        }
        assert(order.contains(c[0]));
        let a0 = choose|a: int| 0 <= a < order.len() && order[a] == c[0];
        lemma_ring_positions(sheet, order, c, c.len() - 1, a0);
        assert(order.contains(c[c.len() - 1]));
        let al = choose|a: int| 0 <= a < order.len() && order[a] == c[c.len() - 1];
        assert(edge(sheet, order[al], order[a0]));
    }
}

proof fn lemma_path_finished(sheet: &Spreadsheet, start: i32, color: Seq<u8>, order: Seq<i32>, p: Seq<i32>, i: int)
    requires
        targets_in_grid(sheet),
        dfs_inv(sheet, start, color, order, Seq::<i32>::empty()),
        forall|c: i32| #[trigger] edge(sheet, start, c) ==> color[c as int] == 2,
        p.len() >= 2,
        p[0] == start,
        is_path(sheet, p),
        1 <= i < p.len(),
    ensures
        0 <= p[i] < color.len(),
        color[p[i] as int] == 2,
    decreases i,
{
    reveal(dfs_inv);
    assert(edge(sheet, p[i - 1], p[i]));
    if i > 1 {
        lemma_path_finished(sheet, start, color, order, p, i - 1);
    }
}

/// Searches the cells reached from `start`: `None` when a ring of dependencies can be
/// reached, else those cells, each listed after every listed cell that reads it.
pub fn search(sheet: &Spreadsheet, start: i32) -> (res: Option<Vec<i32>>)
    requires
        sheet.dims_ok(),
        targets_in_grid(sheet),
        sheet.grid@.len() <= i32::MAX,
    ensures
        res is None <==> cycle_from(sheet, start),
        res matches Some(order) ==> {
            &&& order@.no_duplicates()
            &&& forall|k: i32| #[trigger] order@.contains(k) <==> reaches(sheet, start, k)
            &&& topo_listed(sheet, order@)
            &&& forall|i: int| 0 <= i < order@.len() ==> 0 <= #[trigger] order@[i] < sheet.grid@.len()
        },
{
    let n = sheet.grid.len();
    let mut color: Vec<u8> = Vec::new();
    let mut i: usize = 0;
    while i < n
        invariant
            n == sheet.grid@.len(),
            color@.len() == i,
            i <= n,
            forall|k: int| 0 <= k < i ==> color@[k] == 0,
        decreases n - i,
    {
        color.push(0);
        i += 1;
    }
    let mut order: Vec<i32> = Vec::new();
    let ghost empty = Seq::<i32>::empty();
    proof {
        reveal(dfs_inv);
        assert(dfs_inv(sheet, start, color@, order@, empty));
    }
    let succ = successors(sheet, start);
    let mut j: usize = 0;
    while j < succ.len()
        invariant
            sheet.dims_ok(),
            targets_in_grid(sheet),
            forall|c: i32| #[trigger] succ@.contains(c) <==> edge(sheet, start, c),
            0 <= j <= succ@.len(),
            empty == Seq::<i32>::empty(),
            dfs_inv(sheet, start, color@, order@, empty),
            color@.len() == sheet.grid@.len(),
            forall|m: int| 0 <= m < j ==> color@[#[trigger] succ@[m] as int] == 2,
        decreases succ@.len() - j,
    {
        let y = succ[j];
        proof {
            assert(succ@.contains(y));
            assert(0 <= y < color@.len());
            lemma_inv_cell(sheet, start, color@, order@, empty, y);
        }
        if color[y as usize] == 0 {
            let ghost cb = color@;
            let ghost ob = order@;
            let found = visit(sheet, y, &mut color, &mut order, Ghost(start), Ghost(empty));
            if found {
                return None;
            }
            proof {
                assert forall|m: int| 0 <= m < j + 1 implies color@[#[trigger] succ@[m] as int] == 2 by {
                    if m < j {
                        let k = succ@[m];
                        assert(succ@.contains(k));
                        lemma_inv_cell(sheet, start, cb, ob, empty, k);
                        lemma_inv_cell(sheet, start, color@, order@, empty, k);
                        let a = choose|a: int| 0 <= a < ob.len() && ob[a] == k;
                        assert(order@.subrange(0, ob.len() as int)[a] == k);
                        assert(order@.contains(k));
                    }
                }
            }
        }
        j += 1;
    }
    proof {
        assert forall|c: i32| #[trigger] edge(sheet, start, c) implies color@[c as int] == 2 by {
            assert(succ@.contains(c));
            let m = choose|m: int| 0 <= m < succ@.len() && succ@[m] == c;
            assert(color@[succ@[m] as int] == 2);
        }
        assert forall|k: i32| #[trigger] order@.contains(k) <==> reaches(sheet, start, k) by {
            reveal(dfs_inv);
            if reaches(sheet, start, k) {
                let p = choose|p: Seq<i32>| p.len() >= 2 && p[0] == start && p.last() == k && #[trigger] is_path(sheet, p);
                lemma_path_finished(sheet, start, color@, order@, p, p.len() - 1);
            }
            if order@.contains(k) {
                let a = choose|a: int| 0 <= a < order@.len() && order@[a] == k;
                assert(0 <= order@[a] < color@.len());
                assert(color@[k as int] != 0);
            }
        }
        reveal(dfs_inv);
        lemma_no_ring(sheet, start, order@);
    }
    Some(order)
}

/// A change of `target` reaches `k`, or `k` is `target`.
pub open spec fn reached(sheet: &Spreadsheet, target: i32, k: i32) -> bool {
    k == target || reaches(sheet, target, k)
}

/// The cell `k` is one that the formula `formula` over `parent1` and `parent2` reads: an
/// operand, or a cell of its range.
pub open spec fn formula_reads(sheet: &Spreadsheet, parent1: i32, parent2: i32, formula: i16, k: i32) -> bool {
    let rem = formula_kind(formula);
    if rem == 0 {
        k == parent1 || k == parent2
    } else if rem == 2 {
        k == parent1
    } else if rem == 3 {
        k == parent2
    } else if rem >= 5 {
        &&& sheet.row_of(parent1 as int) <= sheet.row_of(k as int) <= sheet.row_of(parent2 as int)
        &&& sheet.col_of(parent1 as int) <= sheet.col_of(k as int) <= sheet.col_of(parent2 as int)
    } else {
        false
    }
}

/// The state of the search of [`detect_cycle`]: the cells visited and the cells still to
/// look at were all reached from `target`; none visited is read by the formula; every cell
/// that reads a visited cell is visited or waiting; `target` is one or the other.
pub open spec fn search_state(sheet: &Spreadsheet, target: i32, parent1: i32, parent2: i32, formula: i16, vis: Set<int>, stack: Seq<i32>) -> bool {
    &&& vis.subset_of(set_int_range(0, sheet.grid@.len() as int))
    &&& forall|j: int| 0 <= j < stack.len() ==> key_ok(sheet, #[trigger] stack[j]) && reached(sheet, target, stack[j])
    &&& forall|i: int| #[trigger] vis.contains(i) ==> reached(sheet, target, i as i32) && !formula_reads(sheet, parent1, parent2, formula, i as i32)
    &&& forall|i: int, c: i32| #[trigger] vis.contains(i) && #[trigger] edge(sheet, i as i32, c) ==> vis.contains(c as int) || stack.contains(c)
    &&& vis.contains(target as int) || stack.contains(target)
}

/// Pushes every cell that reads `key` onto `stack`.
fn push_successors(sheet: &Spreadsheet, key: i32, stack: &mut Vec<i32>)
    requires
        sheet.dims_ok(),
    ensures
        final(stack)@.len() >= old(stack)@.len(),
        final(stack)@.subrange(0, old(stack)@.len() as int) == old(stack)@,
        forall|j: int| old(stack)@.len() <= j < final(stack)@.len() ==> edge(sheet, key, #[trigger] final(stack)@[j]),
        forall|c: i32| #[trigger] edge(sheet, key, c) ==> final(stack)@.subrange(old(stack)@.len() as int, final(stack)@.len() as int).contains(c),
{
    let succ = successors(sheet, key);
    let ghost s0 = stack@;
    let mut j: usize = 0;
    while j < succ.len()
        invariant
            0 <= j <= succ@.len(),
            stack@ == s0 + succ@.take(j as int),
        decreases succ@.len() - j,
    {
        stack.push(succ[j]);
        proof {
            assert(succ@.take(j + 1) =~= succ@.take(j as int).push(succ@[j as int]));
        }
        j += 1;
    }
    proof {
        assert(succ@.take(succ@.len() as int) =~= succ@);
        assert(stack@.subrange(0, s0.len() as int) =~= s0);
        assert(stack@.subrange(s0.len() as int, stack@.len() as int) =~= succ@);
        assert forall|jj: int| s0.len() <= jj < stack@.len() implies edge(sheet, key, #[trigger] stack@[jj]) by {
            assert(succ@[jj - s0.len()] == stack@[jj]);
            assert(succ@.contains(stack@[jj]));
        }
    }
}

/// Taking the last waiting cell keeps the state when the cell was visited already.
proof fn lemma_search_pop(sheet: &Spreadsheet, target: i32, p1: i32, p2: i32, f: i16, vis: Set<int>, stack0: Seq<i32>)
    requires
        search_state(sheet, target, p1, p2, f, vis, stack0),
        stack0.len() > 0,
        vis.contains(stack0.last() as int),
    ensures
        search_state(sheet, target, p1, p2, f, vis, stack0.drop_last()),
{
    let stack = stack0.drop_last();
    let key = stack0.last();
    assert forall|c: i32| #[trigger] stack0.contains(c) && c != key implies stack.contains(c) by {
        let j = choose|j: int| 0 <= j < stack0.len() && stack0[j] == c;
        assert(stack[j] == c);
    }
    assert forall|j: int| 0 <= j < stack.len() implies key_ok(sheet, #[trigger] stack[j]) && reached(sheet, target, stack[j]) by {
        assert(stack[j] == stack0[j]);
    }
}

/// Visiting the last waiting cell, which the formula does not read, and putting the cells
/// that read it after the others keeps the state.
proof fn lemma_search_visit(
    sheet: &Spreadsheet,
    target: i32,
    p1: i32,
    p2: i32,
    f: i16,
    vis: Set<int>,
    stack0: Seq<i32>,
    stack2: Seq<i32>,
)
    requires
        search_state(sheet, target, p1, p2, f, vis, stack0),
        deps_ok(sheet),
        stack0.len() > 0,
        !formula_reads(sheet, p1, p2, f, stack0.last()),
        stack2.len() >= stack0.len() - 1,
        stack2.subrange(0, stack0.len() - 1) == stack0.drop_last(),
        forall|j: int| stack0.len() - 1 <= j < stack2.len() ==> edge(sheet, stack0.last(), #[trigger] stack2[j]),
        forall|c: i32| #[trigger] edge(sheet, stack0.last(), c) ==> stack2.subrange(stack0.len() - 1, stack2.len() as int).contains(c),
    ensures
        search_state(sheet, target, p1, p2, f, vis.insert(stack0.last() as int), stack2),
{
    let key = stack0.last();
    let stack1 = stack0.drop_last();
    let m = stack1.len();
    let vis2 = vis.insert(key as int);
    assert(key_ok(sheet, stack0[stack0.len() - 1]));
    assert forall|j: int| 0 <= j < stack2.len() implies key_ok(sheet, #[trigger] stack2[j]) && reached(sheet, target, stack2[j]) by {
        if j >= m {
            let c = stack2[j];
            assert(edge(sheet, key, c));
            lemma_reaches_step(sheet, target, key, c);
            assert(reeval_ok(sheet, c));
        } else {
            assert(stack2.subrange(0, m as int)[j] == stack2[j]);
            assert(stack0[j] == stack1[j]);
        }
    }
    assert forall|c: i32| #[trigger] stack1.contains(c) implies stack2.contains(c) by {
        let t = choose|t: int| 0 <= t < stack1.len() && stack1[t] == c;
        assert(stack2.subrange(0, m as int)[t] == c);
        assert(stack2[t] == c);
    }
    assert forall|c: i32| #[trigger] stack0.contains(c) && c != key implies stack1.contains(c) by {
        let t = choose|t: int| 0 <= t < stack0.len() && stack0[t] == c;
        assert(stack1[t] == c);
    }
    assert forall|i: int, c: i32| #[trigger] vis2.contains(i) && #[trigger] edge(sheet, i as i32, c) implies vis2.contains(c as int) || stack2.contains(c) by {
        if i == key as int {
            assert(stack2.subrange(m as int, stack2.len() as int).contains(c));
            let t = choose|t: int| 0 <= t < stack2.len() - m && stack2.subrange(m as int, stack2.len() as int)[t] == c;
            assert(stack2[m + t] == c);
        } else if !vis.contains(c as int) {
            assert(stack0.contains(c));
            if c != key {
                assert(stack1.contains(c));
            }
        }
    }
    if !vis.contains(target as int) && target != key {
        assert(stack0.contains(target));
        assert(stack1.contains(target));
    }
}

/// Whether the formula reads the cell `key`, the formula's range given by its corners.
fn reads_cell(sheet: &Spreadsheet, parent1: i32, parent2: i32, formula: i16, rem: i16, corners: (i16, i16, i16, i16), key: i32) -> (b: bool)
    requires
        sheet.dims_ok(),
        rem == formula_kind(formula),
        corners == (
            sheet.row_of(parent1 as int),
            sheet.col_of(parent1 as int),
            sheet.row_of(parent2 as int),
            sheet.col_of(parent2 as int),
        ),
    ensures
        b == formula_reads(sheet, parent1, parent2, formula, key),
{
    let (start_row, start_col, end_row, end_col) = corners;
    if rem == 0 {
        parent1 == key || parent2 == key
    } else if rem == 2 {
        parent1 == key
    } else if rem == 3 {
        parent2 == key
    } else if rem >= 5 {
        let (row, col) = sheet.get_row_col(key);
        start_row <= row && row <= end_row && start_col <= col && col <= end_col
    } else {
        false
    }
}

/// Whether giving the cell `target_key` the formula `formula` over `parent1` and `parent2`
/// would close a ring: some cell that a change of the target reaches, the target itself
/// included, is one the formula reads.
pub fn detect_cycle(sheet: &Spreadsheet, parent1: i32, parent2: i32, formula: i16, target_key: i32) -> (b: bool)
    requires
        deps_ok(sheet),
        key_ok(sheet, target_key),
    ensures
        b == exists|k: i32| reached(sheet, target_key, k) && #[trigger] formula_reads(sheet, parent1, parent2, formula, k),
{
    let n = sheet.grid.len();
    let mut visited: Vec<bool> = Vec::new();
    while visited.len() < n
        invariant
            visited@.len() <= n,
            forall|i: int| 0 <= i < visited@.len() ==> !visited@[i],
        decreases n - visited@.len(),
    {
        visited.push(false);
    }
    let rem = rem10(formula);
    let (start_row, start_col) = sheet.get_row_col(parent1);
    let (end_row, end_col) = sheet.get_row_col(parent2);
    let corners = (start_row, start_col, end_row, end_col);
    let mut stack: Vec<i32> = Vec::new();
    stack.push(target_key);
    let ghost mut vis: Set<int> = Set::empty();
    proof {
        lemma_int_range(0, n as int);
        assert(stack@[0] == target_key);
        assert(vis =~= Set::<int>::empty());
    }
    while stack.len() > 0
        invariant
            deps_ok(sheet),
            n == sheet.grid@.len(),
            visited@.len() == n,
            rem == formula_kind(formula),
            corners == (
                sheet.row_of(parent1 as int),
                sheet.col_of(parent1 as int),
                sheet.row_of(parent2 as int),
                sheet.col_of(parent2 as int),
            ),
            set_int_range(0, n as int).finite(),
            set_int_range(0, n as int).len() == n,
            forall|i: int| 0 <= i < n ==> (visited@[i] <==> vis.contains(i)),
            search_state(sheet, target_key, parent1, parent2, formula, vis, stack@),
        decreases n - vis.len(), stack@.len(),
    {
        proof {
            lemma_len_subset(vis, set_int_range(0, n as int));
        }
        let ghost stack0 = stack@;
        let key = stack.pop().unwrap();
        proof {
            assert(stack@ == stack0.drop_last());
            assert(key_ok(sheet, stack0[stack0.len() - 1]));
        }
        if visited[key as usize] {
            proof {
                lemma_search_pop(sheet, target_key, parent1, parent2, formula, vis, stack0);
            }
            continue;
        }
        if reads_cell(sheet, parent1, parent2, formula, rem, corners, key) {
            proof {
                assert(reached(sheet, target_key, stack0[stack0.len() - 1]));
            }
            return true;
        }
        visited.set(key as usize, true);
        push_successors(sheet, key, &mut stack);
        proof {
            lemma_search_visit(sheet, target_key, parent1, parent2, formula, vis, stack0, stack@);
            vis = vis.insert(key as int);
            lemma_len_subset(vis, set_int_range(0, n as int));
        }
    }
    proof {
        assert forall|k: i32| reached(sheet, target_key, k) implies !#[trigger] formula_reads(sheet, parent1, parent2, formula, k) by {
            lemma_closed_reach(sheet, target_key, vis, k);
        }
    }
    false
}

/// A set of cells that holds `target` and every cell its cells reach in one step holds
/// every cell `target` reaches.
proof fn lemma_closed_reach(sheet: &Spreadsheet, target: i32, vis: Set<int>, k: i32)
    requires
        vis.contains(target as int),
        forall|i: int, c: i32| #[trigger] vis.contains(i) && #[trigger] edge(sheet, i as i32, c) ==> vis.contains(c as int),
        reached(sheet, target, k),
    ensures
        vis.contains(k as int),
{
    if k != target {
        let p = choose|p: Seq<i32>| p.len() >= 2 && p[0] == target && p.last() == k && #[trigger] is_path(sheet, p);
        assert forall|i: int| 0 <= i < p.len() implies vis.contains(#[trigger] p[i] as int) by {
            lemma_path_prefix_in(sheet, vis, p, i);
        }
        assert(vis.contains(p[p.len() - 1] as int));
    }
}

/// Every cell of a path whose first cell is in a set closed under steps is in the set.
proof fn lemma_path_prefix_in(sheet: &Spreadsheet, vis: Set<int>, p: Seq<i32>, i: int)
    requires
        0 <= i < p.len(),
        vis.contains(p[0] as int),
        is_path(sheet, p),
        forall|a: int, c: i32| #[trigger] vis.contains(a) && #[trigger] edge(sheet, a as i32, c) ==> vis.contains(c as int),
    ensures
        vis.contains(p[i] as int),
    decreases i,
{
    if i > 0 {
        lemma_path_prefix_in(sheet, vis, p, i - 1);
        assert(edge(sheet, p[i - 1], p[i]));
        assert((p[i - 1] as int) as i32 == p[i - 1]);
    }
}

} // verus!
