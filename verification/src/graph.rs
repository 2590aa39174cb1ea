//! Recording and forgetting which cells a formula reads.
use vstd::prelude::*;
use crate::spreadsheet::{CellMeta, RangeChild, Spreadsheet, tmod};
use std::collections::HashSet;

verus! {

broadcast use vstd::std_specs::hash::group_hash_axioms;

/// Last digit of a formula code, with the sign of the code (as Rust's `%`).
pub open spec fn formula_kind(f: i16) -> int {
    tmod(f as int, 10)
}

/// The cells a formula reads one by one (not through a range).
pub open spec fn direct_parents(m: CellMeta) -> Set<i32> {
    if m.formula == -1 {
        Set::empty()
    } else if formula_kind(m.formula) == 0 {
        set![m.parent1, m.parent2]
    } else if formula_kind(m.formula) == 2 {
        set![m.parent1]
    } else if formula_kind(m.formula) == 3 {
        set![m.parent2]
    } else {
        Set::empty()
    }
}

/// A formula that is recorded as reading the range `parent1:parent2`.
pub open spec fn reads_range(m: CellMeta) -> bool {
    m.formula != -1 && formula_kind(m.formula) != 0 && formula_kind(m.formula) != 2
        && formula_kind(m.formula) != 3
}

/// A formula whose range entry is dropped when its parents are forgotten.
pub open spec fn drops_range(m: CellMeta) -> bool {
    m.formula != -1 && 5 <= formula_kind(m.formula) <= 9
}

/// `c` reads the cell `p` through a recorded range.
pub open spec fn range_edge(sheet: &Spreadsheet, p: i32, c: i32) -> bool {
    exists|i: int|
        0 <= i < sheet.range_children@.len() && (#[trigger] sheet.range_children@[i]).child_key == c
            && sheet.key_in_range(p as int, sheet.range_children@[i].start_key as int, sheet.range_children@[i].end_key as int)
}

/// A recorded dependency: the cell `c` reads the cell `p`, directly or through a range.
pub open spec fn edge(sheet: &Spreadsheet, p: i32, c: i32) -> bool {
    sheet.children_of(p).contains(c) || range_edge(sheet, p, c)
}

/// Consecutive cells of `path` are recorded dependencies.
pub open spec fn is_path(sheet: &Spreadsheet, path: Seq<i32>) -> bool {
    forall|i: int| 0 <= i < path.len() - 1 ==> edge(sheet, #[trigger] path[i], path[i + 1])
}

/// A change of `a` reaches `b` through one or more recorded dependencies.
pub open spec fn reaches(sheet: &Spreadsheet, a: i32, b: i32) -> bool {
    exists|path: Seq<i32>|
        path.len() >= 2 && path[0] == a && path.last() == b && #[trigger] is_path(sheet, path)
}

/// The cells of `c` depend on each other in a ring.
pub open spec fn is_cycle(sheet: &Spreadsheet, c: Seq<i32>) -> bool {
    &&& c.len() >= 1
    &&& is_path(sheet, c)
    &&& edge(sheet, c.last(), c[0])
}

/// Some ring of dependencies can be reached from `start`.
pub open spec fn cycle_from(sheet: &Spreadsheet, start: i32) -> bool {
    exists|c: Seq<i32>| #[trigger] is_cycle(sheet, c) && reaches(sheet, start, c[0])
}

/// `formula % 10`, rounding toward zero.
pub fn rem10(f: i16) -> (r: i16)
    ensures
        r == formula_kind(f),
        -9 <= r <= 9,
{
    let q = f / 10;
    proof {
        crate::spreadsheet::lemma_tdiv_bounds(f as int, 10);
        assert(q == crate::spreadsheet::tdiv(f as int, 10));
    }
    f - 10 * q
}

/// Records that the cell (row, col) reads `cell1` and `cell2` as formula code `formula`
/// says: both cells, the first, the second, or the range `cell1:cell2`. Nothing happens for
/// code -1.
pub fn add_children(sheet: &mut Spreadsheet, cell1: i32, cell2: i32, formula: i16, row: i16, col: i16)
    requires
        old(sheet).dims_ok(),
        old(sheet).children_finite(),
    ensures
        final(sheet).children_finite(),
        formula == -1 ==> *final(sheet) == *old(sheet),
        ({
            let m = CellMeta { formula, parent1: cell1, parent2: cell2 };
            let ch = old(sheet).key_of(row as int, col as int) as i32;
            &&& forall|k: i32|
                #[trigger] final(sheet).children_of(k) == if direct_parents(m).contains(k) {
                    old(sheet).children_of(k).insert(ch)
                } else {
                    old(sheet).children_of(k)
                }
            &&& forall|k: i32|
                #[trigger] final(sheet).children@.contains_key(k) ==> old(
                    sheet,
                ).children@.contains_key(k) || direct_parents(m).contains(k)
            &&& final(sheet).range_children@ == if reads_range(m) {
                old(sheet).range_children@.push(RangeChild { start_key: cell1, end_key: cell2, child_key: ch })
            } else {
                old(sheet).range_children@
            }
        }),
        *final(sheet) == (Spreadsheet {
            children: final(sheet).children,
            range_children: final(sheet).range_children,
            ..*old(sheet)
        }),
{
    let ghost s0 = *old(sheet);
    let ghost m = CellMeta { formula, parent1: cell1, parent2: cell2 };
    if formula == -1 {
        return;
    }
    let rem = rem10(formula);
    let child_key = sheet.get_key(row, col);
    if rem == 0 {
        sheet.add_child(&cell1, &child_key);
        let ghost s1 = *sheet;
        sheet.add_child(&cell2, &child_key);
        proof {
            assert(direct_parents(m) == set![cell1, cell2]);
            assert forall|k: i32| #[trigger] sheet.children@.contains_key(k) implies s0.children@.contains_key(k) || direct_parents(m).contains(k) by {
                if k != cell1 && k != cell2 {
                    assert(s1.children@.contains_key(k));
                }
            }
        }
    } else if rem == 2 {
        sheet.add_child(&cell1, &child_key);
    } else if rem == 3 {
        sheet.add_child(&cell2, &child_key);
    } else {
        sheet.add_range_child(cell1, cell2, child_key);
    }
}

/// Forgets the cells that the formula of (row, col) reads: its direct parents, and its
/// range entry for codes ending in 5 to 9.
pub fn remove_all_parents(sheet: &mut Spreadsheet, row: i16, col: i16)
    requires
        old(sheet).dims_ok(),
        old(sheet).children_finite(),
    ensures
        final(sheet).children_finite(),
        ({
            let ch = old(sheet).key_of(row as int, col as int) as i32;
            let m = old(sheet).meta_of(ch);
            &&& forall|k: i32|
                #[trigger] final(sheet).children_of(k) == if direct_parents(m).contains(k) {
                    old(sheet).children_of(k).remove(ch)
                } else {
                    old(sheet).children_of(k)
                }
            &&& forall|k: i32|
                #[trigger] final(sheet).children@.contains_key(k) ==> old(
                    sheet,
                ).children@.contains_key(k)
            &&& final(sheet).range_children@ == if drops_range(m) {
                old(sheet).range_children@.filter(|rc: RangeChild| rc.child_key != ch)
            } else {
                old(sheet).range_children@
            }
        }),
        *final(sheet) == (Spreadsheet {
            children: final(sheet).children,
            range_children: final(sheet).range_children,
            ..*old(sheet)
        }),
{
    let ghost s0 = *old(sheet);
    let child_key = sheet.get_key(row, col);
    let meta = match sheet.cell_meta.get(&child_key) {
        Some(m) => *m,
        None => return,
    };
    if meta.formula == -1 {
        return;
    }
    let rem = rem10(meta.formula);
    if rem >= 5 && rem <= 9 {
        sheet.remove_range_child(child_key);
    } else if rem == 0 {
        sheet.remove_child(meta.parent1, child_key);
        let ghost s1 = *sheet;
        sheet.remove_child(meta.parent2, child_key);
        proof {
            assert(direct_parents(meta) == set![meta.parent1, meta.parent2]);
            assert forall|k: i32| #[trigger] sheet.children@.contains_key(k) implies s0.children@.contains_key(k) by {
                if k != meta.parent1 {
                    assert(s1.children@.contains_key(k));
                }
            }
        }
    } else if rem == 2 {
        sheet.remove_child(meta.parent1, child_key);
    } else if rem == 3 {
        sheet.remove_child(meta.parent2, child_key);
    }
}

/// The keys of the cells in rows `sr..=er` and columns `sc..=ec`.
pub open spec fn rect_keys(sheet: &Spreadsheet, sr: int, er: int, sc: int, ec: int) -> Set<i32> {
    Set::new(|k: i32| exists|r: int, c: int| sr <= r <= er && sc <= c <= ec && k as int == #[trigger] sheet.key_of(r, c))
}

/// `p` alone when it is not negative.
pub open spec fn if_cell(p: i32) -> Set<i32> {
    if p >= 0 {
        set![p]
    } else {
        Set::empty()
    }
}

/// The cells the formula of `key` reads: every cell of its range, or its operands that are
/// not negative.
pub open spec fn parent_set(sheet: &Spreadsheet, key: i32) -> Set<i32> {
    let m = sheet.cell_meta@[key];
    let rem = formula_kind(m.formula);
    if !sheet.cell_meta@.contains_key(key) {
        Set::empty()
    } else if 5 <= rem <= 9 {
        rect_keys(
            sheet,
            sheet.row_of(m.parent1 as int) as int,
            sheet.row_of(m.parent2 as int) as int,
            sheet.col_of(m.parent1 as int) as int,
            sheet.col_of(m.parent2 as int) as int,
        )
    } else if rem == 0 {
        if_cell(m.parent1) + if_cell(m.parent2)
    } else if rem == 2 {
        if_cell(m.parent1)
    } else if rem == 3 {
        if_cell(m.parent2)
    } else {
        Set::empty()
    }
}

/// A rectangle is the one a row shorter with the last row added.
proof fn lemma_rect_row(sheet: &Spreadsheet, sr: int, r: int, sc: int, ec: int)
    requires
        sr <= r,
    ensures
        rect_keys(sheet, sr, r, sc, ec) == rect_keys(sheet, sr, r - 1, sc, ec) + rect_keys(sheet, r, r, sc, ec),
{
    assert forall|k: i32| #[trigger] rect_keys(sheet, sr, r, sc, ec).contains(k) implies (rect_keys(sheet, sr, r - 1, sc, ec) + rect_keys(sheet, r, r, sc, ec)).contains(k) by {
        let (rr, cc) = choose|rr: int, cc: int| sr <= rr <= r && sc <= cc <= ec && k as int == #[trigger] sheet.key_of(rr, cc);
        if rr < r {
            assert(rect_keys(sheet, sr, r - 1, sc, ec).contains(k));
        } else {
            assert(rect_keys(sheet, r, r, sc, ec).contains(k));
        }
    }
    assert forall|k: i32| #[trigger] (rect_keys(sheet, sr, r - 1, sc, ec) + rect_keys(sheet, r, r, sc, ec)).contains(k) implies rect_keys(sheet, sr, r, sc, ec).contains(k) by {
        if rect_keys(sheet, sr, r - 1, sc, ec).contains(k) {
            let (rr, cc) = choose|rr: int, cc: int| sr <= rr <= r - 1 && sc <= cc <= ec && k as int == #[trigger] sheet.key_of(rr, cc);
            assert(sr <= rr <= r && sc <= cc <= ec && k as int == sheet.key_of(rr, cc));
        } else {
            let (rr, cc) = choose|rr: int, cc: int| r <= rr <= r && sc <= cc <= ec && k as int == #[trigger] sheet.key_of(rr, cc);
            assert(sr <= rr <= r && sc <= cc <= ec && k as int == sheet.key_of(rr, cc));
        }
    }
    assert(rect_keys(sheet, sr, r, sc, ec) =~= rect_keys(sheet, sr, r - 1, sc, ec) + rect_keys(sheet, r, r, sc, ec));
}

/// A row of a rectangle is the one a column shorter with its last cell added.
proof fn lemma_rect_col(sheet: &Spreadsheet, r: int, sc: int, c: int)
    requires
        sc <= c,
        i32::MIN <= sheet.key_of(r, c) <= i32::MAX,
    ensures
        rect_keys(sheet, r, r, sc, c) == rect_keys(sheet, r, r, sc, c - 1).insert(sheet.key_of(r, c) as i32),
{
    let k0 = sheet.key_of(r, c) as i32;
    assert forall|k: i32| #[trigger] rect_keys(sheet, r, r, sc, c).contains(k) implies rect_keys(sheet, r, r, sc, c - 1).insert(k0).contains(k) by {
        let (rr, cc) = choose|rr: int, cc: int| r <= rr <= r && sc <= cc <= c && k as int == #[trigger] sheet.key_of(rr, cc);
        if cc < c {
            assert(rect_keys(sheet, r, r, sc, c - 1).contains(k));
        }
    }
    assert forall|k: i32| #[trigger] rect_keys(sheet, r, r, sc, c - 1).insert(k0).contains(k) implies rect_keys(sheet, r, r, sc, c).contains(k) by {
        if k == k0 {
            assert(r <= r <= r && sc <= c <= c && k as int == sheet.key_of(r, c));
        } else {
            let (rr, cc) = choose|rr: int, cc: int| r <= rr <= r && sc <= cc <= c - 1 && k as int == #[trigger] sheet.key_of(rr, cc);
            assert(r <= rr <= r && sc <= cc <= c && k as int == sheet.key_of(rr, cc));
        }
    }
    assert(rect_keys(sheet, r, r, sc, c) =~= rect_keys(sheet, r, r, sc, c - 1).insert(k0));
}

/// A rectangle with no rows or no columns has no cells.
proof fn lemma_rect_empty(sheet: &Spreadsheet, sr: int, er: int, sc: int, ec: int)
    requires
        er < sr || ec < sc,
    ensures
        rect_keys(sheet, sr, er, sc, ec) == Set::<i32>::empty(),
{
    assert(rect_keys(sheet, sr, er, sc, ec) =~= Set::<i32>::empty());
}

impl Spreadsheet {
    /// The cells the formula of `key` reads, as [`parent_set`] says.
    pub fn get_parents(&self, key: i32) -> (parents: HashSet<i32>)
        requires
            self.dims_ok(),
        ensures
            parents@ == parent_set(self, key),
    {
        let mut parents: HashSet<i32> = HashSet::new();
        match self.cell_meta.get(&key) {
            Some(meta) => {
                let meta = *meta;
                let rem = rem10(meta.formula);
                if rem >= 5 && rem <= 9 {
                    let (start_row, start_col) = self.get_row_col(meta.parent1);
                    let (end_row, end_col) = self.get_row_col(meta.parent2);
                    let ghost sr = start_row as int;
                    let ghost sc = start_col as int;
                    let ghost ec = end_col as int;
                    let mut r: i32 = start_row as i32;
                    proof {
                        lemma_rect_empty(self, sr, sr - 1, sc, ec);
                    }
                    while r <= end_row as i32
                        invariant
                            self.dims_ok(),
                            sr == start_row,
                            sc == start_col,
                            ec == end_col,
                            sr <= r,
                            r <= end_row as i32 + 1 || r == sr,
                            i16::MIN <= r <= i16::MAX + 1,
                            parents@ == rect_keys(self, sr, r - 1, sc, ec),
                        decreases end_row as i32 + 1 - r,
                    {
                        let mut c: i32 = start_col as i32;
                        proof {
                            lemma_rect_empty(self, r as int, r as int, sc, sc - 1);
                            assert(parents@ =~= rect_keys(self, sr, r - 1, sc, ec) + rect_keys(self, r as int, r as int, sc, c - 1));
                        }
                        while c <= end_col as i32
                            invariant
                                self.dims_ok(),
                                sr == start_row,
                                sc == start_col,
                                ec == end_col,
                                sr <= r <= end_row,
                                sc <= c,
                                c <= end_col as i32 + 1 || c == sc,
                                i16::MIN <= c <= i16::MAX + 1,
                                parents@ == rect_keys(self, sr, r - 1, sc, ec) + rect_keys(self, r as int, r as int, sc, c - 1),
                            decreases end_col as i32 + 1 - c,
                        {
                            let k = self.get_key(r as i16, c as i16);
                            parents.insert(k);
                            proof {
                                crate::spreadsheet::lemma_key_bounds(r as int, c as int, self.cols as int);
                                lemma_rect_col(self, r as int, sc, c as int);
                                assert(parents@ =~= rect_keys(self, sr, r - 1, sc, ec) + rect_keys(self, r as int, r as int, sc, c as int));
                            }
                            c += 1;
                        }
                        proof {
                            lemma_rect_row(self, sr, r as int, sc, ec);
                            if ec < sc {
                                lemma_rect_empty(self, r as int, r as int, sc, ec);
                                lemma_rect_empty(self, r as int, r as int, sc, c - 1);
                            } else {
                                assert(c - 1 == ec);
                            }
                        }
                        r += 1;
                    }
                } else if rem == 0 {
                    if meta.parent1 >= 0 {
                        parents.insert(meta.parent1);
                    }
                    if meta.parent2 >= 0 {
                        parents.insert(meta.parent2);
                    }
                    proof {
                        assert(parents@ =~= if_cell(meta.parent1) + if_cell(meta.parent2));
                    }
                } else if rem == 2 {
                    if meta.parent1 >= 0 {
                        parents.insert(meta.parent1);
                    }
                    proof {
                        assert(parents@ =~= if_cell(meta.parent1));
                    }
                } else if rem == 3 {
                    if meta.parent2 >= 0 {
                        parents.insert(meta.parent2);
                    }
                    proof {
                        assert(parents@ =~= if_cell(meta.parent2));
                    }
                }
            },
            None => {},
        }
        parents
    }

    /// The cells that read `key`: its recorded children and the cells whose recorded range
    /// holds it.
    pub fn get_children(&self, key: i32) -> (children: HashSet<i32>)
        requires
            self.dims_ok(),
        ensures
            children@ == Set::new(|c: i32| edge(self, key, c)),
    {
        let mut children: HashSet<i32> = HashSet::new();
        if let Some(direct) = self.get_cell_children(key) {
            let v = crate::dfs::set_elements(direct);
            let mut i: usize = 0;
            while i < v.len()
                invariant
                    0 <= i <= v@.len(),
                    children@ == v@.take(i as int).to_set(),
                decreases v@.len() - i,
            {
                children.insert(v[i]);
                proof {
                    assert(v@.take(i + 1) =~= v@.take(i as int).push(v@[i as int]));
                    v@.take(i as int).lemma_push_to_set_commute(v@[i as int]);
                }
                i += 1;
            }
            proof {
                assert(v@.take(v@.len() as int) =~= v@);
            }
        }
        let ghost direct_set = self.children_of(key);
        proof {
            assert(children@ =~= direct_set);
        }
        let n = self.range_children.len();
        let mut j: usize = 0;
        while j < n
            invariant
                self.dims_ok(),
                n == self.range_children@.len(),
                0 <= j <= n,
                direct_set == self.children_of(key),
                forall|c: i32|
                    #[trigger] children@.contains(c) <==> direct_set.contains(c) || exists|i: int|
                        0 <= i < j && (#[trigger] self.range_children@[i]).child_key == c && self.key_in_range(
                            key as int,
                            self.range_children@[i].start_key as int,
                            self.range_children@[i].end_key as int,
                        ),
            decreases n - j,
        {
            let rc = self.range_children[j];
            if self.is_cell_in_range(key, rc.start_key, rc.end_key) {
                children.insert(rc.child_key);
            }
            proof {
                assert forall|c: i32|
                    #[trigger] children@.contains(c) <==> direct_set.contains(c) || exists|i: int|
                        0 <= i < j + 1 && (#[trigger] self.range_children@[i]).child_key == c && self.key_in_range(
                            key as int,
                            self.range_children@[i].start_key as int,
                            self.range_children@[i].end_key as int,
                        ) by {
                    if c == rc.child_key && self.key_in_range(key as int, rc.start_key as int, rc.end_key as int) {
                        assert(self.range_children@[j as int] == rc);
                    }
                }
            }
            j += 1;
        }
        proof {
            assert(children@ =~= Set::new(|c: i32| edge(self, key, c)));
        }
        children
    }
}

} // verus!
