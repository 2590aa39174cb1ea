//! What a cell reads and what reads it: a relationship graph in DOT form, drawn with
//! petgraph, and the same relationships as text.
use vstd::prelude::*;
use petgraph::dot::{Config, Dot};
use petgraph::graph::{DiGraph, Graph, NodeIndex};
use petgraph::Directed;
use crate::cell::CellValue;
use crate::evaluator::{lemma_cell_key, sheet_ok};
use crate::reevaluate_topo::key_ok;
use crate::save_load::{key_ref, push_key_ref, push_ref, ref_text};
use crate::spreadsheet::{CommandStatus, Spreadsheet};
use crate::dfs::set_elements;
use crate::text::{int_text, push_int, push_str};

verus! {

#[verifier::external_type_specification]
#[verifier::external_body]
#[verifier::reject_recursive_types(N)]
#[verifier::reject_recursive_types(E)]
#[verifier::reject_recursive_types(Ty)]
#[verifier::reject_recursive_types(Ix)]
pub struct ExGraph<N, E, Ty, Ix>(Graph<N, E, Ty, Ix>);

#[verifier::external_type_specification]
#[verifier::external_body]
pub struct ExDirected(Directed);

/// The node labels of a relationship graph, in the order the nodes were added.
pub uninterp spec fn graph_nodes(g: DiGraph<String, String>) -> Seq<Seq<char>>;

/// The edges of a relationship graph, as (source node, target node, label), in the order
/// they were added.
pub uninterp spec fn graph_edges(g: DiGraph<String, String>) -> Seq<(int, int, Seq<char>)>;

/// The DOT text that petgraph writes for a graph with these nodes and edges, edge labels
/// left out.
pub uninterp spec fn dot_of(nodes: Seq<Seq<char>>, edges: Seq<(int, int, Seq<char>)>) -> Seq<char>;

/// `DiGraph::new`: a graph with no nodes and no edges.
#[verifier::external_body]
fn new_graph() -> (g: DiGraph<String, String>)
    ensures
        graph_nodes(g) == Seq::<Seq<char>>::empty(),
        graph_edges(g) == Seq::<(int, int, Seq<char>)>::empty(),
{
    DiGraph::new()
}

/// `Graph::add_node`: the node is added after the others, and its index is their number.
/// petgraph refuses a node once `u32::MAX` indices are used; `requires` keeps below that.
#[verifier::external_body]
fn add_graph_node(g: &mut DiGraph<String, String>, label: String) -> (i: usize)
    requires
        graph_nodes(*old(g)).len() + 1 < u32::MAX,
    ensures
        graph_nodes(*final(g)) == graph_nodes(*old(g)).push(label@),
        graph_edges(*final(g)) == graph_edges(*old(g)),
        i == graph_nodes(*old(g)).len(),
{
    g.add_node(label).index()
}

/// `Graph::add_edge`: the edge is added after the others. petgraph panics on a node
/// index that is not in the graph, and refuses an edge once `u32::MAX` indices are used.
#[verifier::external_body]
fn add_graph_edge(g: &mut DiGraph<String, String>, a: usize, b: usize, label: String)
    requires
        a < graph_nodes(*old(g)).len(),
        b < graph_nodes(*old(g)).len(),
        graph_edges(*old(g)).len() + 1 < u32::MAX,
    ensures
        graph_nodes(*final(g)) == graph_nodes(*old(g)),
        graph_edges(*final(g)) == graph_edges(*old(g)).push((a as int, b as int, label@)),
{
    g.add_edge(NodeIndex::new(a), NodeIndex::new(b), label);
}

/// `Dot::with_config` with `Config::EdgeNoLabel`, written out with `{:?}`: the DOT text
/// of the graph, a function of its nodes and edges.
#[verifier::external_body]
fn dot_text(g: &DiGraph<String, String>) -> (s: String)
    ensures
        s@ == dot_of(graph_nodes(*g), graph_edges(*g)),
{
    format!("{:?}", Dot::with_config(g, &[Config::EdgeNoLabel]))
}

/// A value as the relationship view shows it: the number, or `ERROR`.
pub open spec fn shown_value(v: CellValue) -> Seq<char> {
    match v {
        CellValue::Integer(n) => int_text(n as int),
        CellValue::Error => "ERROR"@,
    }
}

/// A cell's node label: its reference and its value, as in `B2 (7)`.
pub open spec fn cell_label(sheet: &Spreadsheet, k: i32) -> Seq<char> {
    key_ref(sheet, k) + " ("@ + shown_value(sheet.grid@[k as int]) + ")"@
}

/// Whether the formula code names a range function (SUM, AVG, MIN, MAX, STDEV).
pub open spec fn is_range_code(f: i16) -> bool {
    5 <= f <= 9
}

/// The label of the node that stands for the range the formula of `x` reads.
pub open spec fn range_label(sheet: &Spreadsheet, x: i32) -> Seq<char> {
    let m = sheet.cell_meta@[x];
    "Range "@ + key_ref(sheet, m.parent1) + ":"@ + key_ref(sheet, m.parent2)
}

/// The nodes the formula of `x` adds before its children: -1 for a range node (when both
/// ends are keys), else each operand that is not negative.
pub open spec fn parent_keys(sheet: &Spreadsheet, x: i32) -> Seq<i32> {
    if sheet.cell_meta@.contains_key(x) {
        let m = sheet.cell_meta@[x];
        if is_range_code(m.formula) {
            if m.parent1 >= 0 && m.parent2 >= 0 {
                seq![-1i32]
            } else {
                Seq::empty()
            }
        } else {
            (if m.parent1 >= 0 {
                seq![m.parent1]
            } else {
                Seq::empty()
            }) + (if m.parent2 >= 0 {
                seq![m.parent2]
            } else {
                Seq::empty()
            })
        }
    } else {
        Seq::empty()
    }
}

/// The cells that read `x` through the first `n` recorded ranges that hold it, in order.
pub open spec fn range_kids(sheet: &Spreadsheet, x: i32, n: int) -> Seq<i32>
    decreases n,
{
    if n <= 0 {
        Seq::empty()
    } else {
        let rc = sheet.range_children@[n - 1];
        range_kids(sheet, x, n - 1) + (if sheet.key_in_range(x as int, rc.start_key as int, rc.end_key as int) {
            seq![rc.child_key]
        } else {
            Seq::empty()
        })
    }
}

/// All cells that read `x` through a recorded range, in the order of the ranges.
pub open spec fn all_range_kids(sheet: &Spreadsheet, x: i32) -> Seq<i32> {
    range_kids(sheet, x, sheet.range_children@.len() as int)
}

/// The cells met while drawing `x`, in order: `x`, its operands, its children `kids`, the
/// cells that read it through a range.
pub open spec fn met_keys(sheet: &Spreadsheet, x: i32, kids: Seq<i32>) -> Seq<i32> {
    seq![x] + parent_keys(sheet, x) + kids + all_range_kids(sheet, x)
}

/// The keys of `s` without repeats, each where it first comes.
pub open spec fn first_seen(s: Seq<i32>) -> Seq<i32>
    decreases s.len(),
{
    if s.len() == 0 {
        Seq::empty()
    } else {
        let d = first_seen(s.drop_last());
        if d.contains(s.last()) {
            d
        } else {
            d.push(s.last())
        }
    }
}

/// The labels of the nodes with these keys (-1 being the range node of `x`).
pub open spec fn node_labels(sheet: &Spreadsheet, x: i32, keys: Seq<i32>) -> Seq<Seq<char>> {
    keys.map_values(|k: i32| if k == -1 { range_label(sheet, x) } else { cell_label(sheet, k) })
}

/// Edges from each cell of `from` to `x`, labelled `l`.
pub open spec fn edges_into(from: Seq<i32>, x: i32, l: Seq<char>) -> Seq<(i32, i32, Seq<char>)> {
    from.map_values(|k: i32| (k, x, l))
}

/// Edges from `x` to each cell of `to`, labelled `l`.
pub open spec fn edges_out(x: i32, to: Seq<i32>, l: Seq<char>) -> Seq<(i32, i32, Seq<char>)> {
    to.map_values(|k: i32| (x, k, l))
}

/// The edges drawn for `x`, by the keys of their ends, in order: from its operands (or its
/// range node), to its children, to the cells that read it through a range.
pub open spec fn key_edges(sheet: &Spreadsheet, x: i32, kids: Seq<i32>) -> Seq<(i32, i32, Seq<char>)> {
    let m = sheet.cell_meta@[x];
    let incoming = if sheet.cell_meta@.contains_key(x) && is_range_code(m.formula) {
        edges_into(parent_keys(sheet, x), x, "provides data to"@)
    } else {
        edges_into(parent_keys(sheet, x), x, "depends on"@)
    };
    incoming + edges_out(x, kids, "used by"@) + edges_out(x, all_range_kids(sheet, x), "part of range used by"@)
}

/// `edges` are the edges `by_key` between the nodes `keys`, each end given by its position.
pub open spec fn edges_match(keys: Seq<i32>, by_key: Seq<(i32, i32, Seq<char>)>, edges: Seq<(int, int, Seq<char>)>) -> bool {
    &&& edges.len() == by_key.len()
    &&& forall|t: int|
        0 <= t < edges.len() ==> {
            let e = #[trigger] edges[t];
            &&& 0 <= e.0 < keys.len()
            &&& 0 <= e.1 < keys.len()
            &&& keys[e.0] == by_key[t].0
            &&& keys[e.1] == by_key[t].1
            &&& e.2 == by_key[t].2
        }
}

/// `first_seen` keeps each key once, and exactly the keys of `s`.
pub proof fn lemma_first_seen(s: Seq<i32>)
    ensures
        first_seen(s).no_duplicates(),
        forall|k: i32| #[trigger] first_seen(s).contains(k) <==> s.contains(k),
    decreases s.len(),
{
    if s.len() > 0 {
        let p = s.drop_last();
        let l = s.last();
        let d = first_seen(p);
        lemma_first_seen(p);
        assert(first_seen(s) == if d.contains(l) {
            d
        } else {
            d.push(l)
        });
        assert forall|k: i32| #[trigger] first_seen(s).contains(k) <==> s.contains(k) by {
            if s.contains(k) {
                let i = choose|i: int| 0 <= i < s.len() && s[i] == k;
                if i < p.len() {
                    assert(p[i] == k);
                    assert(d.contains(k));
                    if !d.contains(l) {
                        let j = choose|j: int| 0 <= j < d.len() && d[j] == k;
                        assert(d.push(l)[j] == k);
                    }
                } else {
                    assert(k == l);
                    if !d.contains(l) {
                        assert(d.push(l)[d.len() as int] == k);
                    }
                }
            }
            if first_seen(s).contains(k) {
                let i = choose|i: int| 0 <= i < first_seen(s).len() && first_seen(s)[i] == k;
                if i < d.len() {
                    assert(d[i] == k);
                    assert(d.contains(k));
                    assert(p.contains(k));
                    let j = choose|j: int| 0 <= j < p.len() && p[j] == k;
                    assert(s[j] == k);
                } else {
                    assert(k == l);
                    assert(s[s.len() - 1] == k);
                }
            }
        }
    }
}

/// Adding `k` after `s` adds it to the keys first seen unless it is there already.
proof fn lemma_first_seen_push(s: Seq<i32>, k: i32)
    ensures
        first_seen(s.push(k)) == (if first_seen(s).contains(k) {
            first_seen(s)
        } else {
            first_seen(s).push(k)
        }),
{
    assert(s.push(k).drop_last() =~= s);
}

/// Edges keep their ends when more nodes are added after the others.
proof fn lemma_edges_grow(keys: Seq<i32>, keys2: Seq<i32>, by_key: Seq<(i32, i32, Seq<char>)>, edges: Seq<(int, int, Seq<char>)>)
    requires
        edges_match(keys, by_key, edges),
        keys.len() <= keys2.len(),
        keys2.subrange(0, keys.len() as int) == keys,
    ensures
        edges_match(keys2, by_key, edges),
{
    assert forall|t: int| 0 <= t < edges.len() implies {
        let e = #[trigger] edges[t];
        &&& 0 <= e.0 < keys2.len()
        &&& 0 <= e.1 < keys2.len()
        &&& keys2[e.0] == by_key[t].0
        &&& keys2[e.1] == by_key[t].1
        &&& e.2 == by_key[t].2
    } by {
        let e = edges[t];
        assert(keys2.subrange(0, keys.len() as int)[e.0] == keys2[e.0]);
        assert(keys2.subrange(0, keys.len() as int)[e.1] == keys2[e.1]);
    }
}

/// An edge between the nodes at `a` and `b` is the edge between their keys.
proof fn lemma_edges_push(keys: Seq<i32>, by_key: Seq<(i32, i32, Seq<char>)>, edges: Seq<(int, int, Seq<char>)>, a: int, b: int, l: Seq<char>)
    requires
        edges_match(keys, by_key, edges),
        0 <= a < keys.len(),
        0 <= b < keys.len(),
    ensures
        edges_match(keys, by_key.push((keys[a], keys[b], l)), edges.push((a, b, l))),
{
    let by2 = by_key.push((keys[a], keys[b], l));
    let e2 = edges.push((a, b, l));
    assert forall|t: int| 0 <= t < e2.len() implies {
        let e = #[trigger] e2[t];
        &&& 0 <= e.0 < keys.len()
        &&& 0 <= e.1 < keys.len()
        &&& keys[e.0] == by2[t].0
        &&& keys[e.1] == by2[t].1
        &&& e.2 == by2[t].2
    } by {
        if t < edges.len() {
            assert(e2[t] == edges[t]);
            assert(by2[t] == by_key[t]);
        }
    }
}

/// A value shown as a string.
fn push_shown(s: &mut String, v: CellValue)
    ensures
        final(s)@ == old(s)@ + shown_value(v),
{
    match v {
        CellValue::Integer(n) => push_int(s, n as i64),
        CellValue::Error => {
            proof {
                reveal_strlit("ERROR");
            }
            push_str(s, "ERROR");
        },
    }
}

/// A string holding the text `t`.
fn text_of(t: &str) -> (s: String)
    ensures
        s@ == t@,
{
    let mut s = String::new();
    push_str(&mut s, t);
    proof {
        assert(s@ =~= t@);
    }
    s
}

/// The node label of the cell `k`.
fn cell_label_text(sheet: &Spreadsheet, k: i32) -> (s: String)
    requires
        sheet.dims_ok(),
        key_ok(sheet, k),
    ensures
        s@ == cell_label(sheet, k),
{
    let mut s = String::new();
    push_key_ref(&mut s, sheet, k);
    push_str(&mut s, " (");
    push_shown(&mut s, sheet.grid[k as usize]);
    push_str(&mut s, ")");
    proof {
        assert(s@ =~= cell_label(sheet, k));
    }
    s
}

/// Where `k` first comes in `keys`, if anywhere.
fn find_key(keys: &Vec<i32>, k: i32) -> (r: Option<usize>)
    ensures
        r is Some <==> keys@.contains(k),
        r matches Some(j) ==> j < keys@.len() && keys@[j as int] == k,
{
    let mut j: usize = 0;
    while j < keys.len()
        invariant
            0 <= j <= keys@.len(),
            forall|t: int| 0 <= t < j ==> keys@[t] != k,
        decreases keys@.len() - j,
    {
        if keys[j] == k {
            return Some(j);
        }
        j += 1;
    }
    None
}

/// The node of the cell `k`: the one it has, or a new one with its label.
fn cell_node(g: &mut DiGraph<String, String>, keys: &mut Vec<i32>, sheet: &Spreadsheet, x: i32, k: i32) -> (i: usize)
    requires
        sheet.dims_ok(),
        key_ok(sheet, k),
        graph_nodes(*old(g)) == node_labels(sheet, x, old(keys)@),
        old(keys)@.len() + 1 < u32::MAX,
    ensures
        final(keys)@ == (if old(keys)@.contains(k) {
            old(keys)@
        } else {
            old(keys)@.push(k)
        }),
        graph_nodes(*final(g)) == node_labels(sheet, x, final(keys)@),
        graph_edges(*final(g)) == graph_edges(*old(g)),
        i < final(keys)@.len(),
        final(keys)@[i as int] == k,
{
    if let Some(j) = find_key(keys, k) {
        return j;
    }
    let label = cell_label_text(sheet, k);
    proof {
        assert(node_labels(sheet, x, keys@).len() == keys@.len());
    }
    let i = add_graph_node(g, label);
    keys.push(k);
    proof {
        assert(node_labels(sheet, x, keys@) =~= node_labels(sheet, x, old(keys)@).push(cell_label(sheet, k)));
    }
    i
}

/// Adds the edge between `x` (node 0) and the cell `k` (into `x` when `into`), adding a
/// node for `k` when it has none.
fn add_link(g: &mut DiGraph<String, String>, keys: &mut Vec<i32>, sheet: &Spreadsheet, x: i32, k: i32, into: bool, label: &str)
    requires
        sheet.dims_ok(),
        key_ok(sheet, k),
        graph_nodes(*old(g)) == node_labels(sheet, x, old(keys)@),
        old(keys)@.len() >= 1,
        old(keys)@[0] == x,
        old(keys)@.len() + 1 < u32::MAX,
        graph_edges(*old(g)).len() + 1 < u32::MAX,
    ensures
        final(keys)@ == (if old(keys)@.contains(k) {
            old(keys)@
        } else {
            old(keys)@.push(k)
        }),
        graph_nodes(*final(g)) == node_labels(sheet, x, final(keys)@),
        final(keys)@[0] == x,
        graph_edges(*final(g)).len() == graph_edges(*old(g)).len() + 1,
        forall|by_key: Seq<(i32, i32, Seq<char>)>|
            #[trigger] edges_match(old(keys)@, by_key, graph_edges(*old(g))) ==> edges_match(
                final(keys)@,
                by_key.push(
                    if into {
                        (k, x, label@)
                    } else {
                        (x, k, label@)
                    },
                ),
                graph_edges(*final(g)),
            ),
{
    let ghost keys0 = keys@;
    let ghost edges0 = graph_edges(*g);
    let i = cell_node(g, keys, sheet, x, k);
    let l = text_of(label);
    let ghost keys1 = keys@;
    let ghost edges1 = graph_edges(*g);
    proof {
        assert(keys1.subrange(0, keys0.len() as int) =~= keys0);
        assert forall|by_key: Seq<(i32, i32, Seq<char>)>| #[trigger] edges_match(keys0, by_key, edges0) implies edges_match(
            keys1,
            by_key.push(
                if into {
                    (k, x, label@)
                } else {
                    (x, k, label@)
                },
            ),
            edges1.push(
                if into {
                    (i as int, 0int, label@)
                } else {
                    (0int, i as int, label@)
                },
            ),
        ) by {
            lemma_edges_grow(keys0, keys1, by_key, edges0);
            if into {
                lemma_edges_push(keys1, by_key, edges1, i as int, 0, label@);
            } else {
                lemma_edges_push(keys1, by_key, edges1, 0, i as int, label@);
            }
        }
    }
    if into {
        add_graph_edge(g, i, 0, l);
    } else {
        add_graph_edge(g, 0, i, l);
    }
}

/// The operands of `m` that are not negative name cells of the sheet.
pub open spec fn operands_ok(sheet: &Spreadsheet, m: crate::spreadsheet::CellMeta) -> bool {
    &&& m.parent1 >= 0 ==> key_ok(sheet, m.parent1)
    &&& m.parent2 >= 0 ==> key_ok(sheet, m.parent2)
}

/// The relationships of `x` can be drawn with the children `kids`: every cell met is a
/// cell of the sheet, and the graph stays within petgraph's index limit.
pub open spec fn drawable(sheet: &Spreadsheet, x: i32, kids: Seq<i32>) -> bool {
    &&& sheet.dims_ok()
    &&& sheet.grid@.len() == sheet.rows * sheet.cols
    &&& key_ok(sheet, x)
    &&& sheet.cell_meta@.contains_key(x) ==> operands_ok(sheet, sheet.cell_meta@[x])
    &&& forall|i: int| 0 <= i < kids.len() ==> key_ok(sheet, #[trigger] kids[i])
    &&& forall|i: int|
        0 <= i < sheet.range_children@.len() && sheet.key_in_range(
            x as int,
            sheet.range_children@[i].start_key as int,
            sheet.range_children@[i].end_key as int,
        ) ==> key_ok(sheet, #[trigger] sheet.range_children@[i].child_key)
    &&& 4 + kids.len() + sheet.range_children@.len() < u32::MAX
}

/// The label of the range node of a range formula.
fn range_label_text(sheet: &Spreadsheet, x: i32, m: crate::spreadsheet::CellMeta) -> (s: String)
    requires
        sheet.dims_ok(),
        sheet.cell_meta@.contains_key(x),
        sheet.cell_meta@[x] == m,
    ensures
        s@ == range_label(sheet, x),
{
    let mut s = String::new();
    push_str(&mut s, "Range ");
    push_key_ref(&mut s, sheet, m.parent1);
    push_str(&mut s, ":");
    push_key_ref(&mut s, sheet, m.parent2);
    proof {
        assert(s@ =~= range_label(sheet, x));
    }
    s
}

/// The relationship graph of `x`, its children handed out as `kids`: the nodes of the
/// cells met, each once, and the edges of [`key_edges`] between them.
fn relation_graph(sheet: &Spreadsheet, x: i32, kids: &Vec<i32>) -> (g: DiGraph<String, String>)
    requires
        drawable(sheet, x, kids@),
    ensures
        graph_nodes(g) == node_labels(sheet, x, first_seen(met_keys(sheet, x, kids@))),
        edges_match(first_seen(met_keys(sheet, x, kids@)), key_edges(sheet, x, kids@), graph_edges(g)),
{
    let mut g = new_graph();
    let mut keys: Vec<i32> = Vec::new();
    let lx = cell_label_text(sheet, x);
    let _ = add_graph_node(&mut g, lx);
    keys.push(x);
    let ghost mut met: Seq<i32> = seq![x];
    let ghost mut by_key: Seq<(i32, i32, Seq<char>)> = Seq::empty();
    proof {
        lemma_first_seen_push(Seq::empty(), x);
        assert(Seq::<i32>::empty().push(x) =~= met);
        assert(node_labels(sheet, x, keys@) =~= seq![cell_label(sheet, x)]);
        assert(graph_nodes(g) =~= seq![cell_label(sheet, x)]);
    }
    // The operands, or the range node.
    let ghost m = sheet.cell_meta@[x];
    match sheet.cell_meta.get(&x) {
        Some(mm) => {
            let mm = *mm;
            if 5 <= mm.formula && mm.formula <= 9 {
                if mm.parent1 >= 0 && mm.parent2 >= 0 {
                    let lr = range_label_text(sheet, x, mm);
                    let r = add_graph_node(&mut g, lr);
                    keys.push(-1);
                    let l = text_of("provides data to");
                    proof {
                        lemma_first_seen_push(met, -1i32);
                        assert(!first_seen(met).contains(-1i32));
                        met = met.push(-1i32);
                        assert(keys@ =~= first_seen(met));
                        assert(node_labels(sheet, x, keys@) =~= seq![cell_label(sheet, x), range_label(sheet, x)]);
                        assert(graph_nodes(g) =~= seq![cell_label(sheet, x), range_label(sheet, x)]);
                        lemma_edges_push(keys@, by_key, graph_edges(g), 1, 0, l@);
                        by_key = by_key.push((-1i32, x, l@));
                    }
                    add_graph_edge(&mut g, r, 0, l);
                }
            } else {
                if mm.parent1 >= 0 {
                    let ghost kp = keys@;
                    let ghost ep = graph_edges(g);
                    add_link(&mut g, &mut keys, sheet, x, mm.parent1, true, "depends on");
                    proof {
                        assert(edges_match(kp, by_key, ep));
                    }
                    proof {
                        lemma_first_seen_push(met, mm.parent1);
                        met = met.push(mm.parent1);
                        by_key = by_key.push((mm.parent1, x, "depends on"@));
                    }
                }
                if mm.parent2 >= 0 {
                    let ghost kp = keys@;
                    let ghost ep = graph_edges(g);
                    add_link(&mut g, &mut keys, sheet, x, mm.parent2, true, "depends on");
                    proof {
                        assert(edges_match(kp, by_key, ep));
                    }
                    proof {
                        lemma_first_seen_push(met, mm.parent2);
                        met = met.push(mm.parent2);
                        by_key = by_key.push((mm.parent2, x, "depends on"@));
                    }
                }
            }
        },
        None => {},
    }
    proof {
        assert(met =~= seq![x] + parent_keys(sheet, x));
        if sheet.cell_meta@.contains_key(x) && is_range_code(m.formula) {
            assert(by_key =~= edges_into(parent_keys(sheet, x), x, "provides data to"@));
        } else {
            assert(by_key =~= edges_into(parent_keys(sheet, x), x, "depends on"@));
        }
    }
    let ghost met0 = met;
    let ghost by0 = by_key;
    // The children.
    let mut j: usize = 0;
    while j < kids.len()
        invariant
            drawable(sheet, x, kids@),
            0 <= j <= kids@.len(),
            met == met0 + kids@.take(j as int),
            by_key == by0 + edges_out(x, kids@.take(j as int), "used by"@),
            met0.len() <= 3,
            by0.len() <= 2,
            keys@ == first_seen(met),
            keys@.len() <= met.len(),
            keys@.len() >= 1,
            keys@[0] == x,
            graph_nodes(g) == node_labels(sheet, x, keys@),
            edges_match(keys@, by_key, graph_edges(g)),
        decreases kids@.len() - j,
    {
        let k = kids[j];
        proof {
            assert(key_ok(sheet, kids@[j as int]));
        }
        let ghost kp = keys@;
        let ghost ep = graph_edges(g);
        add_link(&mut g, &mut keys, sheet, x, k, false, "used by");
        proof {
            assert(edges_match(kp, by_key, ep));
        }
        proof {
            lemma_first_seen_push(met, k);
            met = met.push(k);
            by_key = by_key.push((x, k, "used by"@));
            assert(kids@.take(j + 1) =~= kids@.take(j as int).push(k));
            assert(met =~= met0 + kids@.take(j + 1));
            assert(edges_out(x, kids@.take(j + 1), "used by"@) =~= edges_out(x, kids@.take(j as int), "used by"@).push((x, k, "used by"@)));
            assert(by_key =~= by0 + edges_out(x, kids@.take(j + 1), "used by"@));
        }
        j += 1;
    }
    proof {
        assert(kids@.take(kids@.len() as int) =~= kids@);
    }
    let ghost met1 = met;
    let ghost by1 = by_key;
    // The cells that read `x` through a range.
    let n = sheet.range_children.len();
    let mut j: usize = 0;
    while j < n
        invariant
            drawable(sheet, x, kids@),
            n == sheet.range_children@.len(),
            0 <= j <= n,
            met == met1 + range_kids(sheet, x, j as int),
            by_key == by1 + edges_out(x, range_kids(sheet, x, j as int), "part of range used by"@),
            met1.len() <= 3 + kids@.len(),
            by1.len() <= 2 + kids@.len(),
            range_kids(sheet, x, j as int).len() <= j,
            keys@ == first_seen(met),
            keys@.len() <= met.len(),
            keys@.len() >= 1,
            keys@[0] == x,
            graph_nodes(g) == node_labels(sheet, x, keys@),
            edges_match(keys@, by_key, graph_edges(g)),
        decreases n - j,
    {
        let rc = sheet.range_children[j];
        if sheet.is_cell_in_range(x, rc.start_key, rc.end_key) {
            let k = rc.child_key;
            let ghost kp = keys@;
            let ghost ep = graph_edges(g);
            add_link(&mut g, &mut keys, sheet, x, k, false, "part of range used by");
            proof {
                assert(edges_match(kp, by_key, ep));
            }
            proof {
                lemma_first_seen_push(met, k);
                met = met.push(k);
                by_key = by_key.push((x, k, "part of range used by"@));
                assert(range_kids(sheet, x, j + 1) =~= range_kids(sheet, x, j as int).push(k));
                assert(met =~= met1 + range_kids(sheet, x, j + 1));
                assert(edges_out(x, range_kids(sheet, x, j + 1), "part of range used by"@) =~= edges_out(
                    x,
                    range_kids(sheet, x, j as int),
                    "part of range used by"@,
                ).push((x, k, "part of range used by"@)));
                assert(by_key =~= by1 + edges_out(x, range_kids(sheet, x, j + 1), "part of range used by"@));
            }
        } else {
            proof {
                assert(range_kids(sheet, x, j + 1) =~= range_kids(sheet, x, j as int));
            }
        }
        j += 1;
    }
    proof {
        assert(met =~= met_keys(sheet, x, kids@));
        assert(by_key =~= key_edges(sheet, x, kids@));
    }
    g
}

/// The name of a range function as the relationship text gives it.
pub open spec fn function_name(f: i16) -> Seq<char> {
    if f == 5 {
        "SUM"@
    } else if f == 6 {
        "AVG"@
    } else if f == 7 {
        "MIN"@
    } else if f == 8 {
        "MAX"@
    } else if f == 9 {
        "STDEV"@
    } else {
        "UNKNOWN"@
    }
}

/// The line for a related cell: its reference, ` (via range)` for a cell that reads it
/// through a range, and its value.
pub open spec fn value_line(sheet: &Spreadsheet, k: i32, via: bool) -> Seq<char> {
    "    - "@ + key_ref(sheet, k) + (if via {
        " (via range)"@
    } else {
        Seq::empty()
    }) + ": "@ + shown_value(sheet.grid@[k as int]) + "\n"@
}

/// The lines for the cells `ks`, in order.
pub open spec fn value_lines(sheet: &Spreadsheet, ks: Seq<i32>, via: bool) -> Seq<char>
    decreases ks.len(),
{
    if ks.len() == 0 {
        Seq::empty()
    } else {
        value_lines(sheet, ks.drop_last(), via) + value_line(sheet, ks.last(), via)
    }
}

/// The lines under `Parents:` for the cell `x`: its range function and range, or a line
/// for each operand that is not negative.
pub open spec fn parent_lines(sheet: &Spreadsheet, x: i32) -> Seq<char> {
    let m = sheet.cell_meta@[x];
    if !sheet.cell_meta@.contains_key(x) {
        Seq::empty()
    } else if is_range_code(m.formula) {
        if m.parent1 >= 0 && m.parent2 >= 0 {
            "    - Range function: "@ + function_name(m.formula) + " on range "@ + key_ref(sheet, m.parent1) + ":"@
                + key_ref(sheet, m.parent2) + "\n"@
        } else {
            Seq::empty()
        }
    } else {
        value_lines(sheet, parent_keys(sheet, x), false)
    }
}

/// Whether the text lists parents for `x` (a range formula always counts as having one).
pub open spec fn has_parents(sheet: &Spreadsheet, x: i32) -> bool {
    sheet.cell_meta@.contains_key(x) && (is_range_code(sheet.cell_meta@[x].formula) || parent_keys(sheet, x).len() > 0)
}

/// The relationships of `x` as text, its children handed out as `kids`.
pub open spec fn relations_text(sheet: &Spreadsheet, x: i32, kids: Seq<i32>) -> Seq<char> {
    let none = "    (none)\n"@;
    "\nCell "@ + key_ref(sheet, x) + ":\n"@ + "  Parents:\n"@ + parent_lines(sheet, x) + (if has_parents(sheet, x) {
        Seq::empty()
    } else {
        none
    }) + "  Children:\n"@ + value_lines(sheet, kids, false) + value_lines(sheet, all_range_kids(sheet, x), true) + (
    if kids.len() + all_range_kids(sheet, x).len() == 0 {
        none
    } else {
        Seq::empty()
    })
}

/// Appends the line for the related cell `k`.
fn push_value_line(s: &mut String, sheet: &Spreadsheet, k: i32, via: bool)
    requires
        sheet.dims_ok(),
        key_ok(sheet, k),
    ensures
        final(s)@ == old(s)@ + value_line(sheet, k, via),
{
    push_str(s, "    - ");
    push_key_ref(s, sheet, k);
    if via {
        push_str(s, " (via range)");
    }
    push_str(s, ": ");
    push_shown(s, sheet.grid[k as usize]);
    push_str(s, "\n");
    proof {
        assert(final(s)@ =~= old(s)@ + value_line(sheet, k, via));
    }
}

/// Appends the lines under `Parents:` for `x`.
fn push_parent_lines(s: &mut String, sheet: &Spreadsheet, x: i32)
    requires
        sheet.dims_ok(),
        sheet.grid@.len() == sheet.rows * sheet.cols,
        sheet.cell_meta@.contains_key(x) ==> operands_ok(sheet, sheet.cell_meta@[x]),
    ensures
        final(s)@ == old(s)@ + parent_lines(sheet, x),
{
    let ghost s0 = s@;
    match sheet.cell_meta.get(&x) {
        Some(m) => {
            let m = *m;
            if 5 <= m.formula && m.formula <= 9 {
                if m.parent1 >= 0 && m.parent2 >= 0 {
                    push_str(s, "    - Range function: ");
                    let name = if m.formula == 5 {
                        "SUM"
                    } else if m.formula == 6 {
                        "AVG"
                    } else if m.formula == 7 {
                        "MIN"
                    } else if m.formula == 8 {
                        "MAX"
                    } else {
                        "STDEV"
                    };
                    push_str(s, name);
                    push_str(s, " on range ");
                    push_key_ref(s, sheet, m.parent1);
                    push_str(s, ":");
                    push_key_ref(s, sheet, m.parent2);
                    push_str(s, "\n");
                    proof {
                        assert(name@ == function_name(m.formula));
                        assert(s@ =~= s0 + parent_lines(sheet, x));
                    }
                } else {
                    proof {
                        assert(s@ =~= s0 + parent_lines(sheet, x));
                    }
                }
            } else {
                let ghost ks = parent_keys(sheet, x);
                if m.parent1 >= 0 {
                    push_value_line(s, sheet, m.parent1, false);
                }
                let ghost s1 = s@;
                if m.parent2 >= 0 {
                    push_value_line(s, sheet, m.parent2, false);
                }
                proof {
                    let a = if m.parent1 >= 0 {
                        seq![m.parent1]
                    } else {
                        Seq::<i32>::empty()
                    };
                    assert(ks == a + (if m.parent2 >= 0 {
                        seq![m.parent2]
                    } else {
                        Seq::<i32>::empty()
                    }));
                    assert(value_lines(sheet, Seq::<i32>::empty(), false) == Seq::<char>::empty());
                    assert(seq![m.parent1].drop_last() =~= Seq::<i32>::empty());
                    assert(s1 =~= s0 + value_lines(sheet, a, false));
                    if m.parent2 >= 0 {
                        assert(ks.drop_last() =~= a);
                    } else {
                        assert(ks =~= a);
                    }
                    assert(s@ =~= s0 + parent_lines(sheet, x));
                }
            }
        },
        None => {
            proof {
                assert(s@ =~= s0 + parent_lines(sheet, x));
            }
        },
    }
}

/// The relationships of `x` as text, its children handed out as `kids`.
fn relations_text_of(sheet: &Spreadsheet, x: i32, kids: &Vec<i32>) -> (t: String)
    requires
        drawable(sheet, x, kids@),
    ensures
        t@ == relations_text(sheet, x, kids@),
{
    let mut t = String::new();
    push_str(&mut t, "\nCell ");
    push_key_ref(&mut t, sheet, x);
    push_str(&mut t, ":\n");
    push_str(&mut t, "  Parents:\n");
    push_parent_lines(&mut t, sheet, x);
    let has_parents = match sheet.cell_meta.get(&x) {
        Some(m) => (5 <= m.formula && m.formula <= 9) || m.parent1 >= 0 || m.parent2 >= 0,
        None => false,
    };
    if !has_parents {
        push_str(&mut t, "    (none)\n");
    }
    push_str(&mut t, "  Children:\n");
    let ghost head = t@;
    let mut j: usize = 0;
    while j < kids.len()
        invariant
            drawable(sheet, x, kids@),
            0 <= j <= kids@.len(),
            t@ == head + value_lines(sheet, kids@.take(j as int), false),
        decreases kids@.len() - j,
    {
        proof {
            assert(key_ok(sheet, kids@[j as int]));
            assert(kids@.take(j + 1).drop_last() =~= kids@.take(j as int));
        }
        push_value_line(&mut t, sheet, kids[j], false);
        j += 1;
    }
    proof {
        assert(kids@.take(kids@.len() as int) =~= kids@);
    }
    let ghost head2 = t@;
    let n = sheet.range_children.len();
    let mut found: bool = false;
    let mut j: usize = 0;
    while j < n
        invariant
            drawable(sheet, x, kids@),
            n == sheet.range_children@.len(),
            0 <= j <= n,
            t@ == head2 + value_lines(sheet, range_kids(sheet, x, j as int), true),
            found == (range_kids(sheet, x, j as int).len() > 0),
        decreases n - j,
    {
        let rc = sheet.range_children[j];
        if sheet.is_cell_in_range(x, rc.start_key, rc.end_key) {
            proof {
                assert(range_kids(sheet, x, j + 1) == range_kids(sheet, x, j as int).push(rc.child_key));
                assert(range_kids(sheet, x, j + 1).drop_last() =~= range_kids(sheet, x, j as int));
            }
            push_value_line(&mut t, sheet, rc.child_key, true);
            found = true;
        } else {
            proof {
                assert(range_kids(sheet, x, j + 1) =~= range_kids(sheet, x, j as int));
            }
        }
        j += 1;
    }
    if kids.len() == 0 && !found {
        push_str(&mut t, "    (none)\n");
    }
    proof {
        assert(t@ =~= relations_text(sheet, x, kids@));
    }
    t
}

/// The relationships of a cell, ready to be written out: the graph in DOT form, the text,
/// and the files they go to.
pub struct Visualization {
    pub dot: String,
    pub text: String,
    pub dot_file: String,
    pub png_file: String,
}

/// `cell_{row}_{col}_relationships.{ext}`: where the drawing of the cell (row, col) goes.
pub open spec fn relations_file(row: i16, col: i16, ext: Seq<char>) -> Seq<char> {
    "cell_"@ + int_text(row as int) + "_"@ + int_text(col as int) + "_relationships."@ + ext
}

/// The file name `cell_{row}_{col}_relationships.{ext}`.
fn relations_file_name(row: i16, col: i16, ext: &str) -> (s: String)
    ensures
        s@ == relations_file(row, col, ext@),
{
    let mut s = String::new();
    push_str(&mut s, "cell_");
    push_int(&mut s, row as i64);
    push_str(&mut s, "_");
    push_int(&mut s, col as i64);
    push_str(&mut s, "_relationships.");
    push_str(&mut s, ext);
    proof {
        assert(s@ =~= relations_file(row, col, ext@));
    }
    s
}

/// What the drawing of the cell `x` needs of the sheet: its formula's operands that are
/// not negative, its children and the cells that read it through a range are cells of the
/// sheet, and the graph stays within petgraph's index limit.
pub open spec fn visualizable(sheet: &Spreadsheet, x: i32) -> bool {
    &&& sheet.cell_meta@.contains_key(x) ==> operands_ok(sheet, sheet.cell_meta@[x])
    &&& forall|c: i32| #[trigger] sheet.children_of(x).contains(c) ==> key_ok(sheet, c)
    &&& forall|i: int|
        0 <= i < sheet.range_children@.len() && sheet.key_in_range(
            x as int,
            sheet.range_children@[i].start_key as int,
            sheet.range_children@[i].end_key as int,
        ) ==> key_ok(sheet, #[trigger] sheet.range_children@[i].child_key)
    &&& 4 + sheet.children_of(x).len() + sheet.range_children@.len() < u32::MAX
}

/// What the drawing of `x` holds, for the children handed out in the order `kids`.
pub open spec fn drawn(sheet: &Spreadsheet, x: i32, kids: Seq<i32>, v: Visualization) -> bool {
    let keys = first_seen(met_keys(sheet, x, kids));
    &&& kids.no_duplicates()
    &&& kids.to_set() == sheet.children_of(x)
    &&& v.text@ == relations_text(sheet, x, kids)
    &&& exists|edges: Seq<(int, int, Seq<char>)>|
        edges_match(keys, key_edges(sheet, x, kids), edges) && v.dot@ == #[trigger] dot_of(
            node_labels(sheet, x, keys),
            edges,
        )
}

impl Spreadsheet {
    /// Whether the relationships of the cell (row, col) of the sheet can be drawn, as
    /// [`visualizable`] says.
    pub fn is_visualizable(&self, row: i16, col: i16) -> (b: bool)
        requires
            self.wf(),
            self.valid_cell(row as int, col as int),
        ensures
            b == visualizable(self, self.key_of(row as int, col as int) as i32),
    {
        proof {
            lemma_cell_key(self, row as int, col as int);
        }
        let x = self.get_key(row, col);
        let n = self.grid.len();
        let ops = match self.cell_meta.get(&x) {
            Some(m) => (m.parent1 < 0 || (m.parent1 as usize) < n) && (m.parent2 < 0 || (m.parent2 as usize) < n),
            None => true,
        };
        let kids = match self.get_cell_children(x) {
            Some(set) => set_elements(set),
            None => Vec::new(),
        };
        proof {
            assert(kids@.to_set() == self.children_of(x)) by {
                if !self.children@.contains_key(x) {
                    assert(kids@.to_set() =~= Set::<i32>::empty());
                }
            }
            kids@.unique_seq_to_set();
        }
        let mut kids_ok = true;
        let mut i: usize = 0;
        while i < kids.len()
            invariant
                0 <= i <= kids@.len(),
                n == self.grid@.len(),
                kids_ok == forall|j: int| 0 <= j < i ==> key_ok(self, #[trigger] kids@[j]),
            decreases kids@.len() - i,
        {
            let c = kids[i];
            if c < 0 || (c as usize) >= n {
                kids_ok = false;
            }
            i += 1;
        }
        let mut ranges_ok = true;
        let mut j: usize = 0;
        while j < self.range_children.len()
            invariant
                0 <= j <= self.range_children@.len(),
                n == self.grid@.len(),
                self.dims_ok(),
                ranges_ok == forall|k: int|
                    0 <= k < j && self.key_in_range(
                        x as int,
                        self.range_children@[k].start_key as int,
                        self.range_children@[k].end_key as int,
                    ) ==> key_ok(self, #[trigger] self.range_children@[k].child_key),
            decreases self.range_children@.len() - j,
        {
            let rc = self.range_children[j];
            if self.is_cell_in_range(x, rc.start_key, rc.end_key) {
                if rc.child_key < 0 || (rc.child_key as usize) >= n {
                    ranges_ok = false;
                }
            }
            j += 1;
        }
        let small = 4 + (kids.len() as u128) + (self.range_children.len() as u128) < 4294967295u128;
        proof {
            assert(kids_ok == forall|c: i32| #[trigger] self.children_of(x).contains(c) ==> key_ok(self, c)) by {
                if kids_ok {
                    assert forall|c: i32| #[trigger] self.children_of(x).contains(c) implies key_ok(self, c) by {
                        assert(kids@.to_set().contains(c));
                        let k = choose|k: int| 0 <= k < kids@.len() && kids@[k] == c;
                        assert(key_ok(self, kids@[k]));
                    }
                } else {
                    let k = choose|k: int| 0 <= k < kids@.len() && !key_ok(self, #[trigger] kids@[k]);
                    assert(self.children_of(x).contains(kids@[k]));
                }
            }
        }
        ops && kids_ok && ranges_ok && small
    }

    /// The relationships of the cell (row, col): an `InvalidCell` error for a cell outside
    /// the sheet; else the graph of the cell, its operands (or the range it reads), its
    /// children and the cells that read it through a range, in DOT form, the same as
    /// text, and the files `cell_{row}_{col}_relationships.dot` and `.png` they go to.
    /// The children come in the order their set hands them out.
    pub fn visualize_cell_relationships(&self, row: i16, col: i16) -> (r: Result<Visualization, CommandStatus>)
        requires
            self.wf(),
            self.valid_cell(row as int, col as int) ==> visualizable(self, self.key_of(row as int, col as int) as i32),
        ensures
            !self.valid_cell(row as int, col as int) ==> r == Err::<Visualization, CommandStatus>(CommandStatus::InvalidCell),
            self.valid_cell(row as int, col as int) ==> (r matches Ok(v) && {
                &&& v.dot_file@ == relations_file(row, col, "dot"@)
                &&& v.png_file@ == relations_file(row, col, "png"@)
                &&& exists|kids: Seq<i32>| #[trigger] drawn(self, self.key_of(row as int, col as int) as i32, kids, v)
            }),
    {
        if row < 0 || row >= self.rows || col < 0 || col >= self.cols {
            return Err(CommandStatus::InvalidCell);
        }
        proof {
            lemma_cell_key(self, row as int, col as int);
        }
        let x = self.get_key(row, col);
        let kids = match self.get_cell_children(x) {
            Some(set) => set_elements(set),
            None => Vec::new(),
        };
        proof {
            assert(kids@.to_set() == self.children_of(x));
            kids@.unique_seq_to_set();
            assert forall|i: int| 0 <= i < kids@.len() implies key_ok(self, #[trigger] kids@[i]) by {
                assert(kids@.to_set().contains(kids@[i]));
            }
        }
        let g = relation_graph(self, x, &kids);
        let dot = dot_text(&g);
        let text = relations_text_of(self, x, &kids);
        let v = Visualization {
            dot,
            text,
            dot_file: relations_file_name(row, col, "dot"),
            png_file: relations_file_name(row, col, "png"),
        };
        proof {
            let keys = first_seen(met_keys(self, x, kids@));
            assert(edges_match(keys, key_edges(self, x, kids@), graph_edges(g)));
            assert(v.dot@ == dot_of(node_labels(self, x, keys), graph_edges(g)));
            assert(drawn(self, x, kids@, v));
            assert(x == self.key_of(row as int, col as int) as i32);
            assert(v.dot_file@ == relations_file(row, col, "dot"@));
            assert(v.png_file@ == relations_file(row, col, "png"@));
        }
        Ok(v)
    }
}

} // verus!
