//! Compiles the regex AST into a finite state machine.
//!
//! The machine is an arena of [`Node`]s; transitions refer to their
//! target node by index into that arena, never by pointer, so the
//! back-edges that repetition needs are plain data. Node `0` is always
//! the start state; every accepting node has `end` set.
//!
//! Construction is reserve-then-fill: a node's slot (and hence its
//! index) is pushed into the arena *before* the subtree that may refer
//! back to it is compiled, and its final transition list is filled in
//! afterwards. This is what lets a repetition's body point back at the
//! loop node that encloses it.
//!
//! Each compiling step is handed the set of entry nodes that the
//! machine can be in when the sub-pattern starts, attaches the
//! sub-pattern's first transitions to those nodes, and returns the set
//! of exit nodes the machine is in when the sub-pattern has matched:
//!
//! - a single character, primitive class or range attaches one
//!   consuming transition per entry node, all into one fresh node;
//! - a sequence threads its items, each item's exits becoming the next
//!   item's entries, so concatenation costs no extra node; an empty
//!   sequence degenerates to an epsilon transition into a fresh node;
//! - a choice compiles both alternatives from the same entry nodes and
//!   returns the union of their exits, so both branches are later wired
//!   to the same continuation — or both independently accept when the
//!   choice ends the pattern;
//! - a repetition reserves a loop node, wires the entries to it by
//!   epsilon, gives it one epsilon transition into the compiled body
//!   (whose exits link back to the loop node by epsilon) and one
//!   epsilon transition into a fresh exit node, the zero-occurrence
//!   path — note that when the body itself can match the empty string
//!   (`()*`, `(a*)*`), this loop is an epsilon-only cycle, so a
//!   matching engine must de-duplicate states while it takes the
//!   epsilon closure;
//! - a character class reserves one fresh node and attaches, per
//!   element, one transition from every entry node into it.
//!
//! The whole construction is mirrored by the spec functions
//! [`spec_compile`] and [`spec_compile_fsm`]: [`compile`] returns
//! exactly the machine they describe, which pins node numbering and
//! transition order down to the last index.

use vstd::prelude::*;
use crate::parse::{Primitive, Regex};

verus! {

type NodeIndex = usize;

/// What a transition demands of the next input codepoint.
#[derive(Debug, Clone, Copy, PartialEq, Eq)]
pub enum TransitionType {
    /// One codepoint inside the inclusive range.
    Range(char, char),
    /// One codepoint of the named class.
    Primitive(Primitive),
    /// Exactly this codepoint.
    Char(char),
    /// Consumes no input; encodes alternation and repetition structure.
    Epsilon,
}

/// One labeled edge of the machine.
#[derive(Debug, Clone, Copy, PartialEq, Eq)]
pub struct Transition {
    pub target_node: NodeIndex,
    pub condition: TransitionType,
}

/// One state of the machine: whether it accepts, and its ordered
/// outgoing transitions.
#[derive(Debug, Clone, PartialEq, Eq)]
pub struct Node {
    pub end: bool,
    pub transitions: Vec<Transition>,
}

/// The compiled machine: a node arena whose index `0` is the start
/// state. Immutable once compilation returns.
#[derive(Debug, Clone, PartialEq, Eq)]
pub struct RegexFsm {
    pub nodes: Vec<Node>,
}

/// The single-use builder that owns the arena while it grows.
struct Compiler {
    nodes: Vec<Node>,
}

/// The mathematical shape of one node.
pub struct NodeView {
    pub end: bool,
    pub transitions: Seq<Transition>,
}

impl View for Node {
    type V = NodeView;

    open spec fn view(&self) -> NodeView {
        NodeView { end: self.end, transitions: self.transitions@ }
    }
}

/// A node arena as its sequence of node shapes.
pub open spec fn nodes_view(nodes: Seq<Node>) -> Seq<NodeView> {
    nodes.map_values(|n: Node| n@)
}

impl View for RegexFsm {
    type V = Seq<NodeView>;

    open spec fn view(&self) -> Seq<NodeView> {
        nodes_view(self.nodes@)
    }
}

impl View for Compiler {
    type V = Seq<NodeView>;

    closed spec fn view(&self) -> Seq<NodeView> {
        nodes_view(self.nodes@)
    }
}

/// A just-reserved placeholder slot: no transitions, not accepting.
pub open spec fn fresh_node() -> NodeView {
    NodeView { end: false, transitions: Seq::empty() }
}

/// Every index in `entries` points into an arena of length `len`.
pub open spec fn entries_ok(entries: Seq<NodeIndex>, len: nat) -> bool {
    forall|i: int| 0 <= i < entries.len() ==> (#[trigger] entries[i]) < len
}

/// No transition of any node dangles: every target is an index into
/// the arena.
pub open spec fn edges_ok(nodes: Seq<NodeView>) -> bool {
    forall|i: int, j: int|
        0 <= i < nodes.len() && 0 <= j < nodes[i].transitions.len()
            ==> (#[trigger] nodes[i].transitions[j]).target_node < nodes.len()
}

/// The arena after one transition is appended to node `from`.
pub open spec fn spec_add_edge(nodes: Seq<NodeView>, from: NodeIndex, t: Transition) -> Seq<
    NodeView,
> {
    nodes.update(
        from as int,
        NodeView {
            end: nodes[from as int].end,
            transitions: nodes[from as int].transitions.push(t),
        },
    )
}

/// The arena after each node of `froms`, in order, gets one transition
/// with this condition into `target`.
pub open spec fn spec_add_edges(
    nodes: Seq<NodeView>,
    froms: Seq<NodeIndex>,
    condition: TransitionType,
    target: NodeIndex,
) -> Seq<NodeView>
    decreases froms.len(),
{
    if froms.len() == 0 {
        nodes
    } else {
        spec_add_edge(
            spec_add_edges(nodes, froms.drop_last(), condition, target),
            froms.last(),
            Transition { target_node: target, condition },
        )
    }
}

/// The arena after a fresh node is reserved and every entry node gets
/// one transition with this condition into it; `.1` is the fresh index.
pub open spec fn spec_allocating(
    nodes: Seq<NodeView>,
    entries: Seq<NodeIndex>,
    condition: TransitionType,
) -> (Seq<NodeView>, NodeIndex) {
    let idx = nodes.len() as NodeIndex;
    (spec_add_edges(nodes.push(fresh_node()), entries, condition, idx), idx)
}

/// How many direct children a tree node has in its list form; the
/// termination measure for walking those lists.
pub open spec fn child_count(re: Regex) -> nat {
    match re {
        Regex::Sequence(items) => items@.len(),
        Regex::Class(elems) => elems@.len(),
        _ => 0,
    }
}

/// The arena and exit set that compiling `re` from these entry nodes
/// produces; the construction [`compile`] is proved to follow.
pub open spec fn spec_compile(
    nodes: Seq<NodeView>,
    entries: Seq<NodeIndex>,
    re: Regex,
) -> (Seq<NodeView>, Seq<NodeIndex>)
    decreases re, 1nat, 0nat,
{
    match re {
        Regex::Char(c) => {
            let (nodes2, idx) = spec_allocating(nodes, entries, TransitionType::Char(c));
            (nodes2, seq![idx])
        },
        Regex::Primitive(p) => {
            let (nodes2, idx) = spec_allocating(nodes, entries, TransitionType::Primitive(p));
            (nodes2, seq![idx])
        },
        Regex::Range(low, high) => {
            let (nodes2, idx) = spec_allocating(nodes, entries, TransitionType::Range(low, high));
            (nodes2, seq![idx])
        },
        Regex::Sequence(items) => {
            if items@.len() == 0 {
                let (nodes2, idx) = spec_allocating(nodes, entries, TransitionType::Epsilon);
                (nodes2, seq![idx])
            } else {
                spec_compile_items(nodes, entries, re, 0)
            }
        },
        Regex::Choice(left, right) => {
            let (nodes1, exits1) = spec_compile(nodes, entries, *left);
            let (nodes2, exits2) = spec_compile(nodes1, entries, *right);
            (nodes2, exits1 + exits2)
        },
        Regex::Repetition(inner) => {
            let loop_idx = nodes.len() as NodeIndex;
            let nodes1 = spec_add_edges(
                nodes.push(fresh_node()),
                entries,
                TransitionType::Epsilon,
                loop_idx,
            );
            let entry_idx = nodes1.len() as NodeIndex;
            let nodes2 = spec_add_edge(
                nodes1.push(fresh_node()),
                loop_idx,
                Transition { target_node: entry_idx, condition: TransitionType::Epsilon },
            );
            let (nodes3, inner_exits) = spec_compile(nodes2, seq![entry_idx], *inner);
            let nodes4 = spec_add_edges(nodes3, inner_exits, TransitionType::Epsilon, loop_idx);
            let skip_idx = nodes4.len() as NodeIndex;
            let nodes5 = spec_add_edge(
                nodes4.push(fresh_node()),
                loop_idx,
                Transition { target_node: skip_idx, condition: TransitionType::Epsilon },
            );
            (nodes5, seq![skip_idx])
        },
        Regex::Class(_) => {
            let target = nodes.len() as NodeIndex;
            let nodes1 = nodes.push(fresh_node());
            (spec_compile_class(nodes1, entries, re, 0, target), seq![target])
        },
    }
}

/// Threads a sequence: item `k`'s exits become item `k + 1`'s entries.
pub open spec fn spec_compile_items(
    nodes: Seq<NodeView>,
    entries: Seq<NodeIndex>,
    re: Regex,
    k: int,
) -> (Seq<NodeView>, Seq<NodeIndex>)
    decreases re, 0nat, child_count(re) - k,
{
    match re {
        Regex::Sequence(items) => {
            if 0 <= k < items@.len() {
                let (nodes2, exits) = spec_compile(nodes, entries, items@[k]);
                spec_compile_items(nodes2, exits, re, k + 1)
            } else {
                (nodes, entries)
            }
        },
        _ => (nodes, entries),
    }
}

/// Adds the transitions of the class elements from `k` on, every one
/// of them targeting the class's single fresh node.
pub open spec fn spec_compile_class(
    nodes: Seq<NodeView>,
    entries: Seq<NodeIndex>,
    re: Regex,
    k: int,
    target: NodeIndex,
) -> Seq<NodeView>
    decreases re, 0nat, child_count(re) - k,
{
    match re {
        Regex::Class(elems) => {
            if 0 <= k < elems@.len() {
                let nodes2 = spec_compile_class_elem(nodes, entries, elems@[k], target);
                spec_compile_class(nodes2, entries, re, k + 1, target)
            } else {
                nodes
            }
        },
        _ => nodes,
    }
}

/// One class element: a character, range or primitive becomes one
/// direct transition per entry node; any other tree (which the parser
/// never puts in a class, but the compiler is total) is compiled as a
/// branch whose exits reach the class node by epsilon.
pub open spec fn spec_compile_class_elem(
    nodes: Seq<NodeView>,
    entries: Seq<NodeIndex>,
    elem: Regex,
    target: NodeIndex,
) -> Seq<NodeView>
    decreases elem, 2nat, 0nat,
{
    match elem {
        Regex::Char(c) => spec_add_edges(nodes, entries, TransitionType::Char(c), target),
        Regex::Range(low, high) => spec_add_edges(
            nodes,
            entries,
            TransitionType::Range(low, high),
            target,
        ),
        Regex::Primitive(p) => spec_add_edges(nodes, entries, TransitionType::Primitive(p), target),
        _ => {
            let (nodes2, exits) = spec_compile(nodes, entries, elem);
            spec_add_edges(nodes2, exits, TransitionType::Epsilon, target)
        },
    }
}

/// The arena with one node made accepting, its transitions untouched.
pub open spec fn spec_mark_end(nodes: Seq<NodeView>, idx: NodeIndex) -> Seq<NodeView> {
    nodes.update(idx as int, NodeView { end: true, transitions: nodes[idx as int].transitions })
}

/// The arena with every exit node made accepting.
pub open spec fn spec_mark_ends(nodes: Seq<NodeView>, exits: Seq<NodeIndex>) -> Seq<NodeView>
    decreases exits.len(),
{
    if exits.len() == 0 {
        nodes
    } else {
        spec_mark_end(spec_mark_ends(nodes, exits.drop_last()), exits.last())
    }
}

/// The machine a whole pattern compiles to: node `0` reserved as the
/// start, the pattern compiled from it, every exit marked accepting.
pub open spec fn spec_compile_fsm(re: Regex) -> Seq<NodeView> {
    let (nodes, exits) = spec_compile(seq![fresh_node()], seq![0 as NodeIndex], re);
    spec_mark_ends(nodes, exits)
}

proof fn lemma_add_edge_props(nodes: Seq<NodeView>, from: NodeIndex, t: Transition)
    requires
        (from as nat) < nodes.len(),
    ensures
        ({
            let r = spec_add_edge(nodes, from, t);
            &&& r.len() == nodes.len()
            &&& forall|i: int| 0 <= i < nodes.len() ==> r[i].end == nodes[i].end
            &&& (edges_ok(nodes) && (t.target_node as nat) < nodes.len() ==> edges_ok(r))
            &&& arena_extends(nodes, r)
            &&& has_edge(r, from as int, t.target_node as int)
        }),
{
    let r = spec_add_edge(nodes, from, t);
    assert(arena_extends(nodes, r));
    assert(has_edge(r, from as int, t.target_node as int)) by {
        let j = nodes[from as int].transitions.len() as int;
        assert(r[from as int].transitions[j] == t);
    }
    if edges_ok(nodes) && (t.target_node as nat) < nodes.len() {
        assert forall|i: int, j: int|
            0 <= i < r.len() && 0 <= j < r[i].transitions.len() implies (#[trigger] r[i]
            .transitions[j]).target_node < r.len() by {
            if i == from as int {
                if j < nodes[i].transitions.len() {
                    assert(r[i].transitions[j] == nodes[i].transitions[j]);
                } else {
                    assert(r[i].transitions[j] == t);
                }
            } else {
                assert(r[i] == nodes[i]);
            }
        }
    }
}

proof fn lemma_add_edges_props(
    nodes: Seq<NodeView>,
    froms: Seq<NodeIndex>,
    condition: TransitionType,
    target: NodeIndex,
)
    requires
        entries_ok(froms, nodes.len()),
    ensures
        ({
            let r = spec_add_edges(nodes, froms, condition, target);
            &&& r.len() == nodes.len()
            &&& forall|i: int| 0 <= i < nodes.len() ==> r[i].end == nodes[i].end
            &&& (edges_ok(nodes) && (target as nat) < nodes.len() ==> edges_ok(r))
            &&& arena_extends(nodes, r)
            &&& forall|i: int|
                0 <= i < froms.len() ==> has_edge(r, #[trigger] froms[i] as int, target as int)
        }),
    decreases froms.len(),
{
    let r = spec_add_edges(nodes, froms, condition, target);
    if froms.len() > 0 {
        assert(entries_ok(froms.drop_last(), nodes.len()));
        lemma_add_edges_props(nodes, froms.drop_last(), condition, target);
        let prev = spec_add_edges(nodes, froms.drop_last(), condition, target);
        lemma_add_edge_props(prev, froms.last(), Transition { target_node: target, condition });
        lemma_extends_trans(nodes, prev, r);
        assert forall|i: int| 0 <= i < froms.len() implies has_edge(
            r,
            #[trigger] froms[i] as int,
            target as int,
        ) by {
            if i < froms.len() - 1 {
                assert(froms.drop_last()[i] == froms[i]);
                assert(has_edge(prev, froms[i] as int, target as int));
                lemma_has_edge_extends(prev, r, froms[i] as int, target as int);
            } else {
                assert(froms[i] == froms.last());
            }
        }
    } else {
        assert(arena_extends(nodes, r));
    }
}

/// An existing transition survives any later construction step.
proof fn lemma_has_edge_extends(n1: Seq<NodeView>, n2: Seq<NodeView>, a: int, b: int)
    requires
        arena_extends(n1, n2),
        0 <= a < n1.len(),
        has_edge(n1, a, b),
    ensures
        has_edge(n2, a, b),
{
    let j = choose|j: int|
        0 <= j < n1[a].transitions.len() && (#[trigger] n1[a].transitions[j]).target_node as int
            == b;
    assert(n2[a].transitions[j] == n1[a].transitions[j]);
}

/// The structural facts every compiling step maintains: the arena only
/// grows, the accept flags of nodes that already existed are untouched,
/// there is at least one exit, every exit is a valid index, and no
/// transition ever dangles.
proof fn lemma_spec_compile_props(nodes: Seq<NodeView>, entries: Seq<NodeIndex>, re: Regex)
    requires
        entries_ok(entries, nodes.len()),
    ensures
        ({
            let (nodes2, exits) = spec_compile(nodes, entries, re);
            &&& nodes2.len() >= nodes.len()
            &&& exits.len() >= 1
            &&& entries_ok(exits, nodes2.len())
            &&& (edges_ok(nodes) ==> edges_ok(nodes2))
            &&& forall|i: int| 0 <= i < nodes.len() ==> nodes2[i].end == nodes[i].end
        }),
    decreases re, 1nat, 0nat,
{
    let (nodes2, exits) = spec_compile(nodes, entries, re);
    match re {
        Regex::Char(c) => {
            lemma_spec_allocating_props(nodes, entries, TransitionType::Char(c));
        },
        Regex::Primitive(p) => {
            lemma_spec_allocating_props(nodes, entries, TransitionType::Primitive(p));
        },
        Regex::Range(low, high) => {
            lemma_spec_allocating_props(nodes, entries, TransitionType::Range(low, high));
        },
        Regex::Sequence(items) => {
            if items@.len() == 0 {
                lemma_spec_allocating_props(nodes, entries, TransitionType::Epsilon);
            } else {
                lemma_spec_compile_items_props(nodes, entries, re, 0);
            }
        },
        Regex::Choice(left, right) => {
            let (nodes1, exits1) = spec_compile(nodes, entries, *left);
            lemma_spec_compile_props(nodes, entries, *left);
            assert(entries_ok(entries, nodes1.len()));
            let (nodesr, exits2) = spec_compile(nodes1, entries, *right);
            lemma_spec_compile_props(nodes1, entries, *right);
            assert forall|i: int| 0 <= i < (exits1 + exits2).len() implies ((exits1 + exits2)[i]
                as nat) < nodes2.len() by {
                if i < exits1.len() {
                    assert((exits1 + exits2)[i] == exits1[i]);
                } else {
                    assert((exits1 + exits2)[i] == exits2[i - exits1.len()]);
                }
            }
        },
        Regex::Repetition(inner) => {
            let loop_idx = nodes.len() as NodeIndex;
            let pushed1 = nodes.push(fresh_node());
            assert(edges_ok(nodes) ==> edges_ok(pushed1)) by {
                if edges_ok(nodes) {
                    lemma_push_fresh_edges_ok(nodes);
                }
            }
            let nodes1 = spec_add_edges(pushed1, entries, TransitionType::Epsilon, loop_idx);
            lemma_add_edges_props(pushed1, entries, TransitionType::Epsilon, loop_idx);
            let entry_idx = nodes1.len() as NodeIndex;
            let pushed2 = nodes1.push(fresh_node());
            assert(edges_ok(nodes1) ==> edges_ok(pushed2)) by {
                if edges_ok(nodes1) {
                    lemma_push_fresh_edges_ok(nodes1);
                }
            }
            let t1 = Transition { target_node: entry_idx, condition: TransitionType::Epsilon };
            let nodes2x = spec_add_edge(pushed2, loop_idx, t1);
            lemma_add_edge_props(pushed2, loop_idx, t1);
            let (nodes3, inner_exits) = spec_compile(nodes2x, seq![entry_idx], *inner);
            lemma_spec_compile_props(nodes2x, seq![entry_idx], *inner);
            let nodes4 = spec_add_edges(nodes3, inner_exits, TransitionType::Epsilon, loop_idx);
            lemma_add_edges_props(nodes3, inner_exits, TransitionType::Epsilon, loop_idx);
            let skip_idx = nodes4.len() as NodeIndex;
            let pushed3 = nodes4.push(fresh_node());
            assert(edges_ok(nodes4) ==> edges_ok(pushed3)) by {
                if edges_ok(nodes4) {
                    lemma_push_fresh_edges_ok(nodes4);
                }
            }
            let t2 = Transition { target_node: skip_idx, condition: TransitionType::Epsilon };
            lemma_add_edge_props(pushed3, loop_idx, t2);
        },
        Regex::Class(_) => {
            let target = nodes.len() as NodeIndex;
            let pushed = nodes.push(fresh_node());
            assert(edges_ok(nodes) ==> edges_ok(pushed)) by {
                if edges_ok(nodes) {
                    lemma_push_fresh_edges_ok(nodes);
                }
            }
            assert(entries_ok(entries, pushed.len()));
            lemma_spec_compile_class_props(pushed, entries, re, 0, target);
        },
    }
}

/// [`lemma_spec_compile_props`] for the threading of a sequence's items.
proof fn lemma_spec_compile_items_props(
    nodes: Seq<NodeView>,
    entries: Seq<NodeIndex>,
    re: Regex,
    k: int,
)
    requires
        entries_ok(entries, nodes.len()),
    ensures
        ({
            let (nodes2, exits) = spec_compile_items(nodes, entries, re, k);
            &&& nodes2.len() >= nodes.len()
            &&& (re is Sequence && 0 <= k < child_count(re)) ==> exits.len() >= 1
            &&& !(re is Sequence && 0 <= k < child_count(re)) ==> exits == entries
            &&& entries_ok(exits, nodes2.len())
            &&& (edges_ok(nodes) ==> edges_ok(nodes2))
            &&& forall|i: int| 0 <= i < nodes.len() ==> nodes2[i].end == nodes[i].end
        }),
    decreases re, 0nat, child_count(re) - k,
{
    match re {
        Regex::Sequence(items) => {
            if 0 <= k < items@.len() {
                let (nodesk, exitsk) = spec_compile(nodes, entries, items@[k]);
                lemma_spec_compile_props(nodes, entries, items@[k]);
                lemma_spec_compile_items_props(nodesk, exitsk, re, k + 1);
            }
        },
        _ => {},
    }
}

/// [`lemma_spec_compile_props`] for the element walk of a character class.
proof fn lemma_spec_compile_class_props(
    nodes: Seq<NodeView>,
    entries: Seq<NodeIndex>,
    re: Regex,
    k: int,
    target: NodeIndex,
)
    requires
        entries_ok(entries, nodes.len()),
        (target as nat) < nodes.len(),
    ensures
        ({
            let r = spec_compile_class(nodes, entries, re, k, target);
            &&& r.len() >= nodes.len()
            &&& (edges_ok(nodes) ==> edges_ok(r))
            &&& forall|i: int| 0 <= i < nodes.len() ==> r[i].end == nodes[i].end
        }),
    decreases re, 0nat, child_count(re) - k,
{
    match re {
        Regex::Class(elems) => {
            if 0 <= k < elems@.len() {
                let nodesk = spec_compile_class_elem(nodes, entries, elems@[k], target);
                lemma_spec_compile_class_elem_props(nodes, entries, elems@[k], target);
                assert(entries_ok(entries, nodesk.len()));
                lemma_spec_compile_class_props(nodesk, entries, re, k + 1, target);
            }
        },
        _ => {},
    }
}

/// [`lemma_spec_compile_props`] for one element of a character class.
proof fn lemma_spec_compile_class_elem_props(
    nodes: Seq<NodeView>,
    entries: Seq<NodeIndex>,
    elem: Regex,
    target: NodeIndex,
)
    requires
        entries_ok(entries, nodes.len()),
        (target as nat) < nodes.len(),
    ensures
        ({
            let r = spec_compile_class_elem(nodes, entries, elem, target);
            &&& r.len() >= nodes.len()
            &&& (edges_ok(nodes) ==> edges_ok(r))
            &&& forall|i: int| 0 <= i < nodes.len() ==> r[i].end == nodes[i].end
        }),
    decreases elem, 2nat, 0nat,
{
    match elem {
        Regex::Char(c) => {
            lemma_add_edges_props(nodes, entries, TransitionType::Char(c), target);
        },
        Regex::Range(low, high) => {
            lemma_add_edges_props(nodes, entries, TransitionType::Range(low, high), target);
        },
        Regex::Primitive(p) => {
            lemma_add_edges_props(nodes, entries, TransitionType::Primitive(p), target);
        },
        _ => {
            let (nodes2, exits) = spec_compile(nodes, entries, elem);
            lemma_spec_compile_props(nodes, entries, elem);
            lemma_add_edges_props(nodes2, exits, TransitionType::Epsilon, target);
        },
    }
}

/// Pushing a fresh, transitionless node cannot introduce a dangling
/// transition.
proof fn lemma_push_fresh_edges_ok(nodes: Seq<NodeView>)
    requires
        edges_ok(nodes),
    ensures
        edges_ok(nodes.push(fresh_node())),
{
    let r = nodes.push(fresh_node());
    assert forall|i: int, j: int|
        0 <= i < r.len() && 0 <= j < r[i].transitions.len() implies (#[trigger] r[i]
        .transitions[j]).target_node < r.len() by {
        if i < nodes.len() {
            assert(r[i] == nodes[i]);
        } else {
            assert(r[i] == fresh_node());
        }
    }
}

/// [`lemma_spec_compile_props`] for the shared shape of the four
/// single-transition constructs.
proof fn lemma_spec_allocating_props(
    nodes: Seq<NodeView>,
    entries: Seq<NodeIndex>,
    condition: TransitionType,
)
    requires
        entries_ok(entries, nodes.len()),
    ensures
        ({
            let (nodes2, idx) = spec_allocating(nodes, entries, condition);
            &&& nodes2.len() == nodes.len() + 1
            &&& (idx as nat) < nodes2.len()
            &&& (edges_ok(nodes) ==> edges_ok(nodes2))
            &&& forall|i: int| 0 <= i < nodes.len() ==> nodes2[i].end == nodes[i].end
        }),
{
    let idx = nodes.len() as NodeIndex;
    let pushed = nodes.push(fresh_node());
    if edges_ok(nodes) {
        lemma_push_fresh_edges_ok(nodes);
    }
    assert(entries_ok(entries, pushed.len()));
    lemma_add_edges_props(pushed, entries, condition, idx);
}

/// Whether some element of `exits` is the index `i`.
pub open spec fn is_exit(exits: Seq<NodeIndex>, i: int) -> bool {
    exists|j: int| 0 <= j < exits.len() && exits[j] as int == i
}

/// What marking the exits accepting does, node by node: lengths and
/// transitions are untouched, and a node accepts afterwards exactly
/// when it already accepted or is one of the exits.
proof fn lemma_spec_mark_ends_props(nodes: Seq<NodeView>, exits: Seq<NodeIndex>)
    requires
        entries_ok(exits, nodes.len()),
    ensures
        spec_mark_ends(nodes, exits).len() == nodes.len(),
        forall|i: int|
            0 <= i < nodes.len() ==> spec_mark_ends(nodes, exits)[i].transitions == nodes[
                i
            ].transitions,
        forall|i: int| #![trigger spec_mark_ends(nodes, exits)[i]]
            0 <= i < nodes.len() ==> (spec_mark_ends(nodes, exits)[i].end <==> (nodes[i].end
                || is_exit(exits, i))),
    decreases exits.len(),
{
    if exits.len() > 0 {
        assert(entries_ok(exits.drop_last(), nodes.len()));
        lemma_spec_mark_ends_props(nodes, exits.drop_last());
    }
    assert forall|i: int| 0 <= i < nodes.len() implies (spec_mark_ends(nodes, exits)[i].end <==> (
    nodes[i].end || is_exit(exits, i))) by {
        if exits.len() == 0 {
            assert(!is_exit(exits, i));
        } else {
            let prev = spec_mark_ends(nodes, exits.drop_last());
            let r = spec_mark_end(prev, exits.last());
            assert(spec_mark_ends(nodes, exits) == r);
            if i == exits.last() as int {
                assert(r[i].end);
                assert(exits[exits.len() - 1] as int == i);
                assert(is_exit(exits, i));
            } else {
                assert(r[i] == prev[i]);
                assert(prev[i].end <==> (nodes[i].end || is_exit(exits.drop_last(), i)));
                if is_exit(exits.drop_last(), i) {
                    let w = choose|w: int|
                        0 <= w < exits.drop_last().len() && exits.drop_last()[w] as int == i;
                    assert(exits[w] as int == i);
                    assert(is_exit(exits, i));
                } else if is_exit(exits, i) {
                    let w = choose|w: int| 0 <= w < exits.len() && exits[w] as int == i;
                    assert(w < exits.len() - 1);
                    assert(exits.drop_last()[w] as int == i);
                    assert(is_exit(exits.drop_last(), i));
                }
            }
        }
    }
}

impl Compiler {
    /// Pushes a placeholder node into the arena and returns its index.
    fn reserve_node_slot(&mut self) -> (idx: NodeIndex)
        ensures
            final(self)@ == old(self)@.push(fresh_node()),
            idx as nat == old(self)@.len(),
    {
        self.nodes.push(Node { end: false, transitions: Vec::new() });
        proof {
            assert(final(self)@ =~= old(self)@.push(fresh_node()));
        }
        self.nodes.len() - 1
    }

    /// Appends one transition to an existing node; the fill half of
    /// reserve-then-fill.
    fn add_transition(&mut self, from: NodeIndex, t: Transition)
        requires
            (from as nat) < old(self)@.len(),
        ensures
            final(self)@ == spec_add_edge(old(self)@, from, t),
    {
        self.nodes[from].transitions.push(t);
        proof {
            assert(final(self)@ =~= spec_add_edge(old(self)@, from, t));
        }
    }

    /// Gives every node of `froms`, in order, one transition with this
    /// condition into `target`.
    fn add_edges(&mut self, froms: &Vec<NodeIndex>, condition: TransitionType, target: NodeIndex)
        requires
            entries_ok(froms@, old(self)@.len()),
        ensures
            final(self)@ == spec_add_edges(old(self)@, froms@, condition, target),
    {
        let mut i: usize = 0;
        while i < froms.len()
            invariant
                i <= froms@.len(),
                entries_ok(froms@, old(self)@.len()),
                self@.len() == old(self)@.len(),
                self@ == spec_add_edges(old(self)@, froms@.take(i as int), condition, target),
            decreases froms@.len() - i,
        {
            let from = froms[i];
            self.add_transition(from, Transition { target_node: target, condition });
            proof {
                assert(froms@.take(i + 1).drop_last() =~= froms@.take(i as int));
            }
            i = i + 1;
        }
        proof {
            assert(froms@.take(froms@.len() as int) =~= froms@);
        }
    }

    /// Reserves the node a consuming construct exits into and wires
    /// every entry node to it with the construct's one condition.
    fn allocating(&mut self, entries: &Vec<NodeIndex>, condition: TransitionType) -> (idx:
        NodeIndex)
        requires
            entries_ok(entries@, old(self)@.len()),
        ensures
            final(self)@ == spec_allocating(old(self)@, entries@, condition).0,
            idx == spec_allocating(old(self)@, entries@, condition).1,
    {
        let idx = self.reserve_node_slot();
        proof {
            assert(entries_ok(entries@, self@.len()));
        }
        self.add_edges(entries, condition, idx);
        idx
    }

    /// Makes an existing node accepting.
    fn mark_end(&mut self, idx: NodeIndex)
        requires
            (idx as nat) < old(self)@.len(),
        ensures
            final(self)@ == spec_mark_end(old(self)@, idx),
    {
        self.nodes[idx].end = true;
        proof {
            assert(final(self)@ =~= spec_mark_end(old(self)@, idx));
        }
    }

    /// Compiles one subtree: attaches its first transitions to the
    /// given entry nodes and returns its exit nodes, exactly as
    /// [`spec_compile`] describes.
    fn compile(&mut self, regex: &Regex, entries: &Vec<NodeIndex>) -> (exits: Vec<NodeIndex>)
        requires
            entries_ok(entries@, old(self)@.len()),
        ensures
            final(self)@ == spec_compile(old(self)@, entries@, *regex).0,
            exits@ == spec_compile(old(self)@, entries@, *regex).1,
        decreases *regex,
    {
        match regex {
            Regex::Char(c) => {
                let idx = self.allocating(entries, TransitionType::Char(*c));
                one_index(idx)
            },
            Regex::Primitive(p) => {
                let idx = self.allocating(entries, TransitionType::Primitive(*p));
                one_index(idx)
            },
            Regex::Range(low, high) => {
                let idx = self.allocating(entries, TransitionType::Range(*low, *high));
                one_index(idx)
            },
            Regex::Sequence(items) => {
                if items.len() == 0 {
                    let idx = self.allocating(entries, TransitionType::Epsilon);
                    one_index(idx)
                } else {
                    let mut cur = copy_indices(entries);
                    let mut k: usize = 0;
                    while k < items.len()
                        invariant
                            k <= items@.len(),
                            *regex == Regex::Sequence(*items),
                            entries_ok(cur@, self@.len()),
                            self@.len() >= old(self)@.len(),
                            spec_compile_items(self@, cur@, *regex, k as int) == spec_compile_items(
                                old(self)@,
                                entries@,
                                *regex,
                                0,
                            ),
                        decreases items@.len() - k,
                    {
                        let ghost prev = self@;
                        let ghost prev_cur = cur@;
                        let item_exits = self.compile(&items[k], &cur);
                        proof {
                            lemma_spec_compile_props(prev, prev_cur, items@[k as int]);
                        }
                        cur = item_exits;
                        k = k + 1;
                    }
                    cur
                }
            },
            Regex::Choice(left, right) => {
                let ghost n0 = self@;
                let mut exits = self.compile(left, entries);
                proof {
                    lemma_spec_compile_props(n0, entries@, **left);
                    assert(entries_ok(entries@, self@.len()));
                }
                let mut right_exits = self.compile(right, entries);
                exits.append(&mut right_exits);
                exits
            },
            Regex::Repetition(inner) => {
                let loop_idx = self.reserve_node_slot();
                let ghost na = self@;
                proof {
                    assert(entries_ok(entries@, self@.len()));
                }
                self.add_edges(entries, TransitionType::Epsilon, loop_idx);
                proof {
                    lemma_add_edges_props(na, entries@, TransitionType::Epsilon, loop_idx);
                }
                let entry_idx = self.reserve_node_slot();
                self.add_transition(
                    loop_idx,
                    Transition { target_node: entry_idx, condition: TransitionType::Epsilon },
                );
                let inner_entries = one_index(entry_idx);
                let ghost n2 = self@;
                proof {
                    assert(entries_ok(inner_entries@, self@.len()));
                }
                let inner_exits = self.compile(inner, &inner_entries);
                proof {
                    lemma_spec_compile_props(n2, inner_entries@, **inner);
                }
                let ghost n3 = self@;
                self.add_edges(&inner_exits, TransitionType::Epsilon, loop_idx);
                proof {
                    lemma_add_edges_props(n3, inner_exits@, TransitionType::Epsilon, loop_idx);
                }
                let skip_idx = self.reserve_node_slot();
                self.add_transition(
                    loop_idx,
                    Transition { target_node: skip_idx, condition: TransitionType::Epsilon },
                );
                one_index(skip_idx)
            },
            Regex::Class(elems) => {
                let target = self.reserve_node_slot();
                let ghost n1 = self@;
                let mut k: usize = 0;
                while k < elems.len()
                    invariant
                        k <= elems@.len(),
                        *regex == Regex::Class(*elems),
                        entries_ok(entries@, n1.len()),
                        self@.len() >= n1.len(),
                        (target as nat) < n1.len(),
                        spec_compile_class(self@, entries@, *regex, k as int, target)
                            == spec_compile_class(n1, entries@, *regex, 0, target),
                    decreases elems@.len() - k,
                {
                    let ghost prev = self@;
                    proof {
                        assert(entries_ok(entries@, self@.len()));
                    }
                    match &elems[k] {
                        Regex::Char(c) => {
                            self.add_edges(entries, TransitionType::Char(*c), target);
                        },
                        Regex::Range(low, high) => {
                            self.add_edges(entries, TransitionType::Range(*low, *high), target);
                        },
                        Regex::Primitive(p) => {
                            self.add_edges(entries, TransitionType::Primitive(*p), target);
                        },
                        branch => {
                            let branch_exits = self.compile(branch, entries);
                            proof {
                                lemma_spec_compile_props(prev, entries@, elems@[k as int]);
                            }
                            self.add_edges(&branch_exits, TransitionType::Epsilon, target);
                        },
                    }
                    proof {
                        assert(self@ == spec_compile_class_elem(
                            prev,
                            entries@,
                            elems@[k as int],
                            target,
                        ));
                        lemma_spec_compile_class_elem_props(
                            prev,
                            entries@,
                            elems@[k as int],
                            target,
                        );
                    }
                    k = k + 1;
                }
                one_index(target)
            },
        }
    }
}

/// A one-element exit list.
fn one_index(idx: NodeIndex) -> (r: Vec<NodeIndex>)
    ensures
        r@ == seq![idx],
{
    let mut r: Vec<NodeIndex> = Vec::new();
    r.push(idx);
    proof {
        assert(r@ =~= seq![idx]);
    }
    r
}

/// A fresh copy of an index list, so a loop can thread it.
fn copy_indices(v: &Vec<NodeIndex>) -> (r: Vec<NodeIndex>)
    ensures
        r@ == v@,
{
    let mut r: Vec<NodeIndex> = Vec::new();
    let mut i: usize = 0;
    while i < v.len()
        invariant
            i <= v@.len(),
            r@ == v@.take(i as int),
        decreases v@.len() - i,
    {
        r.push(v[i]);
        proof {
            assert(v@.take(i + 1) =~= v@.take(i as int).push(v@[i as int]));
        }
        i = i + 1;
    }
    proof {
        assert(v@.take(v@.len() as int) =~= v@);
    }
    r
}

/// Compiles the parsed [`Regex`] into a FSM.
///
/// The result is exactly the machine [`spec_compile_fsm`] describes —
/// in particular node `0` is the start state, no transition targets an
/// index outside the arena, and at least one node accepts.
pub fn compile(regex: &Regex) -> (fsm: RegexFsm)
    ensures
        fsm@ == spec_compile_fsm(*regex),
        fsm@.len() >= 1,
        edges_ok(fsm@),
        exists|i: int| 0 <= i < fsm@.len() && fsm@[i].end,
{
    let mut compiler = Compiler { nodes: Vec::new() };
    proof {
        assert(compiler@ =~= Seq::<NodeView>::empty());
    }

    // reserve the start node
    let start = compiler.reserve_node_slot();
    proof {
        assert(compiler@ =~= seq![fresh_node()]);
    }

    let entries = one_index(start);
    let ghost n0 = compiler@;
    let exits = compiler.compile(regex, &entries);
    proof {
        assert(entries@ =~= seq![0 as NodeIndex]);
        lemma_spec_compile_props(n0, entries@, *regex);
        assert(edges_ok(n0)) by {
            assert(n0[0].transitions.len() == 0);
        }
    }

    let ghost marked_base = compiler@;
    proof {
        lemma_spec_mark_ends_props(marked_base, exits@);
    }
    let mut k: usize = 0;
    while k < exits.len()
        invariant
            k <= exits@.len(),
            entries_ok(exits@, marked_base.len()),
            compiler@.len() == marked_base.len(),
            compiler@ == spec_mark_ends(marked_base, exits@.take(k as int)),
        decreases exits@.len() - k,
    {
        proof {
            assert(entries_ok(exits@.take(k as int), marked_base.len()));
            lemma_spec_mark_ends_props(marked_base, exits@.take(k as int));
        }
        compiler.mark_end(exits[k]);
        proof {
            assert(exits@.take(k + 1).drop_last() =~= exits@.take(k as int));
        }
        k = k + 1;
    }
    proof {
        assert(exits@.take(exits@.len() as int) =~= exits@);
        assert(compiler@ == spec_compile_fsm(*regex));
        assert(is_exit(exits@, exits@[0] as int));
        assert(compiler@[exits@[0] as int].end);
    }

    RegexFsm { nodes: compiler.nodes }
}

/// `bigger` keeps every node of `smaller` with its transitions intact:
/// later construction steps only append transitions and push nodes.
pub open spec fn arena_extends(smaller: Seq<NodeView>, bigger: Seq<NodeView>) -> bool {
    &&& smaller.len() <= bigger.len()
    &&& forall|i: int|
        0 <= i < smaller.len() ==> (#[trigger] bigger[i]).transitions.len() >= smaller[
            i
        ].transitions.len()
    &&& forall|i: int, j: int|
        0 <= i < smaller.len() && 0 <= j < smaller[i].transitions.len() ==> (#[trigger] bigger[
            i
        ].transitions[j]) == smaller[i].transitions[j]
}

/// Some transition of node `a` targets node `b`.
pub open spec fn has_edge(nodes: Seq<NodeView>, a: int, b: int) -> bool {
    exists|j: int|
        0 <= j < nodes[a].transitions.len() && (#[trigger] nodes[a].transitions[j]).target_node
            as int == b
}

/// `b` can be reached from `a` in at most `k` transition steps.
pub open spec fn reaches_in(nodes: Seq<NodeView>, a: int, b: int, k: nat) -> bool
    decreases k,
{
    if a == b {
        true
    } else if k == 0 {
        false
    } else {
        exists|m: int|
            0 <= m < nodes.len() && has_edge(nodes, a, m) && reaches_in(
                nodes,
                m,
                b,
                (k - 1) as nat,
            )
    }
}

/// `b` can be reached from `a` along the machine's transitions.
pub open spec fn reaches(nodes: Seq<NodeView>, a: int, b: int) -> bool {
    exists|k: nat| reaches_in(nodes, a, b, k)
}

/// Whether the compiled fragment of `re` always wires a path from its
/// entry nodes to its exit nodes. Only an empty character class —
/// which matches nothing — lacks one, so this holds of every pattern
/// whose language is nonempty.
pub open spec fn connects(re: Regex) -> bool
    decreases re,
{
    match re {
        Regex::Char(_) => true,
        Regex::Primitive(_) => true,
        Regex::Range(_, _) => true,
        Regex::Repetition(_) => true,
        Regex::Sequence(items) => forall|k: int|
            0 <= k < items@.len() ==> connects(#[trigger] items@[k]),
        Regex::Choice(left, right) => connects(*left) && connects(*right),
        Regex::Class(elems) => exists|k: int| 0 <= k < elems@.len() && connects(#[trigger] elems@[k]),
    }
}

proof fn lemma_extends_trans(n1: Seq<NodeView>, n2: Seq<NodeView>, n3: Seq<NodeView>)
    requires
        arena_extends(n1, n2),
        arena_extends(n2, n3),
    ensures
        arena_extends(n1, n3),
{
}

/// A step-bounded path survives any later construction step.
proof fn lemma_reaches_in_extends(
    n1: Seq<NodeView>,
    n2: Seq<NodeView>,
    a: int,
    b: int,
    k: nat,
)
    requires
        arena_extends(n1, n2),
        0 <= a < n1.len(),
        reaches_in(n1, a, b, k),
    ensures
        reaches_in(n2, a, b, k),
    decreases k,
{
    if a != b && k > 0 {
        let m = choose|m: int|
            0 <= m < n1.len() && has_edge(n1, a, m) && reaches_in(n1, m, b, (k - 1) as nat);
        assert(has_edge(n2, a, m)) by {
            let j = choose|j: int|
                0 <= j < n1[a].transitions.len() && (#[trigger] n1[a].transitions[j]).target_node
                    as int == m;
            assert(n2[a].transitions[j] == n1[a].transitions[j]);
        }
        lemma_reaches_in_extends(n1, n2, m, b, (k - 1) as nat);
    }
}

/// A path of at most `k` steps is one of at most `k2 >= k` steps.
proof fn lemma_reaches_in_widen(nodes: Seq<NodeView>, a: int, b: int, k: nat, k2: nat)
    requires
        reaches_in(nodes, a, b, k),
        k <= k2,
    ensures
        reaches_in(nodes, a, b, k2),
    decreases k,
{
    if a != b && k > 0 {
        let m = choose|m: int|
            0 <= m < nodes.len() && has_edge(nodes, a, m) && reaches_in(nodes, m, b, (k - 1) as nat);
        lemma_reaches_in_widen(nodes, m, b, (k - 1) as nat, (k2 - 1) as nat);
        assert(0 <= m < nodes.len() && has_edge(nodes, a, m) && reaches_in(
            nodes,
            m,
            b,
            (k2 - 1) as nat,
        ));
    }
}

/// Paths compose.
proof fn lemma_reaches_trans(nodes: Seq<NodeView>, a: int, b: int, c: int, k1: nat, k2: nat)
    requires
        reaches_in(nodes, a, b, k1),
        reaches_in(nodes, b, c, k2),
    ensures
        reaches_in(nodes, a, c, k1 + k2),
    decreases k1,
{
    if a == b {
        lemma_reaches_in_widen(nodes, b, c, k2, k1 + k2);
    } else {
        let m = choose|m: int|
            0 <= m < nodes.len() && has_edge(nodes, a, m) && reaches_in(
                nodes,
                m,
                b,
                (k1 - 1) as nat,
            );
        lemma_reaches_trans(nodes, m, b, c, (k1 - 1) as nat, k2);
        assert(0 <= m < nodes.len() && has_edge(nodes, a, m) && reaches_in(
            nodes,
            m,
            c,
            ((k1 + k2) - 1) as nat,
        ));
    }
}

/// The elements of a class tree; empty for any other tree.
pub open spec fn class_items(re: Regex) -> Seq<Regex> {
    match re {
        Regex::Class(elems) => elems@,
        _ => Seq::empty(),
    }
}

proof fn lemma_reaches_extends(n1: Seq<NodeView>, n2: Seq<NodeView>, a: int, b: int)
    requires
        arena_extends(n1, n2),
        0 <= a < n1.len(),
        reaches(n1, a, b),
    ensures
        reaches(n2, a, b),
{
    let k = choose|k: nat| reaches_in(n1, a, b, k);
    lemma_reaches_in_extends(n1, n2, a, b, k);
}

proof fn lemma_reaches_compose(nodes: Seq<NodeView>, a: int, b: int, c: int)
    requires
        reaches(nodes, a, b),
        reaches(nodes, b, c),
    ensures
        reaches(nodes, a, c),
{
    let k1 = choose|k: nat| reaches_in(nodes, a, b, k);
    let k2 = choose|k: nat| reaches_in(nodes, b, c, k);
    lemma_reaches_trans(nodes, a, b, c, k1, k2);
}

proof fn lemma_reaches_step(nodes: Seq<NodeView>, a: int, b: int)
    requires
        0 <= b < nodes.len(),
        has_edge(nodes, a, b),
    ensures
        reaches(nodes, a, b),
{
    assert(reaches_in(nodes, b, b, 0));
    assert(reaches_in(nodes, a, b, 1));
}

proof fn lemma_push_extends(nodes: Seq<NodeView>)
    ensures
        arena_extends(nodes, nodes.push(fresh_node())),
{
}

/// The four single-transition constructs wire every entry to the
/// fresh node.
proof fn lemma_spec_allocating_reaches(
    nodes: Seq<NodeView>,
    entries: Seq<NodeIndex>,
    condition: TransitionType,
)
    requires
        entries_ok(entries, nodes.len()),
    ensures
        ({
            let (nodes2, idx) = spec_allocating(nodes, entries, condition);
            &&& arena_extends(nodes, nodes2)
            &&& forall|e: int|
                0 <= e < entries.len() ==> reaches(nodes2, #[trigger] entries[e] as int, idx as int)
        }),
{
    let idx = nodes.len() as NodeIndex;
    let pushed = nodes.push(fresh_node());
    lemma_push_extends(nodes);
    assert(entries_ok(entries, pushed.len()));
    lemma_add_edges_props(pushed, entries, condition, idx);
    let r = spec_add_edges(pushed, entries, condition, idx);
    lemma_extends_trans(nodes, pushed, r);
    assert forall|e: int| 0 <= e < entries.len() implies reaches(
        r,
        #[trigger] entries[e] as int,
        idx as int,
    ) by {
        assert(has_edge(r, entries[e] as int, idx as int));
        lemma_reaches_step(r, entries[e] as int, idx as int);
    }
}

/// Wherever the tree [`connects`], compiling it wires a path from
/// every entry node to every exit node; and every compiling step only
/// extends the arena, so earlier paths survive.
proof fn lemma_spec_compile_reaches(nodes: Seq<NodeView>, entries: Seq<NodeIndex>, re: Regex)
    requires
        entries_ok(entries, nodes.len()),
    ensures
        ({
            let (nodes2, exits) = spec_compile(nodes, entries, re);
            &&& arena_extends(nodes, nodes2)
            &&& (connects(re) ==> forall|x: int, e: int|
                0 <= x < exits.len() && 0 <= e < entries.len() ==> reaches(
                    nodes2,
                    #[trigger] entries[e] as int,
                    #[trigger] exits[x] as int,
                ))
        }),
    decreases re, 1nat, 0nat,
{
    let (nodes2, exits) = spec_compile(nodes, entries, re);
    lemma_spec_compile_props(nodes, entries, re);
    match re {
        Regex::Char(c) => {
            lemma_spec_allocating_reaches(nodes, entries, TransitionType::Char(c));
        },
        Regex::Primitive(p) => {
            lemma_spec_allocating_reaches(nodes, entries, TransitionType::Primitive(p));
        },
        Regex::Range(low, high) => {
            lemma_spec_allocating_reaches(nodes, entries, TransitionType::Range(low, high));
        },
        Regex::Sequence(items) => {
            if items@.len() == 0 {
                lemma_spec_allocating_reaches(nodes, entries, TransitionType::Epsilon);
            } else {
                lemma_spec_compile_items_reaches(nodes, entries, re, 0);
            }
        },
        Regex::Choice(left, right) => {
            let (nodes1, exits1) = spec_compile(nodes, entries, *left);
            lemma_spec_compile_reaches(nodes, entries, *left);
            lemma_spec_compile_props(nodes, entries, *left);
            assert(entries_ok(entries, nodes1.len()));
            lemma_spec_compile_reaches(nodes1, entries, *right);
            let (nodesr, exits2) = spec_compile(nodes1, entries, *right);
            lemma_extends_trans(nodes, nodes1, nodesr);
            if connects(re) {
                assert forall|x: int, e: int|
                    0 <= x < exits.len() && 0 <= e < entries.len() implies reaches(
                    nodes2,
                    #[trigger] entries[e] as int,
                    #[trigger] exits[x] as int,
                ) by {
                    if x < exits1.len() {
                        assert(exits[x] == exits1[x]);
                        lemma_reaches_extends(
                            nodes1,
                            nodesr,
                            entries[e] as int,
                            exits1[x] as int,
                        );
                    } else {
                        assert(exits[x] == exits2[x - exits1.len()]);
                    }
                }
            }
        },
        Regex::Repetition(inner) => {
            let loop_idx = nodes.len() as NodeIndex;
            let pushed1 = nodes.push(fresh_node());
            lemma_push_extends(nodes);
            let nodes1 = spec_add_edges(pushed1, entries, TransitionType::Epsilon, loop_idx);
            lemma_add_edges_props(pushed1, entries, TransitionType::Epsilon, loop_idx);
            let entry_idx = nodes1.len() as NodeIndex;
            let pushed2 = nodes1.push(fresh_node());
            lemma_push_extends(nodes1);
            let t1 = Transition { target_node: entry_idx, condition: TransitionType::Epsilon };
            let nodes2x = spec_add_edge(pushed2, loop_idx, t1);
            lemma_add_edge_props(pushed2, loop_idx, t1);
            let (nodes3, inner_exits) = spec_compile(nodes2x, seq![entry_idx], *inner);
            lemma_spec_compile_reaches(nodes2x, seq![entry_idx], *inner);
            lemma_spec_compile_props(nodes2x, seq![entry_idx], *inner);
            let nodes4 = spec_add_edges(nodes3, inner_exits, TransitionType::Epsilon, loop_idx);
            lemma_add_edges_props(nodes3, inner_exits, TransitionType::Epsilon, loop_idx);
            let skip_idx = nodes4.len() as NodeIndex;
            let pushed3 = nodes4.push(fresh_node());
            lemma_push_extends(nodes4);
            let t2 = Transition { target_node: skip_idx, condition: TransitionType::Epsilon };
            lemma_add_edge_props(pushed3, loop_idx, t2);
            let nodes5 = spec_add_edge(pushed3, loop_idx, t2);
            lemma_extends_trans(nodes, pushed1, nodes1);
            lemma_extends_trans(nodes1, pushed2, nodes2x);
            lemma_extends_trans(nodes, nodes1, nodes2x);
            lemma_extends_trans(nodes2x, nodes3, nodes4);
            lemma_extends_trans(nodes4, pushed3, nodes5);
            lemma_extends_trans(nodes2x, nodes4, nodes5);
            lemma_extends_trans(nodes, nodes2x, nodes5);
            assert forall|x: int, e: int|
                0 <= x < exits.len() && 0 <= e < entries.len() implies reaches(
                nodes2,
                #[trigger] entries[e] as int,
                #[trigger] exits[x] as int,
            ) by {
                assert(exits[x] == skip_idx);
                assert(has_edge(nodes1, entries[e] as int, loop_idx as int));
                lemma_has_edge_extends(
                    nodes1,
                    nodes2x,
                    entries[e] as int,
                    loop_idx as int,
                );
                lemma_has_edge_extends(
                    nodes2x,
                    nodes5,
                    entries[e] as int,
                    loop_idx as int,
                );
                assert(has_edge(nodes5, loop_idx as int, skip_idx as int));
                lemma_reaches_step(nodes5, loop_idx as int, skip_idx as int);
                lemma_reaches_step(nodes5, entries[e] as int, loop_idx as int);
                lemma_reaches_compose(
                    nodes5,
                    entries[e] as int,
                    loop_idx as int,
                    skip_idx as int,
                );
            }
        },
        Regex::Class(elems) => {
            let target = nodes.len() as NodeIndex;
            let pushed = nodes.push(fresh_node());
            lemma_push_extends(nodes);
            assert(entries_ok(entries, pushed.len()));
            lemma_spec_compile_class_reaches(pushed, entries, re, 0, target);
            let r = spec_compile_class(pushed, entries, re, 0, target);
            lemma_extends_trans(nodes, pushed, r);
            if connects(re) {
                let kk = choose|kk: int| 0 <= kk < elems@.len() && connects(#[trigger] elems@[kk]);
                assert(class_items(re) == elems@);
                assert(0 <= kk < class_items(re).len() && connects(
                    #[trigger] class_items(re)[kk],
                ));
                assert forall|x: int, e: int|
                    0 <= x < exits.len() && 0 <= e < entries.len() implies reaches(
                    nodes2,
                    #[trigger] entries[e] as int,
                    #[trigger] exits[x] as int,
                ) by {
                    assert(exits[x] == target);
                }
            }
        },
    }
}

/// [`lemma_spec_compile_reaches`] for the threading of a sequence.
proof fn lemma_spec_compile_items_reaches(
    nodes: Seq<NodeView>,
    entries: Seq<NodeIndex>,
    re: Regex,
    k: int,
)
    requires
        entries_ok(entries, nodes.len()),
    ensures
        ({
            let (nodes2, exits) = spec_compile_items(nodes, entries, re, k);
            &&& arena_extends(nodes, nodes2)
            &&& (connects(re) && re is Sequence && 0 <= k < child_count(re) ==> forall|
                x: int,
                e: int,
            |
                0 <= x < exits.len() && 0 <= e < entries.len() ==> reaches(
                    nodes2,
                    #[trigger] entries[e] as int,
                    #[trigger] exits[x] as int,
                ))
        }),
    decreases re, 0nat, child_count(re) - k,
{
    let (nodes2, exits) = spec_compile_items(nodes, entries, re, k);
    match re {
        Regex::Sequence(items) => {
            if 0 <= k < items@.len() {
                let (nodesk, exitsk) = spec_compile(nodes, entries, items@[k]);
                lemma_spec_compile_reaches(nodes, entries, items@[k]);
                lemma_spec_compile_props(nodes, entries, items@[k]);
                lemma_spec_compile_items_reaches(nodesk, exitsk, re, k + 1);
                lemma_spec_compile_items_props(nodesk, exitsk, re, k + 1);
                lemma_extends_trans(nodes, nodesk, nodes2);
                if connects(re) {
                    assert(connects(items@[k]));
                    assert forall|x: int, e: int|
                        0 <= x < exits.len() && 0 <= e < entries.len() implies reaches(
                        nodes2,
                        #[trigger] entries[e] as int,
                        #[trigger] exits[x] as int,
                    ) by {
                        if k + 1 < items@.len() {
                            // every entry reaches every stage exit, and every
                            // stage exit reaches every final exit
                            assert(exitsk.len() >= 1);
                            assert(reaches(nodesk, entries[e] as int, exitsk[0] as int));
                            lemma_reaches_extends(
                                nodesk,
                                nodes2,
                                entries[e] as int,
                                exitsk[0] as int,
                            );
                            assert(reaches(nodes2, exitsk[0] as int, exits[x] as int));
                            lemma_reaches_compose(
                                nodes2,
                                entries[e] as int,
                                exitsk[0] as int,
                                exits[x] as int,
                            );
                        } else {
                            // the walk is over: the final exits are this item's
                            assert(exits == exitsk);
                            lemma_reaches_extends(
                                nodesk,
                                nodes2,
                                entries[e] as int,
                                exits[x] as int,
                            );
                        }
                    }
                }
            }
        },
        _ => {},
    }
}

/// [`lemma_spec_compile_reaches`] for a class walk: one connecting
/// element at or after `k` wires every entry to the class node.
proof fn lemma_spec_compile_class_reaches(
    nodes: Seq<NodeView>,
    entries: Seq<NodeIndex>,
    re: Regex,
    k: int,
    target: NodeIndex,
)
    requires
        0 <= k,
        entries_ok(entries, nodes.len()),
        (target as nat) < nodes.len(),
    ensures
        ({
            let r = spec_compile_class(nodes, entries, re, k, target);
            &&& arena_extends(nodes, r)
            &&& ((exists|kk: int|
                k <= kk < class_items(re).len() && connects(#[trigger] class_items(re)[kk]))
                ==> forall|e: int|
                0 <= e < entries.len() ==> reaches(r, #[trigger] entries[e] as int, target as int))
        }),
    decreases re, 0nat, child_count(re) - k,
{
    let r = spec_compile_class(nodes, entries, re, k, target);
    match re {
        Regex::Class(elems) => {
            if 0 <= k < elems@.len() {
                let nodesk = spec_compile_class_elem(nodes, entries, elems@[k], target);
                lemma_spec_compile_class_elem_reaches(nodes, entries, elems@[k], target);
                lemma_spec_compile_class_elem_props(nodes, entries, elems@[k], target);
                assert(entries_ok(entries, nodesk.len()));
                lemma_spec_compile_class_reaches(nodesk, entries, re, k + 1, target);
                lemma_extends_trans(nodes, nodesk, r);
                if exists|kk: int|
                    k <= kk < class_items(re).len() && connects(#[trigger] class_items(re)[kk]) {
                    let kk = choose|kk: int|
                        k <= kk < class_items(re).len() && connects(
                            #[trigger] class_items(re)[kk],
                        );
                    assert forall|e: int| 0 <= e < entries.len() implies reaches(
                        r,
                        #[trigger] entries[e] as int,
                        target as int,
                    ) by {
                        if kk == k {
                            assert(reaches(nodesk, entries[e] as int, target as int));
                            lemma_reaches_extends(
                                nodesk,
                                r,
                                entries[e] as int,
                                target as int,
                            );
                        } else {
                            assert(k + 1 <= kk < class_items(re).len() && connects(
                                class_items(re)[kk],
                            ));
                        }
                    }
                }
            }
        },
        _ => {},
    }
}

/// [`lemma_spec_compile_reaches`] for one class element.
proof fn lemma_spec_compile_class_elem_reaches(
    nodes: Seq<NodeView>,
    entries: Seq<NodeIndex>,
    elem: Regex,
    target: NodeIndex,
)
    requires
        entries_ok(entries, nodes.len()),
        (target as nat) < nodes.len(),
    ensures
        ({
            let r = spec_compile_class_elem(nodes, entries, elem, target);
            &&& arena_extends(nodes, r)
            &&& (connects(elem) ==> forall|e: int|
                0 <= e < entries.len() ==> reaches(r, #[trigger] entries[e] as int, target as int))
        }),
    decreases elem, 2nat, 0nat,
{
    let r = spec_compile_class_elem(nodes, entries, elem, target);
    match elem {
        Regex::Char(c) => {
            lemma_add_edges_props(nodes, entries, TransitionType::Char(c), target);
            assert forall|e: int| 0 <= e < entries.len() implies reaches(
                r,
                #[trigger] entries[e] as int,
                target as int,
            ) by {
                lemma_reaches_step(r, entries[e] as int, target as int);
            }
        },
        Regex::Range(low, high) => {
            lemma_add_edges_props(nodes, entries, TransitionType::Range(low, high), target);
            assert forall|e: int| 0 <= e < entries.len() implies reaches(
                r,
                #[trigger] entries[e] as int,
                target as int,
            ) by {
                lemma_reaches_step(r, entries[e] as int, target as int);
            }
        },
        Regex::Primitive(p) => {
            lemma_add_edges_props(nodes, entries, TransitionType::Primitive(p), target);
            assert forall|e: int| 0 <= e < entries.len() implies reaches(
                r,
                #[trigger] entries[e] as int,
                target as int,
            ) by {
                lemma_reaches_step(r, entries[e] as int, target as int);
            }
        },
        _ => {
            let (nodes2, exits) = spec_compile(nodes, entries, elem);
            lemma_spec_compile_reaches(nodes, entries, elem);
            lemma_spec_compile_props(nodes, entries, elem);
            lemma_add_edges_props(nodes2, exits, TransitionType::Epsilon, target);
            lemma_extends_trans(nodes, nodes2, r);
            if connects(elem) {
                assert forall|e: int| 0 <= e < entries.len() implies reaches(
                    r,
                    #[trigger] entries[e] as int,
                    target as int,
                ) by {
                    assert(exits.len() >= 1);
                    assert(reaches(nodes2, entries[e] as int, exits[0] as int));
                    lemma_reaches_extends(nodes2, r, entries[e] as int, exits[0] as int);
                    assert(has_edge(r, exits[0] as int, target as int));
                    lemma_reaches_step(r, exits[0] as int, target as int);
                    lemma_reaches_compose(
                        r,
                        entries[e] as int,
                        exits[0] as int,
                        target as int,
                    );
                }
            }
        },
    }
}

/// Law: a compiled machine never dangles. Whatever the tree — well
/// beyond what the parser can produce — every transition of
/// [`spec_compile_fsm`] targets a node inside the arena, the arena is
/// never empty, and at least one node accepts.
pub proof fn lemma_compile_in_bounds(re: Regex)
    ensures
        spec_compile_fsm(re).len() >= 1,
        edges_ok(spec_compile_fsm(re)),
        exists|i: int| 0 <= i < spec_compile_fsm(re).len() && spec_compile_fsm(re)[i].end,
{
    let start: Seq<NodeView> = seq![fresh_node()];
    let (nodes, exits) = spec_compile(start, seq![0 as NodeIndex], re);
    assert(entries_ok(seq![0 as NodeIndex], start.len()));
    lemma_spec_compile_props(start, seq![0 as NodeIndex], re);
    assert(edges_ok(start)) by {
        assert(start[0].transitions.len() == 0);
    }
    lemma_spec_mark_ends_props(nodes, exits);
    let marked = spec_mark_ends(nodes, exits);
    assert forall|i: int, j: int|
        0 <= i < marked.len() && 0 <= j < marked[i].transitions.len() implies (#[trigger] marked[i]
        .transitions[j]).target_node < marked.len() by {
        assert(marked[i].transitions == nodes[i].transitions);
    }
    assert(is_exit(exits, exits[0] as int));
    assert(marked[exits[0] as int].end);
    assert(spec_compile_fsm(re) == marked);
    assert(0 <= (exits[0] as int) && (exits[0] as int) < spec_compile_fsm(re).len());
    assert(spec_compile_fsm(re)[exits[0] as int].end);
}

/// Law: for every pattern that can match at all — every tree whose
/// [`connects`] holds, which excludes only the empty character class,
/// the one construct that matches nothing — the compiled machine has
/// an accepting node reachable from the start node along its
/// transitions.
pub proof fn lemma_accept_reachable(re: Regex)
    requires
        connects(re),
    ensures
        exists|i: int|
            0 <= i < spec_compile_fsm(re).len() && spec_compile_fsm(re)[i].end && reaches(
                spec_compile_fsm(re),
                0,
                i,
            ),
{
    let start: Seq<NodeView> = seq![fresh_node()];
    let entries: Seq<NodeIndex> = seq![0 as NodeIndex];
    assert(entries_ok(entries, start.len()));
    let (nodes, exits) = spec_compile(start, entries, re);
    lemma_spec_compile_props(start, entries, re);
    lemma_spec_compile_reaches(start, entries, re);
    lemma_spec_mark_ends_props(nodes, exits);
    let marked = spec_mark_ends(nodes, exits);
    let accept = exits[0] as int;
    assert(reaches(nodes, entries[0] as int, accept));

    // marking accept flags changes no transitions, so the path survives
    assert(arena_extends(nodes, marked)) by {
        assert forall|i: int| 0 <= i < nodes.len() implies (#[trigger] marked[i]).transitions.len()
            >= nodes[i].transitions.len() by {
            assert(marked[i].transitions == nodes[i].transitions);
        }
        assert forall|i: int, j: int|
            0 <= i < nodes.len() && 0 <= j < nodes[i].transitions.len() implies (#[trigger] marked[
            i
        ].transitions[j]) == nodes[i].transitions[j] by {
            assert(marked[i].transitions == nodes[i].transitions);
        }
    }
    lemma_reaches_extends(nodes, marked, 0, accept);
    assert(is_exit(exits, accept));
    assert(spec_compile_fsm(re) == marked);
    assert(0 <= accept < spec_compile_fsm(re).len() && spec_compile_fsm(re)[accept].end && reaches(
        spec_compile_fsm(re),
        0,
        accept,
    ));
}

/// Law: compiling the same tree twice yields structurally identical
/// machines. The machine is a function of the tree alone — node
/// numbering and transition order come from no hidden state — and
/// [`compile`] returns exactly [`spec_compile_fsm`] of its input.
pub proof fn lemma_compile_deterministic(a: Regex, b: Regex)
    requires
        a == b,
    ensures
        spec_compile_fsm(a) == spec_compile_fsm(b),
{
}

} // verus!
