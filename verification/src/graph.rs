//! Directed graphs over dense node indices, and what it means for a sequence
//! of nodes to be a walk or an elementary cycle.

use crate::components::{are_strongly_connected_components, component_order, tarjan_components};
use vstd::prelude::*;

verus! {

/// The lists held by a vector of vectors.
pub open spec fn lists<T>(rows: Vec<Vec<T>>) -> Seq<Seq<T>> {
    rows@.map_values(|row: Vec<T>| row@)
}

/// Every listed successor is itself a node.
pub open spec fn well_formed(adj: Seq<Seq<usize>>) -> bool {
    forall|a: int, k: int|
        0 <= a < adj.len() && 0 <= k < adj[a].len() ==> (#[trigger] adj[a][k]) < adj.len()
}

/// There is an edge from `a` to `b`.
pub open spec fn has_edge(adj: Seq<Seq<usize>>, a: usize, b: usize) -> bool {
    a < adj.len() && adj[a as int].contains(b)
}

/// The position that follows `i` on a closed sequence of `len` positions.
pub open spec fn next_position(len: int, i: int) -> int {
    if i + 1 == len {
        0
    } else {
        i + 1
    }
}

/// `walk` is a non-empty sequence of nodes in which each node has an edge to
/// the one that follows it.
pub open spec fn is_walk(adj: Seq<Seq<usize>>, walk: Seq<usize>) -> bool {
    &&& walk.len() > 0
    &&& forall|i: int| 0 <= i < walk.len() ==> (#[trigger] walk[i]) < adj.len()
    &&& forall|i: int|
        0 <= i < walk.len() - 1 ==> #[trigger] has_edge(
            adj,
            walk[i],
            walk[next_position(walk.len() as int, i)],
        )
}

/// Some walk leads from `a` to `b`. Every node reaches itself.
pub open spec fn reaches(adj: Seq<Seq<usize>>, a: usize, b: usize) -> bool {
    exists|walk: Seq<usize>| #[trigger] is_walk(adj, walk) && walk.first() == a && walk.last() == b
}

/// `cycle` is an elementary cycle: its nodes are pairwise distinct, each has
/// an edge to the next, and the last has an edge back to the first.
pub open spec fn is_elementary_cycle(adj: Seq<Seq<usize>>, cycle: Seq<usize>) -> bool {
    &&& cycle.len() > 0
    &&& cycle.no_duplicates()
    &&& forall|i: int|
        0 <= i < cycle.len() ==> #[trigger] has_edge(
            adj,
            cycle[i],
            cycle[next_position(cycle.len() as int, i)],
        )
}

/// `a` read cyclically from position `shift` on.
pub open spec fn rotated<T>(a: Seq<T>, shift: int) -> Seq<T> {
    a.skip(shift) + a.take(shift)
}

/// `b` lists the nodes of `a` in the same cyclic order, from another start.
pub open spec fn is_rotation<T>(a: Seq<T>, b: Seq<T>) -> bool {
    exists|shift: int| 0 <= shift < a.len() && b == #[trigger] rotated(a, shift)
}

/// Some entry of `seen` is `cycle`, read from one of its nodes on.
pub open spec fn lists_rotation<T>(seen: Seq<Seq<T>>, cycle: Seq<T>) -> bool {
    exists|i: int| 0 <= i < seen.len() && is_rotation(cycle, #[trigger] seen[i])
}

/// No entry of `seen` is another one read from one of its nodes on.
pub open spec fn no_rotations<T>(seen: Seq<Seq<T>>) -> bool {
    forall|i: int, j: int|
        0 <= i < seen.len() && 0 <= j < seen.len() && i != j ==> !is_rotation(
            #[trigger] seen[i],
            #[trigger] seen[j],
        )
}

/// No edge occurs twice.
pub open spec fn no_parallel_edges(adj: Seq<Seq<usize>>) -> bool {
    forall|a: int| 0 <= a < adj.len() ==> (#[trigger] adj[a]).no_duplicates()
}

/// The graph holds at least one elementary cycle.
pub open spec fn has_cycle(adj: Seq<Seq<usize>>) -> bool {
    exists|cycle: Seq<usize>| #[trigger] is_elementary_cycle(adj, cycle)
}

/// A directed graph whose nodes are the indices `0..node_count()`. Each node
/// keeps the list of its successors in the order the edges were added; the
/// same edge may be added more than once, and a node may have an edge to
/// itself.
pub struct DiGraph {
    successors: Vec<Vec<usize>>,
}

impl View for DiGraph {
    type V = Seq<Seq<usize>>;

    /// The successor list of each node.
    closed spec fn view(&self) -> Seq<Seq<usize>> {
        lists(self.successors)
    }
}

impl DiGraph {
    #[verifier::type_invariant]
    pub closed spec fn valid(self) -> bool {
        well_formed(lists(self.successors))
    }

    /// A graph of `node_count` nodes and no edges.
    pub fn new(node_count: usize) -> (graph: DiGraph)
        ensures
            graph@.len() == node_count,
            forall|a: int| 0 <= a < node_count ==> (#[trigger] graph@[a]).len() == 0,
            well_formed(graph@),
    {
        let mut successors: Vec<Vec<usize>> = Vec::new();
        let mut a: usize = 0;
        while a < node_count
            invariant
                a <= node_count,
                successors.len() == a,
                forall|i: int| 0 <= i < a ==> (#[trigger] successors[i]).len() == 0,
            decreases node_count - a,
        {
            successors.push(Vec::new());
            a += 1;
        }
        DiGraph { successors }
    }

    /// The number of nodes.
    pub fn node_count(&self) -> (count: usize)
        ensures
            count == self@.len(),
            well_formed(self@),
    {
        proof {
            use_type_invariant(self);
        }
        self.successors.len()
    }

    /// Adds an edge from `from` to `to`, after the edges that `from` already
    /// has. A graph that lacks one of the two nodes is left as it is, and the
    /// answer is `false`.
    pub fn add_edge(&mut self, from: usize, to: usize) -> (added: bool)
        ensures
            added <==> from < old(self)@.len() && to < old(self)@.len(),
            added ==> final(self)@ == old(self)@.update(from as int, old(self)@[from as int].push(to)),
            !added ==> final(self)@ == old(self)@,
            well_formed(final(self)@),
    {
        proof {
            use_type_invariant(&*self);
        }
        let count: usize = self.successors.len();
        if from < count && to < count {
            let mut rows: Vec<Vec<usize>> = Vec::new();
            std::mem::swap(&mut self.successors, &mut rows);
            rows[from].push(to);
            assert(lists(rows) =~= lists(old(self).successors).update(
                from as int,
                lists(old(self).successors)[from as int].push(to),
            ));
            self.successors = rows;
            true
        } else {
            false
        }
    }

    /// The strongly connected components of the graph, each a list of nodes,
    /// in the order in which they are searched for cycles.
    pub fn strongly_connected_components(&self) -> (parts: Vec<Vec<usize>>)
        ensures
            lists(parts) == component_order(self@),
            are_strongly_connected_components(self@, lists(parts)),
            well_formed(self@),
    {
        proof {
            use_type_invariant(self);
        }
        tarjan_components(&self.successors)
    }

    /// The successors of `node`, in the order their edges were added, or
    /// `None` where the graph has no such node.
    pub fn neighbors(&self, node: usize) -> (found: Option<&Vec<usize>>)
        ensures
            node < self@.len() <==> found.is_some(),
            found matches Some(list) ==> list@ == self@[node as int],
            well_formed(self@),
    {
        proof {
            use_type_invariant(self);
        }
        if node < self.successors.len() {
            Some(&self.successors[node])
        } else {
            None
        }
    }
}

} // verus!
