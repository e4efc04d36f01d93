//! The command graph: commands resolved into a DAG of dependencies, and the
//! queues of commands it hands out in execution order.

use std::collections::HashSet;

use vstd::prelude::*;

use super::block::CommandBlock;
use super::id::CommandId;
use crate::dag::{
    dag_add_node, dag_ancestors, dag_edge_count, dag_edges, dag_into_nodes, dag_new, dag_node,
    dag_node_count, dag_nodes, dag_order, dag_topological_order, dag_try_add_edge, Dag,
};
use super::laws::{has_command, law_queue_for_matches_ids_exactly};
use crate::paths::{edge_set, is_node_permutation, reaches, respects_edges};

verus! {

broadcast use vstd::std_specs::hash::group_hash_axioms;

/// The ids of a sequence of blocks.
pub open spec fn ids_of(blocks: Seq<CommandBlock>) -> Seq<Seq<char>> {
    blocks.map_values(|b: CommandBlock| b.metadata.id@)
}

/// The blocks registered with a builder, in registration order.
pub open spec fn pending_blocks(p: Seq<(CommandBlock, Vec<CommandId>)>) -> Seq<CommandBlock> {
    p.map_values(|e: (CommandBlock, Vec<CommandId>)| e.0)
}

/// The ids of the blocks registered with a builder, in registration order.
pub open spec fn pending_ids(p: Seq<(CommandBlock, Vec<CommandId>)>) -> Seq<Seq<char>> {
    ids_of(pending_blocks(p))
}

/// The declared prerequisites of each registered block, as id strings.
pub open spec fn pending_deps(p: Seq<(CommandBlock, Vec<CommandId>)>) -> Seq<Seq<Seq<char>>> {
    p.map_values(|e: (CommandBlock, Vec<CommandId>)| e.1@.map_values(|d: CommandId| d@))
}

/// `i` is the first position of `d` in `ids`.
pub open spec fn is_first_index(ids: Seq<Seq<char>>, d: Seq<char>, i: int) -> bool {
    &&& 0 <= i < ids.len()
    &&& ids[i] == d
    &&& forall|j: int| 0 <= j < i ==> #[trigger] ids[j] != d
}

/// The first position of `d` in `ids`, if it occurs.
pub open spec fn lookup(ids: Seq<Seq<char>>, d: Seq<char>) -> Option<int> {
    if exists|i: int| is_first_index(ids, d, i) {
        Some(choose|i: int| is_first_index(ids, d, i))
    } else {
        None
    }
}

/// Position `i` holds the first id of `ids` that repeats an earlier one.
pub open spec fn first_duplicate_at(ids: Seq<Seq<char>>, i: int) -> bool {
    &&& 0 <= i < ids.len()
    &&& ids.take(i).no_duplicates()
    &&& ids.take(i).contains(ids[i])
}

/// The outcome of wiring declared dependencies into edges.
pub enum Wiring {
    /// Every dependency was wired; these are the edges, in the order added.
    Wired(Seq<(usize, usize)>),
    /// Dependency `dep` (a position in its list) of command `command` names no command.
    Unknown { command: int, dep: int },
    /// Dependency `dep` of command `command` would close a cycle.
    Cycle { command: int, dep: int },
}

/// Wires the dependencies `ds[j..]` of command `node` onto `edges`, skipping
/// the prerequisites in `seen` (already wired for this command): each edge
/// runs from the prerequisite to `node`.
pub open spec fn wire_deps(
    ids: Seq<Seq<char>>,
    node: int,
    ds: Seq<Seq<char>>,
    j: int,
    edges: Seq<(usize, usize)>,
    seen: Set<int>,
) -> Wiring
    decreases ds.len() - j,
{
    if j < 0 || j >= ds.len() {
        Wiring::Wired(edges)
    } else {
        match lookup(ids, ds[j]) {
            None => Wiring::Unknown { command: node, dep: j },
            Some(p) => if seen.contains(p) {
                wire_deps(ids, node, ds, j + 1, edges, seen)
            } else if p == node || reaches(edge_set(edges), node, p) {
                Wiring::Cycle { command: node, dep: j }
            } else {
                wire_deps(ids, node, ds, j + 1, edges.push((p as usize, node as usize)), seen.insert(p))
            },
        }
    }
}

/// Wires the dependencies of commands `0..k`, command by command, stopping at
/// the first dependency that names no command or would close a cycle.
pub open spec fn wire(ids: Seq<Seq<char>>, deps: Seq<Seq<Seq<char>>>, k: int) -> Wiring
    decreases k,
{
    if k <= 0 {
        Wiring::Wired(Seq::empty())
    } else {
        match wire(ids, deps, k - 1) {
            Wiring::Wired(edges) => wire_deps(ids, k - 1, deps[k - 1], 0, edges, Set::empty()),
            other => other,
        }
    }
}

/// Every declared dependency names a registered command.
pub open spec fn deps_resolve(ids: Seq<Seq<char>>, deps: Seq<Seq<Seq<char>>>) -> bool {
    forall|i: int, j: int|
        0 <= i < deps.len() && 0 <= j < deps[i].len() ==> #[trigger] lookup(ids, deps[i][j]) is Some
}

/// The dependency edges that commands `0..k` declare, as `(prerequisite, dependent)`.
pub open spec fn declared_edges(ids: Seq<Seq<char>>, deps: Seq<Seq<Seq<char>>>, k: int) -> Set<(int, int)> {
    Set::new(
        |e: (int, int)|
            0 <= e.1 < k && exists|j: int|
                0 <= j < deps[e.1].len() && #[trigger] lookup(ids, deps[e.1][j]) == Some(e.0),
    )
}

/// Error returned when building a [`CommandGraph`] from a [`CommandGraphBuilder`] fails.
#[derive(Debug)]
pub enum BuildError {
    /// Two commands share the same id.
    DuplicateId(CommandId),
    /// A declared dependency does not name any added command.
    UnknownDep(CommandId),
    /// A dependency edge would introduce a cycle.
    ///
    /// The edge runs from `dep` (the prerequisite) to `command` (the dependent); adding it would
    /// make `command` reachable from itself. A self-dependency has `dep == command`.
    Cycle {
        /// The dependent command.
        command: CommandId,
        /// The prerequisite that closes the cycle.
        dep: CommandId,
    },
}

/// What [`CommandGraphBuilder::build`] answers for the registered commands `p`.
pub open spec fn build_outcome(
    p: Seq<(CommandBlock, Vec<CommandId>)>,
    r: Result<CommandGraph, BuildError>,
) -> bool {
    let ids = pending_ids(p);
    let deps = pending_deps(p);
    match r {
        Ok(g) => {
            &&& ids.no_duplicates()
            &&& g.nodes() == pending_blocks(p)
            &&& wire(ids, deps, ids.len() as int) == Wiring::Wired(g.edges())
        },
        Err(BuildError::DuplicateId(x)) => exists|i: int| #[trigger]
            first_duplicate_at(ids, i) && x@ == ids[i],
        Err(BuildError::UnknownDep(x)) => {
            &&& ids.no_duplicates()
            &&& wire(ids, deps, ids.len() as int) matches Wiring::Unknown { command, dep }
            &&& x@ == deps[command][dep]
        },
        Err(BuildError::Cycle { command: c, dep: d }) => {
            &&& ids.no_duplicates()
            &&& wire(ids, deps, ids.len() as int) matches Wiring::Cycle { command, dep }
            &&& c@ == ids[command]
            &&& d@ == deps[command][dep]
        },
    }
}

/// The message of a [`BuildError`].
pub open spec fn build_error_message(e: BuildError) -> Seq<char> {
    match e {
        BuildError::DuplicateId(id) => "duplicate command id: "@ + id@,
        BuildError::UnknownDep(id) => "unknown dependency: "@ + id@,
        BuildError::Cycle { command, dep } => "dependency cycle: "@ + dep@ + " -> "@ + command@,
    }
}

impl BuildError {
    /// The message that describes this error.
    pub fn to_string(&self) -> (r: String)
        ensures
            r@ == build_error_message(*self),
    {
        match self {
            BuildError::DuplicateId(id) => {
                let mut r = String::from_str("duplicate command id: ");
                r.append(id.as_str());
                r
            },
            BuildError::UnknownDep(id) => {
                let mut r = String::from_str("unknown dependency: ");
                r.append(id.as_str());
                r
            },
            BuildError::Cycle { command, dep } => {
                let mut r = String::from_str("dependency cycle: ");
                r.append(dep.as_str());
                r.append(" -> ");
                r.append(command.as_str());
                r
            },
        }
    }
}

/// Error returned when a command id is not found in a [`CommandGraph`].
#[derive(Debug)]
pub struct UnknownCommand(pub CommandId);

impl UnknownCommand {
    /// The message that describes this error.
    pub fn to_string(&self) -> (r: String)
        ensures
            r@ == "unknown command: "@ + self.0@,
    {
        let mut r = String::from_str("unknown command: ");
        r.append(self.0.as_str());
        r
    }
}

/// A directed acyclic graph of commands, typically pulled from a single `AsciiDoc` file.
///
/// Edges run from prerequisite to dependent: an edge `A → B` means "A must run before B."
#[derive(Debug)]
pub struct CommandGraph {
    dag: Dag,
}

impl CommandGraph {
    /// The command blocks, one per node, in node order.
    pub closed spec fn nodes(&self) -> Seq<CommandBlock> {
        dag_nodes(self.dag)
    }

    /// The edges `(prerequisite, dependent)`, in the order they were added.
    pub closed spec fn edges(&self) -> Seq<(usize, usize)> {
        dag_edges(self.dag)
    }

    /// The order of the nodes that the graph store maintains (a topological order).
    pub closed spec fn order(&self) -> Seq<usize> {
        dag_order(self.dag)
    }

    /// The commands at the nodes `needed`, in the order of the graph store.
    fn collect_queue(&self, needed: &HashSet<usize>) -> (q: CommandQueue)
        ensures
            q@ == blocks_at(self.nodes(), select(self.order(), needed@.map(|v: usize| v as int))),
            is_node_permutation(self.order(), self.nodes().len()),
            respects_edges(self.order(), edge_set(self.edges())),
    {
        // Ordering is load-bearing: the store lists nodes in topological order, and
        // filtering by membership preserves it. Do not iterate `needed`.
        let ghost keep = needed@.map(|v: usize| v as int);
        let order = dag_topological_order(&self.dag);
        let mut queue: Vec<CommandBlock> = Vec::new();
        let mut i: usize = 0;
        while i < order.len()
            invariant
                order@ == self.order(),
                is_node_permutation(order@, self.nodes().len()),
                keep == needed@.map(|v: usize| v as int),
                i <= order@.len(),
                queue@ == blocks_at(self.nodes(), select(order@.take(i as int), keep)),
            decreases order@.len() - i,
        {
            let v = order[i];
            assert(order@.take(i + 1).drop_last() =~= order@.take(i as int));
            if needed.contains(&v) {
                assert(keep.contains(v as int));
                queue.push(dag_node(&self.dag, v).clone());
                assert(queue@ =~= blocks_at(self.nodes(), select(order@.take(i + 1), keep)));
            } else {
                assert(!keep.contains(v as int));
            }
            i = i + 1;
        }
        assert(order@.take(order@.len() as int) =~= order@);
        CommandQueue::from_vec(queue)
    }

    /// Build a [`CommandQueue`] for the given commands and all of their transitive dependencies,
    /// in execution order.
    ///
    /// # Errors
    ///
    /// Returns [`UnknownCommand`] if any id in `ids` is not in the graph.
    pub fn queue_for(&self, ids: &[CommandId]) -> (r: Result<CommandQueue, UnknownCommand>)
        ensures
            queue_outcome(*self, ids@, r),
            r is Ok <==> forall|k: int| 0 <= k < ids@.len() ==> has_command(*self, #[trigger] ids@[k]@),
            r matches Err(UnknownCommand(x)) ==> !has_command(*self, x@),
    {
        let n = dag_node_count(&self.dag);
        let mut relevant: HashSet<usize> = HashSet::new();
        let mut k: usize = 0;
        while k < ids.len()
            invariant
                n == self.nodes().len(),
                k <= ids@.len(),
                forall|j: int| 0 <= j < k ==> #[trigger] node_of(*self, ids@[j]@) is Some,
                forall|v: usize| #[trigger] relevant@.contains(v) <==> (v < n && needed_by(*self, ids@, k as int, v as int)),
            decreases ids@.len() - k,
        {
            let id = &ids[k];
            match find_node(&self.dag, id) {
                None => {
                    let r = Err(UnknownCommand(id.clone()));
                    assert(r matches Err(UnknownCommand(x)) && first_unknown_at(*self, ids@, k as int)
                        && x@ == ids@[k as int]@);
                    proof {
                        law_queue_for_matches_ids_exactly(*self, ids@, r);
                    }
                    return r;
                },
                Some(target) => {
                    let ancestors = dag_ancestors(&self.dag, target);
                    let ghost before = relevant@;
                    let mut a: usize = 0;
                    while a < ancestors.len()
                        invariant
                            a <= ancestors@.len(),
                            forall|v: usize| #[trigger] relevant@.contains(v) <==> (before.contains(v)
                                || exists|x: int| 0 <= x < a && ancestors@[x] == v),
                        decreases ancestors@.len() - a,
                    {
                        relevant.insert(ancestors[a]);
                        a = a + 1;
                    }
                    assert forall|v: usize| #[trigger] relevant@.contains(v) <==> (v < n && needed_by(*self, ids@, k + 1, v as int)) by {
                        if relevant@.contains(v) && !before.contains(v) {
                            let x = choose|x: int| 0 <= x < ancestors@.len() && ancestors@[x] == v;
                            assert(ancestors@.contains(v));
                        }
                        if v < n && reaches(edge_set(self.edges()), v as int, target as int) {
                            assert(ancestors@.contains(v));
                        }
                    }
                },
            }
            k = k + 1;
        }
        assert forall|v: int| #[trigger] needed(*self, ids@).contains(v) <==> relevant@.map(
            |u: usize| u as int,
        ).contains(v) by {
            if needed(*self, ids@).contains(v) {
                assert(relevant@.contains(v as usize));
            }
            if relevant@.map(|u: usize| u as int).contains(v) {
                let u = choose|u: usize| relevant@.contains(u) && u as int == v;
                assert(relevant@.contains(u));
            }
        }
        assert(relevant@.map(|v: usize| v as int) =~= needed(*self, ids@));
        let q = self.collect_queue(&relevant);
        proof {
            lemma_select_runs_in_order(
                self.order(),
                needed(*self, ids@),
                self.nodes().len(),
                edge_set(self.edges()),
            );
            law_queue_for_matches_ids_exactly(*self, ids@, Ok(q));
        }
        Ok(q)
    }

    /// All commands, in execution order.
    pub fn into_iter(self) -> (q: CommandQueue)
        ensures
            into_queue_outcome(self, q),
    {
        // Owned path: move blocks out instead of cloning. The store lists the nodes in
        // topological order; its node list gives the blocks in node-index order, which
        // are re-sequenced by taking each out exactly once.
        let ghost nodes = self.nodes();
        let order = dag_topological_order(&self.dag);
        let blocks = dag_into_nodes(self.dag);
        let mut slots: Vec<Option<CommandBlock>> = Vec::new();
        for b in it: blocks.into_iter()
            invariant
                it.seq() == nodes,
                slots@.len() == it.index(),
                forall|x: int| 0 <= x < it.index() ==> #[trigger] slots@[x] == Some(nodes[x]),
        {
            slots.push(Some(b));
        }
        let mut queue: Vec<CommandBlock> = Vec::new();
        let mut i: usize = 0;
        while i < order.len()
            invariant
                is_node_permutation(order@, nodes.len()),
                slots@.len() == nodes.len(),
                i <= order@.len(),
                forall|x: int|
                    0 <= x < nodes.len() && !order@.take(i as int).contains(x as usize) ==> #[trigger] slots@[x]
                        == Some(nodes[x]),
                queue@ == blocks_at(nodes, order@.take(i as int)),
            decreases order@.len() - i,
        {
            let v = order[i];
            assert(!order@.take(i as int).contains(v)) by {
                if order@.take(i as int).contains(v) {
                    let y = choose|y: int| 0 <= y < i && order@[y] == v;
                    assert(order@[y] == order@[i as int]);
                }
            }
            assert(order@.take(i + 1) =~= order@.take(i as int).push(v));
            let b = slots[v].take();
            assert(b == Some(nodes[v as int]));
            queue.push(b.unwrap());
            assert forall|x: int|
                0 <= x < nodes.len() && !order@.take(i + 1).contains(x as usize) implies #[trigger] slots@[x]
                    == Some(nodes[x]) by {
                assert(order@.take(i + 1)[i as int] == v);
                assert(forall|y: int| 0 <= y < i ==> order@.take(i + 1)[y] == order@.take(i as int)[y]);
                if order@.take(i as int).contains(x as usize) {
                    let y = choose|y: int| 0 <= y < i && order@.take(i as int)[y] == x as usize;
                    assert(order@.take(i + 1)[y] == x as usize);
                }
            }
            assert(queue@ =~= blocks_at(nodes, order@.take(i + 1)));
            i = i + 1;
        }
        assert(order@.take(order@.len() as int) =~= order@);
        proof {
            lemma_permutation_runs_in_order(order@, nodes.len(), edge_set(self.edges()));
        }
        CommandQueue::from_vec(queue)
    }

    /// The number of edges in the graph.
    pub fn edge_count(&self) -> (r: usize)
        ensures
            r == self.edges().len(),
    {
        dag_edge_count(&self.dag)
    }
}

/// The entries of `order` that `keep` holds, in the order of `order`.
pub open spec fn select(order: Seq<usize>, keep: Set<int>) -> Seq<usize>
    decreases order.len(),
{
    if order.len() == 0 {
        Seq::empty()
    } else {
        let before = select(order.drop_last(), keep);
        if keep.contains(order.last() as int) {
            before.push(order.last())
        } else {
            before
        }
    }
}

/// The blocks at the node indices `idx`, in that order.
pub open spec fn blocks_at(nodes: Seq<CommandBlock>, idx: Seq<usize>) -> Seq<CommandBlock> {
    idx.map_values(|v: usize| nodes[v as int])
}

/// The node of `g` that the id `d` names, if any.
pub open spec fn node_of(g: CommandGraph, d: Seq<char>) -> Option<int> {
    lookup(ids_of(g.nodes()), d)
}

/// Position `k` holds the first id of `ids` that names no command of `g`.
pub open spec fn first_unknown_at(g: CommandGraph, ids: Seq<CommandId>, k: int) -> bool {
    &&& 0 <= k < ids.len()
    &&& node_of(g, ids[k]@) is None
    &&& forall|j: int| 0 <= j < k ==> #[trigger] node_of(g, ids[j]@) is Some
}

/// The nodes of `g` that the ids `ids` name, together with all their
/// transitive prerequisites.
pub open spec fn needed(g: CommandGraph, ids: Seq<CommandId>) -> Set<int> {
    Set::new(|v: int| 0 <= v < g.nodes().len() && needed_by(g, ids, ids.len() as int, v))
}

/// Node `v` is one that one of the first `k` ids names, or a transitive
/// prerequisite of one.
pub open spec fn needed_by(g: CommandGraph, ids: Seq<CommandId>, k: int, v: int) -> bool {
    exists|j: int|
        0 <= j < k && #[trigger] node_of(g, ids[j]@) is Some && reaches(
            edge_set(g.edges()),
            v,
            node_of(g, ids[j]@)->0,
        )
}

/// What [`CommandGraph::queue_for`] answers for the ids `ids`.
pub open spec fn queue_outcome(
    g: CommandGraph,
    ids: Seq<CommandId>,
    r: Result<CommandQueue, UnknownCommand>,
) -> bool {
    match r {
        Ok(q) => {
            &&& g.nodes().len() <= usize::MAX
            &&& forall|k: int| 0 <= k < ids.len() ==> #[trigger] node_of(g, ids[k]@) is Some
            &&& q@ == blocks_at(g.nodes(), select(g.order(), needed(g, ids)))
            &&& runs_in_order(
                select(g.order(), needed(g, ids)),
                needed(g, ids),
                g.nodes().len(),
                edge_set(g.edges()),
            )
        },
        Err(UnknownCommand(x)) => exists|k: int| #[trigger] first_unknown_at(g, ids, k) && x@ == ids[k]@,
    }
}

/// `seq` lists each node of `0..n` that `keep` holds exactly once, and no
/// other, with every edge of `es` between two listed nodes going forward.
pub open spec fn runs_in_order(seq: Seq<usize>, keep: Set<int>, n: nat, es: Set<(int, int)>) -> bool {
    &&& seq.no_duplicates()
    &&& forall|i: int| 0 <= i < seq.len() ==> #[trigger] seq[i] < n && keep.contains(seq[i] as int)
    &&& forall|v: int| 0 <= v < n && keep.contains(v) ==> #[trigger] seq.contains(v as usize)
    &&& respects_edges(seq, es)
}

/// What [`CommandGraph::into_iter`] answers for the graph `g`: every command,
/// each once, prerequisites first, in the order of the graph store.
pub open spec fn into_queue_outcome(g: CommandGraph, q: CommandQueue) -> bool {
    &&& q@ == blocks_at(g.nodes(), g.order())
    &&& is_node_permutation(g.order(), g.nodes().len())
    &&& runs_in_order(g.order(), Set::new(|v: int| 0 <= v < g.nodes().len()), g.nodes().len(), edge_set(g.edges()))
}

/// The entries of an order that `keep` holds, taken in that order.
proof fn lemma_select_facts(order: Seq<usize>, keep: Set<int>)
    ensures
        forall|x: usize| #[trigger] select(order, keep).contains(x) <==> (order.contains(x) && keep.contains(x as int)),
        order.no_duplicates() ==> select(order, keep).no_duplicates(),
        forall|i: int| 0 <= i < select(order, keep).len() ==> exists|j: int|
            0 <= j < order.len() && order[j] == #[trigger] select(order, keep)[i],
    decreases order.len(),
{
    if order.len() > 0 {
        let init = order.drop_last();
        lemma_select_facts(init, keep);
        let s0 = select(init, keep);
        let x = order.last();
        assert forall|y: usize| #[trigger] order.contains(y) <==> (init.contains(y) || y == x) by {
            if order.contains(y) {
                let j = choose|j: int| 0 <= j < order.len() && order[j] == y;
                if j < init.len() {
                    assert(init[j] == y);
                }
            }
            if init.contains(y) {
                let j = choose|j: int| 0 <= j < init.len() && init[j] == y;
                assert(order[j] == y);
            }
            if y == x {
                assert(order[order.len() - 1] == y);
            }
        }
        if order.no_duplicates() {
            assert(init.no_duplicates()) by {
                assert forall|a: int, b: int| 0 <= a < b < init.len() implies init[a] != init[b] by {
                    assert(order[a] == init[a] && order[b] == init[b]);
                }
            }
            assert(!init.contains(x)) by {
                if init.contains(x) {
                    let j = choose|j: int| 0 <= j < init.len() && init[j] == x;
                    assert(order[j] == order[order.len() - 1]);
                }
            }
        }
        if keep.contains(x as int) {
            assert forall|i: int| 0 <= i < s0.push(x).len() implies exists|j: int|
                0 <= j < order.len() && order[j] == #[trigger] s0.push(x)[i] by {
                if i < s0.len() {
                    let j = choose|j: int| 0 <= j < init.len() && init[j] == s0[i];
                    assert(order[j] == s0.push(x)[i]);
                } else {
                    assert(order[order.len() - 1] == s0.push(x)[i]);
                }
            }
            assert forall|y: usize| #[trigger] s0.push(x).contains(y) <==> (s0.contains(y) || y == x) by {
                if s0.push(x).contains(y) {
                    let j = choose|j: int| 0 <= j < s0.push(x).len() && s0.push(x)[j] == y;
                    if j < s0.len() {
                        assert(s0[j] == y);
                    }
                }
                if s0.contains(y) {
                    let j = choose|j: int| 0 <= j < s0.len() && s0[j] == y;
                    assert(s0.push(x)[j] == y);
                }
                if y == x {
                    assert(s0.push(x)[s0.len() as int] == y);
                }
            }
            if order.no_duplicates() {
                assert(s0.push(x).no_duplicates()) by {
                    assert forall|a: int, b: int| 0 <= a < b < s0.push(x).len() implies s0.push(x)[a] != s0.push(x)[b] by {
                        if b == s0.len() {
                            assert(s0.contains(s0[a]));
                        } else {
                            assert(s0.push(x)[a] == s0[a] && s0.push(x)[b] == s0[b]);
                        }
                    }
                }
            }
        }
    }
}

/// The entries of `order` that `keep` holds keep the order's direction on edges.
proof fn lemma_select_respects(order: Seq<usize>, keep: Set<int>, es: Set<(int, int)>)
    requires
        order.no_duplicates(),
        respects_edges(order, es),
    ensures
        respects_edges(select(order, keep), es),
    decreases order.len(),
{
    if order.len() > 0 {
        let init = order.drop_last();
        assert(init.no_duplicates()) by {
            assert forall|a: int, b: int| 0 <= a < b < init.len() implies init[a] != init[b] by {
                assert(order[a] == init[a] && order[b] == init[b]);
            }
        }
        assert(respects_edges(init, es)) by {
            assert forall|i: int, j: int|
                0 <= i < init.len() && 0 <= j < init.len() && #[trigger] es.contains(
                    (init[i] as int, init[j] as int),
                ) implies i < j by {
                assert(order[i] == init[i] && order[j] == init[j]);
            }
        }
        lemma_select_respects(init, keep, es);
        lemma_select_facts(init, keep);
        let s0 = select(init, keep);
        let x = order.last();
        let last = order.len() - 1;
        if keep.contains(x as int) {
            let s = s0.push(x);
            assert forall|i: int, j: int|
                0 <= i < s.len() && 0 <= j < s.len() && #[trigger] es.contains((s[i] as int, s[j] as int))
                    implies i < j by {
                if i < s0.len() && j < s0.len() {
                    assert(s[i] == s0[i] && s[j] == s0[j]);
                } else if i == s0.len() {
                    // the edge leaves the last entry of `order`
                    let q = if j < s0.len() {
                        choose|q: int| 0 <= q < init.len() && init[q] == #[trigger] s0[j]
                    } else {
                        last
                    };
                    assert(order[q] == s[j]);
                    assert(order[last] == s[i]);
                    assert(last < q);
                }
            }
        }
    }
}

proof fn lemma_select_runs_in_order(order: Seq<usize>, keep: Set<int>, n: nat, es: Set<(int, int)>)
    requires
        is_node_permutation(order, n),
        respects_edges(order, es),
    ensures
        runs_in_order(select(order, keep), keep.intersect(Set::new(|v: int| 0 <= v < n)), n, es),
{
    lemma_select_facts(order, keep);
    lemma_select_respects(order, keep, es);
    let s = select(order, keep);
    assert forall|i: int| 0 <= i < s.len() implies #[trigger] s[i] < n && keep.contains(s[i] as int) by {
        assert(s.contains(s[i]));
        let j = choose|j: int| 0 <= j < order.len() && order[j] == s[i];
    }
    assert forall|v: int| 0 <= v < n && keep.contains(v) implies #[trigger] s.contains(v as usize) by {
        lemma_permutation_covers(order, n, v);
        let i = choose|i: int| 0 <= i < order.len() && order[i] as int == v;
        assert(order.contains(v as usize));
        assert((v as usize) as int == v);
    }
}

/// A permutation of `0..n` lists every node of `0..n`.
proof fn lemma_permutation_covers(order: Seq<usize>, n: nat, v: int)
    requires
        is_node_permutation(order, n),
        0 <= v < n,
    ensures
        exists|i: int| 0 <= i < order.len() && order[i] as int == v,
        order.contains(v as usize),
{
    let m = order.map_values(|x: usize| x as int);
    assert(m.no_duplicates()) by {
        assert forall|a: int, b: int| 0 <= a < b < m.len() implies m[a] != m[b] by {
            assert(order[a] != order[b]);
        }
    }
    m.unique_seq_to_set();
    vstd::set_lib::lemma_int_range(0, n as int);
    assert(m.to_set().subset_of(vstd::set_lib::set_int_range(0, n as int))) by {
        assert forall|x: int| #[trigger] m.to_set().contains(x) implies vstd::set_lib::set_int_range(
            0,
            n as int,
        ).contains(x) by {
            let i = choose|i: int| 0 <= i < m.len() && m[i] == x;
            assert(order[i] < n);
        }
    }
    vstd::set_lib::lemma_len_subset(m.to_set(), vstd::set_lib::set_int_range(0, n as int));
    vstd::set_lib::lemma_subset_equality(m.to_set(), vstd::set_lib::set_int_range(0, n as int));
    assert(vstd::set_lib::set_int_range(0, n as int).contains(v));
    assert(m.to_set().contains(v));
    let i = choose|i: int| 0 <= i < m.len() && m[i] == v;
    assert(order[i] == v as usize);
}

/// A permutation of `0..n` that respects the edges runs every node in order.
proof fn lemma_permutation_runs_in_order(order: Seq<usize>, n: nat, es: Set<(int, int)>)
    requires
        is_node_permutation(order, n),
        respects_edges(order, es),
    ensures
        runs_in_order(order, Set::new(|v: int| 0 <= v < n), n, es),
{
    assert forall|v: int| 0 <= v < n && Set::new(|v: int| 0 <= v < n).contains(v) implies #[trigger] order.contains(v as usize) by {
        lemma_permutation_covers(order, n, v);
    }
}

/// A queue of commands in execution order, produced by [`CommandGraph::queue_for`] or by
/// iterating a [`CommandGraph`].
#[derive(Debug)]
pub struct CommandQueue {
    // The commands still to hand out, the next one last.
    rest: Vec<CommandBlock>,
}

impl View for CommandQueue {
    type V = Seq<CommandBlock>;

    closed spec fn view(&self) -> Seq<CommandBlock> {
        Seq::new(self.rest@.len(), |i: int| self.rest@[self.rest@.len() - 1 - i])
    }
}

impl CommandQueue {
    /// A queue that hands out `blocks` front to back.
    fn from_vec(blocks: Vec<CommandBlock>) -> (q: Self)
        ensures
            q@ == blocks@,
    {
        let ghost s = blocks@;
        let mut blocks = blocks;
        let mut rest: Vec<CommandBlock> = Vec::new();
        while blocks.len() > 0
            invariant
                blocks@ == s.take(s.len() - rest@.len()),
                rest@.len() <= s.len(),
                forall|k: int| 0 <= k < rest@.len() ==> #[trigger] rest@[k] == s[s.len() - 1 - k],
            decreases blocks@.len(),
        {
            let b = blocks.pop().unwrap();
            rest.push(b);
            assert(blocks@ =~= s.take(s.len() - rest@.len()));
        }
        let q = CommandQueue { rest };
        assert(q@ =~= s);
        q
    }

    /// Hand out the next command, if any is left.
    pub fn next(&mut self) -> (r: Option<CommandBlock>)
        ensures
            old(self)@.len() == 0 ==> r is None && final(self)@ == old(self)@,
            old(self)@.len() > 0 ==> r == Some(old(self)@[0]) && final(self)@ == old(self)@.drop_first(),
    {
        let r = self.rest.pop();
        assert(self@ =~= old(self)@.drop_first() || old(self)@.len() == 0);
        r
    }

    /// The number of commands left.
    pub fn len(&self) -> (r: usize)
        ensures
            r == self@.len(),
    {
        self.rest.len()
    }

    /// Whether no command is left.
    pub fn is_empty(&self) -> (r: bool)
        ensures
            r == (self@.len() == 0),
    {
        self.rest.len() == 0
    }

    /// The exact number of commands left, as a lower and an upper bound.
    pub fn size_hint(&self) -> (r: (usize, Option<usize>))
        ensures
            r.0 == self@.len(),
            r.1 == Some(self@.len() as usize),
    {
        (self.rest.len(), Some(self.rest.len()))
    }
}

/// Builds a [`CommandGraph`] from commands added in any order.
///
/// Commands may declare dependencies on ids that have not been added yet; all ids are resolved
/// once, at [`build`](CommandGraphBuilder::build). This lifts the ordering constraint that direct
/// insertion would impose, at the cost of deferring every validation error to build time.
#[derive(Debug)]
pub struct CommandGraphBuilder {
    pending: Vec<(CommandBlock, Vec<CommandId>)>,
}

impl View for CommandGraphBuilder {
    type V = Seq<(CommandBlock, Vec<CommandId>)>;

    closed spec fn view(&self) -> Seq<(CommandBlock, Vec<CommandId>)> {
        self.pending@
    }
}

impl Default for CommandGraphBuilder {
    fn default() -> (r: Self)
        ensures
            r@ == Seq::<(CommandBlock, Vec<CommandId>)>::empty(),
    {
        CommandGraphBuilder { pending: Vec::new() }
    }
}

impl CommandGraphBuilder {
    /// Create an empty builder.
    #[must_use]
    pub fn new() -> (r: Self)
        ensures
            r@ == Seq::<(CommandBlock, Vec<CommandId>)>::empty(),
    {
        CommandGraphBuilder { pending: Vec::new() }
    }

    /// Register a command and the ids of its prerequisites.
    ///
    /// Ids are not validated here; duplicates, unknown deps, and cycles are all reported by
    /// [`build`](CommandGraphBuilder::build).
    pub fn add(&mut self, block: CommandBlock, deps: Vec<CommandId>)
        ensures
            final(self)@ == old(self)@.push((block, deps)),
    {
        self.pending.push((block, deps));
    }

    /// Resolve all commands into a [`CommandGraph`].
    ///
    /// # Errors
    ///
    /// Returns [`BuildError::DuplicateId`] if two commands share an id, [`BuildError::UnknownDep`]
    /// if a dep names no added command, or [`BuildError::Cycle`] if the dependencies are cyclic.
    pub fn build(self) -> (r: Result<CommandGraph, BuildError>)
        requires
            self@.len() < u32::MAX,
            dep_count(self@) < u32::MAX,
        ensures
            build_outcome(self@, r),
    {
        let ghost p = self@;
        let ghost ids = pending_ids(p);
        let ghost deps = pending_deps(p);
        let pending = self.pending;
        let mut dag = dag_new();
        // Pass 1: add every node and index its id, so deps can be resolved in any order.
        let mut edges: Vec<(usize, Vec<CommandId>)> = Vec::new();
        for item in it: pending.into_iter()
            invariant
                p == pending@,
                p == self@,
                it.seq() == p,
                p.len() < u32::MAX,
                ids == pending_ids(p),
                dag_nodes(dag) == pending_blocks(p).take(it.index()),
                dag_edges(dag) == Seq::<(usize, usize)>::empty(),
                ids.take(it.index()).no_duplicates(),
                edges@.len() == it.index(),
                forall|k: int| 0 <= k < it.index() ==> (#[trigger] edges@[k]).0 == k && edges@[k].1 == p[k].1,
        {
            let ghost i = it.index();
            assert(item == p[i]);
            let (block, block_deps) = item;
            let id = block.metadata.id.clone();
            assert(ids_of(dag_nodes(dag)) =~= ids.take(i));
            if find_node(&dag, &id).is_some() {
                let r = Err(BuildError::DuplicateId(id));
                assert(r matches Err(BuildError::DuplicateId(x)) && first_duplicate_at(ids, i)
                    && x@ == ids[i]);
                return r;
            }
            let node = dag_add_node(&mut dag, block);
            edges.push((node, block_deps));
            assert(pending_blocks(p).take(i + 1) =~= pending_blocks(p).take(i).push(p[i].0));
            assert(ids.take(i + 1) =~= ids.take(i).push(ids[i]));
        }
        assert(pending_blocks(p).take(p.len() as int) =~= pending_blocks(p));
        assert(ids.take(p.len() as int) =~= ids);
        // Pass 2: wire edges. Cycles are genuinely possible now, so check them.
        let n = edges.len();
        let mut k: usize = 0;
        while k < n
            invariant
                n == p.len(),
                p == self@,
                edges@.len() == n,
                forall|x: int| 0 <= x < n ==> (#[trigger] edges@[x]).0 == x && edges@[x].1 == p[x].1,
                ids == pending_ids(p),
                deps == pending_deps(p),
                ids.no_duplicates(),
                dag_nodes(dag) == pending_blocks(p),
                k <= n,
                wire(ids, deps, k as int) == Wiring::Wired(dag_edges(dag)),
                dag_edges(dag).len() <= dep_count(p.take(k as int)),
                dep_count(p) < u32::MAX,
            decreases n - k,
        {
            let node = edges[k].0;
            let ds = &edges[k].1;
            let m = ds.len();
            let ghost start = dag_edges(dag);
            let ghost target = wire_deps(ids, k as int, deps[k as int], 0, start, Set::empty());
            let ghost mut sg: Set<int> = Set::empty();
            let mut seen: HashSet<usize> = HashSet::new();
            let mut j: usize = 0;
            proof {
                lemma_dep_count_take_step(p, k as int);
                lemma_dep_count_take_mono(p, k as int + 1, p.len() as int);
                assert(p.take(p.len() as int) =~= p);
            }
            while j < m
                invariant
                    node == k,
                    p == self@,
                    k < n,
                    n == p.len(),
                    ds@ == p[k as int].1@,
                    m == ds@.len(),
                    deps == pending_deps(p),
                    ids == pending_ids(p),
                    ids.no_duplicates(),
                    dag_nodes(dag) == pending_blocks(p),
                    j <= m,
                    wire_deps(ids, k as int, deps[k as int], j as int, dag_edges(dag), sg) == target,
                    target == wire_deps(ids, k as int, deps[k as int], 0, start, Set::empty()),
                    wire(ids, deps, k as int) == Wiring::Wired(start),
                    forall|x: usize| seen@.contains(x) <==> sg.contains(x as int),
                    dag_edges(dag).len() <= dep_count(p.take(k as int)) + j,
                    dep_count(p.take(k as int)) + m <= dep_count(p),
                    dep_count(p) < u32::MAX,
                decreases m - j,
            {
                let dep = &ds[j];
                assert(dep@ == deps[k as int][j as int]);
                match find_node(&dag, dep) {
                    None => {
                        proof {
                            lemma_wire_deps_unfold(ids, k as int, deps[k as int], j as int, dag_edges(dag), sg);
                            lemma_wire_error_persists(ids, deps, k as int + 1, n as int);
                        }
                        let r = Err(BuildError::UnknownDep(dep.clone()));
                        assert(r matches Err(BuildError::UnknownDep(x)) && x@ == deps[k as int][j as int]);
                        return r;
                    },
                    Some(prereq) => {
                        proof {
                            lemma_wire_deps_unfold(ids, k as int, deps[k as int], j as int, dag_edges(dag), sg);
                        }
                        if !seen.insert(prereq) {
                            j = j + 1;
                            continue;
                        }
                        match dag_try_add_edge(&mut dag, prereq, node) {
                            Ok(()) => {
                                proof {
                                    sg = sg.insert(prereq as int);
                                }
                            },
                            Err(_) => {
                                let command = dag_node(&dag, node).metadata.id.clone();
                                proof {
                                    lemma_wire_error_persists(ids, deps, k as int + 1, n as int);
                                }
                                let r = Err(BuildError::Cycle { command, dep: dep.clone() });
                                assert(r matches Err(BuildError::Cycle { command: c, dep: d })
                                    && c@ == ids[k as int] && d@ == deps[k as int][j as int]);
                                return r;
                            },
                        }
                    },
                }
                j = j + 1;
            }
            assert(deps[k as int].len() == m);
            assert(wire(ids, deps, k as int + 1) == target);
            k = k + 1;
        }
        Ok(CommandGraph { dag })
    }
}

/// The number of dependency declarations registered with a builder.
pub open spec fn dep_count(p: Seq<(CommandBlock, Vec<CommandId>)>) -> nat
    decreases p.len(),
{
    if p.len() == 0 {
        0
    } else {
        dep_count(p.drop_last()) + p.last().1@.len()
    }
}

proof fn lemma_dep_count_take_step(p: Seq<(CommandBlock, Vec<CommandId>)>, k: int)
    requires
        0 <= k < p.len(),
    ensures
        dep_count(p.take(k + 1)) == dep_count(p.take(k)) + p[k].1@.len(),
{
    assert(p.take(k + 1).drop_last() =~= p.take(k));
}

proof fn lemma_dep_count_take_mono(p: Seq<(CommandBlock, Vec<CommandId>)>, a: int, b: int)
    requires
        0 <= a <= b <= p.len(),
    ensures
        dep_count(p.take(a)) <= dep_count(p.take(b)),
    decreases b - a,
{
    if a < b {
        lemma_dep_count_take_mono(p, a, b - 1);
        lemma_dep_count_take_step(p, b - 1);
    }
}

/// One step of `wire_deps`, spelled out.
proof fn lemma_wire_deps_unfold(
    ids: Seq<Seq<char>>,
    node: int,
    ds: Seq<Seq<char>>,
    j: int,
    edges: Seq<(usize, usize)>,
    seen: Set<int>,
)
    requires
        0 <= j < ds.len(),
    ensures
        wire_deps(ids, node, ds, j, edges, seen) == (match lookup(ids, ds[j]) {
            None => Wiring::Unknown { command: node, dep: j },
            Some(p) => if seen.contains(p) {
                wire_deps(ids, node, ds, j + 1, edges, seen)
            } else if p == node || reaches(edge_set(edges), node, p) {
                Wiring::Cycle { command: node, dep: j }
            } else {
                wire_deps(ids, node, ds, j + 1, edges.push((p as usize, node as usize)), seen.insert(p))
            },
        }),
{
}

/// Once wiring has stopped at an error, wiring more commands keeps that error.
proof fn lemma_wire_error_persists(ids: Seq<Seq<char>>, deps: Seq<Seq<Seq<char>>>, k: int, n: int)
    requires
        0 < k <= n,
        !(wire(ids, deps, k) is Wired),
    ensures
        wire(ids, deps, n) == wire(ids, deps, k),
    decreases n - k,
{
    if k < n {
        lemma_wire_error_persists(ids, deps, k, n - 1);
    }
}

/// The first node of `dag` whose id is `d`, found by scanning the nodes.
fn find_node(dag: &Dag, d: &CommandId) -> (r: Option<usize>)
    ensures
        match r {
            Some(i) => is_first_index(ids_of(dag_nodes(*dag)), d@, i as int),
            None => forall|j: int|
                0 <= j < dag_nodes(*dag).len() ==> #[trigger] ids_of(dag_nodes(*dag))[j] != d@,
        },
        r matches Some(i) ==> lookup(ids_of(dag_nodes(*dag)), d@) == Some(i as int),
        r is None ==> lookup(ids_of(dag_nodes(*dag)), d@) is None,
{
    let ghost ids = ids_of(dag_nodes(*dag));
    let n = dag_node_count(dag);
    let mut i: usize = 0;
    while i < n
        invariant
            n == dag_nodes(*dag).len(),
            ids == ids_of(dag_nodes(*dag)),
            i <= n,
            forall|j: int| 0 <= j < i ==> #[trigger] ids[j] != d@,
        decreases n - i,
    {
        if dag_node(dag, i).metadata.id.same_as(d) {
            assert(is_first_index(ids, d@, i as int));
            return Some(i);
        }
        i = i + 1;
    }
    None
}

} // verus!
