//! What holds of the graph builder and of the graph's queues across calls:
//! when building succeeds, what a built graph is, and what the queues hold.

use vstd::prelude::*;

use super::block::CommandBlock;
use super::graph::{
    declared_edges, deps_resolve, first_duplicate_at, blocks_at, into_queue_outcome, is_first_index, lookup,
    needed, needed_by, node_of, pending_blocks, pending_deps, pending_ids, queue_outcome, select, wire, wire_deps,
    first_unknown_at, ids_of, CommandGraph, CommandQueue, UnknownCommand, Wiring,
};
use super::block::with_trailing_newline;
use super::id::{first_illegal_at, legal_char, new_outcome, valid_id, CommandId, InvalidCommandId};
use crate::paths::{
    acyclic, is_node_permutation, edge_set, lemma_acyclic_pullback, lemma_add_edge_keeps_acyclic, lemma_edge_set_push, lemma_reaches_mono,
    lemma_reaches_refl, lemma_reaches_step, lemma_reaches_trans, reaches,
};

verus! {

/// `CommandId::new` accepts exactly the valid ids.
pub proof fn law_new_accepts_exactly_valid_ids(s: Seq<char>, r: Result<CommandId, InvalidCommandId>)
    requires
        new_outcome(s, r),
    ensures
        r is Ok <==> valid_id(s),
{
    if let Err(InvalidCommandId::IllegalChar { id, ch }) = r {
        let k = choose|k: int| #[trigger] first_illegal_at(s, k, ch);
        assert(!legal_char(s[k]));
    }
}

/// The id of an accepted id is accepted again, unchanged: `new` then
/// `as_str` then `new` gives back the same id.
pub proof fn law_id_round_trips(
    s: Seq<char>,
    r: Result<CommandId, InvalidCommandId>,
    again: Result<CommandId, InvalidCommandId>,
)
    requires
        new_outcome(s, r),
        r is Ok,
        new_outcome(r->Ok_0@, again),
    ensures
        again matches Ok(c) && c@ == s,
{
    law_new_accepts_exactly_valid_ids(r->Ok_0@, again);
}

/// `CommandId::new` accepts exactly the non-empty strings that do not start
/// with `-` and are made of ASCII letters, ASCII digits, `-` and `_`, of any
/// length, and keeps them unchanged; otherwise it names the first rule
/// broken: emptiness, then a leading `-`, then the first character outside
/// that alphabet.
pub proof fn law_new_accepts_the_id_alphabet(s: Seq<char>, r: Result<CommandId, InvalidCommandId>)
    requires
        new_outcome(s, r),
    ensures
        r is Ok <==> ({
            &&& s.len() > 0
            &&& s[0] != '-'
            &&& forall|i: int|
                0 <= i < s.len() ==> {
                    let c = #[trigger] s[i];
                    ('a' <= c && c <= 'z') || ('A' <= c && c <= 'Z') || ('0' <= c && c <= '9') || c == '-'
                        || c == '_'
                }
        }),
        r matches Ok(c) ==> c@ == s,
        r matches Err(InvalidCommandId::Empty) <==> s.len() == 0,
        r matches Err(InvalidCommandId::LeadingDash { id }) ==> id@ == s,
        r matches Err(InvalidCommandId::LeadingDash { .. }) <==> s.len() > 0 && s[0] == '-',
        r matches Err(InvalidCommandId::IllegalChar { id, ch }) ==> {
            &&& id@ == s
            &&& s.len() > 0
            &&& s[0] != '-'
            &&& !(('a' <= ch && ch <= 'z') || ('A' <= ch && ch <= 'Z') || ('0' <= ch && ch <= '9') || ch == '-'
                || ch == '_')
            &&& exists|k: int|
                0 <= k < s.len() && s[k] == ch && forall|j: int|
                    0 <= j < k ==> {
                        let c = #[trigger] s[j];
                        ('a' <= c && c <= 'z') || ('A' <= c && c <= 'Z') || ('0' <= c && c <= '9') || c
                            == '-' || c == '_'
                    }
        },
{
    law_new_accepts_exactly_valid_ids(s, r);
    if let Err(InvalidCommandId::IllegalChar { id, ch }) = r {
        let k = choose|k: int| #[trigger] first_illegal_at(s, k, ch);
        assert(forall|j: int| 0 <= j < k ==> legal_char(#[trigger] s[j]));
    }
}

/// `CommandId::new` answers the same for the same characters: the same
/// outcome, holding the same text.
pub proof fn law_new_is_deterministic(
    s: Seq<char>,
    r1: Result<CommandId, InvalidCommandId>,
    r2: Result<CommandId, InvalidCommandId>,
)
    requires
        new_outcome(s, r1),
        new_outcome(s, r2),
    ensures
        match (r1, r2) {
            (Ok(a), Ok(b)) => a@ == b@,
            (Err(InvalidCommandId::Empty), Err(InvalidCommandId::Empty)) => true,
            (
                Err(InvalidCommandId::LeadingDash { id: a }),
                Err(InvalidCommandId::LeadingDash { id: b }),
            ) => a@ == b@,
            (
                Err(InvalidCommandId::IllegalChar { id: a, ch: x }),
                Err(InvalidCommandId::IllegalChar { id: b, ch: y }),
            ) => a@ == b@ && x == y,
            _ => false,
        },
{
    law_new_accepts_exactly_valid_ids(s, r1);
    law_new_accepts_exactly_valid_ids(s, r2);
    if let (
        Err(InvalidCommandId::IllegalChar { id: a, ch: x }),
        Err(InvalidCommandId::IllegalChar { id: b, ch: y }),
    ) = (r1, r2) {
        let k1 = choose|k: int| #[trigger] first_illegal_at(s, k, x);
        let k2 = choose|k: int| #[trigger] first_illegal_at(s, k, y);
        if k1 < k2 {
            assert(legal_char(s[k1]));
        } else if k2 < k1 {
            assert(legal_char(s[k2]));
        }
    }
}

/// A block's script always ends with a newline; a script that already ends
/// with one is kept as it is, so normalising twice changes nothing.
pub proof fn law_script_newline(s: Seq<char>)
    ensures
        with_trailing_newline(s).len() > 0,
        with_trailing_newline(s).last() == '\n',
        s.len() > 0 && s.last() == '\n' ==> with_trailing_newline(s) == s,
        with_trailing_newline(with_trailing_newline(s)) == with_trailing_newline(s),
{
}

/// A block keeps its script whole: the stored script is the given one,
/// unchanged, followed by at most one newline, and that newline is added
/// exactly when the given script does not already end with one.
pub proof fn law_block_keeps_script(script: Seq<char>, stored: Seq<char>)
    requires
        stored == with_trailing_newline(script),
    ensures
        stored.len() <= script.len() + 1,
        stored.take(script.len() as int) == script,
        stored.len() == script.len() <==> (script.len() > 0 && script.last() == '\n'),
        stored.len() == script.len() + 1 ==> stored.last() == '\n',
        stored.len() > 0 && stored.last() == '\n',
{
    assert(script.push('\n').take(script.len() as int) =~= script);
    assert(script.take(script.len() as int) =~= script);
}

/// A position that `lookup` answers is a first position of the id.
proof fn lemma_lookup(ids: Seq<Seq<char>>, d: Seq<char>)
    ensures
        lookup(ids, d) matches Some(i) ==> is_first_index(ids, d, i),
{
}

/// The new edges that the dependencies `ds[j..]` of command `node` declare.
spec fn new_edges(ids: Seq<Seq<char>>, node: int, ds: Seq<Seq<char>>, j: int) -> Set<(int, int)> {
    Set::new(
        |e: (int, int)|
            e.1 == node && exists|x: int| j <= x < ds.len() && #[trigger] lookup(ids, ds[x]) == Some(e.0),
    )
}

/// Edges of `edges` go between registered commands, into commands up to `top`.
spec fn edges_in_bounds(edges: Seq<(usize, usize)>, n: int, top: int) -> bool {
    forall|x: int| 0 <= x < edges.len() ==> (#[trigger] edges[x]).0 < n && edges[x].1 <= top
}

/// Wiring one command's dependencies, when it succeeds, adds exactly the
/// declared edges into that command, once each, and keeps the graph acyclic.
proof fn lemma_wire_deps_wired(
    ids: Seq<Seq<char>>,
    node: int,
    ds: Seq<Seq<char>>,
    j: int,
    edges: Seq<(usize, usize)>,
    seen: Set<int>,
    out: Seq<(usize, usize)>,
)
    requires
        wire_deps(ids, node, ds, j, edges, seen) == Wiring::Wired(out),
        0 <= j <= ds.len(),
        0 <= node < ids.len(),
        ids.len() <= usize::MAX,
        acyclic(edge_set(edges)),
        edges.no_duplicates(),
        edges_in_bounds(edges, ids.len() as int, node),
        forall|q: int| #[trigger] seen.contains(q) <==> edge_set(edges).contains((q, node)),
    ensures
        acyclic(edge_set(out)),
        out.no_duplicates(),
        edges_in_bounds(out, ids.len() as int, node),
        forall|x: int| j <= x < ds.len() ==> #[trigger] lookup(ids, ds[x]) is Some,
        edge_set(out) == edge_set(edges).union(new_edges(ids, node, ds, j)),
    decreases ds.len() - j,
{
    if j == ds.len() {
        assert(new_edges(ids, node, ds, j) =~= Set::empty());
        assert(edge_set(out) =~= edge_set(edges).union(new_edges(ids, node, ds, j)));
    } else {
        lemma_lookup(ids, ds[j]);
        let p = lookup(ids, ds[j])->0;
        if seen.contains(p) {
            lemma_wire_deps_wired(ids, node, ds, j + 1, edges, seen, out);
            assert(edge_set(out) =~= edge_set(edges).union(new_edges(ids, node, ds, j)));
        } else {
            let e = (p as usize, node as usize);
            let ext = edges.push(e);
            lemma_edge_set_push(edges, e);
            lemma_add_edge_keeps_acyclic(edge_set(edges), p, node);
            assert(!edges.contains(e)) by {
                if edges.contains(e) {
                    let k = choose|k: int| 0 <= k < edges.len() && edges[k] == e;
                    assert(edge_set(edges).contains((p, node)));
                }
            }
            assert(ext.no_duplicates()) by {
                assert forall|a: int, b: int| 0 <= a < b < ext.len() implies ext[a] != ext[b] by {
                    if b == edges.len() {
                        assert(edges[a] == ext[a]);
                    } else {
                        assert(edges[a] == ext[a] && edges[b] == ext[b]);
                    }
                }
            }
            assert(edges_in_bounds(ext, ids.len() as int, node)) by {
                assert forall|x: int| 0 <= x < ext.len() implies (#[trigger] ext[x]).0 < ids.len()
                    && ext[x].1 <= node by {
                    if x < edges.len() {
                        assert(ext[x] == edges[x]);
                    }
                }
            }
            lemma_wire_deps_wired(ids, node, ds, j + 1, ext, seen.insert(p), out);
            assert(edge_set(out) =~= edge_set(edges).union(new_edges(ids, node, ds, j)));
        }
    }
}

/// Wiring commands `0..k`, when it succeeds, adds exactly the declared edges,
/// once each, and the result is acyclic; every dependency of those commands
/// names a registered command.
proof fn lemma_wire_wired(ids: Seq<Seq<char>>, deps: Seq<Seq<Seq<char>>>, k: int, out: Seq<(usize, usize)>)
    requires
        wire(ids, deps, k) == Wiring::Wired(out),
        0 <= k <= deps.len(),
        deps.len() == ids.len(),
        ids.len() <= usize::MAX,
    ensures
        acyclic(edge_set(out)),
        out.no_duplicates(),
        edges_in_bounds(out, ids.len() as int, k - 1),
        forall|i: int, j: int| 0 <= i < k && 0 <= j < deps[i].len() ==> #[trigger] lookup(ids, deps[i][j]) is Some,
        edge_set(out) == declared_edges(ids, deps, k),
    decreases k,
{
    if k == 0 {
        assert(edge_set(out) =~= declared_edges(ids, deps, k));
    } else {
        let prev = wire(ids, deps, k - 1);
        if let Wiring::Wired(e0) = prev {
            lemma_wire_wired(ids, deps, k - 1, e0);
            assert forall|q: int| #[trigger] Set::<int>::empty().contains(q) <==> edge_set(e0).contains((q, k - 1)) by {
                if edge_set(e0).contains((q, k - 1)) {
                    let x = choose|x: int| 0 <= x < e0.len() && e0[x].0 == q && e0[x].1 == k - 1;
                    assert(e0[x].1 <= k - 2);
                }
            }
            lemma_wire_deps_wired(ids, k - 1, deps[k - 1], 0, e0, Set::empty(), out);
            assert(edge_set(out) =~= declared_edges(ids, deps, k)) by {
                assert forall|e: (int, int)| #[trigger] edge_set(out).contains(e) <==> declared_edges(
                    ids,
                    deps,
                    k,
                ).contains(e) by {
                    if declared_edges(ids, deps, k).contains(e) && e.1 < k - 1 {
                        assert(declared_edges(ids, deps, k - 1).contains(e));
                    }
                    if edge_set(e0).contains(e) {
                        assert(declared_edges(ids, deps, k - 1).contains(e));
                    }
                }
            }
        }
    }
}

/// `w` stops at dependency `dep` of `node` (among `ds`), whose prerequisite
/// `p` has an edge `p -> node` in `all`, while `node` reaches `p` in `all`.
spec fn cycle_explained(ids: Seq<Seq<char>>, ds: Seq<Seq<char>>, w: Wiring, node: int, all: Set<(int, int)>) -> bool {
    match w {
        Wiring::Cycle { command, dep } => command == node && 0 <= dep < ds.len() && match lookup(ids, ds[dep]) {
            Some(p) => all.contains((p, node)) && reaches(all, node, p),
            None => false,
        },
        _ => false,
    }
}

/// A wiring stopped at a dependency that would close a cycle: in any edge set
/// that holds the edges wired so far and every edge declared into `node`, the
/// offending dependency's prerequisite has an edge to `node`, and `node`
/// reaches that prerequisite.
proof fn lemma_wire_deps_cycle(
    ids: Seq<Seq<char>>,
    node: int,
    ds: Seq<Seq<char>>,
    j: int,
    edges: Seq<(usize, usize)>,
    seen: Set<int>,
    all: Set<(int, int)>,
)
    requires
        wire_deps(ids, node, ds, j, edges, seen) is Cycle,
        0 <= j <= ds.len(),
        0 <= node < ids.len(),
        ids.len() <= usize::MAX,
        edge_set(edges).subset_of(all),
        new_edges(ids, node, ds, j).subset_of(all),
    ensures
        cycle_explained(ids, ds, wire_deps(ids, node, ds, j, edges, seen), node, all),
    decreases ds.len() - j,
{
    if j < ds.len() {
        lemma_lookup(ids, ds[j]);
        let p = lookup(ids, ds[j])->0;
        assert(new_edges(ids, node, ds, j).contains((p, node)));
        if seen.contains(p) {
            assert(new_edges(ids, node, ds, j + 1).subset_of(new_edges(ids, node, ds, j)));
            lemma_wire_deps_cycle(ids, node, ds, j + 1, edges, seen, all);
        } else if p == node || reaches(edge_set(edges), node, p) {
            if p == node {
                lemma_reaches_refl(all, node);
            } else {
                lemma_reaches_mono(edge_set(edges), all, node, p);
            }
        } else {
            let e = (p as usize, node as usize);
            lemma_edge_set_push(edges, e);
            assert(new_edges(ids, node, ds, j + 1).subset_of(new_edges(ids, node, ds, j)));
            lemma_wire_deps_cycle(ids, node, ds, j + 1, edges.push(e), seen.insert(p), all);
        }
    }
}

/// A wiring stopped at a dependency that names no command.
proof fn lemma_wire_deps_unknown(
    ids: Seq<Seq<char>>,
    node: int,
    ds: Seq<Seq<char>>,
    j: int,
    edges: Seq<(usize, usize)>,
    seen: Set<int>,
)
    requires
        wire_deps(ids, node, ds, j, edges, seen) is Unknown,
        0 <= j <= ds.len(),
    ensures
        match wire_deps(ids, node, ds, j, edges, seen) {
            Wiring::Unknown { command, dep } => command == node && 0 <= dep < ds.len() && lookup(
                ids,
                ds[dep],
            ) is None,
            _ => false,
        },
    decreases ds.len() - j,
{
    if j < ds.len() {
        match lookup(ids, ds[j]) {
            None => {},
            Some(p) => if seen.contains(p) {
                lemma_wire_deps_unknown(ids, node, ds, j + 1, edges, seen);
            } else if p == node || reaches(edge_set(edges), node, p) {
            } else {
                lemma_wire_deps_unknown(ids, node, ds, j + 1, edges.push((p as usize, node as usize)), seen.insert(p));
            },
        }
    }
}

/// Where wiring commands `0..k` stops, and why: at a dependency that names no
/// command, or at one that closes a cycle among the declared edges.
proof fn lemma_wire_error(ids: Seq<Seq<char>>, deps: Seq<Seq<Seq<char>>>, k: int)
    requires
        !(wire(ids, deps, k) is Wired),
        0 <= k <= deps.len(),
        deps.len() == ids.len(),
        ids.len() <= usize::MAX,
    ensures
        match wire(ids, deps, k) {
            Wiring::Unknown { command, dep } => 0 <= command < k && 0 <= dep < deps[command].len()
                && lookup(ids, deps[command][dep]) is None,
            Wiring::Cycle { command, dep } => 0 <= command < k && cycle_explained(
                ids,
                deps[command],
                wire(ids, deps, k),
                command,
                declared_edges(ids, deps, deps.len() as int),
            ),
            Wiring::Wired(_) => false,
        },
    decreases k,
{
    let prev = wire(ids, deps, k - 1);
    match prev {
        Wiring::Wired(e0) => {
            lemma_wire_wired(ids, deps, k - 1, e0);
            let all = declared_edges(ids, deps, deps.len() as int);
            if wire(ids, deps, k) is Cycle {
                assert(edge_set(e0).subset_of(all)) by {
                    assert forall|e: (int, int)| #[trigger] edge_set(e0).contains(e) implies all.contains(e) by {
                        assert(declared_edges(ids, deps, k - 1).contains(e));
                    }
                }
                assert(new_edges(ids, k - 1, deps[k - 1], 0).subset_of(all)) by {
                    assert forall|e: (int, int)| #[trigger] new_edges(ids, k - 1, deps[k - 1], 0).contains(e) implies all.contains(e) by {
                        let x = choose|x: int| 0 <= x < deps[k - 1].len() && #[trigger] lookup(ids, deps[k - 1][x]) == Some(e.0);
                        assert(lookup(ids, deps[e.1][x]) == Some(e.0));
                    }
                }
                lemma_wire_deps_cycle(ids, k - 1, deps[k - 1], 0, e0, Set::empty(), all);
            } else {
                lemma_wire_deps_unknown(ids, k - 1, deps[k - 1], 0, e0, Set::empty());
            }
        },
        _ => {
            lemma_wire_error(ids, deps, k - 1);
        },
    }
}

/// The first repeated id is a repeat: the ids are not distinct.
proof fn lemma_first_duplicate(ids: Seq<Seq<char>>, i: int)
    requires
        first_duplicate_at(ids, i),
    ensures
        !ids.no_duplicates(),
{
    let j = choose|j: int| 0 <= j < i && ids.take(i)[j] == ids[i];
    assert(ids[j] == ids[i]);
}

/// Building a graph succeeds exactly when the command ids are distinct, every
/// declared dependency names a registered command, and the declared
/// dependencies form no cycle.
pub proof fn law_build_succeeds_iff(
    p: Seq<(CommandBlock, Vec<CommandId>)>,
    r: Result<super::graph::CommandGraph, super::graph::BuildError>,
)
    requires
        p.len() < u32::MAX,
        super::graph::build_outcome(p, r),
    ensures
        r is Ok <==> ({
            &&& pending_ids(p).no_duplicates()
            &&& deps_resolve(pending_ids(p), pending_deps(p))
            &&& acyclic(declared_edges(pending_ids(p), pending_deps(p), p.len() as int))
        }),
{
    let ids = pending_ids(p);
    let deps = pending_deps(p);
    let n = p.len() as int;
    let w = wire(ids, deps, n);
    match w {
        Wiring::Wired(out) => {
            lemma_wire_wired(ids, deps, n, out);
        },
        _ => {
            lemma_wire_error(ids, deps, n);
        },
    }
    match r {
        Ok(g) => {},
        Err(super::graph::BuildError::DuplicateId(x)) => {
            let i = choose|i: int| #[trigger] first_duplicate_at(ids, i) && x@ == ids[i];
            lemma_first_duplicate(ids, i);
        },
        Err(_) => {},
    }
}

/// A built graph holds exactly the declared dependency edges, each once, and
/// has no cycle.
pub proof fn law_built_graph_is_declared_dag(
    p: Seq<(CommandBlock, Vec<CommandId>)>,
    g: super::graph::CommandGraph,
)
    requires
        p.len() < u32::MAX,
        super::graph::build_outcome(p, Ok(g)),
    ensures
        edge_set(g.edges()) == declared_edges(pending_ids(p), pending_deps(p), p.len() as int),
        g.edges().no_duplicates(),
        acyclic(edge_set(g.edges())),
{
    lemma_wire_wired(pending_ids(p), pending_deps(p), p.len() as int, g.edges());
}

/// A build refused for a duplicate id names an id that two registered
/// commands share.
pub proof fn law_duplicate_id_is_shared(
    p: Seq<(CommandBlock, Vec<CommandId>)>,
    r: Result<super::graph::CommandGraph, super::graph::BuildError>,
)
    requires
        super::graph::build_outcome(p, r),
        r matches Err(super::graph::BuildError::DuplicateId(_)),
    ensures
        r matches Err(super::graph::BuildError::DuplicateId(x)) && exists|i: int, j: int|
            0 <= i < j < p.len() && pending_ids(p)[i] == x@ && pending_ids(p)[j] == x@,
{
    let ids = pending_ids(p);
    if let Err(super::graph::BuildError::DuplicateId(x)) = r {
        let j = choose|j: int| #[trigger] first_duplicate_at(ids, j) && x@ == ids[j];
        let i = choose|i: int| 0 <= i < j && ids.take(j)[i] == ids[j];
        assert(ids[i] == x@);
    }
}

/// A build refused for an unknown dependency names a declared dependency that
/// no registered command has as its id.
pub proof fn law_unknown_dep_names_no_command(
    p: Seq<(CommandBlock, Vec<CommandId>)>,
    r: Result<super::graph::CommandGraph, super::graph::BuildError>,
)
    requires
        p.len() < u32::MAX,
        super::graph::build_outcome(p, r),
        r matches Err(super::graph::BuildError::UnknownDep(_)),
    ensures
        r matches Err(super::graph::BuildError::UnknownDep(x)) && (forall|i: int|
            0 <= i < p.len() ==> #[trigger] pending_ids(p)[i] != x@) && exists|i: int, j: int|
            0 <= i < p.len() && 0 <= j < pending_deps(p)[i].len() && pending_deps(p)[i][j] == x@,
{
    let ids = pending_ids(p);
    let deps = pending_deps(p);
    lemma_wire_error(ids, deps, p.len() as int);
    if let Err(super::graph::BuildError::UnknownDep(x)) = r {
        assert forall|i: int| 0 <= i < p.len() implies #[trigger] ids[i] != x@ by {
            if ids[i] == x@ {
                lemma_first_index_exists(ids, x@, i);
            }
        }
    }
}

/// A build refused for a cycle names a dependency `dep` of `command` such that
/// the declared edges lead from `command` back to `dep`: with the edge
/// `dep -> command` they close a cycle (a self-dependency has `dep == command`).
pub proof fn law_cycle_closes_a_cycle(
    p: Seq<(CommandBlock, Vec<CommandId>)>,
    r: Result<super::graph::CommandGraph, super::graph::BuildError>,
)
    requires
        p.len() < u32::MAX,
        super::graph::build_outcome(p, r),
        r matches Err(super::graph::BuildError::Cycle { .. }),
    ensures
        r matches Err(super::graph::BuildError::Cycle { command, dep }) && exists|c: int, d: int|
            0 <= c < p.len() && 0 <= d < p.len() && pending_ids(p)[c] == command@
                && pending_ids(p)[d] == dep@ && declared_edges(
                pending_ids(p),
                pending_deps(p),
                p.len() as int,
            ).contains((d, c)) && reaches(
                declared_edges(pending_ids(p), pending_deps(p), p.len() as int),
                c,
                d,
            ),
{
    let ids = pending_ids(p);
    let deps = pending_deps(p);
    lemma_wire_error(ids, deps, p.len() as int);
    if let Wiring::Cycle { command, dep } = wire(ids, deps, p.len() as int) {
        lemma_lookup(ids, deps[command][dep]);
    }
}

/// The commands a request needs include every prerequisite of a needed
/// command.
pub proof fn law_needed_includes_prerequisites(g: CommandGraph, ids: Seq<CommandId>, u: int, v: int)
    requires
        needed(g, ids).contains(v),
        0 <= u < g.nodes().len(),
        edge_set(g.edges()).contains((u, v)),
    ensures
        needed(g, ids).contains(u),
{
    let es = edge_set(g.edges());
    let k = choose|k: int|
        0 <= k < ids.len() && #[trigger] node_of(g, ids[k]@) is Some && reaches(es, v, node_of(g, ids[k]@)->0);
    lemma_reaches_refl(es, u);
    lemma_reaches_step(es, u, u, v);
    lemma_reaches_trans(es, u, v, node_of(g, ids[k]@)->0);
    assert(needed_by(g, ids, ids.len() as int, u));
}

/// Selecting every entry of an order gives the order back.
proof fn lemma_select_all(order: Seq<usize>, keep: Set<int>)
    requires
        forall|i: int| 0 <= i < order.len() ==> keep.contains(#[trigger] order[i] as int),
    ensures
        select(order, keep) == order,
    decreases order.len(),
{
    if order.len() > 0 {
        let init = order.drop_last();
        assert forall|i: int| 0 <= i < init.len() implies keep.contains(#[trigger] init[i] as int) by {
            assert(init[i] == order[i]);
        }
        lemma_select_all(init, keep);
        assert(keep.contains(order[order.len() - 1] as int));
        assert(init.push(order.last()) =~= order);
    }
}

/// One of `ids` names node `v` of `g`.
pub open spec fn some_id_names(g: CommandGraph, ids: Seq<CommandId>, v: int) -> bool {
    exists|k: int| 0 <= k < ids.len() && #[trigger] node_of(g, ids[k]@) == Some(v)
}

/// A request that names every command of the graph runs the same commands, in
/// the same order, as running the whole graph.
pub proof fn law_queue_for_everything_is_whole_graph(
    g: CommandGraph,
    ids: Seq<CommandId>,
    q: CommandQueue,
    all: CommandQueue,
)
    requires
        queue_outcome(g, ids, Ok(q)),
        into_queue_outcome(g, all),
        forall|v: int| 0 <= v < g.nodes().len() ==> #[trigger] some_id_names(g, ids, v),
    ensures
        q@ == all@,
{
    let es = edge_set(g.edges());
    assert forall|i: int| 0 <= i < g.order().len() implies needed(g, ids).contains(#[trigger] g.order()[i] as int) by {
        let v = g.order()[i] as int;
        assert(some_id_names(g, ids, v));
        let k = choose|k: int| 0 <= k < ids.len() && #[trigger] node_of(g, ids[k]@) == Some(v);
        lemma_reaches_refl(es, v);
        assert(needed_by(g, ids, ids.len() as int, v));
    }
    lemma_select_all(g.order(), needed(g, ids));
}

/// An id that occurs in `ids` has a first position there.
proof fn lemma_first_index_exists(ids: Seq<Seq<char>>, d: Seq<char>, i: int)
    requires
        0 <= i < ids.len(),
        ids[i] == d,
    ensures
        lookup(ids, d) is Some,
    decreases i,
{
    if exists|j: int| 0 <= j < i && ids[j] == d {
        let j = choose|j: int| 0 <= j < i && ids[j] == d;
        lemma_first_index_exists(ids, d, j);
    } else {
        assert(is_first_index(ids, d, i));
    }
}

/// `a` is `b` with some entries left out: the positions `idx` of `b` that
/// `a` takes rise strictly.
pub open spec fn subsequence_of<A>(a: Seq<A>, b: Seq<A>) -> bool {
    exists|idx: Seq<int>|
        {
            &&& idx.len() == a.len()
            &&& forall|i: int, j: int| 0 <= i < j < idx.len() ==> #[trigger] idx[i] < #[trigger] idx[j]
            &&& forall|i: int| 0 <= i < idx.len() ==> 0 <= #[trigger] idx[i] < b.len() && a[i] == b[idx[i]]
        }
}

/// The positions of `order` that a selection keeps, in rising order.
proof fn lemma_select_positions(order: Seq<usize>, keep: Set<int>) -> (idx: Seq<int>)
    ensures
        idx.len() == select(order, keep).len(),
        forall|i: int, j: int| 0 <= i < j < idx.len() ==> #[trigger] idx[i] < #[trigger] idx[j],
        forall|i: int|
            0 <= i < idx.len() ==> 0 <= #[trigger] idx[i] < order.len() && select(order, keep)[i] == order[idx[i]],
    decreases order.len(),
{
    if order.len() == 0 {
        Seq::empty()
    } else {
        let init = order.drop_last();
        let before = lemma_select_positions(init, keep);
        if keep.contains(order.last() as int) {
            let idx = before.push(order.len() - 1);
            assert forall|i: int| 0 <= i < idx.len() implies 0 <= #[trigger] idx[i] < order.len() && select(
                order,
                keep,
            )[i] == order[idx[i]] by {
                if i < before.len() {
                    assert(idx[i] == before[i]);
                    assert(init[before[i]] == order[before[i]]);
                }
            }
            idx
        } else {
            assert forall|i: int| 0 <= i < before.len() implies 0 <= #[trigger] before[i] < order.len() && select(
                order,
                keep,
            )[i] == order[before[i]] by {
                assert(init[before[i]] == order[before[i]]);
            }
            before
        }
    }
}

/// Selecting with a smaller set is selecting from the selection with the
/// larger one.
proof fn lemma_select_nested(order: Seq<usize>, small: Set<int>, large: Set<int>)
    requires
        small.subset_of(large),
    ensures
        select(order, small) == select(select(order, large), small),
    decreases order.len(),
{
    if order.len() > 0 {
        let init = order.drop_last();
        lemma_select_nested(init, small, large);
        let x = order.last();
        if large.contains(x as int) {
            let t = select(init, large).push(x);
            assert(t.drop_last() =~= select(init, large));
            assert(t.last() == x);
        }
    }
}

/// A request whose ids all occur in a second request needs no command that
/// the second does not, and its queue is the second request's queue with
/// some commands left out, the rest in the same order.
pub proof fn law_smaller_request_is_subsequence(
    g: CommandGraph,
    ids1: Seq<CommandId>,
    ids2: Seq<CommandId>,
    q1: CommandQueue,
    q2: CommandQueue,
)
    requires
        forall|k: int| 0 <= k < ids1.len() ==> exists|j: int| 0 <= j < ids2.len() && #[trigger] ids2[j]@ == #[trigger] ids1[k]@,
        queue_outcome(g, ids1, Ok(q1)),
        queue_outcome(g, ids2, Ok(q2)),
    ensures
        needed(g, ids1).subset_of(needed(g, ids2)),
        subsequence_of(q1@, q2@),
{
    let es = edge_set(g.edges());
    let n1 = needed(g, ids1);
    let n2 = needed(g, ids2);
    assert forall|v: int| n1.contains(v) implies n2.contains(v) by {
        let k = choose|k: int|
            0 <= k < ids1.len() && #[trigger] node_of(g, ids1[k]@) is Some && reaches(es, v, node_of(g, ids1[k]@)->0);
        let j = choose|j: int| 0 <= j < ids2.len() && #[trigger] ids2[j]@ == ids1[k]@;
        assert(node_of(g, ids2[j]@) == node_of(g, ids1[k]@));
        assert(needed_by(g, ids2, ids2.len() as int, v));
    }
    lemma_select_nested(g.order(), n1, n2);
    let t = select(g.order(), n2);
    let idx = lemma_select_positions(t, n1);
    assert forall|i: int| 0 <= i < idx.len() implies 0 <= #[trigger] idx[i] < q2@.len() && q1@[i] == q2@[idx[i]] by {
        assert(select(t, n1)[i] == t[idx[i]]);
    }
}

/// `perm` renumbers the positions `0..n` one to one, and `inv` undoes it.
pub open spec fn is_renumbering(perm: Seq<int>, inv: Seq<int>, n: int) -> bool {
    &&& perm.len() == n
    &&& inv.len() == n
    &&& forall|i: int| 0 <= i < n ==> 0 <= #[trigger] perm[i] < n && inv[perm[i]] == i
    &&& forall|i: int| 0 <= i < n ==> 0 <= #[trigger] inv[i] < n && perm[inv[i]] == i
}

/// Where no id repeats, `lookup` answers the one position of an id.
proof fn lemma_lookup_at(ids: Seq<Seq<char>>, d: Seq<char>, i: int)
    requires
        ids.no_duplicates(),
        0 <= i < ids.len(),
        ids[i] == d,
    ensures
        lookup(ids, d) == Some(i),
{
    assert(is_first_index(ids, d, i));
    let k = choose|k: int| is_first_index(ids, d, k);
    assert(ids[k] == ids[i]);
}

/// Commands `a`, renumbered by `m` into commands `b`: duplicate ids,
/// unresolved dependencies and declared edges carry over from `b` to `a`.
proof fn lemma_renumbered_declarations(
    ids_a: Seq<Seq<char>>,
    deps_a: Seq<Seq<Seq<char>>>,
    ids_b: Seq<Seq<char>>,
    deps_b: Seq<Seq<Seq<char>>>,
    m: Seq<int>,
    minv: Seq<int>,
    n: int,
)
    requires
        ids_a.len() == n && ids_b.len() == n && deps_a.len() == n && deps_b.len() == n,
        is_renumbering(m, minv, n),
        forall|i: int| 0 <= i < n ==> #[trigger] ids_a[i] == ids_b[m[i]] && deps_a[i] == deps_b[m[i]],
    ensures
        ids_b.no_duplicates() ==> ids_a.no_duplicates(),
        deps_resolve(ids_b, deps_b) ==> deps_resolve(ids_a, deps_a),
        ids_a.no_duplicates() && ids_b.no_duplicates() ==> forall|u: int, v: int|
            #[trigger] declared_edges(ids_a, deps_a, n).contains((u, v)) ==> declared_edges(ids_b, deps_b, n).contains(
                (m[u], m[v]),
            ),
{
    if ids_b.no_duplicates() {
        assert forall|i: int, j: int| 0 <= i < ids_a.len() && 0 <= j < ids_a.len() && i != j implies ids_a[i]
            != ids_a[j] by {
            if ids_a[i] == ids_a[j] {
                assert(ids_b[m[i]] == ids_b[m[j]]);
                assert(minv[m[i]] == i && minv[m[j]] == j);
            }
        }
    }
    if deps_resolve(ids_b, deps_b) {
        assert forall|i: int, j: int| 0 <= i < deps_a.len() && 0 <= j < deps_a[i].len() implies #[trigger] lookup(
            ids_a,
            deps_a[i][j],
        ) is Some by {
            let d = deps_a[i][j];
            assert(ids_a[i] == ids_b[m[i]]);
            assert(deps_a[i] == deps_b[m[i]]);
            assert(lookup(ids_b, deps_b[m[i]][j]) is Some);
            lemma_lookup(ids_b, d);
            let k = lookup(ids_b, d)->0;
            assert(ids_a[minv[k]] == ids_b[m[minv[k]]]);
            lemma_first_index_exists(ids_a, d, minv[k]);
        }
    }
    if ids_a.no_duplicates() && ids_b.no_duplicates() {
        assert forall|u: int, v: int| #[trigger] declared_edges(ids_a, deps_a, n).contains((u, v)) implies declared_edges(
            ids_b,
            deps_b,
            n,
        ).contains((m[u], m[v])) by {
            let j = choose|j: int| 0 <= j < deps_a[v].len() && #[trigger] lookup(ids_a, deps_a[v][j]) == Some(u);
            lemma_lookup(ids_a, deps_a[v][j]);
            assert(ids_a[u] == ids_b[m[u]]);
            assert(ids_a[v] == ids_b[m[v]]);
            assert(deps_a[v] == deps_b[m[v]]);
            lemma_lookup_at(ids_b, deps_b[m[v]][j], m[u]);
            let e = (m[u], m[v]);
            assert(0 <= e.1 < n && lookup(ids_b, deps_b[e.1][j]) == Some(e.0));
        }
    }
}

/// Commands `p2` are commands `p1` registered in another order: position `i`
/// of `p2` holds the block and the declared dependencies of position
/// `perm[i]` of `p1`.
pub open spec fn registered_in_other_order(
    p1: Seq<(CommandBlock, Vec<CommandId>)>,
    p2: Seq<(CommandBlock, Vec<CommandId>)>,
    perm: Seq<int>,
) -> bool {
    &&& p2.len() == p1.len()
    &&& forall|i: int|
        0 <= i < p2.len() ==> #[trigger] pending_blocks(p2)[i] == pending_blocks(p1)[perm[i]] && pending_deps(p2)[i]
            == pending_deps(p1)[perm[i]]
}

/// Graph `g2` is graph `g1` with its nodes renumbered by `perm`: node `i` of
/// `g2` holds the block of node `perm[i]` of `g1`, and `g2` has an edge
/// exactly where `g1` has the renumbered one.
pub open spec fn same_graph_renumbered(g1: CommandGraph, g2: CommandGraph, perm: Seq<int>) -> bool {
    let n = g1.nodes().len();
    &&& g2.nodes().len() == n
    &&& forall|i: int| 0 <= i < n ==> #[trigger] g2.nodes()[i] == g1.nodes()[perm[i]]
    &&& forall|u: int, v: int|
        #[trigger] edge_set(g2.edges()).contains((u, v)) <==> (0 <= u < n && 0 <= v < n && edge_set(
            g1.edges(),
        ).contains((perm[u], perm[v])))
}

/// The order in which commands are registered does not matter: registering
/// the same commands in another order succeeds exactly when the first order
/// does, and then builds the same graph, numbered in the other order.
pub proof fn law_build_ignores_registration_order(
    p1: Seq<(CommandBlock, Vec<CommandId>)>,
    p2: Seq<(CommandBlock, Vec<CommandId>)>,
    perm: Seq<int>,
    inv: Seq<int>,
    r1: Result<CommandGraph, super::graph::BuildError>,
    r2: Result<CommandGraph, super::graph::BuildError>,
)
    requires
        p1.len() < u32::MAX,
        is_renumbering(perm, inv, p1.len() as int),
        registered_in_other_order(p1, p2, perm),
        super::graph::build_outcome(p1, r1),
        super::graph::build_outcome(p2, r2),
    ensures
        r1 is Ok <==> r2 is Ok,
        r1 is Ok ==> same_graph_renumbered(r1->Ok_0, r2->Ok_0, perm),
{
    let n = p1.len() as int;
    let ids1 = pending_ids(p1);
    let deps1 = pending_deps(p1);
    let ids2 = pending_ids(p2);
    let deps2 = pending_deps(p2);
    assert forall|i: int| 0 <= i < n implies #[trigger] ids2[i] == ids1[perm[i]] && deps2[i] == deps1[perm[i]] by {
        assert(pending_blocks(p2)[i] == pending_blocks(p1)[perm[i]]);
    }
    assert forall|i: int| 0 <= i < n implies #[trigger] ids1[i] == ids2[inv[i]] && deps1[i] == deps2[inv[i]] by {
        assert(ids2[inv[i]] == ids1[perm[inv[i]]]);
    }
    lemma_renumbered_declarations(ids2, deps2, ids1, deps1, perm, inv, n);
    lemma_renumbered_declarations(ids1, deps1, ids2, deps2, inv, perm, n);
    let e1 = declared_edges(ids1, deps1, n);
    let e2 = declared_edges(ids2, deps2, n);
    if ids1.no_duplicates() && ids2.no_duplicates() {
        let fp = |x: int| perm[x];
        let fi = |x: int| inv[x];
        assert forall|a: int, b: int| #[trigger] e2.contains((a, b)) implies e1.contains((fp(a), fp(b))) by {}
        assert forall|a: int, b: int| #[trigger] e1.contains((a, b)) implies e2.contains((fi(a), fi(b))) by {}
        if acyclic(e1) {
            lemma_acyclic_pullback(e1, e2, fp);
        }
        if acyclic(e2) {
            lemma_acyclic_pullback(e2, e1, fi);
        }
    }
    law_build_succeeds_iff(p1, r1);
    law_build_succeeds_iff(p2, r2);
    if let Ok(g1) = r1 {
        if let Ok(g2) = r2 {
            law_built_graph_is_declared_dag(p1, g1);
            law_built_graph_is_declared_dag(p2, g2);
            assert forall|u: int, v: int| #[trigger] edge_set(g2.edges()).contains((u, v)) <==> (0 <= u < n && 0 <= v
                < n && edge_set(g1.edges()).contains((perm[u], perm[v]))) by {
                if e2.contains((u, v)) {
                    lemma_lookup(ids2, deps2[v][choose|j: int| 0 <= j < deps2[v].len() && #[trigger] lookup(ids2, deps2[v][j]) == Some(u)]);
                }
                if 0 <= u < n && 0 <= v < n && e1.contains((perm[u], perm[v])) {
                    assert(e2.contains((inv[perm[u]], inv[perm[v]])));
                }
            }
        }
    }
}

/// Running a built graph runs every registered command exactly once, each
/// after every command that it declares as a dependency.
pub proof fn law_built_graph_runs_every_command_once(
    p: Seq<(CommandBlock, Vec<CommandId>)>,
    g: CommandGraph,
    q: CommandQueue,
)
    requires
        p.len() < u32::MAX,
        super::graph::build_outcome(p, Ok(g)),
        into_queue_outcome(g, q),
    ensures
        q@.len() == p.len(),
        is_node_permutation(g.order(), p.len()),
        q@ == blocks_at(pending_blocks(p), g.order()),
        forall|a: int, b: int, j: int|
            0 <= a < q@.len() && 0 <= b < q@.len() && 0 <= j < pending_deps(p)[g.order()[b] as int].len() && #[trigger] q@[a].metadata.id@
                == #[trigger] pending_deps(p)[g.order()[b] as int][j] ==> a < b,
{
    let n = p.len() as int;
    let ids = pending_ids(p);
    let deps = pending_deps(p);
    let order = g.order();
    law_built_graph_is_declared_dag(p, g);
    assert forall|a: int, b: int, j: int|
        0 <= a < q@.len() && 0 <= b < q@.len() && 0 <= j < deps[order[b] as int].len() && #[trigger] q@[a].metadata.id@
            == #[trigger] deps[order[b] as int][j] implies a < b by {
        let u = order[a] as int;
        let v = order[b] as int;
        assert(q@[a] == pending_blocks(p)[u]);
        assert(ids[u] == q@[a].metadata.id@);
        lemma_lookup_at(ids, deps[v][j], u);
        assert(declared_edges(ids, deps, n).contains((u, v)));
        assert(edge_set(g.edges()).contains((order[a] as int, order[b] as int)));
    }
}

/// Some command of `g` has exactly the id `d`.
pub open spec fn has_command(g: CommandGraph, d: Seq<char>) -> bool {
    exists|i: int| 0 <= i < g.nodes().len() && #[trigger] g.nodes()[i].metadata.id@ == d
}

/// The node that an id resolves to holds exactly that id, and an id
/// resolves to some node exactly when a command has exactly that id.
proof fn lemma_node_of_exact(g: CommandGraph, d: Seq<char>)
    ensures
        node_of(g, d) matches Some(w) ==> 0 <= w < g.nodes().len() && g.nodes()[w].metadata.id@ == d,
        node_of(g, d) is Some <==> has_command(g, d),
{
    let ids = ids_of(g.nodes());
    lemma_lookup(ids, d);
    if let Some(w) = node_of(g, d) {
        assert(ids[w] == g.nodes()[w].metadata.id@);
    }
    if has_command(g, d) {
        let i = choose|i: int| 0 <= i < g.nodes().len() && #[trigger] g.nodes()[i].metadata.id@ == d;
        assert(ids[i] == d);
        lemma_first_index_exists(ids, d, i);
    }
}

/// Every requested command is in a successful request's queue.
proof fn lemma_queue_holds_requested(g: CommandGraph, ids: Seq<CommandId>, q: CommandQueue, k: int)
    requires
        queue_outcome(g, ids, Ok(q)),
        0 <= k < ids.len(),
    ensures
        exists|i: int| 0 <= i < q@.len() && #[trigger] q@[i].metadata.id@ == ids[k]@,
{
    let es = edge_set(g.edges());
    let keep = needed(g, ids);
    let sel = select(g.order(), keep);
    assert(node_of(g, ids[k]@) is Some);
    lemma_node_of_exact(g, ids[k]@);
    let w = node_of(g, ids[k]@)->0;
    lemma_reaches_refl(es, w);
    assert(needed_by(g, ids, ids.len() as int, w));
    assert(keep.contains(w));
    assert(sel.contains(w as usize));
    let i = choose|i: int| 0 <= i < sel.len() && sel[i] == w as usize;
    assert(q@[i] == g.nodes()[w]);
}

/// A command at node `v` leads to one whose id is exactly one of `ids`.
pub open spec fn leads_to_requested(g: CommandGraph, ids: Seq<CommandId>, v: int) -> bool {
    exists|w: int, k: int|
        #![trigger reaches(edge_set(g.edges()), v, w), ids[k]]
        {
            &&& 0 <= k < ids.len()
            &&& 0 <= w < g.nodes().len()
            &&& g.nodes()[w].metadata.id@ == ids[k]@
            &&& reaches(edge_set(g.edges()), v, w)
        }
}

/// Every command in a successful request's queue is a requested command or
/// a transitive prerequisite of one.
proof fn lemma_queue_holds_only_needed(g: CommandGraph, ids: Seq<CommandId>, q: CommandQueue, i: int)
    requires
        queue_outcome(g, ids, Ok(q)),
        0 <= i < q@.len(),
    ensures
        exists|v: int| 0 <= v < g.nodes().len() && q@[i] == #[trigger] g.nodes()[v] && leads_to_requested(g, ids, v),
{
    let es = edge_set(g.edges());
    let keep = needed(g, ids);
    let sel = select(g.order(), keep);
    let v = sel[i] as int;
    assert(keep.contains(v));
    let k = choose|k: int|
        0 <= k < ids.len() && #[trigger] node_of(g, ids[k]@) is Some && reaches(es, v, node_of(g, ids[k]@)->0);
    lemma_node_of_exact(g, ids[k]@);
    let w = node_of(g, ids[k]@)->0;
    assert(q@[i] == g.nodes()[v]);
    assert(g.nodes()[w].metadata.id@ == ids[k]@);
    assert(reaches(es, v, w));
    assert(leads_to_requested(g, ids, v));
}

/// A request resolves each id to the command whose id is exactly that id:
/// it succeeds exactly when every requested id is the id of a command, and
/// otherwise fails naming the first requested id that is the id of no
/// command.
pub proof fn law_queue_for_matches_ids_exactly(
    g: CommandGraph,
    ids: Seq<CommandId>,
    r: Result<CommandQueue, UnknownCommand>,
)
    requires
        queue_outcome(g, ids, r),
    ensures
        r is Ok <==> forall|k: int| 0 <= k < ids.len() ==> has_command(g, #[trigger] ids[k]@),
        r matches Err(UnknownCommand(x)) ==> exists|k: int|
            {
                &&& 0 <= k < ids.len()
                &&& x@ == #[trigger] ids[k]@
                &&& !has_command(g, ids[k]@)
                &&& forall|j: int| 0 <= j < k ==> has_command(g, #[trigger] ids[j]@)
            },
{
    assert forall|k: int| 0 <= k < ids.len() implies (node_of(g, #[trigger] ids[k]@) is Some <==> has_command(
        g,
        ids[k]@,
    )) by {
        lemma_node_of_exact(g, ids[k]@);
    }
    if let Err(UnknownCommand(x)) = r {
        let k = choose|k: int| #[trigger] first_unknown_at(g, ids, k) && x@ == ids[k]@;
        assert(!has_command(g, ids[k]@));
    }
}

/// Some block of `blocks` has exactly the id `d`.
pub open spec fn holds_id(blocks: Seq<CommandBlock>, d: Seq<char>) -> bool {
    exists|i: int| 0 <= i < blocks.len() && #[trigger] blocks[i].metadata.id@ == d
}

/// `b` is the block at a node of `g` that leads to a command whose id is
/// exactly one of `ids`.
pub open spec fn is_requested_or_prerequisite(g: CommandGraph, ids: Seq<CommandId>, b: CommandBlock) -> bool {
    exists|v: int| 0 <= v < g.nodes().len() && #[trigger] g.nodes()[v] == b && leads_to_requested(g, ids, v)
}

/// A successful request's queue holds every requested command, and
/// otherwise only commands that a requested command transitively depends
/// on.
pub proof fn law_queue_for_queues_requested_and_prerequisites(
    g: CommandGraph,
    ids: Seq<CommandId>,
    q: CommandQueue,
)
    requires
        queue_outcome(g, ids, Ok(q)),
    ensures
        forall|k: int| 0 <= k < ids.len() ==> holds_id(q@, #[trigger] ids[k]@),
        forall|i: int| 0 <= i < q@.len() ==> is_requested_or_prerequisite(g, ids, #[trigger] q@[i]),
{
    assert forall|k: int| 0 <= k < ids.len() implies holds_id(q@, #[trigger] ids[k]@) by {
        lemma_queue_holds_requested(g, ids, q, k);
    }
    assert forall|i: int| 0 <= i < q@.len() implies is_requested_or_prerequisite(g, ids, #[trigger] q@[i]) by {
        lemma_queue_holds_only_needed(g, ids, q, i);
    }
}

} // verus!
