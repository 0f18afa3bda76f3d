//! The dependency graph in dense form, and the edges that visibility adds.
//!
//! The vertices of the graph are the nodes in the order in which they were
//! reported, numbered from zero.  An edge leads from a node to each node that
//! it depends on and that was reported at all, be it before or after.  A
//! dependency that was never reported has no vertex and gives no edge.

use crate::indexed_keys::IndexedKeys;
use crate::key::NodeKey;
use crate::model::{NodeRecord, VisibilityRecord};
use vstd::prelude::*;

verus! {

/// The number that stands for a vertex in executable code is the vertex.
pub open spec fn as_vertices(numbers: Seq<usize>) -> Seq<int> {
    numbers.map_values(|v: usize| v as int)
}

/// The graph in dense form: for each vertex the vertices that it depends on.
#[derive(Debug)]
pub struct Graph {
    /// The out-edges of each vertex.
    pub edges: Vec<Vec<usize>>,
}

impl View for Graph {
    type V = Seq<Seq<int>>;

    open spec fn view(&self) -> Seq<Seq<int>> {
        Seq::new(self.edges@.len(), |v: int| as_vertices(self.edges@[v]@))
    }
}

/// Every edge of the graph ends in a vertex of the graph.
pub open spec fn closed_graph(edges: Seq<Seq<int>>) -> bool {
    forall|v: int, j: int|
        0 <= v < edges.len() && 0 <= j < edges[v].len() ==> 0 <= #[trigger] edges[v][j] < edges.len()
}

/// The number of edges of the graph.
pub open spec fn edge_count(edges: Seq<Seq<int>>) -> nat
    decreases edges.len(),
{
    if edges.len() == 0 {
        0
    } else {
        edge_count(edges.drop_last()) + edges.last().len()
    }
}

/// The keys of the records, in order: the key of each vertex.
pub open spec fn keys_of(log: Seq<NodeRecord>) -> Seq<NodeKey> {
    log.map_values(|record: NodeRecord| record.key)
}

/// The vertices of those of the keys that have one, in the order of the keys.
pub open spec fn resolved(keys: Seq<NodeKey>, named: Seq<NodeKey>) -> Seq<int>
    decreases named.len(),
{
    if named.len() == 0 {
        Seq::empty()
    } else {
        let before = resolved(keys, named.drop_last());
        if keys.contains(named.last()) {
            before.push(keys.index_of(named.last()))
        } else {
            before
        }
    }
}

/// The edges that the records name: from each vertex to the vertices of its
/// dependencies.
pub open spec fn dependency_edges(log: Seq<NodeRecord>) -> Seq<Seq<int>> {
    Seq::new(log.len(), |v: int| resolved(keys_of(log), log[v].deps))
}

/// A walk along the edges that meets no analysis: it has a vertex, each of
/// its vertices is one of the graph and not an analysis, and each but the
/// first is at the end of an edge from the one before.
pub open spec fn open_walk(keys: Seq<NodeKey>, edges: Seq<Seq<int>>, walk: Seq<int>) -> bool {
    &&& walk.len() > 0
    &&& forall|i: int|
        0 <= i < walk.len() ==> 0 <= #[trigger] walk[i] < keys.len() && !(keys[walk[i]] is Analysis)
    &&& forall|i: int, j: int|
        0 <= i && j == i + 1 && j < walk.len() ==> edges[#[trigger] walk[i]].contains(
            #[trigger] walk[j],
        )
}

/// Some walk that meets no analysis leads from `root` to `vertex`.
pub open spec fn reaches(keys: Seq<NodeKey>, edges: Seq<Seq<int>>, root: int, vertex: int) -> bool {
    exists|walk: Seq<int>| #[trigger]
        open_walk(keys, edges, walk) && walk.first() == root && walk.last() == vertex
}

/// An analysis and one node that it makes visible, both by their vertices.
pub type Probe = (int, int);

/// The probes of the top-level targets, in order: for each target whose
/// analysis has a vertex, that vertex with each node that the target makes
/// visible and that has a vertex.
pub open spec fn probes(keys: Seq<NodeKey>, targets: Seq<VisibilityRecord>) -> Seq<Probe>
    decreases targets.len(),
{
    if targets.len() == 0 {
        Seq::empty()
    } else {
        let before = probes(keys, targets.drop_last());
        let target = targets.last();
        if keys.contains(target.node) {
            before + resolved(keys, target.makes_visible).map_values(
                |root: int| (keys.index_of(target.node), root),
            )
        } else {
            before
        }
    }
}

/// The analysis that gates a vertex: that of the first probe whose node
/// reaches the vertex by a walk that meets no analysis.  A vertex that no
/// probe reaches, and every analysis, has no gating analysis.
pub open spec fn gating_analysis(keys: Seq<NodeKey>, edges: Seq<Seq<int>>, probes: Seq<Probe>, vertex: int) -> Option<
    int,
>
    decreases probes.len(),
{
    if probes.len() == 0 {
        None
    } else {
        match gating_analysis(keys, edges, probes.drop_last(), vertex) {
            Some(analysis) => Some(analysis),
            None => if reaches(keys, edges, probes.last().1, vertex) {
                Some(probes.last().0)
            } else {
                None
            },
        }
    }
}

/// The graph with an edge from each gated vertex to its gating analysis, behind
/// the edges that the vertex had.
pub open spec fn gated_edges(keys: Seq<NodeKey>, edges: Seq<Seq<int>>, probes: Seq<Probe>) -> Seq<
    Seq<int>,
> {
    Seq::new(
        edges.len(),
        |v: int|
            match gating_analysis(keys, edges, probes, v) {
                Some(analysis) => edges[v].push(analysis),
                None => edges[v],
            },
    )
}

/// The graph that the records and the top-level targets describe: the edges of
/// the dependencies, and from each gated vertex the edge to its gating
/// analysis.
pub open spec fn build_graph(log: Seq<NodeRecord>, targets: Seq<VisibilityRecord>) -> Seq<Seq<int>> {
    gated_edges(keys_of(log), dependency_edges(log), probes(keys_of(log), targets))
}

/// The vertex of a key, if the key has one.
pub fn find_vertex(keys: &IndexedKeys<NodeKey>, key: NodeKey) -> (vertex: Option<usize>)
    requires
        keys.wf(),
    ensures
        vertex is Some <==> keys@.contains(key),
        vertex matches Some(v) ==> v < keys@.len() && keys@[v as int] == key && v == keys@.index_of(
            key,
        ),
{
    keys.find(&key)
}

/// The vertices of those of the keys that have one, in the order of the keys.
pub fn resolve(keys: &IndexedKeys<NodeKey>, named: &Vec<NodeKey>) -> (vertices: Vec<usize>)
    requires
        keys.wf(),
    ensures
        as_vertices(vertices@) == resolved(keys@, named@),
        forall|j: int| 0 <= j < vertices@.len() ==> (#[trigger] vertices@[j]) < keys@.len(),
{
    let mut vertices: Vec<usize> = Vec::new();
    let mut i: usize = 0;
    assert(named@.take(0) == Seq::<NodeKey>::empty());
    assert(as_vertices(vertices@) == Seq::<int>::empty());
    while i < named.len()
        invariant
            i <= named.len(),
            keys.wf(),
            as_vertices(vertices@) == resolved(keys@, named@.take(i as int)),
            forall|j: int| 0 <= j < vertices@.len() ==> (#[trigger] vertices@[j]) < keys@.len(),
        decreases named.len() - i,
    {
        assert(named@.take(i + 1).drop_last() == named@.take(i as int));
        let ghost before = vertices@;
        match find_vertex(keys, named[i]) {
            Some(v) => {
                vertices.push(v);
                assert(as_vertices(vertices@) == as_vertices(before).push(v as int));
            },
            None => {},
        }
        i += 1;
    }
    assert(named@.take(named.len() as int) == named@);
    vertices
}

/// The analysis that a slot holds.
pub open spec fn slot_analysis(slot: Option<usize>) -> Option<int> {
    match slot {
        Some(analysis) => Some(analysis as int),
        None => None,
    }
}

/// The slots hold the gating analyses of the vertices under the probes.
pub open spec fn holds_analyses(
    slots: Seq<Option<usize>>,
    keys: Seq<NodeKey>,
    edges: Seq<Seq<int>>,
    probes: Seq<Probe>,
) -> bool {
    &&& slots.len() == keys.len()
    &&& forall|v: int|
        0 <= v < slots.len() ==> slot_analysis(#[trigger] slots[v]) == gating_analysis(keys, edges, probes, v)
}

/// The number of slots that hold no analysis.
pub open spec fn free_slots(slots: Seq<Option<usize>>) -> nat
    decreases slots.len(),
{
    if slots.len() == 0 {
        0
    } else {
        free_slots(slots.drop_last()) + if slots.last() is None {
            1nat
        } else {
            0nat
        }
    }
}

/// Filling a free slot leaves one free slot less.
proof fn lemma_fill_slot(slots: Seq<Option<usize>>, i: int, analysis: usize)
    requires
        0 <= i < slots.len(),
        slots[i] is None,
    ensures
        free_slots(slots.update(i, Some(analysis))) + 1 == free_slots(slots),
    decreases slots.len(),
{
    let filled = slots.update(i, Some(analysis));
    if i == slots.len() - 1 {
        assert(filled.drop_last() == slots.drop_last());
    } else {
        lemma_fill_slot(slots.drop_last(), i, analysis);
        assert(filled.drop_last() == slots.drop_last().update(i, Some(analysis)));
    }
}

/// A vertex that is no analysis reaches itself.
proof fn lemma_reaches_itself(keys: Seq<NodeKey>, edges: Seq<Seq<int>>, vertex: int)
    requires
        0 <= vertex < keys.len(),
        !(keys[vertex] is Analysis),
    ensures
        reaches(keys, edges, vertex, vertex),
{
    let walk = seq![vertex];
    assert(open_walk(keys, edges, walk));
    assert(walk.first() == vertex && walk.last() == vertex);
}

/// What is reached goes on along an edge to a vertex that is no analysis.
proof fn lemma_reaches_next(keys: Seq<NodeKey>, edges: Seq<Seq<int>>, root: int, from: int, to: int)
    requires
        reaches(keys, edges, root, from),
        0 <= to < keys.len(),
        !(keys[to] is Analysis),
        0 <= from < edges.len(),
        edges[from].contains(to),
    ensures
        reaches(keys, edges, root, to),
{
    let walk = choose|walk: Seq<int>| #[trigger]
        open_walk(keys, edges, walk) && walk.first() == root && walk.last() == from;
    let longer = walk.push(to);
    assert forall|i: int, j: int| 0 <= i && j == i + 1 && j < longer.len() implies edges[
    #[trigger] longer[i]].contains(#[trigger] longer[j]) by {
        assert(longer[i] == walk[i]);
        if j < walk.len() {
            assert(longer[j] == walk[j]);
            assert(edges[walk[i]].contains(walk[j]));
        }
    }
    assert forall|i: int| 0 <= i < longer.len() implies 0 <= #[trigger] longer[i] < keys.len() && !(
    keys[longer[i]] is Analysis) by {
        if i < walk.len() {
            assert(longer[i] == walk[i]);
        }
    }
    assert(open_walk(keys, edges, longer));
    assert(longer.first() == root && longer.last() == to);
}

/// A gated vertex is a vertex of the graph and no analysis.
pub proof fn lemma_gated_is_open(
    keys: Seq<NodeKey>,
    edges: Seq<Seq<int>>,
    probes: Seq<Probe>,
    vertex: int,
)
    requires
        gating_analysis(keys, edges, probes, vertex) is Some,
    ensures
        0 <= vertex < keys.len(),
        !(keys[vertex] is Analysis),
    decreases probes.len(),
{
    if probes.len() > 0 {
        if gating_analysis(keys, edges, probes.drop_last(), vertex) is Some {
            lemma_gated_is_open(keys, edges, probes.drop_last(), vertex);
        } else {
            let walk = choose|walk: Seq<int>| #[trigger]
                open_walk(keys, edges, walk) && walk.first() == probes.last().1 && walk.last()
                    == vertex;
            assert(walk[walk.len() - 1] == vertex);
        }
    }
}

/// The gating analysis of a vertex is the analysis of one of the probes.
pub proof fn lemma_gating_is_probed(
    keys: Seq<NodeKey>,
    edges: Seq<Seq<int>>,
    probes: Seq<Probe>,
    vertex: int,
)
    requires
        gating_analysis(keys, edges, probes, vertex) is Some,
    ensures
        exists|k: int|
            0 <= k < probes.len() && (#[trigger] probes[k]).0 == gating_analysis(keys, edges, probes, vertex)->0,
    decreases probes.len(),
{
    if probes.len() > 0 {
        let before = probes.drop_last();
        if gating_analysis(keys, edges, before, vertex) is Some {
            lemma_gating_is_probed(keys, edges, before, vertex);
            let k = choose|k: int|
                0 <= k < before.len() && (#[trigger] before[k]).0 == gating_analysis(keys, edges, before, vertex)->0;
            assert(probes[k] == before[k]);
        } else {
            assert(probes[probes.len() - 1].0 == gating_analysis(keys, edges, probes, vertex)->0);
        }
    }
}

/// Gating spreads along the edges: behind a gated vertex, every vertex that is
/// no analysis is gated.
proof fn lemma_gating_spreads(
    keys: Seq<NodeKey>,
    edges: Seq<Seq<int>>,
    probes: Seq<Probe>,
    from: int,
    to: int,
)
    requires
        gating_analysis(keys, edges, probes, from) is Some,
        0 <= to < keys.len(),
        !(keys[to] is Analysis),
        0 <= from < edges.len(),
        edges[from].contains(to),
    ensures
        gating_analysis(keys, edges, probes, to) is Some,
    decreases probes.len(),
{
    if probes.len() > 0 {
        if gating_analysis(keys, edges, probes.drop_last(), from) is Some {
            lemma_gating_spreads(keys, edges, probes.drop_last(), from, to);
        } else {
            lemma_reaches_next(keys, edges, probes.last().1, from, to);
        }
    }
}

/// What the search knows when it has nothing left to visit: the gating analyses
/// of the probes before are in their slots, the other filled slots hold the
/// analysis of this probe, the root has been seen to, and the filled slots
/// spread along the edges.
spec fn search_done(
    slots: Seq<Option<usize>>,
    keys: Seq<NodeKey>,
    edges: Seq<Seq<int>>,
    before: Seq<Probe>,
    probe: Probe,
) -> bool {
    &&& slots.len() == keys.len()
    &&& edges.len() == keys.len()
    &&& 0 <= probe.1 < keys.len()
    &&& forall|v: int|
        0 <= v < slots.len() && gating_analysis(keys, edges, before, v) is Some ==> slot_analysis(
            #[trigger] slots[v],
        ) == gating_analysis(keys, edges, before, v)
    &&& forall|v: int|
        0 <= v < slots.len() && gating_analysis(keys, edges, before, v) is None && (#[trigger] slots[v])
            is Some ==> slot_analysis(slots[v]) == Some(probe.0) && reaches(keys, edges, probe.1, v)
    &&& forall|u: int, w: int|
        0 <= u < slots.len() && slots[u] is Some && 0 <= w < slots.len() && !(keys[w] is Analysis)
            && #[trigger] edges[u].contains(w) ==> (#[trigger] slots[w]) is Some
    &&& keys[probe.1] is Analysis || slots[probe.1] is Some
}

/// Along a walk from the root of the probe, every slot is filled once the
/// search is done.
proof fn lemma_walk_is_filled(
    slots: Seq<Option<usize>>,
    keys: Seq<NodeKey>,
    edges: Seq<Seq<int>>,
    before: Seq<Probe>,
    probe: Probe,
    walk: Seq<int>,
    i: int,
)
    requires
        search_done(slots, keys, edges, before, probe),
        open_walk(keys, edges, walk),
        walk.first() == probe.1,
        0 <= i < walk.len(),
    ensures
        slots[walk[i]] is Some,
    decreases i,
{
    if i > 0 {
        lemma_walk_is_filled(slots, keys, edges, before, probe, walk, i - 1);
        assert(edges[walk[i - 1]].contains(walk[i]));
        assert(0 <= walk[i] < keys.len() && !(keys[walk[i]] is Analysis));
    }
}

/// When the search is done, the slots hold the gating analyses under the probes
/// before and this one.
proof fn lemma_search_done(
    slots: Seq<Option<usize>>,
    keys: Seq<NodeKey>,
    edges: Seq<Seq<int>>,
    before: Seq<Probe>,
    probe: Probe,
)
    requires
        search_done(slots, keys, edges, before, probe),
    ensures
        holds_analyses(slots, keys, edges, before.push(probe)),
{
    let all = before.push(probe);
    assert(all.drop_last() == before);
    assert forall|v: int| 0 <= v < slots.len() implies slot_analysis(#[trigger] slots[v]) == gating_analysis(
        keys,
        edges,
        all,
        v,
    ) by {
        if gating_analysis(keys, edges, before, v) is None && slots[v] is None {
            if reaches(keys, edges, probe.1, v) {
                let walk = choose|walk: Seq<int>| #[trigger]
                    open_walk(keys, edges, walk) && walk.first() == probe.1 && walk.last() == v;
                lemma_walk_is_filled(slots, keys, edges, before, probe, walk, walk.len() - 1);
            }
        }
    }
}

/// What the search knows while `queue` holds the vertices that it has yet
/// to visit.
spec fn search_state(
    slots: Seq<Option<usize>>,
    queue: Seq<int>,
    keys: Seq<NodeKey>,
    edges: Seq<Seq<int>>,
    before: Seq<Probe>,
    probe: Probe,
) -> bool {
    &&& slots.len() == keys.len()
    &&& edges.len() == keys.len()
    &&& closed_graph(edges)
    &&& 0 <= probe.1 < keys.len()
    &&& forall|v: int|
        0 <= v < slots.len() && gating_analysis(keys, edges, before, v) is Some ==> slot_analysis(
            #[trigger] slots[v],
        ) == gating_analysis(keys, edges, before, v)
    &&& forall|v: int|
        0 <= v < slots.len() && gating_analysis(keys, edges, before, v) is None && (#[trigger] slots[v])
            is Some ==> slot_analysis(slots[v]) == Some(probe.0) && reaches(keys, edges, probe.1, v)
    &&& forall|u: int, w: int|
        0 <= u < slots.len() && slots[u] is Some && 0 <= w < slots.len() && !(keys[w] is Analysis)
            && #[trigger] edges[u].contains(w) ==> (#[trigger] slots[w]) is Some || queue.contains(w)
    &&& forall|k: int|
        0 <= k < queue.len() ==> 0 <= #[trigger] queue[k] < keys.len() && (keys[queue[k]] is Analysis
            || reaches(keys, edges, probe.1, queue[k]))
    &&& keys[probe.1] is Analysis || slots[probe.1] is Some || queue.contains(probe.1)
}

/// The search starts with the root of the probe to visit.
proof fn lemma_search_start(
    slots: Seq<Option<usize>>,
    keys: Seq<NodeKey>,
    edges: Seq<Seq<int>>,
    before: Seq<Probe>,
    probe: Probe,
)
    requires
        holds_analyses(slots, keys, edges, before),
        edges.len() == keys.len(),
        closed_graph(edges),
        0 <= probe.1 < keys.len(),
    ensures
        search_state(slots, seq![probe.1], keys, edges, before, probe),
{
    let queue = seq![probe.1];
    assert(queue[0] == probe.1);
    assert(queue.contains(probe.1));
    if !(keys[probe.1] is Analysis) {
        lemma_reaches_itself(keys, edges, probe.1);
    }
    assert forall|u: int, w: int|
        0 <= u < slots.len() && slots[u] is Some && 0 <= w < slots.len() && !(keys[w] is Analysis)
            && #[trigger] edges[u].contains(w) implies (#[trigger] slots[w]) is Some || queue.contains(
        w,
    ) by {
        lemma_gating_spreads(keys, edges, before, u, w);
    }
}

/// The search goes past a vertex whose slot is filled, and past an
/// analysis.
proof fn lemma_search_skip(
    slots: Seq<Option<usize>>,
    queue: Seq<int>,
    keys: Seq<NodeKey>,
    edges: Seq<Seq<int>>,
    before: Seq<Probe>,
    probe: Probe,
)
    requires
        search_state(slots, queue, keys, edges, before, probe),
        queue.len() > 0,
        slots[queue.last()] is Some || keys[queue.last()] is Analysis,
    ensures
        search_state(slots, queue.drop_last(), keys, edges, before, probe),
{
    let rest = queue.drop_last();
    let i = queue.last();
    assert(0 <= queue[queue.len() - 1] < keys.len());
    assert forall|w: int| queue.contains(w) && w != i implies rest.contains(w) by {
        let k = choose|k: int| 0 <= k < queue.len() && queue[k] == w;
        assert(rest[k] == w);
    }
    assert forall|k: int| 0 <= k < rest.len() implies 0 <= #[trigger] rest[k] < keys.len() && (
    keys[rest[k]] is Analysis || reaches(keys, edges, probe.1, rest[k])) by {
        assert(rest[k] == queue[k]);
    }
}

/// The search fills the slot of a vertex that is no analysis, and then has
/// the ends of its edges to visit.
proof fn lemma_search_visit(
    slots: Seq<Option<usize>>,
    queue: Seq<int>,
    keys: Seq<NodeKey>,
    edges: Seq<Seq<int>>,
    before: Seq<Probe>,
    probe: Probe,
    analysis: usize,
)
    requires
        search_state(slots, queue, keys, edges, before, probe),
        queue.len() > 0,
        slots[queue.last()] is None,
        !(keys[queue.last()] is Analysis),
        probe.0 == analysis,
    ensures
        search_state(
            slots.update(queue.last(), Some(analysis)),
            queue.drop_last() + edges[queue.last()],
            keys,
            edges,
            before,
            probe,
        ),
        free_slots(slots.update(queue.last(), Some(analysis))) + 1 == free_slots(slots),
{
    let i = queue.last();
    let rest = queue.drop_last();
    let filled = slots.update(i, Some(analysis));
    let next = rest + edges[i];
    assert(0 <= queue[queue.len() - 1] < keys.len());
    assert(reaches(keys, edges, probe.1, i));
    lemma_fill_slot(slots, i, analysis);
    assert forall|w: int| queue.contains(w) && w != i implies next.contains(w) by {
        let k = choose|k: int| 0 <= k < queue.len() && queue[k] == w;
        assert(next[k] == w);
    }
    assert forall|w: int| edges[i].contains(w) implies next.contains(w) by {
        let k = choose|k: int| 0 <= k < edges[i].len() && edges[i][k] == w;
        assert(next[rest.len() + k] == w);
    }
    assert forall|v: int|
        0 <= v < filled.len() && gating_analysis(keys, edges, before, v) is Some implies slot_analysis(
        #[trigger] filled[v],
    ) == gating_analysis(keys, edges, before, v) by {
        assert(slot_analysis(slots[v]) == gating_analysis(keys, edges, before, v));
    }
    assert forall|v: int|
        0 <= v < filled.len() && gating_analysis(keys, edges, before, v) is None && (#[trigger] filled[v])
            is Some implies slot_analysis(filled[v]) == Some(probe.0) && reaches(
        keys,
        edges,
        probe.1,
        v,
    ) by {
        if v != i {
            assert(slots[v] is Some);
        }
    }
    assert forall|u: int, w: int|
        0 <= u < filled.len() && filled[u] is Some && 0 <= w < filled.len() && !(keys[w] is Analysis)
            && #[trigger] edges[u].contains(w) implies (#[trigger] filled[w]) is Some || next.contains(
        w,
    ) by {
        if u != i {
            assert(slots[u] is Some);
            assert(slots[w] is Some || queue.contains(w));
        }
    }
    assert forall|k: int| 0 <= k < next.len() implies 0 <= #[trigger] next[k] < keys.len() && (
    keys[next[k]] is Analysis || reaches(keys, edges, probe.1, next[k])) by {
        if k < rest.len() {
            assert(next[k] == queue[k]);
        } else {
            let w = edges[i][k - rest.len()];
            assert(next[k] == w);
            assert(edges[i].contains(w));
            if !(keys[w] is Analysis) {
                lemma_reaches_next(keys, edges, probe.1, i, w);
            }
        }
    }
    if !(keys[probe.1] is Analysis) && probe.1 != i {
        assert(slots[probe.1] is Some || queue.contains(probe.1));
    }
}

/// With nothing left to visit, the slots hold the gating analyses under the
/// probes before and this one.
proof fn lemma_search_end(
    slots: Seq<Option<usize>>,
    keys: Seq<NodeKey>,
    edges: Seq<Seq<int>>,
    before: Seq<Probe>,
    probe: Probe,
)
    requires
        search_state(slots, Seq::empty(), keys, edges, before, probe),
    ensures
        holds_analyses(slots, keys, edges, before.push(probe)),
{
    let queue = Seq::<int>::empty();
    assert forall|u: int, w: int|
        0 <= u < slots.len() && slots[u] is Some && 0 <= w < slots.len() && !(keys[w] is Analysis)
            && #[trigger] edges[u].contains(w) implies (#[trigger] slots[w]) is Some by {
        assert(slots[w] is Some || queue.contains(w));
    }
    assert(search_done(slots, keys, edges, before, probe));
    lemma_search_done(slots, keys, edges, before, probe);
}

/// Follows one probe: every vertex without a gating analysis that the root of
/// the probe reaches by a walk that meets no analysis gets the analysis of the
/// probe as its gating analysis.
fn follow_probe(
    keys: &IndexedKeys<NodeKey>,
    graph: &Graph,
    slots: &mut Vec<Option<usize>>,
    analysis: usize,
    root: usize,
    Ghost(before): Ghost<Seq<Probe>>,
)
    requires
        graph@.len() == keys@.len(),
        closed_graph(graph@),
        root < keys@.len(),
        holds_analyses(old(slots)@, keys@, graph@, before),
    ensures
        holds_analyses(final(slots)@, keys@, graph@, before.push((analysis as int, root as int))),
{
    let ghost probe: Probe = (analysis as int, root as int);
    let mut queue: Vec<usize> = Vec::new();
    queue.push(root);
    proof {
        lemma_search_start(slots@, keys@, graph@, before, probe);
        assert(as_vertices(queue@) == seq![probe.1]);
    }
    while queue.len() > 0
        invariant
            search_state(slots@, as_vertices(queue@), keys@, graph@, before, probe),
            probe == (analysis as int, root as int),
        decreases free_slots(slots@), queue.len(),
    {
        let ghost waiting = as_vertices(queue@);
        let ghost filled = slots@;
        let i = queue.pop().unwrap();
        assert(waiting.last() == i);
        assert(as_vertices(queue@) == waiting.drop_last());
        assert(0 <= waiting[waiting.len() - 1] < keys@.len());
        if slots[i].is_some() || keys.get(i).is_analysis() {
            proof {
                lemma_search_skip(filled, waiting, keys@, graph@, before, probe);
            }
        } else {
            slots.set(i, Some(analysis));
            let ghost rest = queue@;
            let ends = &graph.edges[i];
            let mut j: usize = 0;
            while j < ends.len()
                invariant
                    j <= ends.len(),
                    queue@ == rest + ends@.take(j as int),
                decreases ends.len() - j,
            {
                queue.push(ends[j]);
                assert(ends@.take(j + 1) == ends@.take(j as int).push(ends@[j as int]));
                j += 1;
            }
            proof {
                assert(ends@.take(ends.len() as int) == ends@);
                assert(graph@[i as int] == as_vertices(ends@));
                assert(as_vertices(queue@) == waiting.drop_last() + graph@[i as int]);
                lemma_search_visit(filled, waiting, keys@, graph@, before, probe, analysis);
            }
        }
    }
    proof {
        assert(as_vertices(queue@) == Seq::<int>::empty());
        lemma_search_end(slots@, keys@, graph@, before, probe);
    }
}

/// Nodes that are hidden until an analysis has finished.
#[derive(Debug)]
pub struct VisibilityEdge {
    /// The analysis.
    pub node: NodeKey,
    /// The nodes that the analysis makes visible.
    pub makes_visible: Vec<NodeKey>,
}

impl View for VisibilityEdge {
    type V = VisibilityRecord;

    open spec fn view(&self) -> VisibilityRecord {
        VisibilityRecord { node: self.node, makes_visible: self.makes_visible@ }
    }
}

/// The top-level targets that the edges stand for.
pub open spec fn targets_of(edges: Seq<VisibilityEdge>) -> Seq<VisibilityRecord> {
    edges.map_values(|edge: VisibilityEdge| edge@)
}

/// For each vertex its gating analysis: that of the first top-level target that
/// makes the vertex visible, through a node that reaches the vertex by a
/// walk that meets no analysis.
pub fn first_analysis(
    keys: &IndexedKeys<NodeKey>,
    graph: &Graph,
    top_level: &Vec<VisibilityEdge>,
) -> (slots: Vec<Option<usize>>)
    requires
        keys.wf(),
        graph@.len() == keys@.len(),
        closed_graph(graph@),
    ensures
        holds_analyses(slots@, keys@, graph@, probes(keys@, targets_of(top_level@))),
{
    let ghost targets = targets_of(top_level@);
    let mut slots: Vec<Option<usize>> = Vec::new();
    let mut v: usize = 0;
    let n = keys.len();
    while v < n
        invariant
            v <= n,
            n == keys@.len(),
            slots@.len() == v,
            forall|u: int| 0 <= u < v ==> (#[trigger] slots@[u]) is None,
        decreases n - v,
    {
        slots.push(None);
        v += 1;
    }
    let mut t: usize = 0;
    assert(targets.take(0) == Seq::<VisibilityRecord>::empty());
    while t < top_level.len()
        invariant
            t <= top_level.len(),
            targets == targets_of(top_level@),
            keys.wf(),
            graph@.len() == keys@.len(),
            closed_graph(graph@),
            holds_analyses(slots@, keys@, graph@, probes(keys@, targets.take(t as int))),
        decreases top_level.len() - t,
    {
        let ghost done = probes(keys@, targets.take(t as int));
        assert(targets.take(t + 1).drop_last() == targets.take(t as int));
        assert(targets.take(t + 1).last() == top_level@[t as int]@);
        let edge = &top_level[t];
        match find_vertex(keys, edge.node) {
            Some(analysis) => {
                let roots = resolve(keys, &edge.makes_visible);
                let ghost found = as_vertices(roots@).map_values(|root: int| (analysis as int, root));
                let mut r: usize = 0;
                assert(done + found.take(0) == done);
                while r < roots.len()
                    invariant
                        r <= roots.len(),
                        graph@.len() == keys@.len(),
                        closed_graph(graph@),
                        found == as_vertices(roots@).map_values(|root: int| (analysis as int, root)),
                        forall|j: int| 0 <= j < roots@.len() ==> (#[trigger] roots@[j]) < keys@.len(),
                        holds_analyses(slots@, keys@, graph@, done + found.take(r as int)),
                    decreases roots.len() - r,
                {
                    follow_probe(
                        keys,
                        graph,
                        &mut slots,
                        analysis,
                        roots[r],
                        Ghost(done + found.take(r as int)),
                    );
                    assert((done + found.take(r as int)).push((analysis as int, roots@[r as int] as int))
                        == done + found.take(r + 1));
                    r += 1;
                }
                assert(found.take(roots.len() as int) == found);
            },
            None => {},
        }
        t += 1;
    }
    assert(targets.take(top_level.len() as int) == targets);
    slots
}

/// The graph with an edge from each vertex that has a gating analysis to its
/// gating analysis, behind the edges that the vertex had.
pub fn add_visibility_edges(graph: &Graph, slots: &Vec<Option<usize>>) -> (gated: Graph)
    requires
        slots@.len() == graph@.len(),
    ensures
        gated@.len() == graph@.len(),
        forall|v: int|
            0 <= v < graph@.len() ==> #[trigger] gated@[v] == match slot_analysis(slots@[v]) {
                Some(analysis) => graph@[v].push(analysis),
                None => graph@[v],
            },
{
    let mut edges: Vec<Vec<usize>> = Vec::new();
    let mut v: usize = 0;
    while v < graph.edges.len()
        invariant
            v <= graph.edges.len(),
            slots@.len() == graph@.len(),
            edges@.len() == v,
            forall|u: int|
                0 <= u < v ==> as_vertices((#[trigger] edges@[u])@) == match slot_analysis(slots@[u]) {
                    Some(analysis) => graph@[u].push(analysis),
                    None => graph@[u],
                },
        decreases graph.edges.len() - v,
    {
        let ends = &graph.edges[v];
        let mut list: Vec<usize> = Vec::new();
        let mut j: usize = 0;
        while j < ends.len()
            invariant
                j <= ends.len(),
                list@ == ends@.take(j as int),
            decreases ends.len() - j,
        {
            list.push(ends[j]);
            assert(ends@.take(j + 1) == ends@.take(j as int).push(ends@[j as int]));
            j += 1;
        }
        assert(ends@.take(ends.len() as int) == ends@);
        assert(as_vertices(list@) == graph@[v as int]);
        match slots[v] {
            Some(analysis) => {
                list.push(analysis);
                assert(as_vertices(list@) == graph@[v as int].push(analysis as int));
            },
            None => {},
        }
        edges.push(list);
        v += 1;
    }
    let gated = Graph { edges };
    assert forall|v: int| 0 <= v < graph@.len() implies #[trigger] gated@[v] == match slot_analysis(
        slots@[v],
    ) {
        Some(analysis) => graph@[v].push(analysis),
        None => graph@[v],
    } by {
        let e = gated.edges@[v];
    }
    gated
}

/// The number of edges of the graph, where it fits in 64 bits.
pub fn count_edges(graph: &Graph) -> (count: Option<u64>)
    ensures
        count is Some <==> edge_count(graph@) <= u64::MAX,
        count matches Some(n) ==> n == edge_count(graph@),
{
    let mut count: u64 = 0;
    let mut v: usize = 0;
    assert(graph@.take(0) == Seq::<Seq<int>>::empty());
    while v < graph.edges.len()
        invariant
            v <= graph.edges.len(),
            count == edge_count(graph@.take(v as int)),
        decreases graph.edges.len() - v,
    {
        assert(graph@.take(v + 1).drop_last() == graph@.take(v as int));
        assert(graph@.take(v + 1).last().len() == graph.edges@[v as int]@.len());
        match count.checked_add(graph.edges[v].len() as u64) {
            Some(sum) => {
                count = sum;
            },
            None => {
                proof {
                    lemma_edge_count_grows(graph@, v + 1);
                }
                return None;
            },
        }
        v += 1;
    }
    assert(graph@.take(graph.edges.len() as int) == graph@);
    Some(count)
}

/// The first vertices of a graph have no more edges than the whole graph.
pub proof fn lemma_edge_count_grows(edges: Seq<Seq<int>>, n: int)
    requires
        0 <= n <= edges.len(),
    ensures
        edge_count(edges.take(n)) <= edge_count(edges),
    decreases edges.len() - n,
{
    if n < edges.len() {
        lemma_edge_count_grows(edges, n + 1);
        assert(edges.take(n + 1).drop_last() == edges.take(n));
    } else {
        assert(edges.take(n) == edges);
    }
}

} // verus!
