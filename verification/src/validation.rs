//! Structural validation of a roster.

use vstd::prelude::*;
use vstd::set_lib::{lemma_int_range, set_int_range};
use crate::network::{SimulationControllerNode, SimulationControllerNodeType};
use crate::packet::NodeId;

verus! {

/// Why a roster is refused.
#[derive(Debug, Clone, Copy, PartialEq, Eq, Structural)]
pub enum ValidationError {
    /// The first node lists the second as a neighbour, but not the reverse.
    NotBidirectional(NodeId, NodeId),
    NotConnected,
    ClientConnectionError,
    ServerConnectionError,
}

/// `i` is the first position of the roster that holds a node with this id.
pub open spec fn is_first_with_id(roster: Seq<SimulationControllerNode>, id: NodeId, i: int) -> bool {
    &&& 0 <= i < roster.len()
    &&& roster[i].node_id == id
    &&& forall|j: int| 0 <= j < i ==> (#[trigger] roster[j]).node_id != id
}

/// Some entry of the roster has this id.
pub open spec fn listed(roster: Seq<SimulationControllerNode>, id: NodeId) -> bool {
    exists|i: int| 0 <= i < roster.len() && (#[trigger] roster[i]).node_id == id
}

/// Position of the first roster entry with this id, if there is one.
pub fn find_node(network: &Vec<SimulationControllerNode>, id: NodeId) -> (found: Option<usize>)
    ensures
        match found {
            Some(i) => is_first_with_id(network@, id, i as int),
            None => !listed(network@, id),
        },
{
    let mut i: usize = 0;
    while i < network.len()
        invariant
            i <= network.len(),
            forall|j: int| 0 <= j < i ==> (#[trigger] network@[j]).node_id != id,
        decreases network.len() - i,
    {
        if network[i].node_id == id {
            return Some(i);
        }
        i += 1;
    }
    None
}

/// The first roster entry with this id is a drone.
pub open spec fn listed_as_drone(roster: Seq<SimulationControllerNode>, id: NodeId) -> bool {
    exists|i: int| is_first_with_id(roster, id, i) && (#[trigger] roster[i]).node_type is DRONE
}

/// A client or a server may name this neighbour: the roster does not know
/// the id, or knows it as a drone.
pub open spec fn admissible_neighbour(roster: Seq<SimulationControllerNode>, id: NodeId) -> bool {
    listed(roster, id) ==> listed_as_drone(roster, id)
}

/// Every neighbour that entry `k` names is admissible for a client or server.
pub open spec fn neighbours_admissible(roster: Seq<SimulationControllerNode>, k: int) -> bool {
    forall|p: int|
        0 <= p < roster[k].neighbours@.len() ==> admissible_neighbour(
            roster,
            #[trigger] roster[k].neighbours@[p],
        )
}

/// Entry `k` meets the constraints of its role: a drone always does, a
/// server names at least two neighbours, a client one or two, and clients
/// and servers name drones only.
pub open spec fn role_ok(roster: Seq<SimulationControllerNode>, k: int) -> bool {
    match roster[k].node_type {
        SimulationControllerNodeType::DRONE { .. } => true,
        SimulationControllerNodeType::SERVER { .. } => {
            roster[k].neighbours@.len() >= 2 && neighbours_admissible(roster, k)
        },
        SimulationControllerNodeType::CLIENT { .. } => {
            1 <= roster[k].neighbours@.len() <= 2 && neighbours_admissible(roster, k)
        },
    }
}

/// Every entry meets the constraints of its role.
pub open spec fn all_roles_ok(roster: Seq<SimulationControllerNode>) -> bool {
    forall|k: int| 0 <= k < roster.len() ==> role_ok(roster, k)
}

/// Entry `k` breaks the constraints of its role and no entry before it does.
pub open spec fn first_offender(roster: Seq<SimulationControllerNode>, k: int) -> bool {
    &&& 0 <= k < roster.len()
    &&& !role_ok(roster, k)
    &&& forall|j: int| 0 <= j < k ==> role_ok(roster, j)
}

/// Entry `k` records a link from its own id to `b`. A drone is linked to
/// itself and to every neighbour it names; a client or a server to each
/// neighbour that the roster knows as a drone.
pub open spec fn links_to(roster: Seq<SimulationControllerNode>, k: int, b: NodeId) -> bool {
    if roster[k].node_type is DRONE {
        b == roster[k].node_id || roster[k].neighbours@.contains(b)
    } else {
        roster[k].neighbours@.contains(b) && listed_as_drone(roster, b)
    }
}

/// The roster records a link from `a` to `b`.
pub open spec fn has_edge(roster: Seq<SimulationControllerNode>, a: NodeId, b: NodeId) -> bool {
    exists|k: int| 0 <= k < roster.len() && roster[k].node_id == a && #[trigger] links_to(roster, k, b)
}

/// The directed links that a roster records.
pub open spec fn roster_edges(roster: Seq<SimulationControllerNode>) -> Set<(NodeId, NodeId)> {
    Set::new(|e: (NodeId, NodeId)| has_edge(roster, e.0, e.1))
}

/// A link joins `a` and `b`, in one direction or the other.
pub open spec fn touches(edges: Set<(NodeId, NodeId)>, a: NodeId, b: NodeId) -> bool {
    edges.contains((a, b)) || edges.contains((b, a))
}

/// `a` is an endpoint of some link.
pub open spec fn is_node(edges: Set<(NodeId, NodeId)>, a: NodeId) -> bool {
    exists|b: NodeId| #[trigger] touches(edges, a, b)
}

/// Every link is recorded in both directions.
pub open spec fn symmetric(edges: Set<(NodeId, NodeId)>) -> bool {
    forall|a: NodeId, b: NodeId| #[trigger] edges.contains((a, b)) ==> edges.contains((b, a))
}

/// `(a, b)` is a link without its reverse, and the least such pair when
/// pairs are ordered by first and then by second component.
pub open spec fn first_asymmetric(edges: Set<(NodeId, NodeId)>, a: NodeId, b: NodeId) -> bool {
    &&& edges.contains((a, b))
    &&& !edges.contains((b, a))
    &&& forall|x: NodeId, y: NodeId|
        (x < a || (x == a && y < b)) && #[trigger] edges.contains((x, y)) ==> edges.contains((y, x))
}

/// Each node of `path` is linked to the next.
pub open spec fn is_path(edges: Set<(NodeId, NodeId)>, path: Seq<NodeId>) -> bool {
    forall|i: int| 0 <= i < path.len() - 1 ==> edges.contains((#[trigger] path[i], path[i + 1]))
}

/// Some path leads from `a` to `b`.
pub open spec fn reachable(edges: Set<(NodeId, NodeId)>, a: NodeId, b: NodeId) -> bool {
    exists|path: Seq<NodeId>|
        #[trigger] is_path(edges, path) && path.len() > 0 && path[0] == a && path.last() == b
}

/// Every node can be reached from every other.
pub open spec fn connected(edges: Set<(NodeId, NodeId)>) -> bool {
    forall|a: NodeId, b: NodeId| is_node(edges, a) && is_node(edges, b) ==> reachable(edges, a, b)
}

/// No link leaves the set.
pub open spec fn closed_under_links(edges: Set<(NodeId, NodeId)>, group: Set<NodeId>) -> bool {
    forall|x: NodeId, y: NodeId|
        group.contains(x) && #[trigger] edges.contains((x, y)) ==> group.contains(y)
}

/// The verdict that a roster deserves. The role constraints come first, in
/// roster order; then the symmetry of the links; then connectivity.
pub open spec fn verdict_holds(
    roster: Seq<SimulationControllerNode>,
    verdict: Result<(), ValidationError>,
) -> bool {
    match verdict {
        Ok(()) => {
            &&& all_roles_ok(roster)
            &&& symmetric(roster_edges(roster))
            &&& connected(roster_edges(roster))
        },
        Err(ValidationError::ServerConnectionError) => exists|k: int|
            #[trigger] first_offender(roster, k) && roster[k].node_type is SERVER,
        Err(ValidationError::ClientConnectionError) => exists|k: int|
            #[trigger] first_offender(roster, k) && roster[k].node_type is CLIENT,
        Err(ValidationError::NotBidirectional(a, b)) => {
            &&& all_roles_ok(roster)
            &&& first_asymmetric(roster_edges(roster), a, b)
        },
        Err(ValidationError::NotConnected) => {
            &&& all_roles_ok(roster)
            &&& symmetric(roster_edges(roster))
            &&& !connected(roster_edges(roster))
        },
    }
}

/// A node is reachable from itself.
pub proof fn lemma_reachable_self(edges: Set<(NodeId, NodeId)>, a: NodeId)
    ensures
        reachable(edges, a, a),
{
    let path = seq![a];
    assert(is_path(edges, path));
    assert(path.len() > 0 && path[0] == a && path.last() == a);
}

/// A path can be extended by one link at its end.
pub proof fn lemma_reachable_step(edges: Set<(NodeId, NodeId)>, a: NodeId, b: NodeId, c: NodeId)
    requires
        reachable(edges, a, b),
        edges.contains((b, c)),
    ensures
        reachable(edges, a, c),
{
    let path = choose|path: Seq<NodeId>|
        #[trigger] is_path(edges, path) && path.len() > 0 && path[0] == a && path.last() == b;
    let longer = path.push(c);
    assert forall|i: int| 0 <= i < longer.len() - 1 implies edges.contains(
        (#[trigger] longer[i], longer[i + 1]),
    ) by {
        if i < path.len() - 1 {
            assert(longer[i] == path[i] && longer[i + 1] == path[i + 1]);
        }
    }
    assert(is_path(edges, longer));
    assert(longer.len() > 0 && longer[0] == a && longer.last() == c);
}

/// A path can be extended by one link at its start.
pub proof fn lemma_reachable_prepend(edges: Set<(NodeId, NodeId)>, a: NodeId, b: NodeId, c: NodeId)
    requires
        edges.contains((a, b)),
        reachable(edges, b, c),
    ensures
        reachable(edges, a, c),
{
    let path = choose|path: Seq<NodeId>|
        #[trigger] is_path(edges, path) && path.len() > 0 && path[0] == b && path.last() == c;
    let longer = seq![a] + path;
    assert forall|i: int| 0 <= i < longer.len() - 1 implies edges.contains(
        (#[trigger] longer[i], longer[i + 1]),
    ) by {
        if i > 0 {
            assert(longer[i] == path[i - 1] && longer[i + 1] == path[i]);
        }
    }
    assert(is_path(edges, longer));
    assert(longer.len() > 0 && longer[0] == a && longer.last() == c);
}

/// Every node of a path that starts inside a closed set lies inside it.
proof fn lemma_path_stays(edges: Set<(NodeId, NodeId)>, group: Set<NodeId>, path: Seq<NodeId>, i: int)
    requires
        closed_under_links(edges, group),
        is_path(edges, path),
        0 <= i < path.len(),
        group.contains(path[0]),
    ensures
        group.contains(path[i]),
    decreases i,
{
    if i > 0 {
        lemma_path_stays(edges, group, path, i - 1);
        assert(edges.contains((path[i - 1], path[i - 1 + 1])));
    }
}

/// What can be reached from a member of a closed set is a member too.
pub proof fn lemma_closed_holds_reachable(
    edges: Set<(NodeId, NodeId)>,
    group: Set<NodeId>,
    a: NodeId,
    b: NodeId,
)
    requires
        closed_under_links(edges, group),
        group.contains(a),
        reachable(edges, a, b),
    ensures
        group.contains(b),
{
    let path = choose|path: Seq<NodeId>|
        #[trigger] is_path(edges, path) && path.len() > 0 && path[0] == a && path.last() == b;
    lemma_path_stays(edges, group, path, path.len() - 1);
}

/// Reachability composes.
pub proof fn lemma_reachable_trans(edges: Set<(NodeId, NodeId)>, a: NodeId, b: NodeId, c: NodeId)
    requires
        reachable(edges, a, b),
        reachable(edges, b, c),
    ensures
        reachable(edges, a, c),
{
    let group = Set::new(|x: NodeId| reachable(edges, a, x));
    assert forall|x: NodeId, y: NodeId|
        group.contains(x) && #[trigger] edges.contains((x, y)) implies group.contains(y) by {
        lemma_reachable_step(edges, a, x, y);
    }
    lemma_closed_holds_reachable(edges, group, b, c);
}

/// Where every link has its reverse, reachability goes both ways.
pub proof fn lemma_reachable_sym(edges: Set<(NodeId, NodeId)>, a: NodeId, b: NodeId)
    requires
        symmetric(edges),
        reachable(edges, a, b),
    ensures
        reachable(edges, b, a),
{
    let group = Set::new(|x: NodeId| reachable(edges, x, a));
    assert forall|x: NodeId, y: NodeId|
        group.contains(x) && #[trigger] edges.contains((x, y)) implies group.contains(y) by {
        assert(edges.contains((y, x)));
        lemma_reachable_prepend(edges, y, x, a);
    }
    lemma_reachable_self(edges, a);
    lemma_closed_holds_reachable(edges, group, a, b);
}

/// During a search from `start`: whatever is marked or waits on the stack
/// can be reached from `start`.
#[verifier::opaque]
spec fn search_sound(edges: Set<(NodeId, NodeId)>, start: NodeId, marks: Seq<bool>, stack: Seq<NodeId>) -> bool {
    &&& forall|t: int| 0 <= t < stack.len() ==> reachable(edges, start, #[trigger] stack[t])
    &&& forall|x: NodeId| #[trigger] marks[x as int] ==> reachable(edges, start, x)
}

/// During a search from `start`: `start` is marked or waits on the stack,
/// and so does every id that a marked id is linked to.
#[verifier::opaque]
spec fn search_closed(edges: Set<(NodeId, NodeId)>, start: NodeId, marks: Seq<bool>, stack: Seq<NodeId>) -> bool {
    &&& marks[start as int] || stack.contains(start)
    &&& forall|x: NodeId, y: NodeId|
        marks[x as int] && #[trigger] edges.contains((x, y)) ==> marks[y as int] || stack.contains(y)
}

/// What waited on a stack still waits after its top is taken, but for the top.
proof fn lemma_drop_last_contains(stack: Seq<NodeId>, y: NodeId)
    requires
        stack.len() > 0,
        stack.contains(y),
    ensures
        y == stack.last() || stack.drop_last().contains(y),
{
    let t = choose|t: int| 0 <= t < stack.len() && stack[t] == y;
    if t < stack.len() - 1 {
        assert(stack.drop_last()[t] == y);
    }
}

/// A search starts with nothing marked and `start` alone on the stack.
proof fn lemma_search_start(edges: Set<(NodeId, NodeId)>, start: NodeId, marks: Seq<bool>, stack: Seq<NodeId>)
    requires
        marks.len() == 256,
        forall|x: int| 0 <= x < 256 ==> !marks[x],
        stack.len() == 1,
        stack[0] == start,
    ensures
        search_sound(edges, start, marks, stack),
        search_closed(edges, start, marks, stack),
{
    reveal(search_sound);
    reveal(search_closed);
    lemma_reachable_self(edges, start);
    assert(stack.contains(start));
}

/// When the stack is empty, the marked ids are those that can be reached.
proof fn lemma_search_done(edges: Set<(NodeId, NodeId)>, start: NodeId, marks: Seq<bool>, stack: Seq<NodeId>)
    requires
        marks.len() == 256,
        stack.len() == 0,
        search_sound(edges, start, marks, stack),
        search_closed(edges, start, marks, stack),
    ensures
        forall|x: NodeId| marks[x as int] == reachable(edges, start, x),
{
    reveal(search_sound);
    reveal(search_closed);
    let group = Set::new(|x: NodeId| marks[x as int]);
    assert(!stack.contains(start));
    assert forall|x: NodeId, y: NodeId|
        group.contains(x) && #[trigger] edges.contains((x, y)) implies group.contains(y) by {
        assert(!stack.contains(y));
    }
    assert forall|x: NodeId| reachable(edges, start, x) implies marks[x as int] by {
        lemma_closed_holds_reachable(edges, group, start, x);
    }
}

/// Taking a marked id off the stack keeps the search's invariant.
proof fn lemma_search_skip(edges: Set<(NodeId, NodeId)>, start: NodeId, marks: Seq<bool>, stack: Seq<NodeId>)
    requires
        marks.len() == 256,
        stack.len() > 0,
        marks[stack.last() as int],
        search_sound(edges, start, marks, stack),
        search_closed(edges, start, marks, stack),
    ensures
        search_sound(edges, start, marks, stack.drop_last()),
        search_closed(edges, start, marks, stack.drop_last()),
{
    reveal(search_sound);
    reveal(search_closed);
    let rest = stack.drop_last();
    assert forall|t: int| 0 <= t < rest.len() implies reachable(edges, start, #[trigger] rest[t]) by {
        assert(rest[t] == stack[t]);
    }
    if stack.contains(start) {
        lemma_drop_last_contains(stack, start);
    }
    assert forall|x: NodeId, y: NodeId|
        marks[x as int] && #[trigger] edges.contains((x, y)) implies marks[y as int] || rest.contains(
            y,
        ) by {
        if stack.contains(y) {
            lemma_drop_last_contains(stack, y);
        }
    }
}

/// Marking the top of the stack and pushing what it is linked to keeps the
/// search's invariant.
proof fn lemma_search_visit(
    edges: Set<(NodeId, NodeId)>,
    start: NodeId,
    marks: Seq<bool>,
    stack: Seq<NodeId>,
    after: Seq<NodeId>,
)
    requires
        marks.len() == 256,
        stack.len() > 0,
        search_sound(edges, start, marks, stack),
        search_closed(edges, start, marks, stack),
        forall|y: NodeId| stack.drop_last().contains(y) ==> after.contains(y),
        forall|y: NodeId| edges.contains((stack.last(), y)) ==> after.contains(y),
        forall|t: int|
            0 <= t < after.len() ==> stack.drop_last().contains(#[trigger] after[t]) || edges.contains(
                (stack.last(), after[t]),
            ),
    ensures
        search_sound(edges, start, marks.update(stack.last() as int, true), after),
        search_closed(edges, start, marks.update(stack.last() as int, true), after),
{
    reveal(search_sound);
    reveal(search_closed);
    let v = stack.last();
    let rest = stack.drop_last();
    let marked = marks.update(v as int, true);
    assert(reachable(edges, start, v)) by {
        assert(stack[stack.len() - 1] == v);
    }
    assert forall|t: int| 0 <= t < after.len() implies reachable(edges, start, #[trigger] after[t]) by {
        if rest.contains(after[t]) {
            let u = choose|u: int| 0 <= u < rest.len() && rest[u] == after[t];
            assert(stack[u] == after[t]);
        } else {
            lemma_reachable_step(edges, start, v, after[t]);
        }
    }
    assert forall|x: NodeId| #[trigger] marked[x as int] implies reachable(edges, start, x) by {
        if x != v {
            assert(marks[x as int]);
        }
    }
    if stack.contains(start) {
        lemma_drop_last_contains(stack, start);
    }
    assert forall|x: NodeId, y: NodeId|
        marked[x as int] && #[trigger] edges.contains((x, y)) implies marked[y as int] || after.contains(
            y,
        ) by {
        if x != v {
            assert(marks[x as int]);
            if stack.contains(y) {
                lemma_drop_last_contains(stack, y);
            }
        }
    }
}

/// The links of a roster, as a table over all pairs of ids.
pub struct Topology {
    links: Vec<bool>,
}

impl View for Topology {
    type V = Set<(NodeId, NodeId)>;

    closed spec fn view(&self) -> Set<(NodeId, NodeId)> {
        Set::new(|e: (NodeId, NodeId)| self.links@[e.0 as int * 256 + e.1 as int])
    }
}

/// Some neighbour before position `p` of the list is `b`.
spec fn named_before(neighbours: Seq<NodeId>, p: int, b: NodeId) -> bool {
    exists|q: int| 0 <= q < p && #[trigger] neighbours[q] == b
}

/// The links that entry `k` records through its first `p` neighbours.
spec fn links_upto(roster: Seq<SimulationControllerNode>, k: int, p: int, b: NodeId) -> bool {
    if roster[k].node_type is DRONE {
        b == roster[k].node_id || named_before(roster[k].neighbours@, p, b)
    } else {
        named_before(roster[k].neighbours@, p, b) && listed_as_drone(roster, b)
    }
}

/// The links that the first `k` entries record.
spec fn edge_upto(roster: Seq<SimulationControllerNode>, k: int, a: NodeId, b: NodeId) -> bool {
    exists|j: int| 0 <= j < k && roster[j].node_id == a && #[trigger] links_to(roster, j, b)
}

/// One more neighbour adds itself to those named before.
proof fn lemma_named_before_step(neighbours: Seq<NodeId>, p: int, b: NodeId)
    requires
        0 <= p < neighbours.len(),
    ensures
        named_before(neighbours, p + 1, b) == (named_before(neighbours, p, b) || b == neighbours[p]),
{
    if named_before(neighbours, p + 1, b) {
        let q = choose|q: int| 0 <= q < p + 1 && #[trigger] neighbours[q] == b;
        if q < p {
            assert(named_before(neighbours, p, b));
        }
    }
    if named_before(neighbours, p, b) {
        let q = choose|q: int| 0 <= q < p && #[trigger] neighbours[q] == b;
        assert(0 <= q < p + 1 && neighbours[q] == b);
    }
    if b == neighbours[p] {
        assert(0 <= p < p + 1 && neighbours[p] == b);
    }
}

/// Named before the end of the list is named in the list.
proof fn lemma_named_before_all(neighbours: Seq<NodeId>, b: NodeId)
    ensures
        named_before(neighbours, neighbours.len() as int, b) == neighbours.contains(b),
{
    if named_before(neighbours, neighbours.len() as int, b) {
        let q = choose|q: int| 0 <= q < neighbours.len() && #[trigger] neighbours[q] == b;
        assert(neighbours.contains(b));
    }
    if neighbours.contains(b) {
        let q = choose|q: int| 0 <= q < neighbours.len() && neighbours[q] == b;
        assert(0 <= q < neighbours.len() && neighbours[q] == b);
    }
}

/// One more entry adds its links to those recorded before.
proof fn lemma_edge_upto_step(roster: Seq<SimulationControllerNode>, k: int, a: NodeId, b: NodeId)
    requires
        0 <= k < roster.len(),
    ensures
        edge_upto(roster, k + 1, a, b) == (edge_upto(roster, k, a, b) || (roster[k].node_id == a
            && links_to(roster, k, b))),
{
    if edge_upto(roster, k + 1, a, b) {
        let j = choose|j: int| 0 <= j < k + 1 && roster[j].node_id == a && #[trigger] links_to(roster, j, b);
        if j < k {
            assert(edge_upto(roster, k, a, b));
        }
    }
    if edge_upto(roster, k, a, b) {
        let j = choose|j: int| 0 <= j < k && roster[j].node_id == a && #[trigger] links_to(roster, j, b);
        assert(0 <= j < k + 1);
    }
    if roster[k].node_id == a && links_to(roster, k, b) {
        assert(edge_upto(roster, k + 1, a, b));
    }
}

impl Topology {
    /// The table has an entry for every pair of ids.
    pub closed spec fn wf(&self) -> bool {
        self.links@.len() == 65536
    }

    /// A topology without links.
    pub fn new() -> (g: Topology)
        ensures
            g.wf(),
            g@ == Set::<(NodeId, NodeId)>::empty(),
    {
        let g = Topology { links: vec![false; 65536] };
        assert(g@ =~= Set::<(NodeId, NodeId)>::empty());
        g
    }

    /// Whether a link from `a` to `b` is recorded.
    pub fn has_link(&self, a: NodeId, b: NodeId) -> (r: bool)
        requires
            self.wf(),
        ensures
            r == self@.contains((a, b)),
    {
        self.links[a as usize * 256 + b as usize]
    }

    /// Records a link from `a` to `b`.
    pub fn add_link(&mut self, a: NodeId, b: NodeId)
        requires
            old(self).wf(),
        ensures
            final(self).wf(),
            final(self)@ == old(self)@.insert((a, b)),
    {
        self.links.set(a as usize * 256 + b as usize, true);
        assert(self@ =~= old(self)@.insert((a, b))) by {
            assert forall|e: (NodeId, NodeId)| self@.contains(e) == old(self)@.insert((a, b)).contains(e) by {
                if e != (a, b) {
                    assert(e.0 as int * 256 + e.1 as int != a as int * 256 + b as int);
                }
            }
        }
    }

    /// The links of a roster.
    pub fn from_roster(network: &Vec<SimulationControllerNode>) -> (g: Topology)
        ensures
            g.wf(),
            g@ == roster_edges(network@),
    {
        let mut g = Topology::new();
        let mut k: usize = 0;
        while k < network.len()
            invariant
                k <= network.len(),
                g.wf(),
                forall|a: NodeId, b: NodeId| g@.contains((a, b)) == edge_upto(network@, k as int, a, b),
            decreases network.len() - k,
        {
            let id: NodeId = network[k].node_id;
            let drone: bool = match network[k].node_type {
                SimulationControllerNodeType::DRONE { .. } => true,
                _ => false,
            };
            if drone {
                g.add_link(id, id);
            }
            let mut p: usize = 0;
            while p < network[k].neighbours.len()
                invariant
                    k < network.len(),
                    p <= network[k as int].neighbours.len(),
                    id == network[k as int].node_id,
                    drone == (network[k as int].node_type is DRONE),
                    g.wf(),
                    forall|a: NodeId, b: NodeId|
                        g@.contains((a, b)) == (edge_upto(network@, k as int, a, b) || (a == id
                            && links_upto(network@, k as int, p as int, b))),
                decreases network[k as int].neighbours.len() - p,
            {
                let c: NodeId = network[k].neighbours[p];
                let admitted: bool = if drone {
                    true
                } else {
                    match find_node(network, c) {
                        Some(i) => match network[i].node_type {
                            SimulationControllerNodeType::DRONE { .. } => true,
                            _ => false,
                        },
                        None => false,
                    }
                };
                assert(!drone ==> admitted == listed_as_drone(network@, c));
                let ghost earlier = g@;
                if admitted {
                    g.add_link(id, c);
                }
                proof {
                    let nbrs = network[k as int].neighbours@;
                    assert forall|a: NodeId, b: NodeId|
                        g@.contains((a, b)) == (edge_upto(network@, k as int, a, b) || (a == id
                            && links_upto(network@, k as int, p + 1, b))) by {
                        lemma_named_before_step(nbrs, p as int, b);
                        assert(nbrs[p as int] == c);
                        assert(g@.contains((a, b)) == (earlier.contains((a, b)) || (admitted && a == id
                            && b == c)));
                        assert(earlier.contains((a, b)) == (edge_upto(network@, k as int, a, b) || (a
                            == id && links_upto(network@, k as int, p as int, b))));
                    }
                }
                p += 1;
            }
            proof {
                let nbrs = network[k as int].neighbours@;
                assert forall|a: NodeId, b: NodeId|
                    g@.contains((a, b)) == edge_upto(network@, k + 1, a, b) by {
                    lemma_named_before_all(nbrs, b);
                    lemma_edge_upto_step(network@, k as int, a, b);
                    assert(links_upto(network@, k as int, nbrs.len() as int, b) == links_to(
                        network@,
                        k as int,
                        b,
                    ));
                    assert(g@.contains((a, b)) == (edge_upto(network@, k as int, a, b) || (a == id
                        && links_upto(network@, k as int, nbrs.len() as int, b))));
                }
            }
            k += 1;
        }
        assert(g@ =~= roster_edges(network@)) by {
            assert forall|e: (NodeId, NodeId)| g@.contains(e) == roster_edges(network@).contains(e) by {
                assert(edge_upto(network@, network@.len() as int, e.0, e.1) == has_edge(
                    network@,
                    e.0,
                    e.1,
                ));
            }
        }
        g
    }

    /// The least link that lacks its reverse, if there is one.
    pub fn find_asymmetric(&self) -> (found: Option<(NodeId, NodeId)>)
        requires
            self.wf(),
        ensures
            match found {
                Some((a, b)) => first_asymmetric(self@, a, b),
                None => symmetric(self@),
            },
    {
        let mut i: usize = 0;
        while i < 256
            invariant
                i <= 256,
                self.wf(),
                forall|x: NodeId, y: NodeId|
                    x < i && #[trigger] self@.contains((x, y)) ==> self@.contains((y, x)),
            decreases 256 - i,
        {
            let mut j: usize = 0;
            while j < 256
                invariant
                    i < 256,
                    j <= 256,
                    self.wf(),
                    forall|x: NodeId, y: NodeId|
                        (x < i || (x == i && y < j)) && #[trigger] self@.contains((x, y))
                            ==> self@.contains((y, x)),
                decreases 256 - j,
            {
                if self.has_link(i as u8, j as u8) && !self.has_link(j as u8, i as u8) {
                    return Some((i as u8, j as u8));
                }
                j += 1;
            }
            i += 1;
        }
        None
    }

    /// For each id, whether it is an endpoint of some link.
    pub fn nodes(&self) -> (flags: Vec<bool>)
        requires
            self.wf(),
        ensures
            flags@.len() == 256,
            forall|a: NodeId| flags@[a as int] == is_node(self@, a),
    {
        let mut flags: Vec<bool> = Vec::new();
        let mut i: usize = 0;
        while i < 256
            invariant
                i <= 256,
                self.wf(),
                flags@.len() == i,
                forall|a: NodeId| a < i ==> flags@[a as int] == is_node(self@, a),
            decreases 256 - i,
        {
            let a: NodeId = i as u8;
            let mut found: bool = false;
            let mut j: usize = 0;
            while j < 256
                invariant
                    j <= 256,
                    self.wf(),
                    found == (exists|b: NodeId| b < j && #[trigger] touches(self@, a, b)),
                decreases 256 - j,
            {
                if self.has_link(a, j as u8) || self.has_link(j as u8, a) {
                    assert(touches(self@, a, j as u8));
                    found = true;
                }
                j += 1;
            }
            flags.push(found);
            i += 1;
        }
        flags
    }

    /// Pushes every id that `v` is linked to.
    fn push_linked(&self, v: NodeId, stack: &mut Vec<NodeId>)
        requires
            self.wf(),
        ensures
            forall|y: NodeId| old(stack)@.contains(y) ==> final(stack)@.contains(y),
            forall|y: NodeId| self@.contains((v, y)) ==> final(stack)@.contains(y),
            forall|t: int|
                0 <= t < final(stack)@.len() ==> old(stack)@.contains(#[trigger] final(stack)@[t])
                    || self@.contains((v, final(stack)@[t])),
    {
        let mut j: usize = 0;
        while j < 256
            invariant
                j <= 256,
                self.wf(),
                forall|y: NodeId| old(stack)@.contains(y) ==> stack@.contains(y),
                forall|y: NodeId| y < j && self@.contains((v, y)) ==> stack@.contains(y),
                forall|t: int|
                    0 <= t < stack@.len() ==> old(stack)@.contains(#[trigger] stack@[t])
                        || self@.contains((v, stack@[t])),
            decreases 256 - j,
        {
            let ghost prior = stack@;
            if self.has_link(v, j as u8) {
                stack.push(j as u8);
                assert(stack@[stack@.len() - 1] == j as u8);
            }
            assert forall|y: NodeId| prior.contains(y) implies stack@.contains(y) by {
                let t = choose|t: int| 0 <= t < prior.len() && prior[t] == y;
                assert(stack@[t] == y);
            }
            assert forall|t: int| 0 <= t < stack@.len() implies old(stack)@.contains(
                #[trigger] stack@[t],
            ) || self@.contains((v, stack@[t])) by {
                if t < prior.len() {
                    assert(stack@[t] == prior[t]);
                }
            }
            assert forall|y: NodeId| y < j + 1 && self@.contains((v, y)) implies stack@.contains(y) by {
                if y < j {
                    assert(prior.contains(y));
                } else {
                    assert(y == j as u8);
                }
            }
            j += 1;
        }
    }

    /// For each id, whether a path leads to it from `start`.
    pub fn reach_from(&self, start: NodeId) -> (visited: Vec<bool>)
        requires
            self.wf(),
        ensures
            visited@.len() == 256,
            forall|x: NodeId| visited@[x as int] == reachable(self@, start, x),
    {
        let mut visited: Vec<bool> = vec![false; 256];
        let mut stack: Vec<NodeId> = Vec::new();
        stack.push(start);
        let ghost mut unvisited: Set<int> = set_int_range(0, 256);
        proof {
            lemma_int_range(0, 256);
            lemma_search_start(self@, start, visited@, stack@);
        }
        while stack.len() > 0
            invariant
                self.wf(),
                visited@.len() == 256,
                unvisited.finite(),
                forall|x: int| unvisited.contains(x) == (0 <= x < 256 && !visited@[x]),
                search_sound(self@, start, visited@, stack@),
                search_closed(self@, start, visited@, stack@),
            decreases unvisited.len(), stack@.len(),
        {
            let ghost before = stack@;
            let ghost marks = visited@;
            let v: NodeId = stack.pop().unwrap();
            if visited[v as usize] {
                proof {
                    lemma_search_skip(self@, start, marks, before);
                }
            } else {
                visited.set(v as usize, true);
                self.push_linked(v, &mut stack);
                proof {
                    unvisited = unvisited.remove(v as int);
                    lemma_search_visit(self@, start, marks, before, stack@);
                }
            }
        }
        proof {
            lemma_search_done(self@, start, visited@, stack@);
        }
        visited
    }

    /// Whether every node can be reached from every other, for links that
    /// all have their reverse.
    pub fn is_connected(&self) -> (r: bool)
        requires
            self.wf(),
            symmetric(self@),
        ensures
            r == connected(self@),
    {
        let nodes = self.nodes();
        let mut s: usize = 0;
        while s < 256 && !nodes[s]
            invariant
                s <= 256,
                nodes@.len() == 256,
                forall|x: NodeId| x < s ==> !nodes@[x as int],
            decreases 256 - s,
        {
            s += 1;
        }
        if s == 256 {
            return true;
        }
        let visited = self.reach_from(s as u8);
        let mut i: usize = 0;
        while i < 256
            invariant
                i <= 256,
                s < 256,
                nodes@[s as int],
                nodes@.len() == 256,
                visited@.len() == 256,
                forall|x: NodeId| nodes@[x as int] == is_node(self@, x),
                forall|x: NodeId| visited@[x as int] == reachable(self@, s as u8, x),
                forall|x: NodeId| x < i && is_node(self@, x) ==> reachable(self@, s as u8, x),
            decreases 256 - i,
        {
            if nodes[i] && !visited[i] {
                assert(is_node(self@, s as u8) && is_node(self@, i as u8));
                assert(!reachable(self@, s as u8, i as u8));
                return false;
            }
            i += 1;
        }
        proof {
            assert forall|a: NodeId, b: NodeId| is_node(self@, a) && is_node(self@, b) implies reachable(
                self@,
                a,
                b,
            ) by {
                lemma_reachable_sym(self@, s as u8, a);
                lemma_reachable_trans(self@, a, s as u8, b);
            }
        }
        true
    }
}

/// Whether entry `k` meets the constraints of its role, and the error of
/// its role where it does not.
pub fn check_node(network: &Vec<SimulationControllerNode>, k: usize) -> (r: Result<(), ValidationError>)
    requires
        k < network@.len(),
    ensures
        match r {
            Ok(()) => role_ok(network@, k as int),
            Err(e) => !role_ok(network@, k as int) && e == role_error(network@[k as int]),
        },
{
    let count: usize = network[k].neighbours.len();
    let failure: ValidationError = match network[k].node_type {
        SimulationControllerNodeType::DRONE { .. } => {
            return Ok(());
        },
        SimulationControllerNodeType::SERVER { .. } => {
            if count < 2 {
                return Err(ValidationError::ServerConnectionError);
            }
            ValidationError::ServerConnectionError
        },
        SimulationControllerNodeType::CLIENT { .. } => {
            if count > 2 || count < 1 {
                return Err(ValidationError::ClientConnectionError);
            }
            ValidationError::ClientConnectionError
        },
    };
    let mut p: usize = 0;
    while p < count
        invariant
            k < network@.len(),
            count == network@[k as int].neighbours@.len(),
            p <= count,
            !(network@[k as int].node_type is DRONE),
            failure == role_error(network@[k as int]),
            network@[k as int].node_type is SERVER ==> count >= 2,
            network@[k as int].node_type is CLIENT ==> 1 <= count <= 2,
            forall|q: int|
                0 <= q < p ==> admissible_neighbour(network@, #[trigger] network@[k as int].neighbours@[q]),
        decreases count - p,
    {
        let c: NodeId = network[k].neighbours[p];
        match find_node(network, c) {
            Some(i) => {
                let drone: bool = match network[i].node_type {
                    SimulationControllerNodeType::DRONE { .. } => true,
                    _ => false,
                };
                if !drone {
                    assert(listed(network@, c));
                    assert(!listed_as_drone(network@, c));
                    assert(!admissible_neighbour(network@, network@[k as int].neighbours@[p as int]));
                    return Err(failure);
                }
                assert(listed_as_drone(network@, c));
            },
            None => {},
        }
        p += 1;
    }
    Ok(())
}

/// The error that a node of this role gives when it breaks its constraints.
pub open spec fn role_error(node: SimulationControllerNode) -> ValidationError {
    if node.node_type is SERVER {
        ValidationError::ServerConnectionError
    } else {
        ValidationError::ClientConnectionError
    }
}

/// Validates a roster: the constraints of each role in roster order, then
/// that every link has its reverse, then that the links connect all nodes.
pub fn validate_network(network: &Vec<SimulationControllerNode>) -> (verdict: Result<(), ValidationError>)
    ensures
        verdict_holds(network@, verdict),
{
    let mut k: usize = 0;
    while k < network.len()
        invariant
            k <= network.len(),
            forall|j: int| 0 <= j < k ==> role_ok(network@, j),
        decreases network.len() - k,
    {
        match check_node(network, k) {
            Ok(()) => {},
            Err(e) => {
                assert(first_offender(network@, k as int));
                return Err(e);
            },
        }
        k += 1;
    }
    let g = Topology::from_roster(network);
    match g.find_asymmetric() {
        Some((a, b)) => {
            return Err(ValidationError::NotBidirectional(a, b));
        },
        None => {},
    }
    if !g.is_connected() {
        return Err(ValidationError::NotConnected);
    }
    Ok(())
}

/// A roster deserves one verdict only.
pub proof fn lemma_verdict_unique(
    roster: Seq<SimulationControllerNode>,
    first: Result<(), ValidationError>,
    second: Result<(), ValidationError>,
)
    requires
        verdict_holds(roster, first),
        verdict_holds(roster, second),
    ensures
        first == second,
{
    let edges = roster_edges(roster);
    if exists|k: int| first_offender(roster, k) {
        let k = choose|k: int| first_offender(roster, k);
        assert(!role_ok(roster, k));
        assert(!all_roles_ok(roster));
        assert forall|j: int| first_offender(roster, j) implies j == k by {
            if j < k {
                assert(role_ok(roster, j));
            } else if k < j {
                assert(role_ok(roster, k));
            }
        }
        assert(first is Err && second is Err);
        assert(first->Err_0 == role_error(roster[k]));
        assert(second->Err_0 == role_error(roster[k]));
    } else {
        assert(all_roles_ok(roster)) by {
            if !all_roles_ok(roster) {
                let j = choose|j: int| 0 <= j < roster.len() && !role_ok(roster, j);
                lemma_first_offender_exists(roster, j);
            }
        }
        match (first, second) {
            (Ok(u), Ok(w)) => {
                assert(u == w);
            },
            (
                Err(ValidationError::NotBidirectional(a, b)),
                Err(ValidationError::NotBidirectional(c, d)),
            ) => {
                assert(edges.contains((a, b)) && edges.contains((c, d)));
                assert(a == c && b == d);
            },
            (Err(ValidationError::NotBidirectional(a, b)), _) => {
                assert(edges.contains((a, b)));
                assert(!symmetric(edges));
            },
            (_, Err(ValidationError::NotBidirectional(a, b))) => {
                assert(edges.contains((a, b)));
                assert(!symmetric(edges));
            },
            _ => {},
        }
    }
}

/// Where some entry breaks the constraints of its role, one is the first.
proof fn lemma_first_offender_exists(roster: Seq<SimulationControllerNode>, j: int)
    requires
        0 <= j < roster.len(),
        !role_ok(roster, j),
    ensures
        exists|k: int| first_offender(roster, k),
    decreases j,
{
    if forall|i: int| 0 <= i < j ==> role_ok(roster, i) {
        assert(first_offender(roster, j));
    } else {
        let i = choose|i: int| 0 <= i < j && !role_ok(roster, i);
        lemma_first_offender_exists(roster, i);
    }
}

/// A server that names fewer than two neighbours is refused as a server,
/// where no entry before it breaks the constraints of its role.
pub proof fn lemma_server_degree(
    roster: Seq<SimulationControllerNode>,
    k: int,
    verdict: Result<(), ValidationError>,
)
    requires
        verdict_holds(roster, verdict),
        0 <= k < roster.len(),
        roster[k].node_type is SERVER,
        roster[k].neighbours@.len() < 2,
        forall|j: int| 0 <= j < k ==> role_ok(roster, j),
    ensures
        verdict == Err::<(), ValidationError>(ValidationError::ServerConnectionError),
{
    assert(first_offender(roster, k));
    lemma_verdict_unique(roster, verdict, Err(ValidationError::ServerConnectionError));
}

/// A server that names two or more neighbours, each known to the roster as
/// a drone, meets the constraints of its role.
pub proof fn lemma_server_with_drones(roster: Seq<SimulationControllerNode>, k: int)
    requires
        0 <= k < roster.len(),
        roster[k].node_type is SERVER,
        roster[k].neighbours@.len() >= 2,
        forall|p: int|
            0 <= p < roster[k].neighbours@.len() ==> listed_as_drone(
                roster,
                #[trigger] roster[k].neighbours@[p],
            ),
    ensures
        role_ok(roster, k),
{
}

/// A client that names no neighbour, or more than two, is refused as a
/// client, where no entry before it breaks the constraints of its role.
pub proof fn lemma_client_degree(
    roster: Seq<SimulationControllerNode>,
    k: int,
    verdict: Result<(), ValidationError>,
)
    requires
        verdict_holds(roster, verdict),
        0 <= k < roster.len(),
        roster[k].node_type is CLIENT,
        roster[k].neighbours@.len() == 0 || roster[k].neighbours@.len() > 2,
        forall|j: int| 0 <= j < k ==> role_ok(roster, j),
    ensures
        verdict == Err::<(), ValidationError>(ValidationError::ClientConnectionError),
{
    assert(first_offender(roster, k));
    lemma_verdict_unique(roster, verdict, Err(ValidationError::ClientConnectionError));
}

/// A client that names one or two neighbours, each known to the roster as a
/// drone, meets the constraints of its role.
pub proof fn lemma_client_with_drones(roster: Seq<SimulationControllerNode>, k: int)
    requires
        0 <= k < roster.len(),
        roster[k].node_type is CLIENT,
        1 <= roster[k].neighbours@.len() <= 2,
        forall|p: int|
            0 <= p < roster[k].neighbours@.len() ==> listed_as_drone(
                roster,
                #[trigger] roster[k].neighbours@[p],
            ),
    ensures
        role_ok(roster, k),
{
}

/// A roster whose entries all meet the constraints of their roles, and in
/// which some link lacks its reverse, is refused as not bidirectional: the
/// verdict names a link that lacks its reverse. It names `(a, b)` where that
/// is the least such link.
pub proof fn lemma_asymmetry_rejected(
    roster: Seq<SimulationControllerNode>,
    a: NodeId,
    b: NodeId,
    verdict: Result<(), ValidationError>,
)
    requires
        verdict_holds(roster, verdict),
        all_roles_ok(roster),
        has_edge(roster, a, b),
        !has_edge(roster, b, a),
    ensures
        verdict matches Err(ValidationError::NotBidirectional(x, y)) && has_edge(roster, x, y)
            && !has_edge(roster, y, x),
        first_asymmetric(roster_edges(roster), a, b) ==> verdict == Err::<(), ValidationError>(
            ValidationError::NotBidirectional(a, b),
        ),
{
    let edges = roster_edges(roster);
    assert(edges.contains((a, b)) && !edges.contains((b, a)));
    assert(!symmetric(edges));
    if first_asymmetric(edges, a, b) {
        lemma_verdict_unique(roster, verdict, Err(ValidationError::NotBidirectional(a, b)));
    }
}

/// Links that split into two groups of nodes with no link between them do
/// not connect their nodes.
pub proof fn lemma_separate_groups(edges: Set<(NodeId, NodeId)>, group: Set<NodeId>, a: NodeId, b: NodeId)
    requires
        closed_under_links(edges, group),
        is_node(edges, a),
        is_node(edges, b),
        group.contains(a),
        !group.contains(b),
    ensures
        !connected(edges),
{
    if reachable(edges, a, b) {
        lemma_closed_holds_reachable(edges, group, a, b);
    }
}

/// A roster whose entries meet the constraints of their roles and whose
/// links all have their reverse, but fall into two groups with no link
/// between them, is refused as not connected.
pub proof fn lemma_clusters_rejected(
    roster: Seq<SimulationControllerNode>,
    group: Set<NodeId>,
    a: NodeId,
    b: NodeId,
    verdict: Result<(), ValidationError>,
)
    requires
        verdict_holds(roster, verdict),
        all_roles_ok(roster),
        symmetric(roster_edges(roster)),
        closed_under_links(roster_edges(roster), group),
        is_node(roster_edges(roster), a),
        is_node(roster_edges(roster), b),
        group.contains(a),
        !group.contains(b),
    ensures
        verdict == Err::<(), ValidationError>(ValidationError::NotConnected),
{
    lemma_separate_groups(roster_edges(roster), group, a, b);
    lemma_verdict_unique(roster, verdict, Err(ValidationError::NotConnected));
}

/// More links keep every path.
pub proof fn lemma_reachable_mono(
    edges: Set<(NodeId, NodeId)>,
    more: Set<(NodeId, NodeId)>,
    a: NodeId,
    b: NodeId,
)
    requires
        edges.subset_of(more),
        reachable(edges, a, b),
    ensures
        reachable(more, a, b),
{
    let path = choose|path: Seq<NodeId>|
        #[trigger] is_path(edges, path) && path.len() > 0 && path[0] == a && path.last() == b;
    assert(is_path(more, path));
}

/// With `x` and `y` linked, whatever reaches one of them reaches `x`.
proof fn lemma_bridge_reaches(
    edges: Set<(NodeId, NodeId)>,
    joined: Set<(NodeId, NodeId)>,
    x: NodeId,
    y: NodeId,
    a: NodeId,
)
    requires
        edges.subset_of(joined),
        joined.contains((y, x)),
        reachable(edges, a, x) || reachable(edges, a, y),
    ensures
        reachable(joined, a, x),
{
    if reachable(edges, a, x) {
        lemma_reachable_mono(edges, joined, a, x);
    } else {
        lemma_reachable_mono(edges, joined, a, y);
        lemma_reachable_step(joined, a, y, x);
    }
}

/// Two groups of nodes, each gathered around one of its nodes, become one
/// connected whole when those two nodes are linked in both directions.
pub proof fn lemma_bridge_connects(
    edges: Set<(NodeId, NodeId)>,
    joined: Set<(NodeId, NodeId)>,
    x: NodeId,
    y: NodeId,
)
    requires
        symmetric(edges),
        joined == edges.insert((x, y)).insert((y, x)),
        forall|a: NodeId| is_node(edges, a) ==> reachable(edges, a, x) || reachable(edges, a, y),
    ensures
        symmetric(joined),
        connected(joined),
{
    assert(edges.subset_of(joined));
    assert(joined.contains((x, y)) && joined.contains((y, x)));
    assert(symmetric(joined));
    assert forall|a: NodeId| is_node(joined, a) implies reachable(joined, a, x) by {
        let c = choose|c: NodeId| touches(joined, a, c);
        if a == x {
            lemma_reachable_self(joined, x);
        } else if a == y {
            lemma_reachable_self(joined, y);
            lemma_reachable_step(joined, y, y, x);
        } else {
            assert(touches(edges, a, c));
            assert(is_node(edges, a));
            lemma_bridge_reaches(edges, joined, x, y, a);
        }
    }
    assert forall|a: NodeId, b: NodeId| is_node(joined, a) && is_node(joined, b) implies reachable(
        joined,
        a,
        b,
    ) by {
        lemma_reachable_sym(joined, b, x);
        lemma_reachable_trans(joined, a, x, b);
    }
}

} // verus!
