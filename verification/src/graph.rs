//! The memory graph: node store, adjacency, text index and clock, with the
//! lazy-decay activation kernel.
//!
//! Every public operation preserves the graph's well-formedness: activation
//! within `[0, 1]`, stability positive, `last_tick` never ahead of the
//! clock, every edge endpoint present, and a text index that maps tokens
//! exactly to the live non-state nodes whose text carries them.

use vstd::prelude::*;
use crate::fixed::{decay_value, projected_decay, SCALE};
use crate::node::{Node, NodeMetadata, NodeModel};
use crate::node::Edge;
use crate::text::{lower_of, tokens_of};

verus! {

/// One posting list of the inverted text index: a token and the
/// identifiers of the nodes whose text carries it.
#[derive(Clone, Debug)]
pub struct IndexEntry {
    /// The token, lowercased and trimmed.
    pub token: Vec<char>,
    /// Identifiers of the nodes indexed under the token.
    pub ids: Vec<u128>,
}

/// The mathematical value of a posting list.
#[verifier::ext_equal]
pub struct PostingModel {
    /// The token.
    pub token: Seq<char>,
    /// The posted identifiers, in insertion order.
    pub ids: Seq<u128>,
}

impl View for IndexEntry {
    type V = PostingModel;

    open spec fn view(&self) -> PostingModel {
        PostingModel { token: self.token@, ids: self.ids@ }
    }
}

impl DeepView for IndexEntry {
    type V = PostingModel;

    open spec fn deep_view(&self) -> PostingModel {
        self.view()
    }
}

/// The mathematical value of the whole graph, except the text index, which
/// is a derived view of the node store.
#[verifier::ext_equal]
pub struct GraphModel {
    /// All memory nodes, in insertion order.
    pub nodes: Seq<NodeModel>,
    /// All edges, in insertion order.
    pub edges: Seq<Edge>,
    /// The logical clock.
    pub tick: u64,
    /// The per-tick decay factor, in micro-units, strictly between 0 and 1.
    pub decay: u64,
    /// The wall-clock anchor of the last save, in epoch milliseconds.
    pub anchor: Option<i64>,
}

/// The main graph structure: all nodes, edges, and state of the memory
/// simulation.
pub struct LoomGraph {
    /// All memory nodes.
    pub nodes: Vec<Node>,
    /// All connections between nodes.
    pub edges: Vec<Edge>,
    /// Global time counter of the simulation.
    pub current_tick: u64,
    /// The per-tick decay factor in micro-units (for example 950_000).
    pub decay_rate: u64,
    /// Inverted text index: token to posting list of node identifiers.
    pub index: Vec<IndexEntry>,
    /// Wall-clock instant of the last save or load, used by `wake_up`.
    pub last_saved: Option<i64>,
}

impl View for LoomGraph {
    type V = GraphModel;

    open spec fn view(&self) -> GraphModel {
        GraphModel {
            nodes: self.nodes.deep_view(),
            edges: self.edges@,
            tick: self.current_tick,
            decay: self.decay_rate,
            anchor: self.last_saved,
        }
    }
}

/// The index tokens of a node: its text, lowercased, split and trimmed.
pub open spec fn node_tokens(n: NodeModel) -> Seq<Seq<char>> {
    tokens_of(lower_of(n.text()))
}

/// Some node in the store carries this identifier.
pub open spec fn has_node(nodes: Seq<NodeModel>, id: u128) -> bool {
    exists|i: int| 0 <= i < nodes.len() && (#[trigger] nodes[i]).node_id() == id
}

/// No two nodes share an identifier.
pub open spec fn ids_unique(nodes: Seq<NodeModel>) -> bool {
    forall|i: int, j: int|
        0 <= i < j < nodes.len() ==> (#[trigger] nodes[i]).node_id() != (#[trigger] nodes[j]).node_id()
}

/// Every node's scalars are in range and none is stamped ahead of the clock.
pub open spec fn nodes_valid(nodes: Seq<NodeModel>, tick: u64) -> bool {
    forall|i: int|
        0 <= i < nodes.len() ==> {
            &&& (#[trigger] nodes[i]).valid_scalars()
            &&& nodes[i].meta().last_tick <= tick
        }
}

/// Every edge endpoint names a node of the store.
pub open spec fn edges_closed(nodes: Seq<NodeModel>, edges: Seq<Edge>) -> bool {
    forall|i: int|
        0 <= i < edges.len() ==> {
            &&& has_node(nodes, (#[trigger] edges[i]).src())
            &&& has_node(nodes, edges[i].dst())
        }
}

/// A posting `(token, id)` is justified: `id` names a live non-state node
/// whose tokens include `token`.
pub open spec fn posting_valid(nodes: Seq<NodeModel>, token: Seq<char>, id: u128) -> bool {
    exists|k: int|
        0 <= k < nodes.len() && {
            &&& (#[trigger] nodes[k]).node_id() == id
            &&& !nodes[k].is_state()
            &&& node_tokens(nodes[k]).contains(token)
        }
}

/// Every posting of the index is justified by a live node.
pub open spec fn index_sound(index: Seq<PostingModel>, nodes: Seq<NodeModel>) -> bool {
    forall|t: int, j: int|
        0 <= t < index.len() && 0 <= j < index[t].ids.len() ==> posting_valid(
            nodes,
            index[t].token,
            #[trigger] index[t].ids[j],
        )
}

/// The index holds a posting of `id` under `token`.
pub open spec fn index_has(index: Seq<PostingModel>, token: Seq<char>, id: u128) -> bool {
    exists|t: int, j: int|
        0 <= t < index.len() && 0 <= j < index[t].ids.len() && {
            &&& index[t].token == token
            &&& #[trigger] index[t].ids[j] == id
        }
}

/// Every token of every live non-state node is posted under that node's
/// identifier.
pub open spec fn index_complete(index: Seq<PostingModel>, nodes: Seq<NodeModel>) -> bool {
    forall|k: int, ti: int|
        0 <= k < nodes.len() && !nodes[k].is_state() && 0 <= ti < node_tokens(nodes[k]).len()
            ==> index_has(index, #[trigger] node_tokens(#[trigger] nodes[k])[ti], nodes[k].node_id())
}

/// Two node stores of the same shape: identifiers, kinds and texts agree
/// position by position (only metadata scalars may differ).
pub open spec fn same_shape(n1: Seq<NodeModel>, n2: Seq<NodeModel>) -> bool {
    &&& n1.len() == n2.len()
    &&& forall|i: int|
        0 <= i < n1.len() ==> {
            &&& (#[trigger] n2[i]).node_id() == (#[trigger] n1[i]).node_id()
            &&& n2[i].is_state() == n1[i].is_state()
            &&& n2[i].text() == n1[i].text()
        }
}

/// Shape-preserving updates keep every structural part of well-formedness.
pub proof fn lemma_same_shape_preserves(
    index: Seq<PostingModel>,
    edges: Seq<Edge>,
    n1: Seq<NodeModel>,
    n2: Seq<NodeModel>,
)
    requires
        same_shape(n1, n2),
    ensures
        forall|id: u128| has_node(n1, id) == has_node(n2, id),
        ids_unique(n1) ==> ids_unique(n2),
        edges_closed(n1, edges) ==> edges_closed(n2, edges),
        index_sound(index, n1) ==> index_sound(index, n2),
        index_complete(index, n1) ==> index_complete(index, n2),
{
    if ids_unique(n1) {
        assert forall|i: int, j: int| 0 <= i < j < n2.len() implies (#[trigger] n2[i]).node_id()
            != (#[trigger] n2[j]).node_id() by {
            assert(n1[i].node_id() != n1[j].node_id());
        };
    }
    assert forall|id: u128| has_node(n1, id) == has_node(n2, id) by {
        if has_node(n1, id) {
            let i = choose|i: int| 0 <= i < n1.len() && (#[trigger] n1[i]).node_id() == id;
            assert(n2[i].node_id() == id);
        }
        if has_node(n2, id) {
            let i = choose|i: int| 0 <= i < n2.len() && (#[trigger] n2[i]).node_id() == id;
            assert(n1[i].node_id() == id);
        }
    };
    if index_sound(index, n1) {
        assert forall|t: int, j: int|
            0 <= t < index.len() && 0 <= j < index[t].ids.len() implies posting_valid(
            n2,
            index[t].token,
            #[trigger] index[t].ids[j],
        ) by {
            assert(posting_valid(n1, index[t].token, index[t].ids[j]));
            let k = choose|k: int|
                0 <= k < n1.len() && {
                    &&& (#[trigger] n1[k]).node_id() == index[t].ids[j]
                    &&& !n1[k].is_state()
                    &&& node_tokens(n1[k]).contains(index[t].token)
                };
            assert(n2[k].node_id() == index[t].ids[j]);
            assert(node_tokens(n2[k]).contains(index[t].token));
        };
    }
    if index_complete(index, n1) {
        assert forall|k: int, ti: int|
            0 <= k < n2.len() && !n2[k].is_state() && 0 <= ti < node_tokens(n2[k]).len() implies index_has(
            index,
            #[trigger] node_tokens(#[trigger] n2[k])[ti],
            n2[k].node_id(),
        ) by {
            assert(node_tokens(n1[k]) == node_tokens(n2[k]));
            assert(index_has(index, node_tokens(n1[k])[ti], n1[k].node_id()));
        };
    }
}

/// A node's metadata after lazy decay at clock `tick` with factor `d`.
pub open spec fn decayed_meta(m: NodeMetadata, d: u64, tick: u64) -> NodeMetadata {
    if m.last_tick < tick {
        NodeMetadata {
            id: m.id,
            activation: projected_decay(
                m.activation as int,
                d as int,
                tick - m.last_tick,
                m.stability as int,
            ) as u64,
            stability: m.stability,
            last_tick: tick,
        }
    } else {
        m
    }
}

/// A node after lazy decay.
pub open spec fn decayed_model(n: NodeModel, d: u64, tick: u64) -> NodeModel {
    n.with_meta(decayed_meta(n.meta(), d, tick))
}

/// The clock after absorbing a wall-clock reading `now` against the anchor:
/// one tick per whole elapsed minute, saturating.
pub open spec fn woken_tick(tick: u64, anchor: Option<i64>, now: i64) -> u64 {
    match anchor {
        Option::None => tick,
        Option::Some(last) => {
            let diff = now - last;
            if diff > 0 {
                let mins = diff / 60_000;
                if mins > 0 {
                    if tick + mins > u64::MAX as int {
                        u64::MAX
                    } else {
                        (tick + mins) as u64
                    }
                } else {
                    tick
                }
            } else {
                tick
            }
        },
    }
}

impl LoomGraph {
    /// The graph's invariant: scalars in range, clock ahead of every node,
    /// unique identifiers, closed edges, and a sound and complete text
    /// index.
    pub open spec fn wf(&self) -> bool {
        &&& 0 < self.decay_rate < SCALE
        &&& nodes_valid(self@.nodes, self.current_tick)
        &&& ids_unique(self@.nodes)
        &&& edges_closed(self@.nodes, self@.edges)
        &&& index_sound(self.index.deep_view(), self@.nodes)
        &&& index_complete(self.index.deep_view(), self@.nodes)
    }

    /// A fresh, empty graph with the given per-tick decay factor in
    /// micro-units (strictly between 0 and `SCALE`).
    pub fn new(decay_rate: u64) -> (g: LoomGraph)
        requires
            0 < decay_rate < SCALE,
        ensures
            g.wf(),
            g@.nodes.len() == 0,
            g@.edges.len() == 0,
            g@.tick == 0,
            g@.decay == decay_rate,
            g@.anchor is None,
            g.index@.len() == 0,
    {
        let g = LoomGraph {
            nodes: Vec::new(),
            edges: Vec::new(),
            current_tick: 0,
            decay_rate,
            index: Vec::new(),
            last_saved: None,
        };
        proof {
            assert(g.nodes.deep_view() =~= Seq::<NodeModel>::empty());
            assert(g.index.deep_view() =~= Seq::<PostingModel>::empty());
        }
        g
    }

    /// Advances the logical clock by one tick (saturating at the largest
    /// representable tick). Decay is applied lazily when nodes are next
    /// touched.
    pub fn tick(&mut self)
        requires
            old(self).wf(),
        ensures
            final(self).wf(),
            final(self)@.tick as int == if old(self)@.tick < u64::MAX {
                old(self)@.tick + 1
            } else {
                u64::MAX as int
            },
            final(self)@.tick >= old(self)@.tick,
            final(self)@.nodes == old(self)@.nodes,
            final(self)@.edges == old(self)@.edges,
            final(self)@.decay == old(self)@.decay,
            final(self)@.anchor == old(self)@.anchor,
            final(self).index == old(self).index,
    {
        if self.current_tick < u64::MAX {
            self.current_tick = self.current_tick + 1;
        }
    }

    /// Absorbs a wall-clock reading: if an anchor exists, adds one tick per
    /// whole elapsed minute, then re-anchors at the reading.
    pub fn absorb_wall_clock(&mut self, now: i64)
        requires
            old(self).wf(),
        ensures
            final(self).wf(),
            final(self)@.tick == woken_tick(old(self)@.tick, old(self)@.anchor, now),
            final(self)@.tick >= old(self)@.tick,
            final(self)@.anchor == Some(now),
            final(self)@.nodes == old(self)@.nodes,
            final(self)@.edges == old(self)@.edges,
            final(self)@.decay == old(self)@.decay,
            final(self).index == old(self).index,
    {
        match self.last_saved {
            Some(last) => {
                let diff: i128 = (now as i128) - (last as i128);
                if diff > 0 {
                    let mins: i128 = diff / 60_000;
                    if mins > 0 {
                        let total: u128 = (self.current_tick as u128) + (mins as u128);
                        if total > u64::MAX as u128 {
                            self.current_tick = u64::MAX;
                        } else {
                            self.current_tick = total as u64;
                        }
                    }
                }
            },
            None => {},
        }
        self.last_saved = Some(now);
    }

    /// Reads the wall clock and catches the logical clock up: one tick per
    /// whole minute elapsed since the last anchor. The first call after a
    /// fresh graph only sets the anchor. Safe to call arbitrarily often.
    pub fn wake_up(&mut self)
        requires
            old(self).wf(),
        ensures
            final(self).wf(),
            exists|now: i64|
                {
                    &&& final(self)@.tick == #[trigger] woken_tick(
                        old(self)@.tick,
                        old(self)@.anchor,
                        now,
                    )
                    &&& final(self)@.anchor == Some(now)
                },
            final(self)@.tick >= old(self)@.tick,
            final(self)@.nodes == old(self)@.nodes,
            final(self)@.edges == old(self)@.edges,
            final(self)@.decay == old(self)@.decay,
            final(self).index == old(self).index,
    {
        let now = crate::node::now_millis();
        self.absorb_wall_clock(now);
    }

    /// The position of the node carrying `id`, if any.
    pub fn find_node(&self, id: u128) -> (r: Option<usize>)
        ensures
            match r {
                Some(k) => k < self@.nodes.len() && self@.nodes[k as int].node_id() == id,
                None => !has_node(self@.nodes, id),
            },
    {
        let n: usize = self.nodes.len();
        let mut i: usize = 0;
        while i < n
            invariant
                n == self@.nodes.len(),
                i <= n,
                forall|k: int| 0 <= k < i ==> (#[trigger] self@.nodes[k]).node_id() != id,
        decreases n - i,
        {
            if self.nodes[i].meta().id == id {
                return Some(i);
            }
            i = i + 1;
        }
        None
    }

    /// The current activation of a node, applying lazy decay and writing the
    /// result back: the stored activation multiplied by
    /// `decay ^ (elapsed / stability)`.
    pub fn get_activation(&mut self, node_idx: usize) -> (r: u64)
        requires
            old(self).wf(),
            node_idx < old(self)@.nodes.len(),
        ensures
            final(self).wf(),
            final(self)@.nodes == old(self)@.nodes.update(
                node_idx as int,
                decayed_model(old(self)@.nodes[node_idx as int], old(self)@.decay, old(self)@.tick),
            ),
            r == final(self)@.nodes[node_idx as int].meta().activation,
            r <= old(self)@.nodes[node_idx as int].meta().activation,
            final(self)@.edges == old(self)@.edges,
            final(self)@.tick == old(self)@.tick,
            final(self)@.decay == old(self)@.decay,
            final(self)@.anchor == old(self)@.anchor,
            final(self).index == old(self).index,
    {
        let tick = self.current_tick;
        let d = self.decay_rate;
        let m: NodeMetadata = *self.nodes[node_idx].meta();
        proof {
            assert(self@.nodes[node_idx as int].valid_scalars());
        }
        if m.last_tick < tick {
            let delta = tick - m.last_tick;
            let new_act = decay_value(m.activation, d, delta, m.stability);
            let node = &mut self.nodes[node_idx];
            let mm = node.meta_mut();
            mm.activation = new_act;
            mm.last_tick = tick;
            proof {
                lemma_wf_after_scalar_update(*old(self), *self, node_idx as int);
                assert(self@.nodes =~= old(self)@.nodes.update(
                    node_idx as int,
                    decayed_model(
                        old(self)@.nodes[node_idx as int],
                        old(self)@.decay,
                        old(self)@.tick,
                    ),
                ));
            }
            new_act
        } else {
            proof {
                assert(self@.nodes =~= old(self)@.nodes.update(
                    node_idx as int,
                    decayed_model(
                        old(self)@.nodes[node_idx as int],
                        old(self)@.decay,
                        old(self)@.tick,
                    ),
                ));
            }
            m.activation
        }
    }

    /// The activation a node would have now, computed without writing back:
    /// the projected variant of the activation kernel, used by all read
    /// paths.
    pub fn projected_activation(&self, node_idx: usize) -> (r: u64)
        requires
            self.wf(),
            node_idx < self@.nodes.len(),
        ensures
            r == decayed_model(self@.nodes[node_idx as int], self@.decay, self@.tick)
                .meta().activation,
            r <= self@.nodes[node_idx as int].meta().activation,
    {
        let tick = self.current_tick;
        let m: NodeMetadata = *self.nodes[node_idx].meta();
        proof {
            assert(self@.nodes[node_idx as int].valid_scalars());
        }
        if m.last_tick < tick {
            let delta = tick - m.last_tick;
            decay_value(m.activation, self.decay_rate, delta, m.stability)
        } else {
            m.activation
        }
    }
}

/// After replacing one node's metadata with in-range scalars, the same
/// identifier and a stamp not ahead of the clock, the graph is well-formed
/// again.
pub proof fn lemma_wf_after_scalar_update(g1: LoomGraph, g2: LoomGraph, i: int)
    requires
        g1.wf(),
        0 <= i < g1@.nodes.len(),
        g2@.nodes.len() == g1@.nodes.len(),
        g2@.nodes =~= g1@.nodes.update(i, g2@.nodes[i]),
        g2@.nodes[i] == g1@.nodes[i].with_meta(g2@.nodes[i].meta()),
        g2@.nodes[i].meta().id == g1@.nodes[i].meta().id,
        g2@.nodes[i].valid_scalars(),
        g2@.nodes[i].meta().last_tick <= g2.current_tick,
        g2.current_tick == g1.current_tick,
        g2.decay_rate == g1.decay_rate,
        g2.edges@ == g1.edges@,
        g2.index == g1.index,
    ensures
        g2.wf(),
{
    let n1 = g1@.nodes;
    let n2 = g2@.nodes;
    assert forall|k: int| 0 <= k < n1.len() implies {
        &&& (#[trigger] n2[k]).node_id() == (#[trigger] n1[k]).node_id()
        &&& n2[k].is_state() == n1[k].is_state()
        &&& n2[k].text() == n1[k].text()
    } by {
        if k != i {
            assert(n2[k] == n1[k]);
        }
    };
    assert(same_shape(n1, n2));
    lemma_same_shape_preserves(g1.index.deep_view(), g1.edges@, n1, n2);
    assert forall|k: int| 0 <= k < n2.len() implies {
        &&& (#[trigger] n2[k]).valid_scalars()
        &&& n2[k].meta().last_tick <= g2.current_tick
    } by {
        if k != i {
            assert(n2[k] == n1[k]);
        }
    };
}

/// Appends `id` to the posting list of `token`, creating the list if the
/// token is new. Existing postings survive and nothing else is added.
fn post_token(index: &mut Vec<IndexEntry>, token: &Vec<char>, id: u128)
    ensures
        index_has(final(index).deep_view(), token@, id),
        forall|tok: Seq<char>, i2: u128|
            #[trigger] index_has(old(index).deep_view(), tok, i2) ==> index_has(
                final(index).deep_view(),
                tok,
                i2,
            ),
        forall|t: int, j: int|
            0 <= t < final(index).deep_view().len() && 0 <= j
                < final(index).deep_view()[t].ids.len() ==> {
                ||| index_has(
                    old(index).deep_view(),
                    final(index).deep_view()[t].token,
                    #[trigger] final(index).deep_view()[t].ids[j],
                )
                ||| (final(index).deep_view()[t].token == token@
                    && final(index).deep_view()[t].ids[j] == id)
            },
{
    let n: usize = index.len();
    let mut t: usize = 0;
    while t < n
        invariant
            n == index@.len(),
            t <= n,
            index == old(index),
        decreases n - t,
    {
        let hit = crate::text::chars_eq(&index[t].token, token);
        if hit {
            let ghost prev = index.deep_view();
            let entry = &mut index[t];
            entry.ids.push(id);
            proof {
                let cur = index.deep_view();
                assert(cur =~~= prev.update(
                    t as int,
                    PostingModel { token: prev[t as int].token, ids: prev[t as int].ids.push(id) },
                ));
                assert(cur[t as int].ids[prev[t as int].ids.len() as int] == id);
                assert(index_has(cur, token@, id));
                assert forall|tok: Seq<char>, i2: u128|
                    #[trigger] index_has(prev, tok, i2) implies index_has(cur, tok, i2) by {
                    let (t2, j2) = choose|t2: int, j2: int|
                        0 <= t2 < prev.len() && 0 <= j2 < prev[t2].ids.len() && {
                            &&& prev[t2].token == tok
                            &&& #[trigger] prev[t2].ids[j2] == i2
                        };
                    assert(cur[t2].token == tok);
                    assert(cur[t2].ids[j2] == i2);
                };
                assert forall|t2: int, j2: int|
                    0 <= t2 < cur.len() && 0 <= j2 < cur[t2].ids.len() implies {
                    ||| index_has(prev, cur[t2].token, #[trigger] cur[t2].ids[j2])
                    ||| (cur[t2].token == token@ && cur[t2].ids[j2] == id)
                } by {
                    if t2 != t as int || j2 < prev[t as int].ids.len() {
                        assert(prev[t2].ids[j2] == cur[t2].ids[j2]);
                        assert(index_has(prev, cur[t2].token, cur[t2].ids[j2]));
                    }
                };
            }
            return;
        }
        t = t + 1;
    }
    let ghost prev = index.deep_view();
    let mut ids: Vec<u128> = Vec::new();
    ids.push(id);
    let entry = IndexEntry { token: crate::text::copy_chars(token), ids };
    index.push(entry);
    proof {
        let cur = index.deep_view();
        assert(cur =~~= prev.push(PostingModel { token: token@, ids: seq![id] }));
        assert(cur[prev.len() as int].ids[0] == id);
        assert(index_has(cur, token@, id));
        assert forall|tok: Seq<char>, i2: u128|
            #[trigger] index_has(prev, tok, i2) implies index_has(cur, tok, i2) by {
            let (t2, j2) = choose|t2: int, j2: int|
                0 <= t2 < prev.len() && 0 <= j2 < prev[t2].ids.len() && {
                    &&& prev[t2].token == tok
                    &&& #[trigger] prev[t2].ids[j2] == i2
                };
            assert(cur[t2].token == tok);
            assert(cur[t2].ids[j2] == i2);
        };
        assert forall|t2: int, j2: int|
            0 <= t2 < cur.len() && 0 <= j2 < cur[t2].ids.len() implies {
            ||| index_has(prev, cur[t2].token, #[trigger] cur[t2].ids[j2])
            ||| (cur[t2].token == token@ && cur[t2].ids[j2] == id)
        } by {
            if t2 < prev.len() {
                assert(prev[t2].ids[j2] == cur[t2].ids[j2]);
                assert(index_has(prev, cur[t2].token, cur[t2].ids[j2]));
            }
        };
    }
}

/// The metadata with its touch stamp set to `tick`.
pub open spec fn stamped(m: NodeMetadata, tick: u64) -> NodeMetadata {
    NodeMetadata { id: m.id, activation: m.activation, stability: m.stability, last_tick: tick }
}

/// A freshly created concept node.
pub open spec fn concept_model(
    id: u128,
    name: Seq<char>,
    definition: Seq<char>,
    tick: u64,
) -> NodeModel {
    NodeModel::Concept {
        meta: NodeMetadata { id, activation: SCALE, stability: SCALE, last_tick: tick },
        name,
        definition,
    }
}

/// A freshly created episode node.
pub open spec fn episode_model(
    id: u128,
    summary: Seq<char>,
    timestamp: i64,
    tick: u64,
) -> NodeModel {
    NodeModel::Episode {
        meta: NodeMetadata { id, activation: SCALE, stability: SCALE, last_tick: tick },
        summary,
        timestamp,
    }
}

/// A freshly created state node.
pub open spec fn state_model(id: u128, valence: i64, arousal: i64, tick: u64) -> NodeModel {
    NodeModel::State {
        meta: NodeMetadata { id, activation: SCALE, stability: SCALE, last_tick: tick },
        valence,
        arousal,
    }
}

/// The identifier named by a piece of text, if it parses and names a node
/// of the store.
pub open spec fn parsed_present(nodes: Seq<NodeModel>, s: Seq<char>) -> Option<u128> {
    match crate::node::uuid_parse_of(s) {
        Option::Some(i) => if has_node(nodes, i) {
            Option::Some(i)
        } else {
            Option::None
        },
        Option::None => Option::None,
    }
}

impl LoomGraph {
    /// Adds a node to the store, stamping it with the current tick and
    /// indexing its text. Refused (and nothing changes) only when the
    /// node's identifier is already taken.
    pub fn add_node(&mut self, node: Node) -> (r: bool)
        requires
            old(self).wf(),
            node@.valid_scalars(),
        ensures
            final(self).wf(),
            r == !has_node(old(self)@.nodes, node@.node_id()),
            r ==> final(self)@.nodes == old(self)@.nodes.push(
                node@.with_meta(stamped(node@.meta(), old(self)@.tick)),
            ),
            !r ==> final(self)@.nodes == old(self)@.nodes && final(self).index == old(self).index,
            final(self)@.edges == old(self)@.edges,
            final(self)@.tick == old(self)@.tick,
            final(self)@.decay == old(self)@.decay,
            final(self)@.anchor == old(self)@.anchor,
    {
        let probe = self.find_node(node.meta().id);
        match probe {
            Some(_) => false,
            None => {
                let id = node.meta().id;
                let mut node = node;
                {
                    let mm = node.meta_mut();
                    mm.last_tick = self.current_tick;
                }
                let text = node.extract_text();
                let lowered = crate::text::to_lower(text.as_str());
                let toks = crate::text::tokenize(lowered.as_str());
                let ghost old_nodes = self@.nodes;
                let ghost new_model = node@;
                self.nodes.push(node);
                let ghost new_nodes = self@.nodes;
                proof {
                    assert(new_nodes =~= old_nodes.push(new_model));
                    assert(new_nodes[old_nodes.len() as int] == new_model);
                    assert(toks.deep_view() == node_tokens(new_model));
                    assert forall|t: int, j: int|
                        0 <= t < self.index.deep_view().len() && 0 <= j < self.index.deep_view()[t].ids.len() implies posting_valid(
                        new_nodes,
                        self.index.deep_view()[t].token,
                        #[trigger] self.index.deep_view()[t].ids[j],
                    ) by {
                        assert(posting_valid(
                            old_nodes,
                            self.index.deep_view()[t].token,
                            self.index.deep_view()[t].ids[j],
                        ));
                        let k = choose|k: int|
                            0 <= k < old_nodes.len() && {
                                &&& (#[trigger] old_nodes[k]).node_id()
                                    == self.index.deep_view()[t].ids[j]
                                &&& !old_nodes[k].is_state()
                                &&& node_tokens(old_nodes[k]).contains(
                                    self.index.deep_view()[t].token,
                                )
                            };
                        assert(new_nodes[k] == old_nodes[k]);
                    };
                    assert(index_sound(self.index.deep_view(), new_nodes));
                }
                proof {
                    if new_model.is_state() {
                        assert(new_model.text() =~= Seq::<char>::empty());
                        assert(lowered@ =~= Seq::<char>::empty());
                        assert(crate::text::trim_start(Seq::<char>::empty())
                            =~= Seq::<char>::empty());
                        assert(crate::text::trim_token(Seq::<char>::empty()).len() == 0);
                        assert(tokens_of(lowered@).len() == 0);
                    }
                }
                let ghost base_index = self.index.deep_view();
                let nt: usize = toks.len();
                let mut ti: usize = 0;
                while ti < nt
                    invariant
                        new_model.is_state() ==> nt == 0,
                        nt == toks@.len(),
                        ti <= nt,
                        self@.nodes == new_nodes,
                        new_nodes == old_nodes.push(new_model),
                        toks.deep_view() == node_tokens(new_model),
                        new_model.node_id() == id,
                        self@.edges == old(self)@.edges,
                        self@.tick == old(self)@.tick,
                        self@.decay == old(self)@.decay,
                        self@.anchor == old(self)@.anchor,
                        index_sound(self.index.deep_view(), new_nodes),
                        forall|tok: Seq<char>, i2: u128|
                            #[trigger] index_has(base_index, tok, i2) ==> index_has(
                                self.index.deep_view(),
                                tok,
                                i2,
                            ),
                        forall|j: int|
                            0 <= j < ti ==> index_has(
                                self.index.deep_view(),
                                #[trigger] toks.deep_view()[j],
                                id,
                            ),
                    decreases nt - ti,
                {
                    let ghost prev = self.index.deep_view();
                    post_token(&mut self.index, &toks[ti], id);
                    proof {
                        let cur = self.index.deep_view();
                        assert forall|tok: Seq<char>, i2: u128|
                            #[trigger] index_has(base_index, tok, i2) implies index_has(
                            cur,
                            tok,
                            i2,
                        ) by {
                            assert(index_has(prev, tok, i2));
                        };
                        assert forall|j: int| 0 <= j < ti + 1 implies index_has(
                            cur,
                            #[trigger] toks.deep_view()[j],
                            id,
                        ) by {
                            if j < ti {
                                assert(index_has(prev, toks.deep_view()[j], id));
                            } else {
                                assert(toks.deep_view()[j] == toks[ti as int]@);
                            }
                        };
                        assert forall|t: int, j: int|
                            0 <= t < cur.len() && 0 <= j < cur[t].ids.len() implies posting_valid(
                            new_nodes,
                            cur[t].token,
                            #[trigger] cur[t].ids[j],
                        ) by {
                            if index_has(prev, cur[t].token, cur[t].ids[j]) {
                                let (t2, j2) = choose|t2: int, j2: int|
                                    0 <= t2 < prev.len() && 0 <= j2 < prev[t2].ids.len() && {
                                        &&& prev[t2].token == cur[t].token
                                        &&& #[trigger] prev[t2].ids[j2] == cur[t].ids[j]
                                    };
                                assert(posting_valid(new_nodes, prev[t2].token, prev[t2].ids[j2]));
                            } else {
                                assert(!new_model.is_state());
                                assert(cur[t].token == toks[ti as int]@ && cur[t].ids[j] == id);
                                assert(node_tokens(new_model)[ti as int] == toks[ti as int]@);
                                assert(node_tokens(new_model).contains(toks[ti as int]@));
                                assert(new_nodes[old_nodes.len() as int].node_id() == id);
                                assert(posting_valid(new_nodes, cur[t].token, cur[t].ids[j]));
                            }
                        };
                    }
                    ti = ti + 1;
                }
                proof {
                    let cur = self.index.deep_view();
                    assert forall|i: int| 0 <= i < new_nodes.len() implies {
                        &&& (#[trigger] new_nodes[i]).valid_scalars()
                        &&& new_nodes[i].meta().last_tick <= self.current_tick
                    } by {
                        if i < old_nodes.len() {
                            assert(old_nodes[i].valid_scalars());
                            assert(old_nodes[i].meta().last_tick <= old(self).current_tick);
                        } else {
                            assert(new_nodes[i] == new_model);
                        }
                    };
                    assert forall|i: int, j: int| 0 <= i < j < new_nodes.len() implies (
                    #[trigger] new_nodes[i]).node_id() != (#[trigger] new_nodes[j]).node_id() by {
                        if j < old_nodes.len() {
                            assert(old_nodes[i].node_id() != old_nodes[j].node_id());
                        } else {
                            assert(new_nodes[j] == new_model);
                            assert(!has_node(old_nodes, new_model.node_id()));
                            assert(old_nodes[i].node_id() != new_model.node_id());
                        }
                    };
                    assert forall|i: int| 0 <= i < self@.edges.len() implies {
                        &&& has_node(new_nodes, (#[trigger] self@.edges[i]).src())
                        &&& has_node(new_nodes, self@.edges[i].dst())
                    } by {
                        assert(has_node(old_nodes, self@.edges[i].src()));
                        assert(has_node(old_nodes, self@.edges[i].dst()));
                        let a = choose|k: int|
                            0 <= k < old_nodes.len() && (#[trigger] old_nodes[k]).node_id()
                                == self@.edges[i].src();
                        assert(new_nodes[a].node_id() == self@.edges[i].src());
                        let b = choose|k: int|
                            0 <= k < old_nodes.len() && (#[trigger] old_nodes[k]).node_id()
                                == self@.edges[i].dst();
                        assert(new_nodes[b].node_id() == self@.edges[i].dst());
                    };
                    assert forall|k: int, t2: int|
                        0 <= k < new_nodes.len() && !new_nodes[k].is_state() && 0 <= t2
                            < node_tokens(new_nodes[k]).len() implies index_has(
                        cur,
                        #[trigger] node_tokens(#[trigger] new_nodes[k])[t2],
                        new_nodes[k].node_id(),
                    ) by {
                        if k < old_nodes.len() {
                            assert(new_nodes[k] == old_nodes[k]);
                            assert(index_has(
                                base_index,
                                node_tokens(old_nodes[k])[t2],
                                old_nodes[k].node_id(),
                            ));
                        } else {
                            assert(new_nodes[k] == new_model);
                            assert(index_has(cur, toks.deep_view()[t2], id));
                        }
                    };
                }
                true
            },
        }
    }
}

/// A value clamped into `[lo, hi]`.
pub open spec fn clamp64(x: i64, lo: i64, hi: i64) -> i64 {
    if x < lo {
        lo
    } else if x > hi {
        hi
    } else {
        x
    }
}

impl LoomGraph {
    /// Adds a concept node with full activation and default stability, and
    /// returns its identifier as text. The graph is unchanged only in the
    /// (astronomically unlikely) case that the freshly drawn identifier is
    /// already taken.
    pub fn add_concept(&mut self, name: String, definition: String) -> (r: String)
        requires
            old(self).wf(),
        ensures
            final(self).wf(),
            final(self)@.edges == old(self)@.edges,
            final(self)@.tick == old(self)@.tick,
            final(self)@.decay == old(self)@.decay,
            final(self)@.anchor == old(self)@.anchor,
            exists|id: u128|
                {
                    &&& r@ == #[trigger] crate::node::uuid_str_of(id)
                    &&& crate::node::uuid_parse_of(r@) == Some(id)
                    &&& if has_node(old(self)@.nodes, id) {
                        final(self)@.nodes == old(self)@.nodes
                    } else {
                        final(self)@.nodes == old(self)@.nodes.push(
                            concept_model(id, name@, definition@, old(self)@.tick),
                        )
                    }
                },
    {
        let meta = crate::node::NodeMetadata::new();
        let id = meta.id;
        let node = Node::Concept(meta, crate::node::ConceptData { name, definition });
        proof {
            assert(node@.valid_scalars());
        }
        let added = self.add_node(node);
        proof {
            if added {
                assert(self@.nodes == old(self)@.nodes.push(
                    concept_model(id, name@, definition@, old(self)@.tick),
                ));
            }
        }
        crate::node::id_to_string(id)
    }

    /// Adds an episode node stamped with the current wall-clock time
    /// (clamped into the renderable range) and returns its identifier as
    /// text.
    pub fn add_episode(&mut self, summary: String) -> (r: String)
        requires
            old(self).wf(),
        ensures
            final(self).wf(),
            final(self)@.edges == old(self)@.edges,
            final(self)@.tick == old(self)@.tick,
            final(self)@.decay == old(self)@.decay,
            final(self)@.anchor == old(self)@.anchor,
            exists|id: u128, ts: i64|
                #![trigger crate::node::uuid_str_of(id), episode_model(id, summary@, ts, old(self)@.tick)]
                {
                    &&& crate::node::TS_MIN <= ts <= crate::node::TS_MAX
                    &&& r@ == crate::node::uuid_str_of(id)
                    &&& crate::node::uuid_parse_of(r@) == Some(id)
                    &&& if has_node(old(self)@.nodes, id) {
                        final(self)@.nodes == old(self)@.nodes
                    } else {
                        final(self)@.nodes == old(self)@.nodes.push(
                            episode_model(id, summary@, ts, old(self)@.tick),
                        )
                    }
                },
    {
        let now = crate::node::now_millis();
        let ts = if now > crate::node::TS_MAX {
            crate::node::TS_MAX
        } else {
            now
        };
        let meta = crate::node::NodeMetadata::new();
        let id = meta.id;
        let node = Node::Episode(meta, crate::node::EpisodeData { summary, timestamp: ts });
        proof {
            assert(node@.valid_scalars());
        }
        let added = self.add_node(node);
        proof {
            if added {
                assert(self@.nodes == old(self)@.nodes.push(
                    episode_model(id, summary@, ts, old(self)@.tick),
                ));
            } else {
                assert(episode_model(id, summary@, ts, old(self)@.tick)
                    == episode_model(id, summary@, ts, old(self)@.tick));
            }
        }
        crate::node::id_to_string(id)
    }

    /// Adds an affective state node (valence and arousal clamped into their
    /// ranges) and returns its identifier as text.
    pub fn add_state(&mut self, valence: i64, arousal: i64) -> (r: String)
        requires
            old(self).wf(),
        ensures
            final(self).wf(),
            final(self)@.edges == old(self)@.edges,
            final(self)@.tick == old(self)@.tick,
            final(self)@.decay == old(self)@.decay,
            final(self)@.anchor == old(self)@.anchor,
            exists|id: u128|
                {
                    &&& r@ == #[trigger] crate::node::uuid_str_of(id)
                    &&& crate::node::uuid_parse_of(r@) == Some(id)
                    &&& if has_node(old(self)@.nodes, id) {
                        final(self)@.nodes == old(self)@.nodes
                    } else {
                        final(self)@.nodes == old(self)@.nodes.push(
                            state_model(
                                id,
                                clamp64(valence, (-(SCALE as i64)) as i64, SCALE as i64),
                                clamp64(arousal, 0, SCALE as i64),
                                old(self)@.tick,
                            ),
                        )
                    }
                },
    {
        let v = if valence < -(SCALE as i64) {
            -(SCALE as i64)
        } else if valence > SCALE as i64 {
            SCALE as i64
        } else {
            valence
        };
        let a = if arousal < 0 {
            0
        } else if arousal > SCALE as i64 {
            SCALE as i64
        } else {
            arousal
        };
        let meta = crate::node::NodeMetadata::new();
        let id = meta.id;
        let node = Node::State(meta, crate::node::StateData { valence: v, arousal: a });
        proof {
            assert(node@.valid_scalars());
        }
        let added = self.add_node(node);
        proof {
            if added {
                assert(self@.nodes == old(self)@.nodes.push(
                    state_model(
                        id,
                        clamp64(valence, (-(SCALE as i64)) as i64, SCALE as i64),
                        clamp64(arousal, 0, SCALE as i64),
                        old(self)@.tick,
                    ),
                ));
            }
        }
        crate::node::id_to_string(id)
    }

    /// Writes an association edge between two nodes named by identifier
    /// value; refused (and nothing changes) when either endpoint is absent.
    pub fn connect_ids(&mut self, source: u128, target: u128, weight: i64) -> (r: bool)
        requires
            old(self).wf(),
        ensures
            final(self).wf(),
            r == (has_node(old(self)@.nodes, source) && has_node(old(self)@.nodes, target)),
            r ==> final(self)@.edges == old(self)@.edges.push(
                Edge::Associated(source, target, weight),
            ),
            !r ==> final(self)@.edges == old(self)@.edges,
            final(self)@.nodes == old(self)@.nodes,
            final(self)@.tick == old(self)@.tick,
            final(self)@.decay == old(self)@.decay,
            final(self)@.anchor == old(self)@.anchor,
            final(self).index == old(self).index,
    {
        let s = self.find_node(source);
        let t = self.find_node(target);
        match (s, t) {
            (Some(si), Some(_ti)) => {
                self.edges.push(Edge::Associated(source, target, weight));
                proof {
                    let es = self@.edges;
                    assert forall|i: int| 0 <= i < es.len() implies {
                        &&& has_node(self@.nodes, (#[trigger] es[i]).src())
                        &&& has_node(self@.nodes, es[i].dst())
                    } by {
                        if i < old(self)@.edges.len() {
                            assert(es[i] == old(self)@.edges[i]);
                            assert(has_node(self@.nodes, es[i].src()));
                        } else {
                            assert(es[i] == Edge::Associated(source, target, weight));
                        }
                    };
                }
                true
            },
            _ => false,
        }
    }

    /// Creates a weighted association between two nodes named by identifier
    /// text. Returns whether the edge was written: true exactly when both
    /// pieces of text parse as identifiers of present nodes.
    pub fn connect(&mut self, source_id: &str, target_id: &str, weight: i64) -> (r: bool)
        requires
            old(self).wf(),
        ensures
            final(self).wf(),
            r == (parsed_present(old(self)@.nodes, source_id@) is Some && parsed_present(
                old(self)@.nodes,
                target_id@,
            ) is Some),
            r ==> final(self)@.edges == old(self)@.edges.push(
                Edge::Associated(
                    parsed_present(old(self)@.nodes, source_id@)->0,
                    parsed_present(old(self)@.nodes, target_id@)->0,
                    weight,
                ),
            ),
            !r ==> final(self)@.edges == old(self)@.edges,
            final(self)@.nodes == old(self)@.nodes,
            final(self)@.tick == old(self)@.tick,
            final(self)@.decay == old(self)@.decay,
            final(self)@.anchor == old(self)@.anchor,
            final(self).index == old(self).index,
    {
        let su = crate::node::parse_id(source_id);
        let tu = crate::node::parse_id(target_id);
        match (su, tu) {
            (Some(s), Some(t)) => self.connect_ids(s, t, weight),
            _ => false,
        }
    }
}



/// The position of the node carrying `id` (meaningful when the identifier
/// is present and identifiers are unique).
pub open spec fn idx_of(nodes: Seq<NodeModel>, id: u128) -> int {
    choose|i: int| 0 <= i < nodes.len() && (#[trigger] nodes[i]).node_id() == id
}

/// With unique identifiers, any position holding `id` is the position.
pub proof fn lemma_idx_of_unique(nodes: Seq<NodeModel>, id: u128, k: int)
    requires
        ids_unique(nodes),
        0 <= k < nodes.len(),
        nodes[k].node_id() == id,
    ensures
        idx_of(nodes, id) == k,
{
    assert(has_node(nodes, id));
    let c = idx_of(nodes, id);
    assert(0 <= c < nodes.len() && nodes[c].node_id() == id);
    if c < k {
        assert(nodes[c].node_id() != nodes[k].node_id());
    } else if k < c {
        assert(nodes[k].node_id() != nodes[c].node_id());
    }
}

/// A node's metadata after decay, asymptotic boost and long-term
/// potentiation at clock `tick`.
pub open spec fn boosted_meta(m: NodeMetadata, amount: u64, tick: u64, d: u64) -> NodeMetadata {
    let dm = decayed_meta(m, d, tick);
    NodeMetadata {
        id: m.id,
        activation: crate::fixed::boosted(dm.activation as int, amount as int) as u64,
        stability: crate::fixed::ltp_stability(m.stability as int, amount as int) as u64,
        last_tick: tick,
    }
}

/// The store after an inhibitory ripple of magnitude `mag` lands on the
/// node carrying `t`: lazy decay, then activation reduced toward zero.
pub open spec fn inhibit_target(
    nodes: Seq<NodeModel>,
    t: u128,
    mag: u64,
    tick: u64,
    d: u64,
) -> Seq<NodeModel> {
    if has_node(nodes, t) {
        let i = idx_of(nodes, t);
        let n = nodes[i];
        let dm = decayed_meta(n.meta(), d, tick);
        let act = if dm.activation >= mag {
            (dm.activation - mag) as u64
        } else {
            0u64
        };
        nodes.update(
            i,
            n.with_meta(
                NodeMetadata {
                    id: dm.id,
                    activation: act,
                    stability: dm.stability,
                    last_tick: tick,
                },
            ),
        )
    } else {
        nodes
    }
}

/// Spread activation: boost the node carrying `id`, then send a damped
/// ripple along each of its outgoing association edges, in stored order.
/// Positive ripples recurse with one less hop; negative ripples inhibit
/// without recursing; ripples below `RIPPLE_EPSILON` are dropped.
pub open spec fn spread(
    nodes: Seq<NodeModel>,
    edges: Seq<Edge>,
    tick: u64,
    d: u64,
    id: u128,
    amount: u64,
    depth: nat,
) -> Seq<NodeModel>
    decreases depth, edges.len() + 1,
{
    if depth == 0 || !has_node(nodes, id) {
        nodes
    } else {
        let i = idx_of(nodes, id);
        let n = nodes[i];
        let bm = boosted_meta(n.meta(), amount, tick, d);
        spread_edges(nodes.update(i, n.with_meta(bm)), edges, 0, tick, d, id, amount, depth)
    }
}

/// The ripple pass of `spread`, walking the edge list from position `e`.
pub open spec fn spread_edges(
    nodes: Seq<NodeModel>,
    edges: Seq<Edge>,
    e: nat,
    tick: u64,
    d: u64,
    id: u128,
    amount: u64,
    depth: nat,
) -> Seq<NodeModel>
    decreases depth, edges.len() - e,
{
    if e >= edges.len() || depth == 0 {
        nodes
    } else {
        let stepped = match edges[e as int] {
            Edge::Associated(s, t, w) => if s == id {
                let mag = crate::fixed::ripple_magnitude(amount as int, w as int) as u64;
                if mag < crate::fixed::RIPPLE_EPSILON {
                    nodes
                } else if w > 0 {
                    spread(nodes, edges, tick, d, t, mag, (depth - 1) as nat)
                } else {
                    inhibit_target(nodes, t, mag, tick, d)
                }
            } else {
                nodes
            },
            _ => nodes,
        };
        spread_edges(stepped, edges, e + 1, tick, d, id, amount, depth)
    }
}

impl LoomGraph {
    /// Boosts the node carrying `id` and spreads the stimulus through its
    /// outgoing association edges, `depth` hops at most: the recursive
    /// damped-ripple engine with inhibition and long-term potentiation.
    pub fn boost_node(&mut self, id: u128, amount: u64, depth: u64)
        requires
            old(self).wf(),
        ensures
            final(self).wf(),
            final(self)@.nodes == spread(
                old(self)@.nodes,
                old(self)@.edges,
                old(self)@.tick,
                old(self)@.decay,
                id,
                amount,
                depth as nat,
            ),
            final(self)@.edges == old(self)@.edges,
            final(self)@.tick == old(self)@.tick,
            final(self)@.decay == old(self)@.decay,
            final(self)@.anchor == old(self)@.anchor,
            final(self).index == old(self).index,
        decreases depth,
    {
        if depth == 0 {
            return;
        }
        let found = self.find_node(id);
        match found {
            None => {},
            Some(i) => {
                let tick = self.current_tick;
                let d = self.decay_rate;
                let m: NodeMetadata = *self.nodes[i].meta();
                proof {
                    assert(self@.nodes[i as int].valid_scalars());
                    lemma_idx_of_unique(self@.nodes, id, i as int);
                }
                let a0 = if m.last_tick < tick {
                    decay_value(m.activation, d, tick - m.last_tick, m.stability)
                } else {
                    m.activation
                };
                let new_act = crate::fixed::boost_value(a0, amount);
                let new_stab = crate::fixed::ltp_value(m.stability, amount);
                {
                    let node = &mut self.nodes[i];
                    let mm = node.meta_mut();
                    mm.activation = new_act;
                    mm.stability = new_stab;
                    mm.last_tick = tick;
                }
                proof {
                    assert(self@.nodes =~= old(self)@.nodes.update(
                        i as int,
                        old(self)@.nodes[i as int].with_meta(
                            boosted_meta(old(self)@.nodes[i as int].meta(), amount, tick, d),
                        ),
                    ));
                    lemma_wf_after_scalar_update(*old(self), *self, i as int);
                }
                let ghost base = self@.nodes;
                let ghost target = spread(
                    old(self)@.nodes,
                    old(self)@.edges,
                    old(self)@.tick,
                    old(self)@.decay,
                    id,
                    amount,
                    depth as nat,
                );
                proof {
                    assert(target == spread_edges(
                        base,
                        old(self)@.edges,
                        0,
                        tick,
                        d,
                        id,
                        amount,
                        depth as nat,
                    ));
                }
                let ne: usize = self.edges.len();
                let mut e: usize = 0;
                while e < ne
                    invariant
                        self.wf(),
                        depth >= 1,
                        ne == self@.edges.len(),
                        e <= ne,
                        tick == self.current_tick,
                        d == self.decay_rate,
                        self@.edges == old(self)@.edges,
                        self@.tick == old(self)@.tick,
                        self@.decay == old(self)@.decay,
                        self@.anchor == old(self)@.anchor,
                        self.index == old(self).index,
                        target == spread_edges(
                            self@.nodes,
                            self@.edges,
                            e as nat,
                            tick,
                            d,
                            id,
                            amount,
                            depth as nat,
                        ),
                    decreases ne - e,
                {
                    let edge = self.edges[e];
                    let ghost prev = self@.nodes;
                    match edge {
                        Edge::Associated(s, t, w) => {
                            if s == id {
                                let mag = crate::fixed::ripple_value(amount, w);
                                if mag >= crate::fixed::RIPPLE_EPSILON {
                                    if w > 0 {
                                        self.boost_node(t, mag, depth - 1);
                                    } else {
                                        self.inhibit(t, mag);
                                        proof {
                                            assert(self@.nodes == inhibit_target(
                                                prev,
                                                t,
                                                mag,
                                                tick,
                                                d,
                                            ));
                                        }
                                    }
                                }
                            }
                        },
                        _ => {},
                    }
                    proof {
                        assert(spread_edges(
                            prev,
                            self@.edges,
                            e as nat,
                            tick,
                            d,
                            id,
                            amount,
                            depth as nat,
                        ) == spread_edges(
                            self@.nodes,
                            self@.edges,
                            (e + 1) as nat,
                            tick,
                            d,
                            id,
                            amount,
                            depth as nat,
                        ));
                    }
                    e = e + 1;
                }
            },
        }
    }

    /// Applies an inhibitory ripple of magnitude `mag` to the node carrying
    /// `t`, if present: lazy decay, then activation pushed toward zero. No
    /// recursion and no stability reward.
    fn inhibit(&mut self, t: u128, mag: u64)
        requires
            old(self).wf(),
        ensures
            final(self).wf(),
            final(self)@.nodes == inhibit_target(
                old(self)@.nodes,
                t,
                mag,
                old(self)@.tick,
                old(self)@.decay,
            ),
            final(self)@.edges == old(self)@.edges,
            final(self)@.tick == old(self)@.tick,
            final(self)@.decay == old(self)@.decay,
            final(self)@.anchor == old(self)@.anchor,
            final(self).index == old(self).index,
    {
        let found = self.find_node(t);
        match found {
            None => {},
            Some(i) => {
                let tick = self.current_tick;
                let d = self.decay_rate;
                let m: NodeMetadata = *self.nodes[i].meta();
                proof {
                    assert(self@.nodes[i as int].valid_scalars());
                    lemma_idx_of_unique(self@.nodes, t, i as int);
                }
                let a0 = if m.last_tick < tick {
                    decay_value(m.activation, d, tick - m.last_tick, m.stability)
                } else {
                    m.activation
                };
                let new_act = if a0 >= mag {
                    a0 - mag
                } else {
                    0
                };
                {
                    let node = &mut self.nodes[i];
                    let mm = node.meta_mut();
                    mm.activation = new_act;
                    mm.last_tick = tick;
                }
                proof {
                    let dm = decayed_meta(old(self)@.nodes[i as int].meta(), d, tick);
                    assert(self@.nodes =~= old(self)@.nodes.update(
                        i as int,
                        old(self)@.nodes[i as int].with_meta(
                            NodeMetadata {
                                id: dm.id,
                                activation: if dm.activation >= mag {
                                    (dm.activation - mag) as u64
                                } else {
                                    0u64
                                },
                                stability: dm.stability,
                                last_tick: tick,
                            },
                        ),
                    ));
                    lemma_wf_after_scalar_update(*old(self), *self, i as int);
                }
            },
        }
    }

    /// Stimulates the node named by `id_str` with the given force and lets
    /// the boost spread three hops. Returns whether the text named a
    /// present node; otherwise nothing changes.
    pub fn stimulate(&mut self, id_str: &str, force: u64) -> (r: bool)
        requires
            old(self).wf(),
        ensures
            final(self).wf(),
            r == (parsed_present(old(self)@.nodes, id_str@) is Some),
            r ==> final(self)@.nodes == spread(
                old(self)@.nodes,
                old(self)@.edges,
                old(self)@.tick,
                old(self)@.decay,
                parsed_present(old(self)@.nodes, id_str@)->0,
                force,
                3,
            ),
            !r ==> final(self)@.nodes == old(self)@.nodes,
            final(self)@.edges == old(self)@.edges,
            final(self)@.tick == old(self)@.tick,
            final(self)@.decay == old(self)@.decay,
            final(self)@.anchor == old(self)@.anchor,
            final(self).index == old(self).index,
    {
        let parsed = crate::node::parse_id(id_str);
        match parsed {
            Some(u) => {
                let found = self.find_node(u);
                match found {
                    Some(_) => {
                        self.boost_node(u, force, 3);
                        true
                    },
                    None => false,
                }
            },
            None => false,
        }
    }
}

/// A node weak enough to prune: stability under the threshold and
/// activation under 0.1.
pub open spec fn prune_pred(n: NodeModel, threshold: u64) -> bool {
    n.meta().stability < threshold && n.meta().activation < 100_000
}

/// The filter keeping the nodes that survive pruning at `threshold`.
pub open spec fn keep_node(threshold: u64) -> spec_fn(NodeModel) -> bool {
    |n: NodeModel| !prune_pred(n, threshold)
}

/// The filter keeping the edges whose endpoints both survive in `nodes`.
pub open spec fn edge_survives(nodes: Seq<NodeModel>) -> spec_fn(Edge) -> bool {
    |e: Edge| has_node(nodes, e.src()) && has_node(nodes, e.dst())
}

/// The position of the node carrying `id` in a bare node store.
pub fn find_in_nodes(nodes: &Vec<Node>, id: u128) -> (r: Option<usize>)
    ensures
        match r {
            Some(k) => k < nodes.deep_view().len() && nodes.deep_view()[k as int].node_id() == id,
            None => !has_node(nodes.deep_view(), id),
        },
{
    let n: usize = nodes.len();
    let mut i: usize = 0;
    while i < n
        invariant
            n == nodes.deep_view().len(),
            i <= n,
            forall|k: int| 0 <= k < i ==> (#[trigger] nodes.deep_view()[k]).node_id() != id,
        decreases n - i,
    {
        if nodes[i].meta().id == id {
            return Some(i);
        }
        i = i + 1;
    }
    None
}

/// Filtering a store with unique identifiers keeps them unique, keeps every
/// value it keeps unchanged, and keeps exactly the values the filter allows.
pub proof fn lemma_filter_nodes(nodes: Seq<NodeModel>, keep: spec_fn(NodeModel) -> bool)
    requires
        ids_unique(nodes),
    ensures
        ids_unique(nodes.filter(keep)),
        forall|i: int|
            0 <= i < nodes.filter(keep).len() ==> nodes.contains(#[trigger] nodes.filter(keep)[i])
                && keep(nodes.filter(keep)[i]),
        forall|k: int|
            0 <= k < nodes.len() && keep(#[trigger] nodes[k]) ==> nodes.filter(keep).contains(
                nodes[k],
            ),
        forall|id: u128|
            #[trigger] has_node(nodes.filter(keep), id) <==> exists|k: int|
                0 <= k < nodes.len() && (#[trigger] nodes[k]).node_id() == id && keep(nodes[k]),
{
    let f = nodes.filter(keep);
    assert forall|i: int| 0 <= i < f.len() implies nodes.contains(#[trigger] f[i]) && keep(
        f[i],
    ) by {
        nodes.lemma_filter_pred(keep, i);
        assert(f.contains(f[i]));
        nodes.lemma_filter_contains_rev(keep, f[i]);
    };
    assert forall|k: int| 0 <= k < nodes.len() && keep(#[trigger] nodes[k]) implies f.contains(
        nodes[k],
    ) by {
        nodes.lemma_filter_contains(keep, k);
    };
    lemma_filter_unique(nodes, keep);
    assert forall|id: u128| #[trigger] has_node(f, id) implies exists|k: int|
        0 <= k < nodes.len() && (#[trigger] nodes[k]).node_id() == id && keep(nodes[k]) by {
        let i = choose|i: int| 0 <= i < f.len() && (#[trigger] f[i]).node_id() == id;
        assert(nodes.contains(f[i]) && keep(f[i]));
        let k = choose|k: int| 0 <= k < nodes.len() && nodes[k] == f[i];
        assert(nodes[k].node_id() == id && keep(nodes[k]));
    };
    assert forall|id: u128|
        (exists|k: int| 0 <= k < nodes.len() && (#[trigger] nodes[k]).node_id() == id && keep(
            nodes[k],
        )) implies #[trigger] has_node(f, id) by {
        let k = choose|k: int|
            0 <= k < nodes.len() && (#[trigger] nodes[k]).node_id() == id && keep(nodes[k]);
        assert(f.contains(nodes[k]));
        let i = choose|i: int| 0 <= i < f.len() && f[i] == nodes[k];
        assert(f[i].node_id() == id);
    };
}

/// A filtered store with unique identifiers keeps them unique.
proof fn lemma_filter_unique(nodes: Seq<NodeModel>, keep: spec_fn(NodeModel) -> bool)
    requires
        ids_unique(nodes),
    ensures
        ids_unique(nodes.filter(keep)),
    decreases nodes.len(),
{
    reveal(Seq::filter);
    let f = nodes.filter(keep);
    if nodes.len() > 0 {
        let head = nodes.drop_last();
        assert forall|a: int, b: int| 0 <= a < b < head.len() implies (
        #[trigger] head[a]).node_id() != (#[trigger] head[b]).node_id() by {
            assert(nodes[a].node_id() != nodes[b].node_id());
        };
        lemma_filter_unique(head, keep);
        let prev = head.filter(keep);
        assert forall|i: int, j: int| 0 <= i < j < f.len() implies (#[trigger] f[i]).node_id()
            != (#[trigger] f[j]).node_id() by {
            if keep(nodes.last()) && j == f.len() - 1 {
                assert(f[j] == nodes.last());
                assert(f[i] == prev[i]);
                assert(prev.contains(prev[i]));
                head.lemma_filter_contains_rev(keep, prev[i]);
                let k = choose|k: int| 0 <= k < head.len() && head[k] == prev[i];
                assert(nodes[k] == f[i]);
                assert(nodes[k].node_id() != nodes[nodes.len() - 1].node_id());
            } else {
                assert(f[i] == prev[i] && f[j] == prev[j]);
                assert(prev[i].node_id() != prev[j].node_id());
            }
        };
    }
}

impl LoomGraph {
    /// Removes every node whose stability is below the threshold and whose
    /// activation is below 0.1, together with all its edges and text-index
    /// postings. Returns the number of nodes removed.
    pub fn prune_low_stability(&mut self, threshold: u64) -> (r: usize)
        requires
            old(self).wf(),
        ensures
            final(self).wf(),
            final(self)@.nodes == old(self)@.nodes.filter(keep_node(threshold)),
            r + final(self)@.nodes.len() == old(self)@.nodes.len(),
            final(self)@.edges == old(self)@.edges.filter(edge_survives(final(self)@.nodes)),
            final(self)@.tick == old(self)@.tick,
            final(self)@.decay == old(self)@.decay,
            final(self)@.anchor == old(self)@.anchor,
    {
        let before: usize = self.nodes.len();
        let ghost orig = self@.nodes;
        let ghost keep = keep_node(threshold);
        let mut i: usize = 0;
        let mut j: usize = 0;
        proof {
            assert(orig.subrange(0, 0).filter(keep) =~= Seq::<NodeModel>::empty());
            assert(self@.nodes =~= orig.subrange(0, 0).filter(keep) + orig.skip(0));
        }
        while j < before
            invariant
                keep == keep_node(threshold),
                orig == old(self)@.nodes,
                before == orig.len(),
                j <= before,
                i as int == orig.subrange(0, j as int).filter(keep).len(),
                i <= j,
                self@.nodes == orig.subrange(0, j as int).filter(keep) + orig.skip(j as int),
                self@.edges == old(self)@.edges,
                self@.tick == old(self)@.tick,
                self@.decay == old(self)@.decay,
                self@.anchor == old(self)@.anchor,
                self.index == old(self).index,
            decreases before - j,
        {
            proof {
                orig.subrange(0, j as int).lemma_filter_len(keep);
                assert(self@.nodes.len() == i + (orig.len() - j));
                assert(self.nodes@.len() == self@.nodes.len());
                assert(self@.nodes[i as int] == orig.skip(j as int)[0]);
                assert(orig.skip(j as int)[0] == orig[j as int]);
                assert(orig.subrange(0, j as int).push(orig[j as int]) =~= orig.subrange(
                    0,
                    j as int + 1,
                ));
                orig.subrange(0, j as int).lemma_filter_push(orig[j as int], keep);
            }
            let m: NodeMetadata = *self.nodes[i].meta();
            proof {
                assert(m == orig[j as int].meta());
                assert(keep(orig[j as int]) == !prune_pred(orig[j as int], threshold));
            }
            if m.stability < threshold && m.activation < 100_000 {
                let ghost prev = self@.nodes;
                let _gone = self.nodes.remove(i);
                proof {
                    assert(prune_pred(orig[j as int], threshold));
                    assert(!keep(orig[j as int]));
                    assert(self@.nodes =~= prev.remove(i as int));
                    let part = orig.subrange(0, j as int).filter(keep);
                    let target = part + orig.skip(j as int + 1);
                    assert forall|k: int| 0 <= k < prev.remove(i as int).len() implies prev.remove(
                        i as int,
                    )[k] == target[k] by {
                        if k < i {
                            assert(prev.remove(i as int)[k] == prev[k]);
                        } else {
                            assert(prev.remove(i as int)[k] == prev[k + 1]);
                            assert(prev[k + 1] == orig.skip(j as int)[k + 1 - i]);
                            assert(orig.skip(j as int)[k + 1 - i] == orig[j + 1 + (k - i)]);
                            assert(orig.skip(j as int + 1)[k - i] == orig[j + 1 + (k - i)]);
                        }
                    };
                    assert(prev.remove(i as int) =~= target);
                    assert(self@.nodes =~= orig.subrange(0, j as int + 1).filter(keep) + orig.skip(
                        j as int + 1,
                    ));
                }
            } else {
                proof {
                    assert(keep(orig[j as int]));
                    assert(self@.nodes =~= orig.subrange(0, j as int + 1).filter(keep) + orig.skip(
                        j as int + 1,
                    ));
                }
                i = i + 1;
            }
            j = j + 1;
        }
        proof {
            assert(orig.subrange(0, before as int) =~= orig);
            assert(orig.skip(before as int) =~= Seq::<NodeModel>::empty());
            assert(self@.nodes =~= orig.filter(keep));
            orig.lemma_filter_len(keep);
            lemma_filter_nodes(orig, keep);
        }
        let after: usize = self.nodes.len();
        let removed: usize = before - after;
        let ghost new_nodes = self@.nodes;
        // Drop the edges whose endpoints did not both survive.
        let ghost surv = edge_survives(new_nodes);
        let ne: usize = self.edges.len();
        let mut kept_edges: Vec<Edge> = Vec::new();
        let mut k: usize = 0;
        proof {
            assert(kept_edges@ =~= self@.edges.subrange(0, 0).filter(surv));
        }
        while k < ne
            invariant
                ne == self@.edges.len(),
                k <= ne,
                new_nodes == self@.nodes,
                kept_edges@ == self@.edges.subrange(0, k as int).filter(surv),
                surv == edge_survives(new_nodes),
            decreases ne - k,
        {
            let ed = self.edges[k];
            let (s, t) = ed.ends();
            let fs = find_in_nodes(&self.nodes, s);
            let ft = find_in_nodes(&self.nodes, t);
            proof {
                assert(self@.edges.subrange(0, k as int).push(ed) =~= self@.edges.subrange(
                    0,
                    k as int + 1,
                ));
                self@.edges.subrange(0, k as int).lemma_filter_push(ed, surv);
            }
            match (fs, ft) {
                (Some(a), Some(b)) => {
                    proof {
                        assert(self@.nodes[a as int].node_id() == s);
                        assert(has_node(new_nodes, s));
                        assert(has_node(new_nodes, t));
                        assert(surv(ed));
                    }
                    kept_edges.push(ed);
                },
                _ => {
                    proof {
                        assert(!surv(ed));
                    }
                },
            }
            k = k + 1;
        }
        self.edges = kept_edges;
        proof {
            assert(old(self)@.edges.subrange(0, ne as int) =~= old(self)@.edges);
            assert(self@.edges =~= old(self)@.edges.filter(surv));
        }
        // Drop the postings of removed nodes; drop emptied tokens.
        let ghost old_ix = self.index.deep_view();
        let ni: usize = self.index.len();
        let mut new_index: Vec<IndexEntry> = Vec::new();
        let mut t2: usize = 0;
        while t2 < ni
            invariant
                ni == self.index@.len(),
                t2 <= ni,
                new_nodes == self@.nodes,
                old_ix == self.index.deep_view(),
                forall|tok: Seq<char>, id: u128|
                    #[trigger] index_has(new_index.deep_view(), tok, id) ==> index_has(
                        old_ix,
                        tok,
                        id,
                    ) && has_node(new_nodes, id),
                forall|tp: int, jp: int|
                    0 <= tp < t2 && 0 <= jp < old_ix[tp].ids.len() && has_node(
                        new_nodes,
                        #[trigger] old_ix[tp].ids[jp],
                    ) ==> index_has(new_index.deep_view(), old_ix[tp].token, old_ix[tp].ids[jp]),
            decreases ni - t2,
        {
            let entry = &self.index[t2];
            let nid: usize = entry.ids.len();
            let mut kept_ids: Vec<u128> = Vec::new();
            let mut jj: usize = 0;
            while jj < nid
                invariant
                    ni == self.index@.len(),
                    t2 < ni,
                    nid == self.index@[t2 as int].ids@.len(),
                    jj <= nid,
                    new_nodes == self@.nodes,
                    old_ix == self.index.deep_view(),
                    forall|q: int|
                        0 <= q < kept_ids@.len() ==> has_node(
                            new_nodes,
                            #[trigger] kept_ids@[q],
                        ) && old_ix[t2 as int].ids.contains(kept_ids@[q]),
                    forall|p: int|
                        0 <= p < jj && has_node(new_nodes, #[trigger] old_ix[t2 as int].ids[p])
                            ==> kept_ids@.contains(old_ix[t2 as int].ids[p]),
                decreases nid - jj,
            {
                let idv = self.index[t2].ids[jj];
                let f = find_in_nodes(&self.nodes, idv);
                match f {
                    Some(a) => {
                        proof {
                            assert(self@.nodes[a as int].node_id() == idv);
                            assert(has_node(new_nodes, idv));
                            assert(old_ix[t2 as int].ids[jj as int] == idv);
                        }
                        let ghost prev_kept = kept_ids@;
                        kept_ids.push(idv);
                        proof {
                            assert(kept_ids@.last() == idv);
                            assert(old_ix[t2 as int].ids.contains(idv));
                            assert forall|p: int|
                                0 <= p < jj + 1 && has_node(
                                    new_nodes,
                                    #[trigger] old_ix[t2 as int].ids[p],
                                ) implies kept_ids@.contains(old_ix[t2 as int].ids[p]) by {
                                if p < jj {
                                    assert(prev_kept.contains(old_ix[t2 as int].ids[p]));
                                    let q = choose|q: int|
                                        0 <= q < prev_kept.len() && prev_kept[q] == old_ix[
                                        t2 as int].ids[p];
                                    assert(kept_ids@[q] == old_ix[t2 as int].ids[p]);
                                } else {
                                    assert(kept_ids@[kept_ids@.len() - 1] == old_ix[
                                        t2 as int].ids[p]);
                                }
                            };
                        }
                    },
                    None => {
                        proof {
                            assert(!has_node(new_nodes, idv));
                            assert(old_ix[t2 as int].ids[jj as int] == idv);
                        }
                    },
                }
                jj = jj + 1;
            }
            let ghost prev_new = new_index.deep_view();
            if kept_ids.len() > 0 {
                let tok = crate::text::copy_chars(&self.index[t2].token);
                new_index.push(IndexEntry { token: tok, ids: kept_ids });
                proof {
                    let cur = new_index.deep_view();
                    assert(cur =~~= prev_new.push(
                        PostingModel {
                            token: old_ix[t2 as int].token,
                            ids: cur[cur.len() - 1].ids,
                        },
                    ));
                    assert forall|tok2: Seq<char>, id: u128|
                        #[trigger] index_has(cur, tok2, id) implies index_has(old_ix, tok2, id)
                        && has_node(new_nodes, id) by {
                        let (a, b) = choose|a: int, b: int|
                            0 <= a < cur.len() && 0 <= b < cur[a].ids.len() && {
                                &&& cur[a].token == tok2
                                &&& #[trigger] cur[a].ids[b] == id
                            };
                        if a < prev_new.len() {
                            assert(index_has(prev_new, tok2, id));
                        } else {
                            assert(has_node(new_nodes, id));
                            assert(old_ix[t2 as int].ids.contains(id));
                            let p = choose|p: int|
                                0 <= p < old_ix[t2 as int].ids.len() && old_ix[t2 as int].ids[p]
                                    == id;
                            assert(old_ix[t2 as int].token == tok2);
                            assert(index_has(old_ix, tok2, id));
                        }
                    };
                    assert forall|tp: int, jp: int|
                        0 <= tp < t2 + 1 && 0 <= jp < old_ix[tp].ids.len() && has_node(
                            new_nodes,
                            #[trigger] old_ix[tp].ids[jp],
                        ) implies index_has(cur, old_ix[tp].token, old_ix[tp].ids[jp]) by {
                        if tp < t2 {
                            assert(index_has(prev_new, old_ix[tp].token, old_ix[tp].ids[jp]));
                            let (a, b) = choose|a: int, b: int|
                                0 <= a < prev_new.len() && 0 <= b < prev_new[a].ids.len() && {
                                    &&& prev_new[a].token == old_ix[tp].token
                                    &&& #[trigger] prev_new[a].ids[b] == old_ix[tp].ids[jp]
                                };
                            assert(cur[a].token == old_ix[tp].token);
                            assert(cur[a].ids[b] == old_ix[tp].ids[jp]);
                        } else {
                            assert(kept_ids@.contains(old_ix[tp].ids[jp]));
                            let q = choose|q: int|
                                0 <= q < kept_ids@.len() && kept_ids@[q] == old_ix[tp].ids[jp];
                            assert(cur[cur.len() - 1].token == old_ix[tp].token);
                            assert(cur[cur.len() - 1].ids[q] == old_ix[tp].ids[jp]);
                        }
                    };
                }
            } else {
                proof {
                    assert forall|tp: int, jp: int|
                        0 <= tp < t2 + 1 && 0 <= jp < old_ix[tp].ids.len() && has_node(
                            new_nodes,
                            #[trigger] old_ix[tp].ids[jp],
                        ) implies index_has(
                        new_index.deep_view(),
                        old_ix[tp].token,
                        old_ix[tp].ids[jp],
                    ) by {
                        if tp == t2 {
                            assert(kept_ids@.contains(old_ix[tp].ids[jp]));
                            assert(false);
                        }
                    };
                }
            }
            t2 = t2 + 1;
        }
        self.index = new_index;
        // Well-formedness of the pruned graph.
        proof {
            let keepf = keep;
            lemma_filter_nodes(orig, keepf);
            assert forall|q: int| 0 <= q < new_nodes.len() implies {
                &&& (#[trigger] new_nodes[q]).valid_scalars()
                &&& new_nodes[q].meta().last_tick <= self.current_tick
            } by {
                assert(orig.contains(new_nodes[q]));
                let k2 = choose|k2: int| 0 <= k2 < orig.len() && orig[k2] == new_nodes[q];
                assert(orig[k2].valid_scalars());
            };
            assert forall|q: int| 0 <= q < self@.edges.len() implies {
                &&& has_node(new_nodes, (#[trigger] self@.edges[q]).src())
                &&& has_node(new_nodes, self@.edges[q].dst())
            } by {
                old(self)@.edges.lemma_filter_pred(surv, q);
                assert(surv(self@.edges[q]));
            };
            let cur = self.index.deep_view();
            assert forall|t3: int, j3: int|
                0 <= t3 < cur.len() && 0 <= j3 < cur[t3].ids.len() implies posting_valid(
                new_nodes,
                cur[t3].token,
                #[trigger] cur[t3].ids[j3],
            ) by {
                assert(index_has(cur, cur[t3].token, cur[t3].ids[j3]));
                assert(index_has(old_ix, cur[t3].token, cur[t3].ids[j3]) && has_node(
                    new_nodes,
                    cur[t3].ids[j3],
                ));
                let (a, b) = choose|a: int, b: int|
                    0 <= a < old_ix.len() && 0 <= b < old_ix[a].ids.len() && {
                        &&& old_ix[a].token == cur[t3].token
                        &&& #[trigger] old_ix[a].ids[b] == cur[t3].ids[j3]
                    };
                assert(posting_valid(orig, old_ix[a].token, old_ix[a].ids[b]));
                let kk = choose|kk: int|
                    0 <= kk < orig.len() && {
                        &&& (#[trigger] orig[kk]).node_id() == cur[t3].ids[j3]
                        &&& !orig[kk].is_state()
                        &&& node_tokens(orig[kk]).contains(cur[t3].token)
                    };
                let qq = choose|qq: int|
                    0 <= qq < new_nodes.len() && (#[trigger] new_nodes[qq]).node_id()
                        == cur[t3].ids[j3];
                assert(orig.contains(new_nodes[qq]));
                let k2 = choose|k2: int| 0 <= k2 < orig.len() && orig[k2] == new_nodes[qq];
                // With unique identifiers the surviving node is the old one.
                if k2 != kk {
                    assert(orig[k2].node_id() == orig[kk].node_id());
                    if k2 < kk {
                        assert(orig[k2].node_id() != orig[kk].node_id());
                    } else {
                        assert(orig[kk].node_id() != orig[k2].node_id());
                    }
                }
                assert(new_nodes[qq] == orig[kk]);
                assert(posting_valid(new_nodes, cur[t3].token, cur[t3].ids[j3]));
            };
            assert forall|k2: int, ti: int|
                0 <= k2 < new_nodes.len() && !new_nodes[k2].is_state() && 0 <= ti < node_tokens(
                    new_nodes[k2],
                ).len() implies index_has(
                cur,
                #[trigger] node_tokens(#[trigger] new_nodes[k2])[ti],
                new_nodes[k2].node_id(),
            ) by {
                assert(orig.contains(new_nodes[k2]));
                let k3 = choose|k3: int| 0 <= k3 < orig.len() && orig[k3] == new_nodes[k2];
                assert(index_has(old_ix, node_tokens(orig[k3])[ti], orig[k3].node_id()));
                let (a, b) = choose|a: int, b: int|
                    0 <= a < old_ix.len() && 0 <= b < old_ix[a].ids.len() && {
                        &&& old_ix[a].token == node_tokens(orig[k3])[ti]
                        &&& #[trigger] old_ix[a].ids[b] == orig[k3].node_id()
                    };
                assert(has_node(new_nodes, old_ix[a].ids[b]));
                assert(index_has(cur, old_ix[a].token, old_ix[a].ids[b]));
            };
        }
        removed
    }
}

/// The clock after a dream cycle: 480 ticks later (about eight hours in the
/// tick-minute convention), saturating.
pub open spec fn dream_tick(tick: u64) -> u64 {
    if tick + 480 > u64::MAX as int {
        u64::MAX
    } else {
        (tick + 480) as u64
    }
}

/// Whether the dream cycle promotes a node: its stored activation is above
/// 0.7.
pub open spec fn dream_promoted(n: NodeModel) -> bool {
    n.meta().activation > 700_000
}

/// The filter counting promoted nodes.
pub open spec fn promoted_filter() -> spec_fn(NodeModel) -> bool {
    |n: NodeModel| dream_promoted(n)
}

/// A node's metadata after the dream pass at the advanced clock `new_tick`:
/// promoted nodes gain stability, every node's activation is compressed
/// toward the stability-derived baseline.
pub open spec fn dream_meta(m: NodeMetadata, new_tick: u64) -> NodeMetadata {
    let s2 = if m.activation > 700_000 {
        crate::fixed::dream_stability(m.stability as int) as u64
    } else {
        m.stability
    };
    NodeMetadata {
        id: m.id,
        activation: crate::fixed::dream_activation(m.activation as int, s2 as int) as u64,
        stability: s2,
        last_tick: new_tick,
    }
}

/// The node store after the dream pass.
pub open spec fn dreamed(nodes: Seq<NodeModel>, new_tick: u64) -> Seq<NodeModel> {
    nodes.map_values(|n: NodeModel| n.with_meta(dream_meta(n.meta(), new_tick)))
}

impl LoomGraph {
    /// Runs a sleep cycle: advances the clock by 480 ticks, grants extra
    /// stability to every node whose stored activation is above 0.7,
    /// compresses every activation to 30% plus the stability baseline, and
    /// prunes nodes left with stability under 1.2 and activation under 0.1.
    /// Returns the number of nodes promoted and the number pruned.
    pub fn dream_cycle(&mut self) -> (r: (usize, usize))
        requires
            old(self).wf(),
        ensures
            final(self).wf(),
            final(self)@.tick == dream_tick(old(self)@.tick),
            final(self)@.tick >= old(self)@.tick,
            final(self)@.nodes == dreamed(old(self)@.nodes, dream_tick(old(self)@.tick)).filter(
                keep_node(1_200_000),
            ),
            r.0 as int == old(self)@.nodes.filter(promoted_filter()).len(),
            r.1 + final(self)@.nodes.len() == dreamed(
                old(self)@.nodes,
                dream_tick(old(self)@.tick),
            ).len(),
            final(self)@.edges == old(self)@.edges.filter(edge_survives(final(self)@.nodes)),
            final(self)@.decay == old(self)@.decay,
            final(self)@.anchor == old(self)@.anchor,
    {
        if self.current_tick > u64::MAX - 480 {
            self.current_tick = u64::MAX;
        } else {
            self.current_tick = self.current_tick + 480;
        }
        let ntick = self.current_tick;
        let ghost orig = self@.nodes;
        let ghost pf = promoted_filter();
        let n: usize = self.nodes.len();
        let mut i: usize = 0;
        let mut promoted: usize = 0;
        proof {
            assert(orig.subrange(0, 0).filter(pf) =~= Seq::<NodeModel>::empty());
        }
        while i < n
            invariant
                pf == promoted_filter(),
                orig == old(self)@.nodes,
                n == orig.len(),
                i <= n,
                ntick == self.current_tick,
                ntick == dream_tick(old(self)@.tick),
                old(self).wf(),
                self@.nodes.len() == orig.len(),
                forall|k: int| 0 <= k < i ==> self@.nodes[k] == #[trigger] dreamed(orig, ntick)[k],
                forall|k: int| i <= k < n ==> self@.nodes[k] == #[trigger] orig[k],
                promoted as int == orig.subrange(0, i as int).filter(pf).len(),
                promoted <= i,
                self@.edges == old(self)@.edges,
                self@.decay == old(self)@.decay,
                self@.anchor == old(self)@.anchor,
                self.index == old(self).index,
            decreases n - i,
        {
            let m: NodeMetadata = *self.nodes[i].meta();
            proof {
                assert(orig[i as int].valid_scalars());
                assert(m == orig[i as int].meta());
                orig.subrange(0, i as int).lemma_filter_len(pf);
                assert(orig.subrange(0, i as int).push(orig[i as int]) =~= orig.subrange(
                    0,
                    i as int + 1,
                ));
                orig.subrange(0, i as int).lemma_filter_push(orig[i as int], pf);
            }
            let s2 = if m.activation > 700_000 {
                promoted = promoted + 1;
                crate::fixed::dream_stability_value(m.stability)
            } else {
                m.stability
            };
            let a2 = crate::fixed::dream_activation_value(m.activation, s2);
            {
                let node = &mut self.nodes[i];
                let mm = node.meta_mut();
                mm.activation = a2;
                mm.stability = s2;
                mm.last_tick = ntick;
            }
            proof {
                assert(self@.nodes[i as int] == orig[i as int].with_meta(
                    dream_meta(orig[i as int].meta(), ntick),
                ));
                assert(dreamed(orig, ntick)[i as int] == orig[i as int].with_meta(
                    dream_meta(orig[i as int].meta(), ntick),
                ));
            }
            i = i + 1;
        }
        proof {
            assert(orig.subrange(0, n as int) =~= orig);
            assert(self@.nodes =~= dreamed(orig, ntick));
            // The dreamed store is well formed at the advanced clock.
            let mid = dreamed(orig, ntick);
            assert forall|k: int| 0 <= k < orig.len() implies {
                &&& (#[trigger] mid[k]).node_id() == (#[trigger] orig[k]).node_id()
                &&& mid[k].is_state() == orig[k].is_state()
                &&& mid[k].text() == orig[k].text()
            } by {
                assert(mid[k] == orig[k].with_meta(dream_meta(orig[k].meta(), ntick)));
            };
            assert(same_shape(orig, mid));
            lemma_same_shape_preserves(old(self).index.deep_view(), old(self)@.edges, orig, mid);
            assert forall|k: int| 0 <= k < mid.len() implies {
                &&& (#[trigger] mid[k]).valid_scalars()
                &&& mid[k].meta().last_tick <= self.current_tick
            } by {
                assert(orig[k].valid_scalars());
                let m0 = orig[k].meta();
                if m0.activation > 700_000 {
                    crate::fixed::lemma_dream_stability_bounds(m0.stability as int);
                }
                let s2 = if m0.activation > 700_000 {
                    crate::fixed::dream_stability(m0.stability as int) as u64
                } else {
                    m0.stability
                };
                crate::fixed::lemma_dream_activation_bounds(m0.activation as int, s2 as int);
                assert(mid[k] == orig[k].with_meta(dream_meta(m0, ntick)));
            };
            assert(self.wf());
        }
        let pruned = self.prune_low_stability(1_200_000);
        (promoted, pruned)
    }
}

/// Builds the inverted text index of a node store from scratch: every token
/// of every non-state node is posted under that node's identifier, and
/// nothing else is.
pub(crate) fn build_index(nodes: &Vec<Node>) -> (ix: Vec<IndexEntry>)
    ensures
        index_sound(ix.deep_view(), nodes.deep_view()),
        index_complete(ix.deep_view(), nodes.deep_view()),
{
    let ns = nodes.len();
    let mut ix: Vec<IndexEntry> = Vec::new();
    let mut k: usize = 0;
    proof {
        assert(ix.deep_view() =~= Seq::<PostingModel>::empty());
    }
    while k < ns
        invariant
            ns == nodes.deep_view().len(),
            k <= ns,
            index_sound(ix.deep_view(), nodes.deep_view()),
            forall|q: int, ti: int|
                0 <= q < k && !nodes.deep_view()[q].is_state() && 0 <= ti < node_tokens(
                    nodes.deep_view()[q],
                ).len() ==> index_has(
                    ix.deep_view(),
                    #[trigger] node_tokens(#[trigger] nodes.deep_view()[q])[ti],
                    nodes.deep_view()[q].node_id(),
                ),
        decreases ns - k,
    {
        let ghost model = nodes.deep_view()[k as int];
        let id = nodes[k].meta().id;
        let text = nodes[k].extract_text();
        let lowered = crate::text::to_lower(text.as_str());
        let toks = crate::text::tokenize(lowered.as_str());
        proof {
            assert(toks.deep_view() == node_tokens(model));
            if model.is_state() {
                assert(model.text() =~= Seq::<char>::empty());
                assert(lowered@ =~= Seq::<char>::empty());
                assert(crate::text::trim_start(Seq::<char>::empty()) =~= Seq::<char>::empty());
                assert(crate::text::trim_token(Seq::<char>::empty()).len() == 0);
                assert(tokens_of(lowered@).len() == 0);
            }
        }
        let ghost base = ix.deep_view();
        let nt: usize = toks.len();
        let mut ti: usize = 0;
        while ti < nt
            invariant
                ns == nodes.deep_view().len(),
                k < ns,
                model == nodes.deep_view()[k as int],
                model.node_id() == id,
                model.is_state() ==> nt == 0,
                nt == toks@.len(),
                ti <= nt,
                toks.deep_view() == node_tokens(model),
                index_sound(ix.deep_view(), nodes.deep_view()),
                forall|tok: Seq<char>, i2: u128|
                    #[trigger] index_has(base, tok, i2) ==> index_has(ix.deep_view(), tok, i2),
                forall|j: int|
                    0 <= j < ti ==> index_has(
                        ix.deep_view(),
                        #[trigger] toks.deep_view()[j],
                        id,
                    ),
            decreases nt - ti,
        {
            let ghost prev = ix.deep_view();
            post_token(&mut ix, &toks[ti], id);
            proof {
                let cur = ix.deep_view();
                assert forall|tok: Seq<char>, i2: u128|
                    #[trigger] index_has(base, tok, i2) implies index_has(cur, tok, i2) by {
                    assert(index_has(prev, tok, i2));
                };
                assert forall|j: int| 0 <= j < ti + 1 implies index_has(
                    cur,
                    #[trigger] toks.deep_view()[j],
                    id,
                ) by {
                    if j < ti {
                        assert(index_has(prev, toks.deep_view()[j], id));
                    } else {
                        assert(toks.deep_view()[j] == toks[ti as int]@);
                    }
                };
                assert forall|t: int, j: int|
                    0 <= t < cur.len() && 0 <= j < cur[t].ids.len() implies posting_valid(
                    nodes.deep_view(),
                    cur[t].token,
                    #[trigger] cur[t].ids[j],
                ) by {
                    if index_has(prev, cur[t].token, cur[t].ids[j]) {
                        let (t2, j2) = choose|t2: int, j2: int|
                            0 <= t2 < prev.len() && 0 <= j2 < prev[t2].ids.len() && {
                                &&& prev[t2].token == cur[t].token
                                &&& #[trigger] prev[t2].ids[j2] == cur[t].ids[j]
                            };
                        assert(posting_valid(nodes.deep_view(), prev[t2].token, prev[t2].ids[j2]));
                    } else {
                        assert(!model.is_state());
                        assert(cur[t].token == toks[ti as int]@ && cur[t].ids[j] == id);
                        assert(node_tokens(model)[ti as int] == toks[ti as int]@);
                        assert(node_tokens(model).contains(toks[ti as int]@));
                        assert(posting_valid(nodes.deep_view(), cur[t].token, cur[t].ids[j]));
                    }
                };
            }
            ti = ti + 1;
        }
        proof {
            let cur = ix.deep_view();
            assert forall|q: int, t2: int|
                0 <= q < k + 1 && !nodes.deep_view()[q].is_state() && 0 <= t2 < node_tokens(
                    nodes.deep_view()[q],
                ).len() implies index_has(
                cur,
                #[trigger] node_tokens(#[trigger] nodes.deep_view()[q])[t2],
                nodes.deep_view()[q].node_id(),
            ) by {
                if q < k {
                    assert(index_has(
                        base,
                        node_tokens(nodes.deep_view()[q])[t2],
                        nodes.deep_view()[q].node_id(),
                    ));
                } else {
                    assert(index_has(cur, toks.deep_view()[t2], id));
                }
            };
        }
        k = k + 1;
    }
    ix
}

} // verus!
