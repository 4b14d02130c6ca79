//! Context projection: the markup document of currently active memories,
//! single-node reports, and the dream-cycle summary.
//!
//! All read paths use the projected (non-mutating) activation, and every
//! piece of node text is escaped for the five markup metacharacters.

use vstd::prelude::*;
use vstd::string::{StringExecFns, StrSliceExecFns};
use crate::graph::{
    decayed_model, dreamed, dream_tick, edge_survives, GraphModel, has_node, idx_of, keep_node,
    LoomGraph, promoted_filter,
};
use crate::node::{rfc3339_of, Node, NodeModel};
use crate::numfmt::{dec_digits, micro_fixed2, micro_signed2};
use crate::search::{ranked, sort_hits};

verus! {

/// A markup metacharacter replaced by its entity; any other character
/// stands for itself.
pub open spec fn escaped_char(c: char) -> Seq<char> {
    if c == '&' {
        "&amp;"@
    } else if c == '<' {
        "&lt;"@
    } else if c == '>' {
        "&gt;"@
    } else if c == '"' {
        "&quot;"@
    } else if c == '\'' {
        "&apos;"@
    } else {
        seq![c]
    }
}

/// Text with every markup metacharacter replaced by its entity.
pub open spec fn escape_seq(s: Seq<char>) -> Seq<char>
    decreases s.len(),
{
    if s.len() == 0 {
        Seq::empty()
    } else {
        escape_seq(s.drop_last()) + escaped_char(s.last())
    }
}

/// Appends the escaped form of a piece of text.
pub fn append_escaped(out: &mut String, s: &str)
    ensures
        final(out)@ == old(out)@ + escape_seq(s@),
{
    let n: usize = s.unicode_len();
    let mut i: usize = 0;
    proof {
        assert(s@.subrange(0, 0) =~= Seq::<char>::empty());
        assert(out@ =~= old(out)@ + escape_seq(s@.subrange(0, 0)));
    }
    while i < n
        invariant
            n == s@.len(),
            i <= n,
            out@ == old(out)@ + escape_seq(s@.subrange(0, i as int)),
        decreases n - i,
    {
        let c = s.get_char(i);
        if c == '&' {
            out.append("&amp;");
        } else if c == '<' {
            out.append("&lt;");
        } else if c == '>' {
            out.append("&gt;");
        } else if c == '"' {
            out.append("&quot;");
        } else if c == '\'' {
            out.append("&apos;");
        } else {
            let piece = s.substring_char(i, i + 1);
            out.append(piece);
            proof {
                assert(piece@ =~= seq![s@[i as int]]);
            }
        }
        proof {
            assert(s@.subrange(0, i as int + 1).drop_last() =~= s@.subrange(0, i as int));
            assert(s@.subrange(0, i as int + 1).last() == s@[i as int]);
            assert(out@ =~= old(out)@ + escape_seq(s@.subrange(0, i as int + 1)));
        }
        i = i + 1;
    }
    proof {
        assert(s@.subrange(0, n as int) =~= s@);
    }
}

/// The rendered context entry for a node shown with projected activation
/// `act`.
pub open spec fn entry_of(n: NodeModel, act: u64) -> Seq<char> {
    match n {
        NodeModel::Concept { meta, name, definition } => "  <memory type='concept' activation='"@
            + micro_fixed2(act as int) + "' stability='"@ + micro_fixed2(meta.stability as int)
            + "'>\n    <name>"@ + escape_seq(name) + "</name>\n    <definition>"@ + escape_seq(
            definition,
        ) + "</definition>\n  </memory>\n"@,
        NodeModel::Episode { meta, summary, timestamp } => "  <memory type='episode' activation='"@
            + micro_fixed2(act as int) + "' stability='"@ + micro_fixed2(meta.stability as int)
            + "' time='"@ + rfc3339_of(timestamp as int) + "'>\n    <summary>"@ + escape_seq(
            summary,
        ) + "</summary>\n  </memory>\n"@,
        NodeModel::State { meta, valence, arousal } => "  <state activation='"@ + micro_fixed2(
            act as int,
        ) + "' stability='"@ + micro_fixed2(meta.stability as int) + "'>\n    <mood valence='"@
            + micro_signed2(valence as int) + "' arousal='"@ + micro_signed2(arousal as int)
            + "' />\n  </state>\n"@,
    }
}

/// Appends the context entry of one node.
pub fn render_entry(n: &Node, act: u64, out: &mut String)
    requires
        n@.valid_scalars(),
    ensures
        final(out)@ == old(out)@ + entry_of(n@, act),
{
    match n {
        Node::Concept(meta, data) => {
            out.append("  <memory type='concept' activation='");
            crate::numfmt::append_micro2(out, act);
            out.append("' stability='");
            crate::numfmt::append_micro2(out, meta.stability);
            out.append("'>\n    <name>");
            append_escaped(out, data.name.as_str());
            out.append("</name>\n    <definition>");
            append_escaped(out, data.definition.as_str());
            out.append("</definition>\n  </memory>\n");
            proof {
                assert(out@ =~= old(out)@ + entry_of(n@, act));
            }
        },
        Node::Episode(meta, data) => {
            out.append("  <memory type='episode' activation='");
            crate::numfmt::append_micro2(out, act);
            out.append("' stability='");
            crate::numfmt::append_micro2(out, meta.stability);
            out.append("' time='");
            let stamp = crate::node::format_rfc3339(data.timestamp);
            out.append(stamp.as_str());
            out.append("'>\n    <summary>");
            append_escaped(out, data.summary.as_str());
            out.append("</summary>\n  </memory>\n");
            proof {
                assert(out@ =~= old(out)@ + entry_of(n@, act));
            }
        },
        Node::State(meta, data) => {
            out.append("  <state activation='");
            crate::numfmt::append_micro2(out, act);
            out.append("' stability='");
            crate::numfmt::append_micro2(out, meta.stability);
            out.append("'>\n    <mood valence='");
            crate::numfmt::append_micro_signed2(out, data.valence);
            out.append("' arousal='");
            crate::numfmt::append_micro_signed2(out, data.arousal);
            out.append("' />\n  </state>\n");
            proof {
                assert(out@ =~= old(out)@ + entry_of(n@, act));
            }
        },
    }
}

/// The node of `g` carrying `id` (meaningful when present and unique).
pub open spec fn node_by_id(g: GraphModel, id: u128) -> NodeModel {
    g.nodes[idx_of(g.nodes, id)]
}

/// A context selection entry is justified: its identifier names a node, its
/// score is that node's projected activation, and the score clears the
/// threshold strictly.
pub open spec fn context_hit_valid(g: GraphModel, min: u64, pair: (u128, u64)) -> bool {
    exists|k: int|
        0 <= k < g.nodes.len() && {
            &&& (#[trigger] g.nodes[k]).node_id() == pair.0
            &&& pair.1 == decayed_model(g.nodes[k], g.decay, g.tick).meta().activation
            &&& pair.1 > min
        }
}

/// What the context projection selects: the one ranked, duplicate-free list
/// of justified entries covering every node whose projected activation
/// clears the threshold.
pub open spec fn context_selection_ok(g: GraphModel, min: u64, sel: Seq<(u128, u64)>) -> bool {
    &&& ranked(sel)
    &&& (forall|i: int| 0 <= i < sel.len() ==> context_hit_valid(g, min, #[trigger] sel[i]))
    &&& (forall|k: int|
        0 <= k < g.nodes.len() && decayed_model(
            #[trigger] g.nodes[k],
            g.decay,
            g.tick,
        ).meta().activation > min ==> exists|i: int|
            0 <= i < sel.len() && (#[trigger] sel[i]).0 == g.nodes[k].node_id())
    &&& (forall|i: int, j: int|
        0 <= i < j < sel.len() ==> (#[trigger] sel[i]).0 != (#[trigger] sel[j]).0)
}

/// The rendered entries of the first `i` selected nodes.
pub open spec fn entries_prefix(g: GraphModel, sel: Seq<(u128, u64)>, i: int) -> Seq<char>
    decreases i,
{
    if i <= 0 {
        Seq::empty()
    } else {
        entries_prefix(g, sel, i - 1) + entry_of(node_by_id(g, sel[i - 1].0), sel[i - 1].1)
    }
}

/// The full context document for a selection.
pub open spec fn rendered_context(g: GraphModel, sel: Seq<(u128, u64)>) -> Seq<char> {
    "<active_memories>\n"@ + (if sel.len() == 0 {
        "  <memory>No relevant active memories.</memory>\n"@
    } else {
        entries_prefix(g, sel, sel.len() as int)
    }) + "</active_memories>"@
}

/// The dream-cycle report.
pub open spec fn dream_summary(promoted: int, pruned: int) -> Seq<char> {
    "promoted "@ + dec_digits(promoted) + ", pruned "@ + dec_digits(pruned)
}

impl LoomGraph {
    /// Builds the markup document of active memories: every node whose
    /// projected activation is strictly above the threshold, ranked, each
    /// rendered with its projected activation and all text escaped; a
    /// placeholder entry when nothing is active.
    #[verifier::rlimit(100)]
    pub fn get_context_prompt(&self, min_activation: u64) -> (r: String)
        requires
            self.wf(),
        ensures
            exists|sel: Seq<(u128, u64)>|
                #[trigger] context_selection_ok(self@, min_activation, sel) && r@
                    == rendered_context(self@, sel),
    {
        let n: usize = self.nodes.len();
        let mut picked: Vec<(u128, u64)> = Vec::new();
        let ghost mut ks: Seq<int> = Seq::empty();
        let mut i: usize = 0;
        while i < n
            invariant
                self.wf(),
                n == self@.nodes.len(),
                i <= n,
                picked@.len() == ks.len(),
                forall|a: int, b: int| 0 <= a < b < ks.len() ==> ks[a] < ks[b],
                forall|a: int| 0 <= a < ks.len() ==> 0 <= #[trigger] ks[a] < i,
                forall|a: int|
                    0 <= a < ks.len() ==> (#[trigger] picked@[a]).0 == self@.nodes[ks[a]].node_id()
                        && picked@[a].1 == decayed_model(
                        self@.nodes[ks[a]],
                        self@.decay,
                        self@.tick,
                    ).meta().activation && picked@[a].1 > min_activation,
                forall|k: int|
                    0 <= k < i && decayed_model(
                        #[trigger] self@.nodes[k],
                        self@.decay,
                        self@.tick,
                    ).meta().activation > min_activation ==> picked@.contains(
                        (
                            self@.nodes[k].node_id(),
                            decayed_model(self@.nodes[k], self@.decay, self@.tick).meta().activation,
                        ),
                    ),
            decreases n - i,
        {
            let act = self.projected_activation(i);
            if act > min_activation {
                let id = self.nodes[i].meta().id;
                let ghost prevp = picked@;
                picked.push((id, act));
                proof {
                    ks = ks.push(i as int);
                    assert(picked@[picked@.len() - 1] == (id, act));
                    assert forall|x: (u128, u64)| prevp.contains(x) implies picked@.contains(
                        x,
                    ) by {
                        let q = choose|q: int| 0 <= q < prevp.len() && prevp[q] == x;
                        assert(picked@[q] == x);
                    };
                    assert(picked@.contains((id, act)));
                }
            }
            i = i + 1;
        }
        let sel = sort_hits(&picked);
        proof {
            // Selection entries are justified and distinct.
            assert forall|a: int, b: int|
                0 <= a < picked@.len() && 0 <= b < picked@.len() && a != b implies picked@[a]
                != picked@[b] by {
                if a < b {
                    assert(self@.nodes[ks[a]].node_id() != self@.nodes[ks[b]].node_id()) by {
                        assert(ks[a] < ks[b]);
                    };
                } else {
                    assert(self@.nodes[ks[b]].node_id() != self@.nodes[ks[a]].node_id()) by {
                        assert(ks[b] < ks[a]);
                    };
                }
            };
            assert(picked@.no_duplicates());
            picked@.lemma_multiset_has_no_duplicates();
            sel@.lemma_multiset_has_no_duplicates_conv();
            assert forall|a: int| 0 <= a < sel@.len() implies context_hit_valid(
                self@,
                min_activation,
                #[trigger] sel@[a],
            ) by {
                assert(sel@.contains(sel@[a]));
                assert(picked@.contains(sel@[a]));
                let q = choose|q: int| 0 <= q < picked@.len() && picked@[q] == sel@[a];
                assert(picked@[q].0 == self@.nodes[ks[q]].node_id());
                assert(context_hit_valid(self@, min_activation, picked@[q]));
            };
            assert forall|k: int|
                0 <= k < self@.nodes.len() && decayed_model(
                    #[trigger] self@.nodes[k],
                    self@.decay,
                    self@.tick,
                ).meta().activation > min_activation implies exists|a: int|
                0 <= a < sel@.len() && (#[trigger] sel@[a]).0 == self@.nodes[k].node_id() by {
                let pair = (
                    self@.nodes[k].node_id(),
                    decayed_model(self@.nodes[k], self@.decay, self@.tick).meta().activation,
                );
                assert(picked@.contains(pair));
                assert(sel@.contains(pair));
                let a = choose|a: int| 0 <= a < sel@.len() && sel@[a] == pair;
                assert(sel@[a].0 == self@.nodes[k].node_id());
            };
            assert forall|a: int, b: int| 0 <= a < b < sel@.len() implies (#[trigger] sel@[a]).0
                != (#[trigger] sel@[b]).0 by {
                if sel@[a].0 == sel@[b].0 {
                    assert(context_hit_valid(self@, min_activation, sel@[a]));
                    assert(context_hit_valid(self@, min_activation, sel@[b]));
                    let k1 = choose|k: int|
                        0 <= k < self@.nodes.len() && {
                            &&& (#[trigger] self@.nodes[k]).node_id() == sel@[a].0
                            &&& sel@[a].1 == decayed_model(
                                self@.nodes[k],
                                self@.decay,
                                self@.tick,
                            ).meta().activation
                            &&& sel@[a].1 > min_activation
                        };
                    let k2 = choose|k: int|
                        0 <= k < self@.nodes.len() && {
                            &&& (#[trigger] self@.nodes[k]).node_id() == sel@[b].0
                            &&& sel@[b].1 == decayed_model(
                                self@.nodes[k],
                                self@.decay,
                                self@.tick,
                            ).meta().activation
                            &&& sel@[b].1 > min_activation
                        };
                    if k1 != k2 {
                        if k1 < k2 {
                            assert(self@.nodes[k1].node_id() != self@.nodes[k2].node_id());
                        } else {
                            assert(self@.nodes[k2].node_id() != self@.nodes[k1].node_id());
                        }
                    }
                    assert(sel@[a] == sel@[b]);
                    assert(sel@[a] != sel@[b]);
                }
            };
            assert(context_selection_ok(self@, min_activation, sel@));
        }
        let mut out = String::new();
        out.append("<active_memories>\n");
        if sel.len() == 0 {
            out.append("  <memory>No relevant active memories.</memory>\n");
            out.append("</active_memories>");
            proof {
                assert(out@ =~= rendered_context(self@, sel@));
            }
            out
        } else {
            let m: usize = sel.len();
            let mut e: usize = 0;
            proof {
                assert(out@ =~= "<active_memories>\n"@ + entries_prefix(self@, sel@, 0));
                assert forall|a: int| 0 <= a < sel@.len() implies context_hit_valid_any(
                    self@,
                    #[trigger] sel@[a],
                ) by {
                    assert(context_hit_valid(self@, min_activation, sel@[a]));
                };
            }
            while e < m
                invariant
                    self.wf(),
                    m == sel@.len(),
                    e <= m,
                    forall|a: int| 0 <= a < sel@.len() ==> context_hit_valid_any(self@, #[trigger] sel@[a]),
                    out@ == "<active_memories>\n"@ + entries_prefix(self@, sel@, e as int),
                decreases m - e,
            {
                let idv = sel[e].0;
                let found = self.find_node(idv);
                match found {
                    Some(k) => {
                        proof {
                            crate::graph::lemma_idx_of_unique(self@.nodes, idv, k as int);
                            assert(self@.nodes[k as int].valid_scalars());
                        }
                        render_entry(&self.nodes[k], sel[e].1, &mut out);
                        proof {
                            assert(node_by_id(self@, sel@[e as int].0) == self@.nodes[k as int]);
                            assert(out@ =~= "<active_memories>\n"@ + entries_prefix(
                                self@,
                                sel@,
                                e as int + 1,
                            ));
                        }
                    },
                    None => {
                        proof {
                            assert(context_hit_valid_any(self@, sel@[e as int]));
                            let k = choose|k: int|
                                0 <= k < self@.nodes.len() && (#[trigger] self@.nodes[k]).node_id()
                                    == sel@[e as int].0;
                            assert(has_node(self@.nodes, sel@[e as int].0));
                        }
                    },
                }
                e = e + 1;
            }
            out.append("</active_memories>");
            proof {
                assert(out@ =~= rendered_context(self@, sel@));
            }
            out
        }
    }

    /// The context document, as the host-facing surface names it.
    pub fn get_context(&self, min_activation: u64) -> (r: String)
        requires
            self.wf(),
        ensures
            exists|sel: Seq<(u128, u64)>|
                #[trigger] context_selection_ok(self@, min_activation, sel) && r@
                    == rendered_context(self@, sel),
    {
        self.get_context_prompt(min_activation)
    }

    /// Renders one node, named by identifier text, as a context entry with
    /// its projected activation; an empty-document sentinel on a miss or an
    /// unparsable identifier.
    pub fn get_node_info(&self, id: &str) -> (r: String)
        requires
            self.wf(),
        ensures
            match crate::graph::parsed_present(self@.nodes, id@) {
                Some(u) => r@ == entry_of(
                    node_by_id(self@, u),
                    decayed_model(node_by_id(self@, u), self@.decay, self@.tick).meta().activation,
                ),
                None => r@ == "{}"@,
            },
    {
        let parsed = crate::node::parse_id(id);
        match parsed {
            Some(u) => {
                let found = self.find_node(u);
                match found {
                    Some(k) => {
                        proof {
                            crate::graph::lemma_idx_of_unique(self@.nodes, u, k as int);
                            assert(self@.nodes[k as int].valid_scalars());
                        }
                        let act = self.projected_activation(k);
                        let mut out = String::new();
                        render_entry(&self.nodes[k], act, &mut out);
                        proof {
                            assert(out@ =~= entry_of(
                                node_by_id(self@, u),
                                decayed_model(
                                    node_by_id(self@, u),
                                    self@.decay,
                                    self@.tick,
                                ).meta().activation,
                            ));
                        }
                        out
                    },
                    None => {
                        let mut out = String::new();
                        out.append("{}");
                        proof {
                            assert(out@ =~= "{}"@);
                        }
                        out
                    },
                }
            },
            None => {
                let mut out = String::new();
                out.append("{}");
                proof {
                    assert(out@ =~= "{}"@);
                }
                out
            },
        }
    }

    /// Runs the dream cycle and reports how many nodes were promoted and
    /// how many pruned.
    pub fn dream(&mut self) -> (r: String)
        requires
            old(self).wf(),
        ensures
            final(self).wf(),
            final(self)@.tick == dream_tick(old(self)@.tick),
            final(self)@.tick >= old(self)@.tick,
            final(self)@.nodes == dreamed(old(self)@.nodes, dream_tick(old(self)@.tick)).filter(
                keep_node(1_200_000),
            ),
            final(self)@.edges == old(self)@.edges.filter(edge_survives(final(self)@.nodes)),
            final(self)@.decay == old(self)@.decay,
            final(self)@.anchor == old(self)@.anchor,
            r@ == dream_summary(
                old(self)@.nodes.filter(promoted_filter()).len() as int,
                old(self)@.nodes.len() - final(self)@.nodes.len(),
            ),
    {
        let counts = self.dream_cycle();
        proof {
            assert(dreamed(old(self)@.nodes, dream_tick(old(self)@.tick)).len()
                == old(self)@.nodes.len());
        }
        let mut out = String::new();
        out.append("promoted ");
        crate::numfmt::append_decimal(&mut out, counts.0 as u128);
        out.append(", pruned ");
        crate::numfmt::append_decimal(&mut out, counts.1 as u128);
        proof {
            assert(out@ =~= dream_summary(
                old(self)@.nodes.filter(promoted_filter()).len() as int,
                old(self)@.nodes.len() - self@.nodes.len(),
            ));
        }
        out
    }
}

/// A selection entry names some node of the graph.
pub open spec fn context_hit_valid_any(g: GraphModel, pair: (u128, u64)) -> bool {
    exists|k: int| 0 <= k < g.nodes.len() && (#[trigger] g.nodes[k]).node_id() == pair.0
}

} // verus!
