//! Substring search over the text index, ranked by projected activation.
//!
//! The query is lowercased and trimmed; every index token containing it as
//! a substring contributes its posting list; candidates are deduplicated,
//! scored with the non-mutating activation projection, and sorted by score,
//! ties broken by identifier.

use vstd::prelude::*;
use vstd::string::StringExecFns;
use vstd::multiset::Multiset;
use crate::graph::{decayed_model, has_node, GraphModel, LoomGraph, node_tokens};
use crate::node::{uuid_str_of, NodeModel};
use crate::numfmt::{micro_fixed6};
use crate::text::{lower_of, seq_contains, ws_trimmed};

verus! {

/// Whether a node answers the query key: it carries text and one of its
/// tokens contains the key as a substring.
pub open spec fn matches_query(n: NodeModel, qk: Seq<char>) -> bool {
    !n.is_state() && exists|ti: int|
        0 <= ti < node_tokens(n).len() && seq_contains(#[trigger] node_tokens(n)[ti], qk)
}

/// A search hit is justified: its identifier names a node answering the
/// query and its score is that node's projected activation.
pub open spec fn hit_valid(g: GraphModel, qk: Seq<char>, pair: (u128, u64)) -> bool {
    exists|k: int|
        0 <= k < g.nodes.len() && {
            &&& (#[trigger] g.nodes[k]).node_id() == pair.0
            &&& matches_query(g.nodes[k], qk)
            &&& pair.1 == decayed_model(g.nodes[k], g.decay, g.tick).meta().activation
        }
}

/// A candidate identifier is justified: it names a node answering the query.
pub open spec fn candidate_valid(g: GraphModel, qk: Seq<char>, id: u128) -> bool {
    exists|k: int|
        0 <= k < g.nodes.len() && {
            &&& (#[trigger] g.nodes[k]).node_id() == id
            &&& matches_query(g.nodes[k], qk)
        }
}

/// The ranking order: higher projected activation first, ties broken by
/// ascending identifier.
pub open spec fn ranked_before(x: (u128, u64), y: (u128, u64)) -> bool {
    x.1 > y.1 || (x.1 == y.1 && x.0 <= y.0)
}

/// A ranked result list.
pub open spec fn ranked(s: Seq<(u128, u64)>) -> bool {
    forall|i: int, j: int| 0 <= i < j < s.len() ==> ranked_before(#[trigger] s[i], #[trigger] s[j])
}

/// What `search_native` returns: the one ranked, duplicate-free list of
/// justified hits that covers every node answering the query; nothing for
/// an empty query.
pub open spec fn search_result_ok(g: GraphModel, query: Seq<char>, h: Seq<(u128, u64)>) -> bool {
    let qk = ws_trimmed(lower_of(query));
    &&& ranked(h)
    &&& (qk.len() == 0 ==> h.len() == 0)
    &&& (forall|i: int| 0 <= i < h.len() ==> hit_valid(g, qk, #[trigger] h[i]))
    &&& (qk.len() > 0 ==> forall|k: int|
        0 <= k < g.nodes.len() && matches_query(#[trigger] g.nodes[k], qk) ==> exists|i: int|
            0 <= i < h.len() && (#[trigger] h[i]).0 == g.nodes[k].node_id())
    &&& (forall|i: int, j: int| 0 <= i < j < h.len() ==> (#[trigger] h[i]).0 != (#[trigger] h[j]).0)
}

/// Whether a candidate list already carries an identifier.
fn contains_id(v: &Vec<u128>, id: u128) -> (r: bool)
    ensures
        r == v@.contains(id),
{
    let n: usize = v.len();
    let mut i: usize = 0;
    while i < n
        invariant
            n == v@.len(),
            i <= n,
            forall|k: int| 0 <= k < i ==> v@[k] != id,
        decreases n - i,
    {
        if v[i] == id {
            return true;
        }
        i = i + 1;
    }
    false
}

/// Whether `x` is ranked at or before `y`.
fn ranked_before_exec(x: (u128, u64), y: (u128, u64)) -> (r: bool)
    ensures
        r == ranked_before(x, y),
{
    x.1 > y.1 || (x.1 == y.1 && x.0 <= y.0)
}

/// Sorts hits into ranking order, preserving them as a multiset.
pub(crate) fn sort_hits(input: &Vec<(u128, u64)>) -> (r: Vec<(u128, u64)>)
    ensures
        ranked(r@),
        r@.to_multiset() == input@.to_multiset(),
        forall|p: (u128, u64)| r@.contains(p) <==> input@.contains(p),
{
    let n: usize = input.len();
    let mut out: Vec<(u128, u64)> = Vec::new();
    let mut i: usize = 0;
    proof {
        broadcast use vstd::seq_lib::group_to_multiset_ensures;

        assert(out@.to_multiset() =~= input@.subrange(0, 0).to_multiset());
    }
    while i < n
        invariant
            n == input@.len(),
            i <= n,
            ranked(out@),
            out@.to_multiset() == input@.subrange(0, i as int).to_multiset(),
        decreases n - i,
    {
        broadcast use vstd::seq_lib::group_to_multiset_ensures;

        let x = input[i];
        let m: usize = out.len();
        let mut p: usize = 0;
        while p < m && ranked_before_exec(out[p], x)
            invariant
                m == out@.len(),
                p <= m,
                forall|k: int| 0 <= k < p ==> ranked_before(#[trigger] out@[k], x),
            decreases m - p,
        {
            p = p + 1;
        }
        proof {
            if p < m {
                assert(!ranked_before(out@[p as int], x));
                assert(ranked_before(x, out@[p as int]));
            }
        }
        let ghost prev = out@;
        out.insert(p, x);
        proof {
            assert(out@ == prev.insert(p as int, x));
            // Ranking survives the insertion.
            assert forall|a: int, b: int| 0 <= a < b < out@.len() implies ranked_before(
                #[trigger] out@[a],
                #[trigger] out@[b],
            ) by {
                if a < p && b == p {
                    assert(out@[a] == prev[a] && out@[b] == x);
                } else if a == p && b > p {
                    assert(out@[a] == x && out@[b] == prev[b - 1]);
                    assert(ranked_before(x, prev[p as int]));
                    if b - 1 > p {
                        assert(ranked_before(prev[p as int], prev[b - 1]));
                    }
                } else if a < p && b > p {
                    assert(out@[a] == prev[a] && out@[b] == prev[b - 1]);
                    if a < b - 1 {
                        assert(ranked_before(prev[a], prev[b - 1]));
                    } else {
                        assert(ranked_before(prev[a], x) && ranked_before(x, prev[b - 1]));
                    }
                } else if a > p {
                    assert(out@[a] == prev[a - 1] && out@[b] == prev[b - 1]);
                } else {
                    assert(out@[a] == prev[a] && out@[b] == prev[b]);
                }
            };
            // The multiset gains exactly the new hit.
            assert(prev.insert(p as int, x) =~= prev.subrange(0, p as int) + (seq![x]
                + prev.subrange(p as int, prev.len() as int)));
            vstd::seq_lib::lemma_multiset_commutative(
                prev.subrange(0, p as int),
                seq![x] + prev.subrange(p as int, prev.len() as int),
            );
            vstd::seq_lib::lemma_multiset_commutative(
                seq![x],
                prev.subrange(p as int, prev.len() as int),
            );
            vstd::seq_lib::lemma_multiset_commutative(
                prev.subrange(0, p as int),
                prev.subrange(p as int, prev.len() as int),
            );
            assert(prev.subrange(0, p as int) + prev.subrange(p as int, prev.len() as int)
                =~= prev);
            assert(seq![x].to_multiset() =~= Multiset::<(u128, u64)>::empty().insert(x)) by {
                assert(seq![x].drop_first() =~= Seq::<(u128, u64)>::empty());
            };
            assert(out@.to_multiset() =~= prev.to_multiset().insert(x));
            assert(input@.subrange(0, i as int).push(input@[i as int]) =~= input@.subrange(
                0,
                i as int + 1,
            ));
            assert(input@.subrange(0, i as int + 1).to_multiset() =~= input@.subrange(
                0,
                i as int,
            ).to_multiset().insert(input@[i as int]));
        }
        i = i + 1;
    }
    proof {
        broadcast use vstd::seq_lib::group_to_multiset_ensures;

        assert(input@.subrange(0, n as int) =~= input@);
        assert forall|pp: (u128, u64)| out@.contains(pp) <==> input@.contains(pp) by {
            assert(out@.contains(pp) <==> out@.to_multiset().count(pp) > 0);
            assert(input@.contains(pp) <==> input@.to_multiset().count(pp) > 0);
        };
    }
    out
}

impl LoomGraph {
    /// Searches the text index: every token containing the lowercased,
    /// trimmed query contributes its postings; each candidate is scored
    /// with its projected activation; the hits come back ranked, one per
    /// matching node. An empty query yields nothing.
    #[verifier::rlimit(100)]
    pub fn search_native(&self, query: &str) -> (r: Vec<(u128, u64)>)
        requires
            self.wf(),
        ensures
            search_result_ok(self@, query@, r@),
    {
        let lowered = crate::text::to_lower(query);
        let chars = crate::text::str_to_chars(lowered.as_str());
        let qk = crate::text::ws_trim_exec(&chars);
        let ghost qks = ws_trimmed(lower_of(query@));
        proof {
            assert(qk@ == qks);
        }
        if qk.len() == 0 {
            let r: Vec<(u128, u64)> = Vec::new();
            return r;
        }
        // Collect candidate identifiers from every token containing the key.
        let nt: usize = self.index.len();
        let mut cand: Vec<u128> = Vec::new();
        let mut t: usize = 0;
        while t < nt
            invariant
                self.wf(),
                qk@ == qks,
                qks.len() > 0,
                nt == self.index@.len(),
                t <= nt,
                forall|a: int, b: int| 0 <= a < b < cand@.len() ==> cand@[a] != cand@[b],
                forall|a: int|
                    0 <= a < cand@.len() ==> candidate_valid(self@, qks, #[trigger] cand@[a]),
                forall|tp: int, jp: int|
                    0 <= tp < t && 0 <= jp < self.index.deep_view()[tp].ids.len() && seq_contains(
                        self.index.deep_view()[tp].token,
                        qks,
                    ) ==> cand@.contains(#[trigger] self.index.deep_view()[tp].ids[jp]),
            decreases nt - t,
        {
            let hit = crate::text::contains_chars(&self.index[t].token, &qk);
            if hit {
                let ni: usize = self.index[t].ids.len();
                let mut j: usize = 0;
                while j < ni
                    invariant
                        self.wf(),
                        qk@ == qks,
                        qks.len() > 0,
                        nt == self.index@.len(),
                        t < nt,
                        ni == self.index.deep_view()[t as int].ids.len(),
                        j <= ni,
                        seq_contains(self.index.deep_view()[t as int].token, qks),
                        forall|a: int, b: int| 0 <= a < b < cand@.len() ==> cand@[a] != cand@[b],
                        forall|a: int|
                            0 <= a < cand@.len() ==> candidate_valid(
                                self@,
                                qks,
                                #[trigger] cand@[a],
                            ),
                        forall|tp: int, jp: int|
                            0 <= tp < t && 0 <= jp < self.index.deep_view()[tp].ids.len()
                                && seq_contains(
                                self.index.deep_view()[tp].token,
                                qks,
                            ) ==> cand@.contains(#[trigger] self.index.deep_view()[tp].ids[jp]),
                        forall|jp: int|
                            0 <= jp < j ==> cand@.contains(
                                #[trigger] self.index.deep_view()[t as int].ids[jp],
                            ),
                    decreases ni - j,
                {
                    let idv = self.index[t].ids[j];
                    let already = contains_id(&cand, idv);
                    let ghost prevc = cand@;
                    if !already {
                        cand.push(idv);
                        proof {
                            assert forall|x: u128| prevc.contains(x) implies cand@.contains(
                                x,
                            ) by {
                                let q = choose|q: int| 0 <= q < prevc.len() && prevc[q] == x;
                                assert(cand@[q] == x);
                            };
                            assert(cand@[cand@.len() - 1] == idv);
                            assert(cand@.contains(idv));
                            let ix = self.index.deep_view();
                            assert(crate::graph::posting_valid(
                                self@.nodes,
                                ix[t as int].token,
                                ix[t as int].ids[j as int],
                            ));
                            let k = choose|k: int|
                                0 <= k < self@.nodes.len() && {
                                    &&& (#[trigger] self@.nodes[k]).node_id() == ix[
                                        t as int].ids[j as int]
                                    &&& !self@.nodes[k].is_state()
                                    &&& node_tokens(self@.nodes[k]).contains(ix[t as int].token)
                                };
                            let ti = choose|ti: int|
                                0 <= ti < node_tokens(self@.nodes[k]).len() && node_tokens(
                                    self@.nodes[k],
                                )[ti] == ix[t as int].token;
                            assert(seq_contains(node_tokens(self@.nodes[k])[ti], qks));
                            assert(matches_query(self@.nodes[k], qks));
                            assert(candidate_valid(self@, qks, idv));
                        }
                    }
                    proof {
                        assert(cand@.contains(idv));
                        assert forall|jp: int| 0 <= jp < j + 1 implies cand@.contains(
                            #[trigger] self.index.deep_view()[t as int].ids[jp],
                        ) by {
                            if jp < j {
                                assert(prevc.contains(
                                    self.index.deep_view()[t as int].ids[jp],
                                ));
                                if !already {
                                    let x = self.index.deep_view()[t as int].ids[jp];
                                    let q = choose|q: int| 0 <= q < prevc.len() && prevc[q] == x;
                                    assert(cand@[q] == x);
                                }
                            }
                        };
                        assert forall|tp: int, jp: int|
                            0 <= tp < t && 0 <= jp < self.index.deep_view()[tp].ids.len()
                                && seq_contains(
                                self.index.deep_view()[tp].token,
                                qks,
                            ) implies cand@.contains(
                            #[trigger] self.index.deep_view()[tp].ids[jp],
                        ) by {
                            let x = self.index.deep_view()[tp].ids[jp];
                            assert(prevc.contains(x));
                            if !already {
                                let q = choose|q: int| 0 <= q < prevc.len() && prevc[q] == x;
                                assert(cand@[q] == x);
                            }
                        };
                    }
                    j = j + 1;
                }
            }
            t = t + 1;
        }
        // Score each candidate with its projected activation.
        let nc: usize = cand.len();
        let mut hits: Vec<(u128, u64)> = Vec::new();
        let mut c: usize = 0;
        while c < nc
            invariant
                self.wf(),
                qks.len() > 0,
                nc == cand@.len(),
                c <= nc,
                hits@.len() == c,
                forall|a: int, b: int| 0 <= a < b < cand@.len() ==> cand@[a] != cand@[b],
                forall|a: int|
                    0 <= a < cand@.len() ==> candidate_valid(self@, qks, #[trigger] cand@[a]),
                forall|a: int| 0 <= a < c ==> (#[trigger] hits@[a]).0 == cand@[a],
                forall|a: int| 0 <= a < c ==> hit_valid(self@, qks, #[trigger] hits@[a]),
                forall|tp: int, jp: int|
                    0 <= tp < self.index.deep_view().len() && 0 <= jp
                        < self.index.deep_view()[tp].ids.len() && seq_contains(
                        self.index.deep_view()[tp].token,
                        qks,
                    ) ==> cand@.contains(#[trigger] self.index.deep_view()[tp].ids[jp]),
            decreases nc - c,
        {
            let idv = cand[c];
            let found = self.find_node(idv);
            match found {
                Some(k) => {
                    let act = self.projected_activation(k);
                    hits.push((idv, act));
                    proof {
                        assert(hit_valid(self@, qks, (idv, act)));
                    }
                },
                None => {
                    proof {
                        // Unreachable: every candidate names a live node.
                        assert(candidate_valid(self@, qks, idv));
                        let k = choose|k: int|
                            0 <= k < self@.nodes.len() && {
                                &&& (#[trigger] self@.nodes[k]).node_id() == idv
                                &&& matches_query(self@.nodes[k], qks)
                            };
                        assert(has_node(self@.nodes, idv));
                    }
                    hits.push((idv, 0));
                },
            }
            c = c + 1;
        }
        let out = sort_hits(&hits);
        proof {
            assert forall|i: int| 0 <= i < out@.len() implies hit_valid(
                self@,
                qks,
                #[trigger] out@[i],
            ) by {
                assert(out@.contains(out@[i]));
                assert(hits@.contains(out@[i]));
                let a = choose|a: int| 0 <= a < hits@.len() && hits@[a] == out@[i];
                assert(hit_valid(self@, qks, hits@[a]));
            };
            assert forall|k: int|
                0 <= k < self@.nodes.len() && matches_query(
                    #[trigger] self@.nodes[k],
                    qks,
                ) implies exists|i: int|
                0 <= i < out@.len() && (#[trigger] out@[i]).0 == self@.nodes[k].node_id() by {
                let n2 = self@.nodes[k];
                let ti = choose|ti: int|
                    0 <= ti < node_tokens(n2).len() && seq_contains(
                        #[trigger] node_tokens(n2)[ti],
                        qks,
                    );
                assert(crate::graph::index_has(
                    self.index.deep_view(),
                    node_tokens(n2)[ti],
                    n2.node_id(),
                ));
                let (tp, jp) = choose|tp: int, jp: int|
                    0 <= tp < self.index.deep_view().len() && 0 <= jp < self.index.deep_view()[
                        tp].ids.len() && {
                        &&& self.index.deep_view()[tp].token == node_tokens(n2)[ti]
                        &&& #[trigger] self.index.deep_view()[tp].ids[jp] == n2.node_id()
                    };
                assert(cand@.contains(n2.node_id()));
                let a = choose|a: int| 0 <= a < cand@.len() && cand@[a] == n2.node_id();
                assert(hits@[a].0 == n2.node_id());
                assert(hits@.contains(hits@[a]));
                assert(out@.contains(hits@[a]));
                let i = choose|i: int| 0 <= i < out@.len() && out@[i] == hits@[a];
                assert(out@[i].0 == n2.node_id());
            };
            // Distinct pairs survive the permutation, and with them the
            // distinct identifiers.
            assert forall|a: int, b: int|
                0 <= a < hits@.len() && 0 <= b < hits@.len() && a != b implies hits@[a]
                != hits@[b] by {
                if a < b {
                    assert(hits@[a].0 != hits@[b].0);
                } else {
                    assert(hits@[b].0 != hits@[a].0);
                }
            };
            assert(hits@.no_duplicates());
            hits@.lemma_multiset_has_no_duplicates();
            out@.lemma_multiset_has_no_duplicates_conv();
            assert forall|i: int, j: int| 0 <= i < j < out@.len() implies (#[trigger] out@[i]).0
                != (#[trigger] out@[j]).0 by {
                if out@[i].0 == out@[j].0 {
                    assert(hit_valid(self@, qks, out@[i]));
                    assert(hit_valid(self@, qks, out@[j]));
                    let k1 = choose|k: int|
                        0 <= k < self@.nodes.len() && {
                            &&& (#[trigger] self@.nodes[k]).node_id() == out@[i].0
                            &&& matches_query(self@.nodes[k], qks)
                            &&& out@[i].1 == decayed_model(
                                self@.nodes[k],
                                self@.decay,
                                self@.tick,
                            ).meta().activation
                        };
                    let k2 = choose|k: int|
                        0 <= k < self@.nodes.len() && {
                            &&& (#[trigger] self@.nodes[k]).node_id() == out@[j].0
                            &&& matches_query(self@.nodes[k], qks)
                            &&& out@[j].1 == decayed_model(
                                self@.nodes[k],
                                self@.decay,
                                self@.tick,
                            ).meta().activation
                        };
                    if k1 != k2 {
                        if k1 < k2 {
                            assert(self@.nodes[k1].node_id() != self@.nodes[k2].node_id());
                        } else {
                            assert(self@.nodes[k2].node_id() != self@.nodes[k1].node_id());
                        }
                    }
                    assert(out@[i].1 == out@[j].1);
                    assert(out@[i] == out@[j]);
                    assert(out@[i] != out@[j]);
                }
            };
        }
        out
    }

    /// Searches and renders the ranked hits as structured text: a list of
    /// `["identifier", activation]` entries.
    pub fn search(&self, query: &str) -> (r: String)
        requires
            self.wf(),
        ensures
            exists|h: Seq<(u128, u64)>|
                #[trigger] search_result_ok(self@, query@, h) && r@ == rendered_hits(h),
    {
        let hits = self.search_native(query);
        let out = render_hits(&hits);
        proof {
            assert(search_result_ok(self@, query@, hits@) && out@ == rendered_hits(hits@));
        }
        out
    }
}

/// One rendered hit: `["id",activation]`.
pub open spec fn rendered_hit(p: (u128, u64)) -> Seq<char> {
    seq!['[', '"'] + uuid_str_of(p.0) + seq!['"', ','] + micro_fixed6(p.1 as int) + seq![']']
}

/// The renderings of the first `i` hits, comma separated.
pub open spec fn rendered_prefix(hits: Seq<(u128, u64)>, i: int) -> Seq<char>
    decreases i,
{
    if i <= 0 {
        Seq::empty()
    } else if i == 1 {
        rendered_hit(hits[0])
    } else {
        rendered_prefix(hits, i - 1) + seq![','] + rendered_hit(hits[i - 1])
    }
}

/// The full rendering of a hit list: `[["id",activation], ...]`.
pub open spec fn rendered_hits(hits: Seq<(u128, u64)>) -> Seq<char> {
    seq!['['] + rendered_prefix(hits, hits.len() as int) + seq![']']
}

/// Renders a hit list.
pub fn render_hits(hits: &Vec<(u128, u64)>) -> (r: String)
    ensures
        r@ == rendered_hits(hits@),
{
    proof {
        reveal_strlit("[");
        reveal_strlit("]");
        reveal_strlit(",");
        reveal_strlit("[\"");
        reveal_strlit("\",");
    }
    let mut s = String::new();
    s.append("[");
    let n: usize = hits.len();
    let mut i: usize = 0;
    proof {
        assert("["@ =~= seq!['[']);
        assert(s@ =~= seq!['['] + rendered_prefix(hits@, 0));
    }
    while i < n
        invariant
            n == hits@.len(),
            i <= n,
            s@ == seq!['['] + rendered_prefix(hits@, i as int),
        decreases n - i,
    {
        proof {
            reveal_strlit("[");
            reveal_strlit(",");
            reveal_strlit("[\"");
            reveal_strlit("\",");
            reveal_strlit("]");
        }
        if i > 0 {
            s.append(",");
        }
        s.append("[\"");
        let idtext = crate::node::id_to_string(hits[i].0);
        s.append(idtext.as_str());
        s.append("\",");
        crate::numfmt::append_micro6(&mut s, hits[i].1);
        s.append("]");
        proof {
            assert(","@ =~= seq![',']);
            assert("[\""@ =~= seq!['[', '"']);
            assert("\","@ =~= seq!['"', ',']);
            assert("]"@ =~= seq![']']);
            assert(s@ =~= seq!['['] + rendered_prefix(hits@, i as int + 1));
        }
        i = i + 1;
    }
    s.append("]");
    proof {
        assert("]"@ =~= seq![']']);
        assert(s@ =~= rendered_hits(hits@));
    }
    s
}

} // verus!
