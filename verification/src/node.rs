//! Memory nodes: the three typed payloads, their shared metadata, edges,
//! and the identifier and wall-clock bindings.
//!
//! Identifiers are 128-bit values drawn from the uuid crate; wall-clock
//! instants are epoch milliseconds drawn from chrono. Both appear in the
//! engine only as plain integers.

use vstd::prelude::*;
use vstd::string::StringExecFns;
use crate::fixed::{MIN_STABILITY, SCALE};

verus! {

/// The earliest wall-clock instant an episode may carry (the epoch).
pub const TS_MIN: i64 = 0;

/// The latest wall-clock instant an episode may carry
/// (9999-12-31T23:59:59.999Z in epoch milliseconds), so that every stored
/// instant has an RFC 3339 rendering.
pub const TS_MAX: i64 = 253_402_300_799_999;

/// The hyphenated text form of a 128-bit identifier, as the uuid crate
/// renders it.
pub uninterp spec fn uuid_str_of(id: u128) -> Seq<char>;

/// What the uuid crate's parser yields on a piece of text: the identifier,
/// or nothing when the text is not a valid identifier form.
pub uninterp spec fn uuid_parse_of(s: Seq<char>) -> Option<u128>;

/// Relies on `uuid::Uuid::new_v4`: a freshly drawn random identifier.
/// Nothing can be promised of a random value.
#[verifier::external_body]
pub(crate) fn fresh_id() -> u128 {
    uuid::Uuid::new_v4().as_u128()
}

/// Relies on `uuid::Uuid::from_u128` and the hyphenated `Display` form of
/// `uuid::Uuid`: the text depends on the 128 bits alone, and
/// `uuid::Uuid::parse_str` accepts that text and returns the same value.
#[verifier::external_body]
pub fn id_to_string(id: u128) -> (r: String)
    ensures
        r@ == uuid_str_of(id),
        uuid_parse_of(r@) == Some(id),
{
    uuid::Uuid::from_u128(id).hyphenated().to_string()
}

/// Relies on `uuid::Uuid::parse_str` and `uuid::Uuid::as_u128`: parsing is a
/// function of the text alone.
#[verifier::external_body]
pub fn parse_id(s: &str) -> (r: Option<u128>)
    ensures
        r == uuid_parse_of(s@),
{
    match uuid::Uuid::parse_str(s) {
        Ok(u) => Some(u.as_u128()),
        Err(_) => None,
    }
}

/// Relies on `chrono::Utc::now` and `DateTime::timestamp_millis`: the
/// current wall-clock instant, at or after the epoch on any machine whose
/// clock is sane. Nothing more can be promised of the clock.
#[verifier::external_body]
pub(crate) fn now_millis() -> (r: i64)
    ensures
        r >= 0,
{
    chrono::Utc::now().timestamp_millis()
}

/// The RFC 3339 rendering of an epoch-millisecond instant, as chrono
/// formats it.
pub uninterp spec fn rfc3339_of(ms: int) -> Seq<char>;

/// Relies on `chrono::DateTime::<Utc>::from_timestamp_millis`, which is
/// documented to return a value for every instant within a few hundred
/// thousand years of the epoch, and on `DateTime::to_rfc3339`: the rendering
/// depends on the milliseconds alone.
#[verifier::external_body]
pub(crate) fn format_rfc3339(ms: i64) -> (r: String)
    requires
        TS_MIN <= ms <= TS_MAX,
    ensures
        r@ == rfc3339_of(ms as int),
{
    match chrono::DateTime::<chrono::Utc>::from_timestamp_millis(ms) {
        Some(dt) => dt.to_rfc3339(),
        None => String::new(),
    }
}

/// Metadata shared by all node types: the "energy" and "strength" of a
/// memory. `activation` and `stability` are fixed-point micro-units.
#[derive(Clone, Copy, Debug)]
pub struct NodeMetadata {
    /// Unique identifier for the node.
    pub id: u128,
    /// Current activation level, `0 ..= SCALE` ("top of mind" score).
    pub activation: u64,
    /// Long-term stability factor, at least `MIN_STABILITY`; higher
    /// stability means slower decay (long-term potentiation).
    pub stability: u64,
    /// The last tick at which `activation` was written.
    pub last_tick: u64,
}

impl NodeMetadata {
    /// Fresh metadata: a newly drawn identifier, full activation, default
    /// stability, never yet touched.
    pub fn new() -> (m: NodeMetadata)
        ensures
            m.activation == SCALE,
            m.stability == SCALE,
            m.last_tick == 0,
    {
        NodeMetadata { id: fresh_id(), activation: SCALE, stability: SCALE, last_tick: 0 }
    }
}

/// Data specific to an episodic memory: an event that happened.
#[derive(Clone, Debug)]
pub struct EpisodeData {
    /// A text summary of the event.
    pub summary: String,
    /// When the event occurred, in epoch milliseconds.
    pub timestamp: i64,
}

/// Data specific to a concept: semantic knowledge.
#[derive(Clone, Debug)]
pub struct ConceptData {
    /// The name of the concept.
    pub name: String,
    /// The definition or description of the concept.
    pub definition: String,
}

/// Data specific to an affective state. Micro-unit fixed point.
#[derive(Clone, Debug)]
pub struct StateData {
    /// Valence, negative to positive: `-SCALE ..= SCALE`.
    pub valence: i64,
    /// Arousal, calm to excited: `0 ..= SCALE`.
    pub arousal: i64,
}

/// The fundamental unit of memory in the graph.
#[derive(Clone, Debug)]
pub enum Node {
    /// A specific event in time.
    Episode(NodeMetadata, EpisodeData),
    /// General knowledge or a definition.
    Concept(NodeMetadata, ConceptData),
    /// An internal affective state.
    State(NodeMetadata, StateData),
}

/// The mathematical value of a node: the same shape with text as character
/// sequences.
#[verifier::ext_equal]
pub enum NodeModel {
    /// A specific event in time.
    Episode { meta: NodeMetadata, summary: Seq<char>, timestamp: i64 },
    /// General knowledge or a definition.
    Concept { meta: NodeMetadata, name: Seq<char>, definition: Seq<char> },
    /// An internal affective state.
    State { meta: NodeMetadata, valence: i64, arousal: i64 },
}

impl DeepView for Node {
    type V = NodeModel;

    open spec fn deep_view(&self) -> NodeModel {
        self.view()
    }
}

impl View for Node {
    type V = NodeModel;

    open spec fn view(&self) -> NodeModel {
        match self {
            Node::Episode(m, d) => NodeModel::Episode {
                meta: *m,
                summary: d.summary@,
                timestamp: d.timestamp,
            },
            Node::Concept(m, d) => NodeModel::Concept {
                meta: *m,
                name: d.name@,
                definition: d.definition@,
            },
            Node::State(m, d) => NodeModel::State {
                meta: *m,
                valence: d.valence,
                arousal: d.arousal,
            },
        }
    }
}

impl NodeModel {
    /// The shared metadata of the node.
    pub open spec fn meta(self) -> NodeMetadata {
        match self {
            NodeModel::Episode { meta, .. } => meta,
            NodeModel::Concept { meta, .. } => meta,
            NodeModel::State { meta, .. } => meta,
        }
    }

    /// The node's identifier.
    pub open spec fn node_id(self) -> u128 {
        self.meta().id
    }

    /// Whether the node is an affective state (and so carries no text).
    pub open spec fn is_state(self) -> bool {
        self matches NodeModel::State { .. }
    }

    /// The indexable text of the node: the summary of an episode, name and
    /// definition of a concept, nothing for a state.
    pub open spec fn text(self) -> Seq<char> {
        match self {
            NodeModel::Episode { summary, .. } => summary,
            NodeModel::Concept { name, definition, .. } => name + seq![' '] + definition,
            NodeModel::State { .. } => Seq::empty(),
        }
    }

    /// The same node with its metadata replaced.
    pub open spec fn with_meta(self, m: NodeMetadata) -> NodeModel {
        match self {
            NodeModel::Episode { summary, timestamp, .. } => NodeModel::Episode {
                meta: m,
                summary,
                timestamp,
            },
            NodeModel::Concept { name, definition, .. } => NodeModel::Concept {
                meta: m,
                name,
                definition,
            },
            NodeModel::State { valence, arousal, .. } => NodeModel::State {
                meta: m,
                valence,
                arousal,
            },
        }
    }

    /// The ranges every stored node obeys: activation within `[0, 1]`,
    /// stability positive, an episode's instant renderable, a state's
    /// valence and arousal within their ranges.
    pub open spec fn valid_scalars(self) -> bool {
        &&& self.meta().activation <= SCALE
        &&& self.meta().stability >= MIN_STABILITY
        &&& (self matches NodeModel::Episode { timestamp, .. } ==> TS_MIN <= timestamp <= TS_MAX)
        &&& (self matches NodeModel::State { valence, arousal, .. } ==> {
            &&& -(SCALE as i64) <= valence <= SCALE as i64
            &&& 0 <= arousal <= SCALE as i64
        })
    }
}

impl Node {
    /// A reference to the node's metadata.
    pub fn meta(&self) -> (m: &NodeMetadata)
        ensures
            *m == self@.meta(),
    {
        match self {
            Node::Episode(m, _) => m,
            Node::Concept(m, _) => m,
            Node::State(m, _) => m,
        }
    }

    /// A mutable reference to the node's metadata; only the metadata can
    /// change through it.
    pub fn meta_mut(&mut self) -> (m: &mut NodeMetadata)
        ensures
            *m == old(self)@.meta(),
            final(self)@ == old(self)@.with_meta(*final(m)),
    {
        match self {
            Node::Episode(m, _) => m,
            Node::Concept(m, _) => m,
            Node::State(m, _) => m,
        }
    }

    /// The node's text content for indexing: the summary for episodes, name
    /// and definition for concepts, and nothing for states.
    pub fn extract_text(&self) -> (t: String)
        ensures
            t@ == self@.text(),
    {
        match self {
            Node::Episode(_, d) => d.summary.clone(),
            Node::Concept(_, d) => {
                proof {
                    reveal_strlit(" ");
                }
                let mut t = d.name.clone();
                t.append(" ");
                t.append(d.definition.as_str());
                proof {
                    assert(" "@ =~= seq![' ']);
                    assert(t@ =~= self@.text());
                }
                t
            },
            Node::State(_, _) => String::new(),
        }
    }
}

/// A directed connection between two nodes. Only the `Associated` channel
/// (whose weight may be negative, meaning inhibition) drives spread
/// activation; the other kinds are reserved metadata and are preserved
/// through backup round-trips.
#[derive(Clone, Copy, Debug, PartialEq, Eq, Structural)]
pub enum Edge {
    /// Temporal sequence: source happened before target.
    Preceded(u128, u128),
    /// Reference: source mentioned target.
    Mentioned(u128, u128),
    /// Causality: source caused target to be recalled.
    Evoked(u128, u128),
    /// Weighted semantic association; negative weight inhibits.
    Associated(u128, u128, i64),
    /// Explicit inhibition with a weight (reserved metadata).
    Inhibited(u128, u128, i64),
}

impl Edge {
    /// The source endpoint.
    pub open spec fn src(self) -> u128 {
        match self {
            Edge::Preceded(s, _) => s,
            Edge::Mentioned(s, _) => s,
            Edge::Evoked(s, _) => s,
            Edge::Associated(s, _, _) => s,
            Edge::Inhibited(s, _, _) => s,
        }
    }

    /// The target endpoint.
    pub open spec fn dst(self) -> u128 {
        match self {
            Edge::Preceded(_, t) => t,
            Edge::Mentioned(_, t) => t,
            Edge::Evoked(_, t) => t,
            Edge::Associated(_, t, _) => t,
            Edge::Inhibited(_, t, _) => t,
        }
    }

    /// Both endpoints, source first.
    pub fn ends(&self) -> (r: (u128, u128))
        ensures
            r.0 == self.src(),
            r.1 == self.dst(),
    {
        match self {
            Edge::Preceded(s, t) => (*s, *t),
            Edge::Mentioned(s, t) => (*s, *t),
            Edge::Evoked(s, t) => (*s, *t),
            Edge::Associated(s, t, _) => (*s, *t),
            Edge::Inhibited(s, t, _) => (*s, *t),
        }
    }
}

} // verus!
