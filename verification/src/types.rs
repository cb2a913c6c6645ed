//! Beliefs, justifications and recorded contradictions.
use vstd::prelude::*;
use crate::clock::timestamp;
use crate::json::JsonValue;
use crate::text::owned;

verus! {

/// A belief: its text, truth value (`IN` or `OUT`) and bookkeeping.
pub struct Node {
    pub id: String,
    pub text: String,
    pub truth_value: String,
    pub source: String,
    pub source_url: String,
    pub source_hash: String,
    pub date: String,
    pub metadata: JsonValue,
    pub created_at: String,
    pub updated_at: String,
    pub reviewed_at: String,
    pub verified_at: String,
    pub retracted_at: String,
}

/// Support for a node: it holds when every antecedent is IN and every
/// node of the out-list is OUT.
#[derive(Clone, Debug, PartialEq, Eq)]
pub struct Justification {
    pub rowid: i64,
    pub node_id: String,
    pub jtype: String,
    pub antecedents: Vec<String>,
    pub outlist: Vec<String>,
    pub label: String,
}

/// A recorded contradiction: these nodes must not all be IN.
#[derive(Clone, Debug, PartialEq, Eq)]
pub struct Nogood {
    pub id: String,
    pub nodes: Vec<String>,
    pub discovered: String,
    pub resolution: String,
}

/// Why an operation on the network was refused.
#[derive(Clone, Debug, PartialEq, Eq)]
pub enum TmsError {
    /// No node has this id.
    NodeNotFound(String),
    /// A node with this id exists already.
    NodeExists(String),
    /// The node has fewer justifications than the index asks for.
    IndexOutOfRange(String, usize, usize),
    /// A text to be shown shortened would be cut inside a character.
    CutInsideChar,
}

/// The characters of each string.
pub open spec fn views(v: Seq<String>) -> Seq<Seq<char>> {
    v.map_values(|s: String| s@)
}

/// An empty JSON object.
pub fn empty_object() -> (r: JsonValue)
    ensures
        r is Object,
        r->Object_0@.len() == 0,
{
    JsonValue::Object(Vec::new())
}

/// The fields a new node is made with, besides id, text, truth value and
/// sources: no hash or date, empty metadata, created and updated at one
/// (non-empty) time, never reviewed, verified or retracted.
pub open spec fn newly_made(n: Node) -> bool {
    &&& n.source_hash@.len() == 0
    &&& n.date@.len() == 0
    &&& n.metadata is Object
    &&& n.metadata->Object_0@.len() == 0
    &&& crate::clock::stamp(n.created_at@)
    &&& n.updated_at == n.created_at
    &&& n.reviewed_at@.len() == 0
    &&& n.verified_at@.len() == 0
    &&& n.retracted_at@.len() == 0
}

impl Node {
    /// A new IN premise with empty metadata, created and updated now (the
    /// time is empty text when the system clock cannot be read).
    pub fn new(id: String, text: String) -> (n: Node)
        ensures
            n.id == id,
            n.text == text,
            n.truth_value@ == "IN"@,
            n.source@.len() == 0,
            n.source_url@.len() == 0,
            n.source_hash@.len() == 0,
            n.date@.len() == 0,
            n.metadata is Object,
            n.metadata->Object_0@.len() == 0,
            crate::clock::stamp(n.created_at@),
            n.updated_at == n.created_at,
            n.reviewed_at@.len() == 0,
            n.verified_at@.len() == 0,
            n.retracted_at@.len() == 0,
    {
        let now = timestamp();
        Node {
            id,
            text,
            truth_value: owned("IN"),
            source: String::new(),
            source_url: String::new(),
            source_hash: String::new(),
            date: String::new(),
            metadata: empty_object(),
            created_at: now.clone(),
            updated_at: now,
            reviewed_at: String::new(),
            verified_at: String::new(),
            retracted_at: String::new(),
        }
    }

    /// A node is a premise when it has no justification.
    pub fn is_premise(&self, justification_count: usize) -> (r: bool)
        ensures
            r == (justification_count == 0),
    {
        justification_count == 0
    }

    /// The kind of belief: the `beliefs_type` string of the metadata when
    /// there is one, otherwise DERIVED for a justified node and OBSERVATION
    /// for a premise.
    pub open spec fn spec_beliefs_type(self, justification_count: usize) -> Seq<char> {
        match self.metadata.str_at("beliefs_type"@) {
            Some(s) => s,
            None => if justification_count > 0 {
                "DERIVED"@
            } else {
                "OBSERVATION"@
            },
        }
    }

    pub fn beliefs_type(&self, justification_count: usize) -> (r: &str)
        ensures
            r@ == self.spec_beliefs_type(justification_count),
    {
        if let Some(bt) = self.metadata.get_str("beliefs_type") {
            return bt.as_str();
        }
        if justification_count > 0 {
            "DERIVED"
        } else {
            "OBSERVATION"
        }
    }
}

impl Justification {
    /// A new SL justification (row id 0) for `node_id`.
    pub fn new_sl(node_id: String, antecedents: Vec<String>, outlist: Vec<String>, label: String) -> (j: Justification)
        ensures
            j.rowid == 0,
            j.node_id == node_id,
            j.jtype@ == "SL"@,
            j.antecedents == antecedents,
            j.outlist == outlist,
            j.label == label,
    {
        Justification { rowid: 0, node_id, jtype: owned("SL"), antecedents, outlist, label }
    }
}

} // verus!
