//! Model for the observer's supported capabilities.
//!
//! Capability availability describes what the observer can currently do. It
//! is deliberately not a session state and must not be used to infer
//! readiness, attention, verification, review, or process health.

use vstd::prelude::*;

use crate::order::{
    first_match, lemma_first_match, lemma_first_match_at, lemma_lex_order,
    lemma_strictly_sorted_insert, lex_lt, lex_order, strict_total, strictly_sorted, text_less,
};
use crate::text::{copy_opt, opt_chars};

verus! {

/// Stable identity for an observer capability.
#[derive(Debug, PartialEq, Eq)]
pub struct CapabilityId(String);

impl CapabilityId {
    pub closed spec fn view(self) -> Seq<char> {
        self.0@
    }

    pub fn new(value: &str) -> (id: Self)
        ensures
            id.view() == value@,
    {
        CapabilityId(value.to_owned())
    }

    pub fn as_str(&self) -> (s: &str)
        ensures
            s@ == self.view(),
    {
        self.0.as_str()
    }
}

impl Clone for CapabilityId {
    fn clone(&self) -> (copy: Self)
        ensures
            copy == *self,
    {
        CapabilityId(self.0.clone())
    }
}

impl<'a> From<&'a str> for CapabilityId {
    fn from(value: &'a str) -> Self {
        CapabilityId::new(value)
    }
}

impl<'a> vstd::std_specs::convert::FromSpecImpl<&'a str> for CapabilityId {
    open spec fn obeys_from_spec() -> bool {
        false
    }

    open spec fn from_spec(value: &'a str) -> Self {
        arbitrary()
    }
}

/// Source of the evidence used to classify a capability.
#[derive(Debug, PartialEq, Eq)]
pub struct EvidenceSource(String);

impl EvidenceSource {
    pub closed spec fn view(self) -> Seq<char> {
        self.0@
    }

    pub fn new(value: &str) -> (source: Self)
        ensures
            source.view() == value@,
    {
        EvidenceSource(value.to_owned())
    }

    pub fn as_str(&self) -> (s: &str)
        ensures
            s@ == self.view(),
    {
        self.0.as_str()
    }
}

impl Clone for EvidenceSource {
    fn clone(&self) -> (copy: Self)
        ensures
            copy == *self,
    {
        EvidenceSource(self.0.clone())
    }
}

impl<'a> From<&'a str> for EvidenceSource {
    fn from(value: &'a str) -> Self {
        EvidenceSource::new(value)
    }
}

impl<'a> vstd::std_specs::convert::FromSpecImpl<&'a str> for EvidenceSource {
    open spec fn obeys_from_spec() -> bool {
        false
    }

    open spec fn from_spec(value: &'a str) -> Self {
        arbitrary()
    }
}

/// Current observer support level for one capability.
#[derive(Clone, Copy, Debug, PartialEq, Eq, Structural)]
pub enum CapabilityStatus {
    Supported,
    Degraded,
    Unavailable,
}

impl CapabilityStatus {
    pub open spec fn label(self) -> Seq<char> {
        match self {
            CapabilityStatus::Supported => "SUPPORTED"@,
            CapabilityStatus::Degraded => "DEGRADED"@,
            CapabilityStatus::Unavailable => "UNAVAILABLE"@,
        }
    }

    pub fn as_str(self) -> (label: &'static str)
        ensures
            label@ == self.label(),
    {
        match self {
            CapabilityStatus::Supported => "SUPPORTED",
            CapabilityStatus::Degraded => "DEGRADED",
            CapabilityStatus::Unavailable => "UNAVAILABLE",
        }
    }
}

/// A capability's status and the evidence explaining that status.
#[derive(Debug, PartialEq, Eq)]
pub struct ObserverCapability {
    pub id: CapabilityId,
    pub status: CapabilityStatus,
    pub evidence_source: EvidenceSource,
    pub reason: Option<String>,
}

impl ObserverCapability {
    pub fn new(id: &str, status: CapabilityStatus, evidence_source: &str, reason: Option<&str>) -> (capability: Self)
        ensures
            capability.id.view() == id@,
            capability.status == status,
            capability.evidence_source.view() == evidence_source@,
            opt_chars(capability.reason) == match reason {
                Some(r) => Some(r@),
                None => None::<Seq<char>>,
            },
    {
        ObserverCapability {
            id: CapabilityId::new(id),
            status,
            evidence_source: EvidenceSource::new(evidence_source),
            reason: match reason {
                Some(r) => Some(r.to_owned()),
                None => None,
            },
        }
    }
}

impl Clone for ObserverCapability {
    fn clone(&self) -> (copy: Self)
        ensures
            copy == *self,
    {
        ObserverCapability {
            id: self.id.clone(),
            status: self.status,
            evidence_source: self.evidence_source.clone(),
            reason: copy_opt(&self.reason),
        }
    }
}

/// Deterministic in-memory registry of observer capabilities, kept in
/// identifier order with at most one capability per identifier.
#[derive(Debug, PartialEq, Eq)]
pub struct ObserverCapabilityRegistry {
    capabilities: Vec<ObserverCapability>,
}

impl Default for ObserverCapabilityRegistry {
    fn default() -> (registry: Self)
        ensures
            registry.contents() == Seq::<ObserverCapability>::empty(),
            registry.wf(),
    {
        ObserverCapabilityRegistry { capabilities: Vec::new() }
    }
}

impl ObserverCapabilityRegistry {
    /// The registered capabilities, in identifier order.
    pub closed spec fn contents(self) -> Seq<ObserverCapability> {
        self.capabilities@
    }

    pub open spec fn ids(self) -> Seq<Seq<char>> {
        self.contents().map_values(|c: ObserverCapability| c.id.view())
    }

    pub open spec fn wf(self) -> bool {
        strictly_sorted(self.ids(), lex_order())
    }

    /// Where a capability with identifier `id` belongs.
    pub open spec fn position(self, id: Seq<char>) -> nat {
        match first_match(self.ids(), |x: Seq<char>| !lex_lt(x, id)) {
            Some(k) => k,
            None => self.ids().len(),
        }
    }

    pub open spec fn has(self, id: Seq<char>) -> bool {
        self.ids().contains(id)
    }

    fn locate(&self, id: &CapabilityId) -> (found: (usize, bool))
        requires
            self.wf(),
        ensures
            found.0 == self.position(id.view()),
            found.1 == self.has(id.view()),
            found.1 ==> found.0 < self.ids().len() && self.ids()[found.0 as int] == id.view(),
    {
        proof {
            lemma_lex_order();
        }
        let ghost ids = self.ids();
        let ghost pred = |x: Seq<char>| !lex_lt(x, id.view());
        let mut index: usize = 0;
        while index < self.capabilities.len() && text_less(
            self.capabilities[index].id.as_str(),
            id.as_str(),
        )
            invariant
                index <= self.capabilities@.len(),
                ids == self.ids(),
                ids.len() == self.capabilities@.len(),
                pred == (|x: Seq<char>| !lex_lt(x, id.view())),
                forall|j: int| 0 <= j < index ==> !pred(#[trigger] ids[j]),
            decreases self.capabilities.len() - index,
        {
            proof {
                assert(ids[index as int] == self.capabilities@[index as int].id.view());
            }
            index = index + 1;
        }
        proof {
            if index < self.capabilities@.len() {
                assert(ids[index as int] == self.capabilities@[index as int].id.view());
            }
            lemma_first_match_at(ids, pred, index as int);
        }
        let found = index < self.capabilities.len() && self.capabilities[index].id.0 == id.0;
        proof {
            if found {
                assert(ids[index as int] == self.capabilities@[index as int].id.view());
            } else if ids.contains(id.view()) {
                let j = choose|j: int| 0 <= j < ids.len() && ids[j] == id.view();
                if j < index {
                    assert(!pred(ids[j]));
                    assert(lex_order()(id.view(), id.view()));
                } else if j > index {
                    assert(ids[index as int] == self.capabilities@[index as int].id.view());
                    assert(lex_order()(ids[index as int], ids[j]));
                    assert(lex_order()(id.view(), ids[index as int]) || lex_order()(
                        ids[index as int],
                        id.view(),
                    ));
                    assert(lex_order()(id.view(), id.view()));
                } else {
                    assert(ids[index as int] == self.capabilities@[index as int].id.view());
                }
            }
        }
        (index, found)
    }

    /// Registers a capability, replacing the one with the same identifier;
    /// returns the replaced capability.
    pub fn register(&mut self, capability: ObserverCapability) -> (previous: Option<ObserverCapability>)
        requires
            old(self).wf(),
        ensures
            final(self).wf(),
            old(self).has(capability.id.view()) ==> {
                let k = old(self).position(capability.id.view()) as int;
                &&& previous == Some(old(self).contents()[k])
                &&& final(self).contents() == old(self).contents().update(k, capability)
            },
            !old(self).has(capability.id.view()) ==> {
                &&& previous is None
                &&& final(self).contents() == old(self).contents().insert(
                    old(self).position(capability.id.view()) as int,
                    capability,
                )
            },
            final(self).has(capability.id.view()),
            final(self).contents()[final(self).position(capability.id.view()) as int]
                == capability,
    {
        proof {
            lemma_lex_order();
        }
        let ghost old_ids = self.ids();
        let ghost old_contents = self.contents();
        let ghost id = capability.id.view();
        let (k, found) = self.locate(&capability.id);
        if found {
            let previous = self.capabilities.remove(k);
            self.capabilities.insert(k, capability);
            proof {
                assert(self.capabilities@ =~= old_contents.update(k as int, capability));
                assert(self.ids() =~= old_ids);
                assert(self.ids()[k as int] == id);
            }
            Some(previous)
        } else {
            proof {
                lemma_first_match(old_ids, |x: Seq<char>| !lex_lt(x, id));
                if (k as int) < old_ids.len() {
                    assert(old_ids[k as int] != id);
                    assert(lex_order()(id, old_ids[k as int]) || lex_order()(old_ids[k as int], id));
                }
                assert forall|j: int| 0 <= j < k implies lex_order()(#[trigger] old_ids[j], id) by {}
                lemma_strictly_sorted_insert(old_ids, k as int, id, lex_order());
            }
            self.capabilities.insert(k, capability);
            proof {
                assert(self.ids() =~= old_ids.insert(k as int, id));
                assert(self.ids()[k as int] == id);
                assert(forall|j: int| 0 <= j < k ==> self.ids()[j] == old_ids[j]);
                assert(!lex_order()(id, id));
                lemma_first_match_at(self.ids(), |x: Seq<char>| !lex_lt(x, id), k as int);
            }
            None
        }
    }

    /// The capability registered under `id`.
    pub fn get(&self, id: &CapabilityId) -> (found: Option<&ObserverCapability>)
        requires
            self.wf(),
        ensures
            match found {
                Some(c) => self.has(id.view()) && *c == self.contents()[self.position(
                    id.view(),
                ) as int] && c.id.view() == id.view(),
                None => !self.has(id.view()),
            },
    {
        let (k, found) = self.locate(id);
        if found {
            Some(&self.capabilities[k])
        } else {
            None
        }
    }

    /// The capabilities, in identifier order.
    pub fn iter(&self) -> (it: std::slice::Iter<'_, ObserverCapability>)
        ensures
            vstd::std_specs::iter::IteratorSpec::remaining(&it) == self.contents().map_values(
                |c: ObserverCapability| &c,
            ),
    {
        broadcast use vstd::std_specs::slice::axiom_spec_slice_iter;
        let it = self.capabilities.as_slice().iter();
        proof {
            assert(self.capabilities@.map_values(|c: ObserverCapability| &c) =~= self.capabilities@.as_ref());
        }
        it
    }

    pub fn len(&self) -> (n: usize)
        ensures
            n == self.contents().len(),
    {
        self.capabilities.len()
    }

    pub fn is_empty(&self) -> (empty: bool)
        ensures
            empty == (self.contents().len() == 0),
    {
        self.capabilities.len() == 0
    }
}

} // verus!
