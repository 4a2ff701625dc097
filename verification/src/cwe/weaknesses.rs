use crate::cwe::content_history::ContentHistory;
use crate::cwe::notes::Notes;
use crate::cwe::structured_text::StructuredText;
use crate::{
    AffectedResources, AlternateTerms, ApplicablePlatforms, BackgroundDetails, CommonConsequences,
    DemonstrativeExamples, DetectionMethods, ExploitationFactors, FunctionalAreas,
    ModesOfIntroduction, ObservedExamples, PotentialMitigations, References,
    RelatedAttackPatterns, TaxonomyMappings, WeaknessOrdinalities,
};
use std::rc::Rc;
use vstd::prelude::*;

verus! {

#[derive(Debug)]
pub struct Weaknesses {
    pub weaknesses: Vec<Rc<Weakness>>,
}

/// How one weakness relates to another. Only `ChildOf` shapes the hierarchy.
#[derive(Debug, Clone, Copy, PartialEq, Eq, Structural)]
pub enum RelatedNature {
    ChildOf,
    ParentOf,
    StartsWith,
    CanFollow,
    CanPrecede,
    RequiredBy,
    Requires,
    CanAlsoBe,
    PeerOf,
}

#[derive(Debug)]
pub struct RelatedWeaknesses {
    pub related_weaknesses: Vec<RelatedWeakness>,
}

/// A directed relation from the weakness that holds it to weakness `cwe_id`.
#[derive(Debug)]
pub struct RelatedWeakness {
    pub nature: RelatedNature,
    pub cwe_id: i64,
    pub view_id: i64,
    pub chain_id: Option<i64>,
    pub ordinal: Option<String>,
}

#[derive(Debug)]
pub struct MappingNotes {
    pub usage: String,
    pub rationale: StructuredText,
    pub comments: StructuredText,
    pub reasons: Vec<String>,
}

#[derive(Debug)]
pub struct Weakness {
    pub id: i64,
    pub name: String,
    pub abstraction: String,
    pub structure: String,
    pub status: String,
    pub description: String,
    pub extended_description: Option<StructuredText>,
    pub related_weaknesses: Option<RelatedWeaknesses>,
    pub demonstrative_examples: Option<DemonstrativeExamples>,
    pub weakness_ordinalities: Option<WeaknessOrdinalities>,
    pub applicable_platforms: Option<ApplicablePlatforms>,
    pub background_details: Option<BackgroundDetails>,
    pub modes_of_introduction: Option<ModesOfIntroduction>,
    pub likelihood_of_exploit: Option<String>,
    pub alternate_terms: Option<AlternateTerms>,
    pub common_consequences: Option<CommonConsequences>,
    pub detection_methods: Option<DetectionMethods>,
    pub potential_mitigations: Option<PotentialMitigations>,
    pub observed_examples: Option<ObservedExamples>,
    pub related_attack_patterns: Option<RelatedAttackPatterns>,
    pub references: Option<References>,
    pub content_history: ContentHistory,
    pub exploitation_factors: Option<ExploitationFactors>,
    pub functional_areas: Option<FunctionalAreas>,
    pub affected_resources: Option<AffectedResources>,
    pub taxonomy_mappings: Option<TaxonomyMappings>,
    pub mapping_notes: Option<MappingNotes>,
    pub notes: Option<Notes>,
}

/// The targets of the `ChildOf` relations among `rels`, in the order of `rels`.
pub open spec fn child_of_targets(rels: Seq<RelatedWeakness>) -> Seq<i64>
    decreases rels.len(),
{
    if rels.len() == 0 {
        Seq::empty()
    } else {
        let before = child_of_targets(rels.drop_last());
        if rels.last().nature == RelatedNature::ChildOf {
            before.push(rels.last().cwe_id)
        } else {
            before
        }
    }
}

/// `child_of_targets(rels)` holds `p` exactly where a `ChildOf` relation of `rels` names `p`.
pub proof fn lemma_child_of_targets(rels: Seq<RelatedWeakness>)
    ensures
        forall|p: i64|
            child_of_targets(rels).contains(p) <==> exists|k: int|
                0 <= k < rels.len() && (#[trigger] rels[k]).nature == RelatedNature::ChildOf
                    && rels[k].cwe_id == p,
        child_of_targets(rels).len() == 0 <==> forall|k: int|
            0 <= k < rels.len() ==> (#[trigger] rels[k]).nature != RelatedNature::ChildOf,
    decreases rels.len(),
{
    if rels.len() > 0 {
        let front = rels.drop_last();
        let last = rels.last();
        lemma_child_of_targets(front);
        let before = child_of_targets(front);
        assert forall|p: i64|
            child_of_targets(rels).contains(p) <==> exists|k: int|
                0 <= k < rels.len() && (#[trigger] rels[k]).nature == RelatedNature::ChildOf
                    && rels[k].cwe_id == p by {
            if child_of_targets(rels).contains(p) {
                let i = choose|i: int|
                    0 <= i < child_of_targets(rels).len() && child_of_targets(rels)[i] == p;
                if i < before.len() {
                    assert(before.contains(p));
                    let k = choose|k: int|
                        0 <= k < front.len() && (#[trigger] front[k]).nature
                            == RelatedNature::ChildOf && front[k].cwe_id == p;
                    assert(rels[k] == front[k]);
                } else {
                    assert(rels[rels.len() - 1] == last);
                }
            }
            if exists|k: int|
                0 <= k < rels.len() && (#[trigger] rels[k]).nature == RelatedNature::ChildOf
                    && rels[k].cwe_id == p {
                let k = choose|k: int|
                    0 <= k < rels.len() && (#[trigger] rels[k]).nature == RelatedNature::ChildOf
                        && rels[k].cwe_id == p;
                if k < front.len() {
                    assert(front[k] == rels[k]);
                    assert(before.contains(p));
                    let i = choose|i: int| 0 <= i < before.len() && before[i] == p;
                    assert(child_of_targets(rels)[i] == p);
                } else {
                    assert(child_of_targets(rels)[before.len() as int] == p);
                }
            }
        }
        if child_of_targets(rels).len() == 0 {
            assert forall|k: int| 0 <= k < rels.len() implies (#[trigger] rels[k]).nature
                != RelatedNature::ChildOf by {
                if k < front.len() {
                    assert(front[k] == rels[k]);
                }
            }
        }
        if forall|k: int|
            0 <= k < rels.len() ==> (#[trigger] rels[k]).nature != RelatedNature::ChildOf {
            assert forall|k: int| 0 <= k < front.len() implies (#[trigger] front[k]).nature
                != RelatedNature::ChildOf by {
                assert(front[k] == rels[k]);
            }
            assert(rels[rels.len() - 1] == last);
        }
    }
}

impl Weakness {
    /// The relations that the weakness declares, none where the list is absent.
    pub open spec fn relations(&self) -> Seq<RelatedWeakness> {
        match self.related_weaknesses {
            Some(r) => r.related_weaknesses@,
            None => Seq::empty(),
        }
    }

    /// The weakness declares a `ChildOf` relation that names `parent`.
    pub open spec fn is_child_of(&self, parent: i64) -> bool {
        exists|k: int|
            0 <= k < self.relations().len() && (#[trigger] self.relations()[k]).nature
                == RelatedNature::ChildOf && self.relations()[k].cwe_id == parent
    }

    /// The weakness declares no `ChildOf` relation at all.
    pub open spec fn is_root(&self) -> bool {
        forall|k: int|
            0 <= k < self.relations().len() ==> (#[trigger] self.relations()[k]).nature
                != RelatedNature::ChildOf
    }

    /// The identifiers that the weakness names as parents, in declaration order.
    pub open spec fn parents(&self) -> Seq<i64> {
        child_of_targets(self.relations())
    }

    /// `parents()` says the same as `is_child_of` and `is_root`.
    pub proof fn lemma_parents(&self)
        ensures
            forall|p: i64|
                #![trigger self.parents().contains(p)]
                #![trigger self.is_child_of(p)]
                self.parents().contains(p) <==> self.is_child_of(p),
            self.parents().len() == 0 <==> self.is_root(),
    {
        lemma_child_of_targets(self.relations());
    }

    /// A weakness with the given identifier and name, and nothing else declared.
    pub fn new(id: i64, name: String) -> (weakness: Weakness)
        ensures
            weakness.id == id,
            weakness.name@ == name@,
            weakness.abstraction@ == Seq::<char>::empty(),
            weakness.structure@ == Seq::<char>::empty(),
            weakness.status@ == Seq::<char>::empty(),
            weakness.description@ == Seq::<char>::empty(),
            weakness.related_weaknesses is None,
            weakness.relations() == Seq::<RelatedWeakness>::empty(),
            weakness.is_root(),
    {
        Weakness {
            id,
            name,
            abstraction: String::new(),
            structure: String::new(),
            status: String::new(),
            description: String::new(),
            extended_description: None,
            related_weaknesses: None,
            demonstrative_examples: None,
            weakness_ordinalities: None,
            applicable_platforms: None,
            background_details: None,
            modes_of_introduction: None,
            likelihood_of_exploit: None,
            alternate_terms: None,
            common_consequences: None,
            detection_methods: None,
            potential_mitigations: None,
            observed_examples: None,
            related_attack_patterns: None,
            references: None,
            content_history: ContentHistory { references: Vec::new() },
            exploitation_factors: None,
            functional_areas: None,
            affected_resources: None,
            taxonomy_mappings: None,
            mapping_notes: None,
            notes: None,
        }
    }

    /// The same weakness with one more relation, of nature `nature`, to weakness
    /// `cwe_id` in view `view_id`.
    pub fn with_relation(self, nature: RelatedNature, cwe_id: i64, view_id: i64) -> (weakness:
        Weakness)
        ensures
            weakness == (Weakness { related_weaknesses: weakness.related_weaknesses, ..self }),
            weakness.relations() == self.relations().push(
                RelatedWeakness { nature, cwe_id, view_id, chain_id: None, ordinal: None },
            ),
    {
        let mut weakness = self;
        let relation = RelatedWeakness { nature, cwe_id, view_id, chain_id: None, ordinal: None };
        let mut relations = match weakness.related_weaknesses {
            Some(related) => related.related_weaknesses,
            None => Vec::new(),
        };
        relations.push(relation);
        weakness.related_weaknesses = Some(RelatedWeaknesses { related_weaknesses: relations });
        weakness
    }

    /// The same weakness, declared a child of weakness `parent` in view `view_id`.
    pub fn child_of(self, parent: i64, view_id: i64) -> (weakness: Weakness)
        ensures
            weakness == (Weakness { related_weaknesses: weakness.related_weaknesses, ..self }),
            weakness.relations() == self.relations().push(
                RelatedWeakness {
                    nature: RelatedNature::ChildOf,
                    cwe_id: parent,
                    view_id,
                    chain_id: None,
                    ordinal: None,
                },
            ),
            weakness.parents() == self.parents().push(parent),
            weakness.is_child_of(parent),
    {
        let weakness = self.with_relation(RelatedNature::ChildOf, parent, view_id);
        proof {
            assert(weakness.relations().drop_last() =~= self.relations());
            assert(weakness.relations()[weakness.relations().len() - 1].cwe_id == parent);
        }
        weakness
    }

    /// The identifiers of the direct ancestors that the weakness declares.
    pub fn direct_ancestors(&self) -> (out: Vec<i64>)
        ensures
            out@ == self.parents(),
    {
        let mut out: Vec<i64> = Vec::new();
        match &self.related_weaknesses {
            Some(related) => {
                let rels = &related.related_weaknesses;
                let mut i: usize = 0;
                while i < rels.len()
                    invariant
                        i <= rels.len(),
                        out@ == child_of_targets(rels@.take(i as int)),
                    decreases rels.len() - i,
                {
                    proof {
                        assert(rels@.take(i + 1).drop_last() =~= rels@.take(i as int));
                    }
                    if rels[i].nature == RelatedNature::ChildOf {
                        out.push(rels[i].cwe_id);
                    }
                    i += 1;
                }
                proof {
                    assert(rels@.take(rels.len() as int) =~= rels@);
                }
            },
            None => {},
        }
        out
    }
}

} // verus!
