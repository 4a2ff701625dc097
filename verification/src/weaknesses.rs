use crate::{
    AffectedResources, AlternateTerms, ApplicablePlatforms, BackgroundDetails, CommonConsequences,
    ContentHistory, DemonstrativeExamples, DetectionMethods, ExploitationFactors, FunctionalAreas,
    ModesOfIntroduction, Notes, ObservedExamples, PotentialMitigations, References,
    RelatedAttackPatterns, RelatedWeaknesses, StructuredText, TaxonomyMappings,
    WeaknessOrdinalities,
};
use vstd::prelude::*;

verus! {

#[derive(Debug)]
pub struct Weaknesses {
    pub weaknesses: Vec<Weakness>,
}

#[derive(Debug)]
pub struct Weakness {
    pub id: String,
    pub name: String,
    pub abstraction: String,
    pub structure: String,
    pub status: String,
    pub description: String,
    pub extended_description: Option<StructuredText>,
    pub related_weaknesses: Option<RelatedWeaknesses>,
    pub demonstrative_examples: Option<DemonstrativeExamples>,
    pub weakness_ordinalities: Option<WeaknessOrdinalities>,
    pub applicable_platforms: Option<ApplicablePlatforms>,
    pub background_details: Option<BackgroundDetails>,
    pub modes_of_introduction: Option<ModesOfIntroduction>,
    pub likelihood_of_exploit: Option<String>,
    pub alternate_terms: Option<AlternateTerms>,
    pub common_consequences: Option<CommonConsequences>,
    pub detection_methods: Option<DetectionMethods>,
    pub potential_mitigations: Option<PotentialMitigations>,
    pub observed_examples: Option<ObservedExamples>,
    pub related_attack_patterns: Option<RelatedAttackPatterns>,
    pub references: Option<References>,
    pub content_history: ContentHistory,
    pub exploitation_factors: Option<ExploitationFactors>,
    pub functional_areas: Option<FunctionalAreas>,
    pub affected_resources: Option<AffectedResources>,
    pub taxonomy_mappings: Option<TaxonomyMappings>,
    pub notes: Option<Notes>,
}

} // verus!
