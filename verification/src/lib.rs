use crate::external_references::ExternalReferences;
use crate::views::Views;
use crate::weaknesses::Weaknesses;
use vstd::prelude::*;

pub mod cwe;
pub mod errors;
pub mod external_references;
pub mod views;
pub mod weaknesses;

verus! {

#[derive(Debug)]
pub struct WeaknessCatalog {
    pub xmlns: String,
    pub xhtml: String,
    pub xsi: String,
    pub schema_location: String,
    pub name: String,
    pub version: String,
    pub date: String,
    pub weaknesses: Option<Weaknesses>,
    pub categories: Option<Categories>,
    pub views: Option<Views>,
    pub external_references: Option<ExternalReferences>,
}

#[derive(Debug)]
pub struct Categories {
    pub categories: Vec<Category>,
}

#[derive(Debug)]
pub struct Notes {
    pub notes: Vec<Note>,
}

#[derive(Debug)]
pub struct Note {
    pub type_: Option<String>,
    pub content: Vec<StructuredTextType>,
}

#[derive(Debug)]
pub struct TaxonomyMappings {
    pub taxonomy_mappings: Vec<TaxonomyMapping>,
}

#[derive(Debug)]
pub struct TaxonomyMapping {
    pub taxonomy_name: String,
    pub entry_id: Option<String>,
    pub entry_name: Option<String>,
    pub mapping_fit: Option<String>,
}

#[derive(Debug)]
pub struct FunctionalAreas {
    pub functional_areas: Vec<String>,
}

#[derive(Debug)]
pub struct AffectedResources {
    pub affected_resources: Vec<String>,
}

#[derive(Debug)]
pub struct ContentHistory {
    pub references: Vec<ContentHistoryChild>,
}

#[derive(Debug)]
pub enum ContentHistoryChild {
    Submission(Submission),
    Modification(Modification),
    Contribution(Contribution),
    PreviousEntryName {
        date: String,
        previous_entry_name: String,
    },
}

#[derive(Debug)]
pub struct Submission {
    pub submission_name: String,
    pub submission_organization: Option<String>,
    pub submission_date: String,
    pub submission_comment: Option<String>,
}

#[derive(Debug)]
pub struct Modification {
    pub modification_name: Option<String>,
    pub modification_organization: Option<String>,
    pub modification_date: String,
    pub modification_importance: Option<String>,
    pub modification_comment: Option<String>,
}

#[derive(Debug)]
pub struct Contribution {
    pub type_: Option<String>,
    pub contribution_name: Option<String>,
    pub contribution_organization: Option<String>,
    pub contribution_date: String,
    pub contribution_comment: Option<String>,
}

#[derive(Debug)]
pub struct References {
    pub references: Vec<Reference>,
}

#[derive(Debug)]
pub struct Reference {
    pub external_reference_id: String,
    pub section: Option<String>,
}

#[derive(Debug)]
pub struct RelatedAttackPatterns {
    pub related_attack_patterns: Vec<RelatedAttackPattern>,
}

#[derive(Debug)]
pub struct RelatedAttackPattern {
    pub caped_id: String,
}

#[derive(Debug)]
pub struct ObservedExamples {
    pub observed_examples: Vec<ObservedExample>,
}

#[derive(Debug)]
pub struct ObservedExample {
    pub reference: String,
    pub description: String,
    pub link: String,
}

#[derive(Debug)]
pub struct DemonstrativeExamples {
    pub examples: Vec<DemonstrativeExample>,
}

#[derive(Debug)]
pub struct DemonstrativeExample {
    pub demonstrative_example_id: Option<String>,
    pub children: Vec<DemonstrativeExampleChild>,
}

#[derive(Debug)]
pub enum DemonstrativeExampleChild {
    TitleText(String),
    IntroText(StructuredText),
    BodyText(StructuredText),
    ExampleCode,
    References {
        children: Vec<Reference>,
    },
}

#[derive(Debug)]
pub struct StructuredCode {
    pub nature: String,
    pub language: Option<String>,
    pub children: Option<Vec<StructuredTextType>>,
}

#[derive(Debug)]
pub struct PotentialMitigations {
    pub potential_mitigations: Vec<PotentialMitigation>,
}

#[derive(Debug)]
pub struct PotentialMitigation {
    pub mitigation_id: Option<String>,
    pub children: Vec<PotentialMitigationChild>,
}

#[derive(Debug)]
pub enum PotentialMitigationChild {
    Phase(String),
    Strategy(String),
    Description(StructuredText),
    Effectiveness(String),
    EffectivenessNotes(StructuredText),
}

#[derive(Debug)]
pub struct DetectionMethods {
    pub detection_methods: Vec<DetectionMethod>,
}

#[derive(Debug)]
pub struct DetectionMethod {
    pub detection_method_id: Option<String>,
    pub children: Vec<DetectionMethodChild>,
}

#[derive(Debug)]
pub enum DetectionMethodChild {
    Method(String),
    Description(StructuredText),
    Effectiveness(String),
    EffectivenessNotes(String),
}

#[derive(Debug)]
pub struct CommonConsequences {
    pub common_consequences: Vec<Consequence>,
}

#[derive(Debug)]
pub struct Consequence {
    pub children: Vec<ConsequenceChild>,
}

#[derive(Debug)]
pub enum ConsequenceChild {
    Scope(String),
    Impact(String),
    Note(String),
    Likelihood(String),
}

#[derive(Debug)]
pub struct AlternateTerms {
    pub alternate_terms: Vec<AlternateTerm>,
}

#[derive(Debug)]
pub struct ExploitationFactors {
    pub children: Vec<StructuredText>,
}

#[derive(Debug)]
pub struct AlternateTerm {
    pub term: String,
    pub description: Option<StructuredText>,
}

#[derive(Debug)]
pub struct ModesOfIntroduction {
    pub introductions: Vec<Introduction>,
}

#[derive(Debug)]
pub struct Introduction {
    pub phase: String,
    pub note: Option<StructuredText>,
}

#[derive(Debug)]
pub struct BackgroundDetails {
    pub background_details: StructuredText,
}

#[derive(Debug)]
pub struct ApplicablePlatforms {
    pub applicable_platforms: Vec<ApplicablePlatform>,
}

#[derive(Debug)]
pub enum ApplicablePlatform {
    Language {
        class: Option<String>,
        name: Option<String>,
        prevalence: String,
    },
    Technology {
        name: Option<String>,
        class: Option<String>,
        prevalence: String,
    },
    OperatingSystem {
        name: Option<String>,
        version: Option<String>,
        cpe_id: Option<String>,
        class: Option<String>,
        prevalence: String,
    },
    Architecture {
        name: Option<String>,
        class: Option<String>,
        prevalence: String,
    },
}

#[derive(Debug)]
pub struct WeaknessOrdinalities {
    pub weakness_ordinalities: Vec<WeaknessOrdinality>,
}

#[derive(Debug)]
pub struct WeaknessOrdinality {
    pub ordinality: Option<String>,
    pub description: Option<String>,
}

#[derive(Debug)]
pub struct StructuredText {
    pub descriptions: Vec<StructuredTextType>,
}

#[derive(Debug)]
pub enum StructuredTextType {
    P {
        children: Vec<Box<StructuredTextType>>,
    },
    XhtmlB {
        children: Vec<Box<StructuredTextType>>,
    },
    XhtmlOl {
        children: Vec<Box<StructuredTextType>>,
    },
    XhtmlLi {
        children: Vec<Box<StructuredTextType>>,
    },
    XhtmlUl {
        children: Vec<Box<StructuredTextType>>,
    },
    XhtmlTable {
        children: Vec<Box<StructuredTextType>>,
    },
    XhtmlTr {
        children: Vec<Box<StructuredTextType>>,
    },
    XhtmlTh {
        children: Vec<Box<StructuredTextType>>,
    },
    XhtmlTd {
        children: Vec<Box<StructuredTextType>>,
    },
    XhtmlImg {
        src: String,
        alt: Option<String>,
    },
    XhtmlDiv {
        style: Option<String>,
        children: Vec<Box<StructuredTextType>>,
    },
    XhtmlBr,
    XhtmlI {
        text: String,
    },
    String(String),
}

#[derive(Debug)]
pub struct RelatedWeaknesses {
    pub related_weaknesses: Vec<RelatedWeakness>,
}

#[derive(Debug)]
pub struct RelatedWeakness {
    pub nature: String,
    pub cwe_id: String,
    pub view_id: String,
    pub chain_id: Option<String>,
    pub ordinal: Option<String>,
}

#[derive(Debug)]
pub struct Category {
    pub id: String,
    pub name: String,
    pub status: String,
    pub summary: String,
    pub relationships: Relationships,
}

#[derive(Debug)]
pub struct Relationships {
    pub has_members: Vec<HasMember>,
}

#[derive(Debug)]
pub struct HasMember {
    pub cwe_id: String,
    pub view_id: String,
}

/// One parsed catalog, as the string-keyed record model holds it.
#[derive(Debug)]
pub struct CweDb {
    pub weakness_catalog: WeaknessCatalog,
}

} // verus!
