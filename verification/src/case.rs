//! The graph cases that the fuzz tests bundle, and the names they use.
use crate::order::{has_number, in_order, in_strict_order, rank};
use crate::text::{decimal, decimal_text};
use vstd::prelude::*;

verus! {

/// The most modules a case can have.
pub const MAX_NODES: usize = 12;

/// The most external modules a generated case has.
pub const MAX_EXTERNAL_MODULES: usize = 4;

/// Number of distinct local names used for static default imports from the
/// same external module. With several in play, two importers often pick
/// different local names for the same external default.
pub const EXTERNAL_DEFAULT_LOCAL_VARIANTS: u8 = 4;

/// How a bundler treats the exports of entry chunks.
#[derive(Clone, Copy, Debug, PartialEq, Eq, Structural)]
pub enum PreserveEntrySignatures {
    AllowExtension,
    Strict,
    ExportsOnly,
    False,
}

/// A module graph to bundle, with the options to bundle it with.
#[derive(Clone)]
pub struct GraphCase {
    pub seed: u64,
    pub node_count: usize,
    pub entry_nodes: Vec<usize>,
    pub cjs_nodes: Vec<usize>,
    pub static_edges: Vec<(usize, usize)>,
    pub dynamic_edges: Vec<(usize, usize)>,
    pub reexport_static_edges: Vec<(usize, usize)>,
    pub external_module_count: usize,
    pub external_dynamic_edges: Vec<(usize, usize)>,
    /// Static `import <local> from "<external>"` edges, where `<local>` is one
    /// of a few names per external module (see
    /// [`EXTERNAL_DEFAULT_LOCAL_VARIANTS`]). Each entry is
    /// `(from_node, external_index, variant)`.
    pub external_static_default_edges: Vec<(usize, usize, u8)>,
    pub preserve_entry_signatures: PreserveEntrySignatures,
    pub strict_execution_order: bool,
    pub treeshake: bool,
    pub minify_internal_exports: bool,
}

/// What a [`GraphCase`] holds, with its lists as mathematical sequences.
#[verifier::ext_equal]
pub struct CaseModel {
    pub seed: u64,
    pub node_count: usize,
    pub entry_nodes: Seq<usize>,
    pub cjs_nodes: Seq<usize>,
    pub static_edges: Seq<(usize, usize)>,
    pub dynamic_edges: Seq<(usize, usize)>,
    pub reexport_static_edges: Seq<(usize, usize)>,
    pub external_module_count: usize,
    pub external_dynamic_edges: Seq<(usize, usize)>,
    pub external_static_default_edges: Seq<(usize, usize, u8)>,
    pub preserve_entry_signatures: PreserveEntrySignatures,
    pub strict_execution_order: bool,
    pub treeshake: bool,
    pub minify_internal_exports: bool,
}

impl View for GraphCase {
    type V = CaseModel;

    open spec fn view(&self) -> CaseModel {
        CaseModel {
            seed: self.seed,
            node_count: self.node_count,
            entry_nodes: self.entry_nodes@,
            cjs_nodes: self.cjs_nodes@,
            static_edges: self.static_edges@,
            dynamic_edges: self.dynamic_edges@,
            reexport_static_edges: self.reexport_static_edges@,
            external_module_count: self.external_module_count,
            external_dynamic_edges: self.external_dynamic_edges@,
            external_static_default_edges: self.external_static_default_edges@,
            preserve_entry_signatures: self.preserve_entry_signatures,
            strict_execution_order: self.strict_execution_order,
            treeshake: self.treeshake,
            minify_internal_exports: self.minify_internal_exports,
        }
    }
}

impl CaseModel {
    /// Whether every edge joins two different nodes of the case.
    pub open spec fn joins_nodes(self, edges: Seq<(usize, usize)>) -> bool {
        forall|i: int|
            0 <= i < edges.len() ==> {
                &&& (#[trigger] edges[i]).0 < self.node_count
                &&& edges[i].1 < self.node_count
                &&& edges[i].0 != edges[i].1
            }
    }

    /// The entries are nodes of the case, in order, each once. There is at
    /// least one, and not every node is one unless there is only one node.
    pub open spec fn entries_well_formed(self) -> bool {
        &&& in_strict_order(self.entry_nodes, rank::<usize>())
        &&& forall|i: int|
            0 <= i < self.entry_nodes.len() ==> #[trigger] self.entry_nodes[i] < self.node_count
        &&& self.entry_nodes.len() > 0
        &&& self.entry_nodes.len() < self.node_count || self.node_count == 1
    }

    /// The edges to external modules start at nodes of the case, end at
    /// external modules of the case, and are in order; a node imports the
    /// default of an external module under one name at most.
    pub open spec fn externals_well_formed(self) -> bool {
        let dynamic = self.external_dynamic_edges;
        let defaults = self.external_static_default_edges;
        &&& in_order(dynamic, rank::<(usize, usize)>())
        &&& forall|i: int|
            0 <= i < dynamic.len() ==> (#[trigger] dynamic[i]).0 < self.node_count && dynamic[i].1
                < self.external_module_count
        &&& in_order(defaults, rank::<(usize, usize, u8)>())
        &&& forall|i: int|
            0 <= i < defaults.len() ==> (#[trigger] defaults[i]).0 < self.node_count
                && defaults[i].1 < self.external_module_count && defaults[i].2
                < EXTERNAL_DEFAULT_LOCAL_VARIANTS
        &&& forall|i: int, j: int|
            0 <= i < j < defaults.len() ==> ((#[trigger] defaults[i]).0, defaults[i].1) != ((
            #[trigger] defaults[j]).0, defaults[j].1)
    }

    /// The invariant of the cases that are generated or read: every list is in
    /// order and speaks of nodes and external modules that the case has.
    pub open spec fn well_formed(self) -> bool {
        &&& 1 <= self.node_count <= MAX_NODES
        &&& self.entries_well_formed()
        &&& in_strict_order(self.cjs_nodes, rank::<usize>())
        &&& forall|i: int|
            0 <= i < self.cjs_nodes.len() ==> #[trigger] self.cjs_nodes[i] < self.node_count
        &&& in_strict_order(self.static_edges, rank::<(usize, usize)>())
        &&& self.joins_nodes(self.static_edges)
        &&& in_order(self.dynamic_edges, rank::<(usize, usize)>())
        &&& self.joins_nodes(self.dynamic_edges)
        &&& in_strict_order(self.reexport_static_edges, rank::<(usize, usize)>())
        &&& forall|i: int|
            0 <= i < self.reexport_static_edges.len() ==> self.static_edges.contains(
                #[trigger] self.reexport_static_edges[i],
            )
        &&& self.externals_well_formed()
    }

    /// Whether node `index` is a CommonJS module.
    pub open spec fn is_cjs(self, index: usize) -> bool {
        self.cjs_nodes.contains(index)
    }
}

/// The name of an external module.
pub open spec fn external_name(index: usize) -> Seq<char> {
    "external-"@ + decimal(index as nat)
}

/// The local name under which a default import binds an external module.
pub open spec fn external_default_name(external_index: usize, variant: u8) -> Seq<char> {
    "dn_"@ + decimal(external_index as nat) + "_"@ + decimal(variant as nat)
}

/// The file that holds a node: a `.cjs` file for a CommonJS module, else `.js`.
pub open spec fn filename(case: CaseModel, index: usize) -> Seq<char> {
    "node"@ + decimal(index as nat) + (if case.is_cjs(index) {
        ".cjs"@
    } else {
        ".js"@
    })
}

/// The setting for an index; indices wrap around after the four settings.
pub open spec fn signatures_at(index: int) -> PreserveEntrySignatures {
    if index % 4 == 0 {
        PreserveEntrySignatures::AllowExtension
    } else if index % 4 == 1 {
        PreserveEntrySignatures::Strict
    } else if index % 4 == 2 {
        PreserveEntrySignatures::ExportsOnly
    } else {
        PreserveEntrySignatures::False
    }
}

/// The index of a setting.
pub open spec fn signatures_index(value: PreserveEntrySignatures) -> u8 {
    match value {
        PreserveEntrySignatures::AllowExtension => 0,
        PreserveEntrySignatures::Strict => 1,
        PreserveEntrySignatures::ExportsOnly => 2,
        PreserveEntrySignatures::False => 3,
    }
}

/// What is known of a case is what the case holds, field by field.
pub proof fn cases_are_seen_as_they_are(case: GraphCase)
    ensures
        case@.seed == case.seed,
        case@.node_count == case.node_count,
        case@.entry_nodes == case.entry_nodes@,
        case@.cjs_nodes == case.cjs_nodes@,
        case@.static_edges == case.static_edges@,
        case@.dynamic_edges == case.dynamic_edges@,
        case@.reexport_static_edges == case.reexport_static_edges@,
        case@.external_module_count == case.external_module_count,
        case@.external_dynamic_edges == case.external_dynamic_edges@,
        case@.external_static_default_edges == case.external_static_default_edges@,
        case@.preserve_entry_signatures == case.preserve_entry_signatures,
        case@.strict_execution_order == case.strict_execution_order,
        case@.treeshake == case.treeshake,
        case@.minify_internal_exports == case.minify_internal_exports,
{
}

/// Taking the index of a setting and looking it up again gives the setting
/// back, and an index is recovered up to wrapping around.
pub proof fn signatures_and_indices_agree(value: PreserveEntrySignatures, index: u8)
    ensures
        signatures_at(signatures_index(value) as int) == value,
        signatures_index(signatures_at(index as int)) == index % 4,
{
}

pub fn external_module_name(index: usize) -> (name: String)
    ensures
        name@ == external_name(index),
        name@ == "external-"@ + decimal(index as nat),
{
    let mut name = "external-".to_owned();
    name.append(decimal_text(index as u128).as_str());
    name
}

pub fn external_default_local_name(external_index: usize, variant: u8) -> (name: String)
    ensures
        name@ == external_default_name(external_index, variant),
        name@ == "dn_"@ + decimal(external_index as nat) + "_"@ + decimal(variant as nat),
{
    let mut name = "dn_".to_owned();
    name.append(decimal_text(external_index as u128).as_str());
    name.append("_");
    name.append(decimal_text(variant as u128).as_str());
    name
}

pub fn preserve_entry_signatures_from_index(index: u8) -> (value: PreserveEntrySignatures)
    ensures
        value == signatures_at(index as int),
        index % 4 == 0 ==> value == PreserveEntrySignatures::AllowExtension,
        index % 4 == 1 ==> value == PreserveEntrySignatures::Strict,
        index % 4 == 2 ==> value == PreserveEntrySignatures::ExportsOnly,
        index % 4 == 3 ==> value == PreserveEntrySignatures::False,
{
    match index % 4 {
        0 => PreserveEntrySignatures::AllowExtension,
        1 => PreserveEntrySignatures::Strict,
        2 => PreserveEntrySignatures::ExportsOnly,
        _ => PreserveEntrySignatures::False,
    }
}

pub fn preserve_entry_signatures_to_index(value: PreserveEntrySignatures) -> (index: u8)
    ensures
        index == signatures_index(value),
        index < 4,
        value == PreserveEntrySignatures::AllowExtension <==> index == 0,
        value == PreserveEntrySignatures::Strict <==> index == 1,
        value == PreserveEntrySignatures::ExportsOnly <==> index == 2,
        value == PreserveEntrySignatures::False <==> index == 3,
{
    match value {
        PreserveEntrySignatures::AllowExtension => 0,
        PreserveEntrySignatures::Strict => 1,
        PreserveEntrySignatures::ExportsOnly => 2,
        PreserveEntrySignatures::False => 3,
    }
}

/// Whether a node of the case is a CommonJS module.
pub fn is_cjs_node(case: &GraphCase, index: usize) -> (r: bool)
    ensures
        r == case@.is_cjs(index),
        r <==> case.cjs_nodes@.contains(index),
{
    has_number(&case.cjs_nodes, index)
}

pub fn module_filename(case: &GraphCase, index: usize) -> (name: String)
    ensures
        name@ == filename(case@, index),
        name@ == "node"@ + decimal(index as nat) + (if case.cjs_nodes@.contains(index) {
            ".cjs"@
        } else {
            ".js"@
        }),
{
    let mut name = "node".to_owned();
    name.append(decimal_text(index as u128).as_str());
    if is_cjs_node(case, index) {
        name.append(".cjs");
    } else {
        name.append(".js");
    }
    name
}

impl GraphCase {
    /// The case as debug output shows it: by its seed alone.
    pub fn debug_text(&self) -> (s: String)
        ensures
            s@ == "GraphCase { seed: "@ + decimal(self@.seed as nat) + " }"@,
    {
        let mut s = "GraphCase { seed: ".to_owned();
        s.append(decimal_text(self.seed as u128).as_str());
        s.append(" }");
        s
    }
}

} // verus!
