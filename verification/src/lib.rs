//! A fuzz harness for the output of a JavaScript bundler.
//!
//! Cases are module graphs, generated or read from a case spec. A case is
//! rendered to source files and bundled; what comes out is checked: no import
//! cycle joins its chunks, they are valid JavaScript, entry chunks keep their
//! exports, and bundling again gives the same chunks. A failed case is reported
//! with what is needed to look at it again.
pub mod base64_text;
pub mod case;
pub mod case_parse;
pub mod case_spec;
pub mod determinism;
pub mod exports;
pub mod faults;
pub mod fixture;
pub mod generate;
pub mod graph_cycle_checker;
pub mod hub;
pub mod json;
pub mod mask_laws;
pub mod option_laws;
pub mod options;
pub mod order;
pub mod output;
pub mod output_graph;
pub mod path_laws;
pub mod paths;
pub mod read_laws;
pub mod reference_laws;
pub mod render;
pub mod repl;
pub mod report;
pub mod report_laws;
pub mod round_trip;
pub mod run_laws;
pub mod seed;
pub mod seed_laws;
pub mod segment_laws;
pub mod source_laws;
pub mod syntax;
pub mod text;
pub mod text_laws;
pub mod tidy_laws;
pub mod verdict;

pub use crate::case::{
    external_default_local_name, external_module_name, is_cjs_node, module_filename,
    preserve_entry_signatures_from_index, GraphCase, PreserveEntrySignatures,
    EXTERNAL_DEFAULT_LOCAL_VARIANTS, MAX_EXTERNAL_MODULES, MAX_NODES,
};
pub use crate::case_spec::encode_case_spec;
pub use crate::options::{bundler_options_for_case, BundlerOptions};
pub use crate::output::{collect_chunk_info, BundleOutput, ChunkInfo};
pub use crate::repl::build_repl_url;
