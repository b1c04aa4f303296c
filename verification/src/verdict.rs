//! The verdict on a case: whether what was bundled from it is sound.
use crate::case::{CaseModel, GraphCase, PreserveEntrySignatures};
use crate::exports::{
    exports_verdict, keeps_exports, outputs_pass_when_exports_are_kept, validate_entry_exports,
};
use crate::faults::{find_fault, is_fault, is_faultless};
use crate::graph_cycle_checker::{find_cycle, is_acyclic, is_closed_walk, is_cycle};
use crate::options::{BundlerOptions, OptionsModel};
use crate::output::{BundleOutput, ChunkModel};
use crate::output_graph::{
    build_output_dependency_graph, cjs_flags, dynamic_edges_of, files_of,
    immediate_cycles_have_two_edges, is_tolerated, static_edges_of,
    tolerance_rests_on_module_ids, visits_cjs,
};
use crate::repl::repl_url;
use crate::report::{failure_text, format_failure_message, path_names, write_path};
use crate::syntax::{syntax_verdict, validate_output_js_syntax};
use crate::text::{decimal, ends_with, joined, texts};
use vstd::prelude::*;

verus! {

/// The path in an option.
pub open spec fn found_path(cycle: Option<Vec<usize>>) -> Option<Seq<usize>> {
    match cycle {
        Some(c) => Some(c@),
        None => None,
    }
}

// ---------------------------------------------------------------------------
// The input
// ---------------------------------------------------------------------------

/// That the static graph of a case has a cycle.
pub open spec fn input_cycle_message(cycle: Seq<usize>) -> Seq<char> {
    "generated static input graph was unexpectedly cyclic at path: "@ + joined(
        path_names(cycle, Seq::empty(), "node"@),
        " -> "@,
    )
}

/// Says that the static graph of a case has a cycle.
pub fn complain_of_input(cycle: &[usize]) -> (message: String)
    ensures
        message@ == input_cycle_message(cycle@),
{
    let names: Vec<String> = Vec::new();
    assert(texts(names@) =~= Seq::<Seq<char>>::empty());
    let mut message =
        "generated static input graph was unexpectedly cyclic at path: ".to_owned();
    message.append(write_path(cycle, names.as_slice(), "node").as_str());
    message
}

/// Checks that the static graph of a case is acyclic.
pub fn check_input(case: &GraphCase) -> (result: Result<(), String>)
    ensures
        result is Ok <==> is_acyclic(case@.node_count, case@.static_edges),
        result matches Err(message) ==> exists|cycle: Seq<usize>| #[trigger]
            is_cycle(case@.node_count, case@.static_edges, cycle) && message@
                == input_cycle_message(cycle),
{
    match find_cycle(case.node_count, case.static_edges.as_slice()) {
        Some(cycle) => {
            assert(is_closed_walk(case@.node_count, case@.static_edges, cycle@));
            Err(complain_of_input(cycle.as_slice()))
        },
        None => Ok(()),
    }
}

// ---------------------------------------------------------------------------
// The output
// ---------------------------------------------------------------------------

/// Whether a cycle between the chunks of an output has to be reported.
pub open spec fn is_output_fault(chunks: Seq<ChunkModel>, cycle: Seq<usize>) -> bool {
    is_fault(chunks.len() as usize, static_edges_of(chunks), cjs_flags(chunks), cycle)
}

/// Whether no cycle between the chunks of an output has to be reported.
pub open spec fn is_faultless_output(chunks: Seq<ChunkModel>) -> bool {
    is_faultless(chunks.len() as usize, static_edges_of(chunks), cjs_flags(chunks))
}

/// The report of an output with a cycle.
pub open spec fn cycle_report(
    case: CaseModel,
    options: OptionsModel,
    chunks: Seq<ChunkModel>,
    cycle: Seq<usize>,
) -> Seq<char> {
    failure_text(
        case,
        options,
        files_of(chunks),
        static_edges_of(chunks),
        dynamic_edges_of(chunks),
        Some(cycle),
        repl_url(case, options),
    )
}

/// The verdict on what the chunks of an output hold: their syntax comes first,
/// then the exports of the entry chunks.
pub open spec fn content_verdict(case: CaseModel, chunks: Seq<ChunkModel>) -> Result<
    (),
    Seq<char>,
> {
    match syntax_verdict(chunks) {
        Err(message) => Err(message),
        Ok(_) => exports_verdict(case, chunks),
    }
}

/// The verdict on an output in which a given cycle has to be reported, or none.
pub open spec fn output_verdict(
    case: CaseModel,
    options: OptionsModel,
    chunks: Seq<ChunkModel>,
    fault: Option<Seq<usize>>,
) -> Result<(), Seq<char>> {
    match fault {
        Some(cycle) => Err(cycle_report(case, options, chunks, cycle)),
        None => content_verdict(case, chunks),
    }
}

/// Whether a verdict is one that an output is to get. Where there is a cycle
/// that has to be reported, one such is; any will do. Otherwise what the chunks
/// hold decides.
pub open spec fn is_verdict(
    case: CaseModel,
    options: OptionsModel,
    chunks: Seq<ChunkModel>,
    verdict: Result<(), Seq<char>>,
) -> bool {
    if is_faultless_output(chunks) {
        verdict == content_verdict(case, chunks)
    } else {
        exists|cycle: Seq<usize>| #[trigger]
            is_output_fault(chunks, cycle) && verdict == Err::<(), Seq<char>>(
                cycle_report(case, options, chunks, cycle),
            )
    }
}

/// What a check says.
pub open spec fn result_text(result: Result<(), String>) -> Result<(), Seq<char>> {
    match result {
        Ok(_) => Ok(()),
        Err(message) => Err(message@),
    }
}

/// An output passes exactly when no cycle between its chunks has to be
/// reported, its chunks are valid JavaScript, and its entry chunks keep their
/// exports where that is asked of them.
pub proof fn outputs_pass_when_sound(
    case: CaseModel,
    options: OptionsModel,
    chunks: Seq<ChunkModel>,
    verdict: Result<(), Seq<char>>,
)
    requires
        is_verdict(case, options, chunks, verdict),
    ensures
        verdict is Ok <==> is_faultless_output(chunks) && syntax_verdict(chunks) is Ok
            && exports_verdict(case, chunks) is Ok,
{
}

/// A cycle over three or more chunks is always reported, whatever other cycles
/// there are.
pub proof fn larger_cycles_are_reported(
    case: CaseModel,
    options: OptionsModel,
    chunks: Seq<ChunkModel>,
    verdict: Result<(), Seq<char>>,
    cycle: Seq<usize>,
)
    requires
        is_verdict(case, options, chunks, verdict),
        is_cycle(chunks.len() as usize, static_edges_of(chunks), cycle),
        cycle.len() > 3,
    ensures
        verdict is Err,
{
    immediate_cycles_have_two_edges(chunks.len() as usize, static_edges_of(chunks), cycle);
    assert(!is_faultless_output(chunks));
}

/// A cycle between chunks without CommonJS modules is always reported,
/// whatever other cycles and other chunks there are.
pub proof fn cycles_without_cjs_are_reported(
    case: CaseModel,
    options: OptionsModel,
    chunks: Seq<ChunkModel>,
    verdict: Result<(), Seq<char>>,
    cycle: Seq<usize>,
)
    requires
        is_verdict(case, options, chunks, verdict),
        is_cycle(chunks.len() as usize, static_edges_of(chunks), cycle),
        !visits_cjs(cycle, cjs_flags(chunks)),
    ensures
        verdict is Err,
{
    assert(!is_faultless_output(chunks));
}

/// Whether the id of some module in a chunk ends in `.cjs`.
pub open spec fn has_cjs_module(chunk: ChunkModel) -> bool {
    exists|k: int|
        0 <= k < chunk.module_ids.len() && ends_with(#[trigger] chunk.module_ids[k], ".cjs"@)
}

/// Two chunks may import each other only where the id of a module in one of
/// them, at whatever position, ends in `.cjs`; no other cycle joins the chunks
/// of an output that passes. And such pairs alone fail no output.
pub proof fn only_pairs_with_cjs_modules_may_cycle(
    case: CaseModel,
    options: OptionsModel,
    chunks: Seq<ChunkModel>,
    verdict: Result<(), Seq<char>>,
)
    requires
        chunks.len() <= usize::MAX,
        is_verdict(case, options, chunks, verdict),
        content_verdict(case, chunks) is Ok,
    ensures
        verdict is Ok <==> forall|cycle: Seq<usize>| #[trigger]
            is_cycle(chunks.len() as usize, static_edges_of(chunks), cycle) ==> cycle.len() == 3
                && (has_cjs_module(chunks[cycle[0] as int]) || has_cjs_module(
                chunks[cycle[1] as int],
            )),
{
    let n = chunks.len() as usize;
    let edges = static_edges_of(chunks);
    let flags = cjs_flags(chunks);
    assert forall|cycle: Seq<usize>| #[trigger] is_cycle(n, edges, cycle) implies (is_tolerated(
        cycle,
        flags,
    ) <==> cycle.len() == 3 && (has_cjs_module(chunks[cycle[0] as int]) || has_cjs_module(
        chunks[cycle[1] as int],
    ))) by {
        lemma_tolerated_by_modules(chunks, cycle);
    }
}

proof fn lemma_tolerated_by_modules(chunks: Seq<ChunkModel>, cycle: Seq<usize>)
    requires
        chunks.len() <= usize::MAX,
        is_cycle(chunks.len() as usize, static_edges_of(chunks), cycle),
    ensures
        is_tolerated(cycle, cjs_flags(chunks)) <==> cycle.len() == 3 && (has_cjs_module(
            chunks[cycle[0] as int],
        ) || has_cjs_module(chunks[cycle[1] as int])),
{
    tolerance_rests_on_module_ids(chunks, cycle);
    if is_tolerated(cycle, cjs_flags(chunks)) {
        let (i, k) = choose|i: int, k: int|
            0 <= i < 2 && 0 <= k < chunks[cycle[i] as int].module_ids.len() && ends_with(
                #[trigger] chunks[cycle[i] as int].module_ids[k],
                ".cjs"@,
            );
        assert(has_cjs_module(chunks[cycle[i] as int]));
        assert(i == 0 || i == 1);
    }
    if cycle.len() == 3 && (has_cjs_module(chunks[cycle[0] as int]) || has_cjs_module(
        chunks[cycle[1] as int],
    )) {
        let i: int = if has_cjs_module(chunks[cycle[0] as int]) {
            0
        } else {
            1
        };
        let chunk = chunks[cycle[i] as int];
        let k = choose|k: int|
            0 <= k < chunk.module_ids.len() && ends_with(#[trigger] chunk.module_ids[k], ".cjs"@);
        assert(ends_with(chunks[cycle[i] as int].module_ids[k], ".cjs"@));
    }
}

/// An output whose static graph is acyclic is never reported for a cycle.
pub proof fn acyclic_outputs_are_not_reported(
    case: CaseModel,
    options: OptionsModel,
    chunks: Seq<ChunkModel>,
    verdict: Result<(), Seq<char>>,
)
    requires
        is_verdict(case, options, chunks, verdict),
        is_acyclic(chunks.len() as usize, static_edges_of(chunks)),
    ensures
        verdict == content_verdict(case, chunks),
{
    let n = chunks.len() as usize;
    let edges = static_edges_of(chunks);
    assert forall|cycle: Seq<usize>| #[trigger] is_cycle(n, edges, cycle) implies is_tolerated(
        cycle,
        cjs_flags(chunks),
    ) by {
        assert(is_closed_walk(n, edges, cycle));
    }
}

/// An output that passes under strict entry signatures has every expected
/// export in its entry chunks, whether or not unused code is dropped.
pub proof fn passed_outputs_keep_strict_exports(
    case: CaseModel,
    options: OptionsModel,
    chunks: Seq<ChunkModel>,
    i: int,
)
    requires
        is_verdict(case, options, chunks, Ok(())),
        case.preserve_entry_signatures == PreserveEntrySignatures::Strict,
        0 <= i < chunks.len(),
    ensures
        keeps_exports(case, chunks[i]),
{
    outputs_pass_when_exports_are_kept(case, chunks);
}

/// An output with a cycle that has to be reported gets the report of one: of a
/// cycle that runs along its imports and that is no pair of chunks with a
/// CommonJS module. The report is made from the case, its options, the files
/// and the edges of the output, that cycle and the link to the case.
pub proof fn reported_cycles_are_at_fault(
    case: CaseModel,
    options: OptionsModel,
    chunks: Seq<ChunkModel>,
    verdict: Result<(), Seq<char>>,
    bad: Seq<usize>,
)
    requires
        chunks.len() <= usize::MAX,
        is_verdict(case, options, chunks, verdict),
        is_cycle(chunks.len() as usize, static_edges_of(chunks), bad),
        !(bad.len() == 3 && (has_cjs_module(chunks[bad[0] as int]) || has_cjs_module(
            chunks[bad[1] as int],
        ))),
    ensures
        exists|cycle: Seq<usize>| #[trigger]
            is_cycle(chunks.len() as usize, static_edges_of(chunks), cycle) && !(cycle.len() == 3
                && (has_cjs_module(chunks[cycle[0] as int]) || has_cjs_module(
                chunks[cycle[1] as int],
            ))) && verdict == Err::<(), Seq<char>>(
                failure_text(
                    case,
                    options,
                    chunks.map_values(|c: ChunkModel| c.filename),
                    static_edges_of(chunks),
                    dynamic_edges_of(chunks),
                    Some(cycle),
                    repl_url(case, options),
                ),
            ),
{
    lemma_tolerated_by_modules(chunks, bad);
    assert(!is_faultless_output(chunks));
    let cycle = choose|cycle: Seq<usize>| #[trigger]
        is_output_fault(chunks, cycle) && verdict == Err::<(), Seq<char>>(
            cycle_report(case, options, chunks, cycle),
        );
    lemma_tolerated_by_modules(chunks, cycle);
    assert(is_cycle(chunks.len() as usize, static_edges_of(chunks), cycle));
}

/// Without such a cycle the syntax of the chunks decides, and then the exports
/// of the entry chunks.
pub proof fn syntax_comes_before_exports(
    case: CaseModel,
    options: OptionsModel,
    chunks: Seq<ChunkModel>,
    verdict: Result<(), Seq<char>>,
)
    requires
        is_verdict(case, options, chunks, verdict),
        is_faultless_output(chunks),
    ensures
        syntax_verdict(chunks) is Err ==> verdict == syntax_verdict(chunks),
        syntax_verdict(chunks) is Ok ==> verdict == exports_verdict(case, chunks),
{
}

/// A cycle in the static graph of a case is shown node by node.
pub proof fn input_cycles_are_shown_node_by_node(cycle: Seq<usize>, next: usize)
    requires
        cycle.len() > 0,
    ensures
        input_cycle_message(cycle.push(next)) == input_cycle_message(cycle) + " -> "@ + ("`"@ + (
        "node"@ + decimal(next as nat)) + "`"@),
        input_cycle_message(seq![next])
            == "generated static input graph was unexpectedly cyclic at path: "@ + ("`"@ + ("node"@
            + decimal(next as nat)) + "`"@),
{
    let none = Seq::<Seq<char>>::empty();
    let parts = path_names(cycle.push(next), none, "node"@);
    assert(parts.drop_last() =~= path_names(cycle, none, "node"@));
    assert(parts.last() == "`"@ + ("node"@ + decimal(next as nat)) + "`"@);
    assert(input_cycle_message(cycle.push(next)) =~= input_cycle_message(cycle) + " -> "@ + ("`"@
        + ("node"@ + decimal(next as nat)) + "`"@));
    let one = path_names(seq![next], none, "node"@);
    assert(one.len() == 1);
}

/// The verdict on an output in which a given cycle has to be reported, or none.
pub fn judge_output(
    case: &GraphCase,
    options: &BundlerOptions,
    output: &BundleOutput,
    fault: Option<Vec<usize>>,
) -> (result: Result<(), String>)
    requires
        case@.edges_start_at_nodes(),
    ensures
        result_text(result) == output_verdict(case@, options@, output@, found_path(fault)),
{
    if let Some(path) = &fault {
        let (files, static_edges, dynamic_edges, _) = build_output_dependency_graph(output);
        return Err(
            format_failure_message(
                case,
                options,
                files.as_slice(),
                static_edges.as_slice(),
                dynamic_edges.as_slice(),
                Some(path.as_slice()),
            ),
        );
    }
    match validate_output_js_syntax(output) {
        Err(message) => Err(message),
        Ok(()) => validate_entry_exports(case, output),
    }
}

/// Checks what a case was bundled to: that no import cycle joins its chunks
/// but for those that come with CommonJS modules, that they are valid
/// JavaScript, and that entry chunks keep their exports.
pub fn check_output(case: &GraphCase, options: &BundlerOptions, output: &BundleOutput) -> (result:
    Result<(), String>)
    requires
        case@.edges_start_at_nodes(),
    ensures
        is_verdict(case@, options@, output@, result_text(result)),
        result is Ok ==> forall|cycle: Seq<usize>| #[trigger]
            is_cycle(output@.len() as usize, static_edges_of(output@), cycle) ==> is_tolerated(
                cycle,
                cjs_flags(output@),
            ),
        result is Ok ==> forall|cycle: Seq<usize>| #[trigger]
            is_cycle(output@.len() as usize, static_edges_of(output@), cycle) ==> cycle.len() == 3
                && (has_cjs_module(output@[cycle[0] as int]) || has_cjs_module(
                output@[cycle[1] as int],
            )),
{
    let (files, static_edges, _, chunk_has_cjs) = build_output_dependency_graph(output);
    assert(texts(files@).len() == files@.len());
    let fault = find_fault(files.len(), static_edges.as_slice(), chunk_has_cjs.as_slice());
    proof {
        if fault is Some {
            assert(is_output_fault(output@, fault->0@));
            assert(is_cycle(output@.len() as usize, static_edges_of(output@), fault->0@));
        }
        assert forall|cycle: Seq<usize>| #[trigger]
            is_cycle(output@.len() as usize, static_edges_of(output@), cycle) && is_tolerated(
                cycle,
                cjs_flags(output@),
            ) implies cycle.len() == 3 && (has_cjs_module(output@[cycle[0] as int])
            || has_cjs_module(output@[cycle[1] as int])) by {
            lemma_tolerated_by_modules(output@, cycle);
        }
    }
    judge_output(case, options, output, fault)
}

} // verus!
