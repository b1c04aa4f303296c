//! Laws of the output of a bundler and of comparing runs.
use crate::case::{CaseModel, PreserveEntrySignatures};
use crate::determinism::{
    chunk_complaint, comparison, first_complaint, runs_pass_when_they_agree, step_after,
    StepModel, DETERMINISTIC_CHECK_ITERATIONS,
};
use crate::exports::{
    debug_text, debug_texts, distinct, entry_of, expected_exports, exports_complaint,
    exports_complaints, exports_verdict, missing_from,
};
use crate::order::sorted;
use crate::output::{
    by_filename, chunks_among, first_among, info_of, infos_of, lemma_none_among, ChunkInfo,
    ChunkModel, InfoModel, Output, OutputChunk,
};
use crate::syntax::{module_parse, syntax_complaints, syntax_verdict};
use crate::text::{decimal, joined, text_at_most, texts};
use vstd::prelude::*;

verus! {

// ---------------------------------------------------------------------------
// Chunks
// ---------------------------------------------------------------------------

/// What is known of a chunk is what the chunk holds, field by field.
pub proof fn chunks_are_seen_as_they_are(chunk: OutputChunk, info: ChunkInfo)
    ensures
        chunk@.filename == chunk.filename@,
        chunk@.code == chunk.code@,
        chunk@.is_entry == chunk.is_entry,
        chunk@.facade_module_id is Some <==> chunk.facade_module_id is Some,
        chunk.facade_module_id matches Some(id) ==> chunk@.facade_module_id == Some(id@),
        chunk@.module_ids == texts(chunk.module_ids@),
        chunk@.imports == texts(chunk.imports@),
        chunk@.dynamic_imports == texts(chunk.dynamic_imports@),
        chunk@.exports == texts(chunk.exports@),
        info@.filename == info.filename@,
        info@.code == info.code@,
        info@.imports == texts(info.imports@),
        info@.dynamic_imports == texts(info.dynamic_imports@),
        info@.exports == texts(info.exports@),
{
}

/// Of a chunk its file, its code, its imports, its dynamic imports and its
/// exports are compared, in the order of the names of the files.
pub proof fn what_is_compared_of_a_chunk(chunk: ChunkModel, a: InfoModel, b: InfoModel)
    ensures
        info_of(chunk).filename == chunk.filename,
        info_of(chunk).code == chunk.code,
        info_of(chunk).imports == chunk.imports,
        info_of(chunk).dynamic_imports == chunk.dynamic_imports,
        info_of(chunk).exports == chunk.exports,
        by_filename()(a, b) <==> text_at_most(a.filename, b.filename),
        infos_of(seq![chunk]) == seq![info_of(chunk)],
{
    let one = seq![chunk].map_values(|c: ChunkModel| info_of(c));
    assert(one =~= seq![info_of(chunk)]);
    let none = one.drop_last();
    assert(none.len() == 0);
    assert(sorted(none, by_filename()) =~= none);
    assert(sorted(one, by_filename()) =~= seq![info_of(chunk)]);
}

/// The chunks of an output are its files that are chunks, in their order.
pub proof fn chunks_are_taken_in_order(a: Seq<Output>, b: Seq<Output>, file: Output)
    ensures
        chunks_among(a + b) == chunks_among(a) + chunks_among(b),
        chunks_among(seq![file]) == (match file {
            Output::Chunk(chunk) => seq![chunk@],
            Output::Asset => Seq::<ChunkModel>::empty(),
        }),
    decreases b.len(),
{
    let one = seq![file];
    let none = one.drop_last();
    assert(none.len() == 0);
    assert(chunks_among(none) =~= Seq::<ChunkModel>::empty());
    assert(chunks_among(one) =~= (match file {
        Output::Chunk(chunk) => seq![chunk@],
        Output::Asset => Seq::<ChunkModel>::empty(),
    }));
    if b.len() == 0 {
        assert(a + b =~= a);
        assert(chunks_among(a + b) =~= chunks_among(a) + chunks_among(b));
    } else {
        chunks_are_taken_in_order(a, b.drop_last(), file);
        assert((a + b).drop_last() =~= a + b.drop_last());
        assert(chunks_among(a + b) =~= chunks_among(a) + chunks_among(b));
    }
}

/// The first chunk that something is wrong with is the one complained about,
/// whatever is wrong with later ones.
pub proof fn the_first_complaint_counts(
    chunks: Seq<ChunkModel>,
    complaint: spec_fn(ChunkModel) -> Option<Seq<char>>,
    k: int,
)
    requires
        0 <= k < chunks.len(),
        complaint(chunks[k]) is Some,
        forall|i: int| 0 <= i < k ==> complaint(#[trigger] chunks[i]) is None,
    ensures
        first_among(chunks, complaint) == complaint(chunks[k]),
    decreases chunks.len(),
{
    let front = chunks.drop_last();
    if k < front.len() {
        assert forall|i: int| 0 <= i < k implies complaint(#[trigger] front[i]) is None by {
            assert(front[i] == chunks[i]);
        }
        the_first_complaint_counts(front, complaint, k);
    } else {
        assert forall|i: int| 0 <= i < front.len() implies complaint(
            #[trigger] front[i],
        ) is None by {
            assert(front[i] == chunks[i]);
        }
        lemma_none_among(front, complaint);
    }
}

/// The first chunk that is not valid JavaScript is reported by its file, with
/// the errors of the parser one below the other.
pub proof fn syntax_errors_are_reported_with_their_file(chunks: Seq<ChunkModel>, k: int)
    requires
        0 <= k < chunks.len(),
        module_parse(chunks[k].code, true).0 || module_parse(chunks[k].code, true).1.len() > 0,
        forall|i: int|
            0 <= i < k ==> {
                let report = module_parse((#[trigger] chunks[i]).code, true);
                !report.0 && report.1.len() == 0
            },
    ensures
        syntax_verdict(chunks) == Err::<(), Seq<char>>(
            "Syntax error in output chunk '"@ + chunks[k].filename + "':\n"@ + joined(
                module_parse(chunks[k].code, true).1,
                "\n"@,
            ),
        ),
{
    let complaint = syntax_complaints();
    assert forall|i: int| 0 <= i < k implies complaint(#[trigger] chunks[i]) is None by {}
    the_first_complaint_counts(chunks, complaint, k);
}

/// The first entry chunk that lacks exports is reported by its file and its
/// node, with what is missing, what is expected and what is there.
pub proof fn missing_exports_are_reported_with_their_chunk(
    case: CaseModel,
    chunks: Seq<ChunkModel>,
    k: int,
    node: usize,
)
    requires
        case.preserve_entry_signatures == PreserveEntrySignatures::Strict,
        0 <= k < chunks.len(),
        entry_of(case, chunks[k]) == Some(node),
        missing_from(expected_exports(case, node), chunks[k].exports).len() > 0,
        forall|i: int|
            0 <= i < k ==> exports_complaint(case, #[trigger] chunks[i]) is None,
    ensures
        ({
            let shown = |items: Seq<Seq<char>>|
                joined(items.map_values(|item: Seq<char>| debug_text(item)), ", "@);
            let expected = expected_exports(case, node);
            let actual = chunks[k].exports;
            exports_verdict(case, chunks) == Err::<(), Seq<char>>(
                "Entry chunk '"@ + chunks[k].filename + "' (node "@ + decimal(node as nat)
                    + ") is missing exports: "@ + ("["@ + shown(missing_from(expected, actual))
                    + "]"@) + "\nExpected: "@ + ("["@ + shown(expected) + "]"@) + "\nActual: "@ + (
                "{"@ + shown(distinct(actual)) + "}"@),
            )
        }),
{
    let complaint = exports_complaints(case);
    assert forall|i: int| 0 <= i < k implies complaint(#[trigger] chunks[i]) is None by {
        assert(exports_complaint(case, chunks[i]) is None);
    }
    the_first_complaint_counts(chunks, complaint, k);
    let shown = |items: Seq<Seq<char>>|
        joined(items.map_values(|item: Seq<char>| debug_text(item)), ", "@);
    let expected = expected_exports(case, node);
    let actual = chunks[k].exports;
    assert(debug_texts(expected) =~= expected.map_values(
        |item: Seq<char>| debug_text(item),
    ));
}

// ---------------------------------------------------------------------------
// Runs
// ---------------------------------------------------------------------------

/// Two chunks that differ are told apart by the first of their parts in which
/// they differ: the file, the code, the imports, the exports and then the
/// dynamic imports. The message names the chunk, the run and the seed.
pub proof fn messages_name_what_differs(a: InfoModel, b: InfoModel, seed: u64, iteration: usize)
    ensures
        ({
            let at = decimal(iteration as nat);
            let note = " (seed "@ + decimal(seed as nat) + ")"@;
            chunk_complaint(a, b, seed, iteration) == if a.filename != b.filename {
                Some(
                    "Nondeterministic output: chunk filenames differ at iteration "@ + at + ": '"@
                        + a.filename + "' vs '"@ + b.filename + "'"@ + note,
                )
            } else if a.code != b.code {
                Some(
                    "Nondeterministic output: "@ + "code differs"@ + " for chunk '"@ + a.filename
                        + "' at iteration "@ + at + note,
                )
            } else if a.imports != b.imports {
                Some(
                    "Nondeterministic output: "@ + "imports differ"@ + " for chunk '"@ + a.filename
                        + "' at iteration "@ + at + note,
                )
            } else if a.exports != b.exports {
                Some(
                    "Nondeterministic output: "@ + "exports differ"@ + " for chunk '"@ + a.filename
                        + "' at iteration "@ + at + note,
                )
            } else if a.dynamic_imports != b.dynamic_imports {
                Some(
                    "Nondeterministic output: "@ + "dynamic_imports differ"@ + " for chunk '"@
                        + a.filename + "' at iteration "@ + at + note,
                )
            } else {
                None
            }
        }),
{
}

/// Of several chunks that differ the first is reported; where the number of
/// chunks differs, the two numbers are.
pub proof fn the_first_chunk_that_differs_is_reported(
    baseline: Seq<InfoModel>,
    chunks: Seq<InfoModel>,
    seed: u64,
    iteration: usize,
    k: int,
)
    ensures
        baseline.len() != chunks.len() ==> comparison(baseline, chunks, seed, iteration) == Err::<
            (),
            Seq<char>,
        >(
            "Nondeterministic output: baseline produced "@ + decimal(baseline.len())
                + " chunks, iteration "@ + decimal(iteration as nat) + " produced "@ + decimal(
                chunks.len(),
            ) + " chunks"@ + (" (seed "@ + decimal(seed as nat) + ")"@),
        ),
        baseline.len() == chunks.len() && 0 <= k < baseline.len() && baseline[k] != chunks[k] && (
        forall|i: int| 0 <= i < k ==> #[trigger] baseline[i] == chunks[i]) ==> (chunk_complaint(
            baseline[k],
            chunks[k],
            seed,
            iteration,
        ) matches Some(message) && comparison(baseline, chunks, seed, iteration) == Err::<
            (),
            Seq<char>,
        >(message)),
{
    if baseline.len() == chunks.len() && 0 <= k < baseline.len() && baseline[k] != chunks[k] && (
    forall|i: int| 0 <= i < k ==> #[trigger] baseline[i] == chunks[i]) {
        if chunk_complaint(baseline[k], chunks[k], seed, iteration) is None {
            assert(baseline[k] =~= chunks[k]);
        }
        lemma_complaint_at(baseline, chunks, seed, iteration, 0, k);
    }
}

proof fn lemma_complaint_at(
    baseline: Seq<InfoModel>,
    chunks: Seq<InfoModel>,
    seed: u64,
    iteration: usize,
    start: nat,
    k: int,
)
    requires
        baseline.len() == chunks.len(),
        start <= k < baseline.len(),
        forall|i: int| 0 <= i < k ==> #[trigger] baseline[i] == chunks[i],
        chunk_complaint(baseline[k], chunks[k], seed, iteration) is Some,
    ensures
        first_complaint(baseline, chunks, seed, iteration, start) == chunk_complaint(
            baseline[k],
            chunks[k],
            seed,
            iteration,
        ),
    decreases k - start,
{
    if start < k {
        assert(baseline[start as int] == chunks[start as int]);
        lemma_complaint_at(baseline, chunks, seed, iteration, start + 1, k);
    }
}

/// A case is bundled again as long as all runs agree and there are too few of
/// them, and no longer; the first run that differs from the first one ends the
/// check with what the comparison says of it.
pub proof fn checks_end_at_the_first_difference(seed: u64, runs: Seq<Seq<InfoModel>>, k: int)
    requires
        runs.len() <= DETERMINISTIC_CHECK_ITERATIONS,
        0 < k < runs.len(),
        runs[k] != runs[0],
        forall|i: int| 0 <= i < k ==> #[trigger] runs[i] == runs[0],
    ensures
        comparison(runs[0], runs[k], seed, k as usize) matches Err(message) && step_after(seed, runs)
            == StepModel::Failed(message),
    decreases runs.len(),
{
    runs_pass_when_they_agree(runs[0], runs[k], seed, k as usize);
    let front = runs.drop_last();
    if k < front.len() {
        assert(front[0] == runs[0] && front[k] == runs[k]);
        assert forall|i: int| 0 <= i < k implies #[trigger] front[i] == front[0] by {
            assert(front[i] == runs[i]);
        }
        checks_end_at_the_first_difference(seed, front, k);
    } else {
        assert forall|i: int| 0 <= i < front.len() implies #[trigger] front[i] == front[0] by {
            assert(front[i] == runs[i]);
        }
        checks_go_on_while_runs_agree(seed, front);
    }
}

/// A case is bundled again while all runs so far agree and there are fewer than
/// four.
pub proof fn checks_go_on_while_runs_agree(seed: u64, runs: Seq<Seq<InfoModel>>)
    requires
        runs.len() < DETERMINISTIC_CHECK_ITERATIONS,
        forall|i: int| 0 <= i < runs.len() ==> #[trigger] runs[i] == runs[0],
    ensures
        step_after(seed, runs) is Bundle,
        DETERMINISTIC_CHECK_ITERATIONS == 4,
    decreases runs.len(),
{
    if runs.len() > 1 {
        let front = runs.drop_last();
        assert forall|i: int| 0 <= i < front.len() implies #[trigger] front[i] == front[0] by {
            assert(front[i] == runs[i]);
        }
        checks_go_on_while_runs_agree(seed, front);
        assert(runs[runs.len() - 1] == runs[0]);
        runs_pass_when_they_agree(runs[0], runs.last(), seed, (runs.len() - 1) as usize);
    }
}

} // verus!
