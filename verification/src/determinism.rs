//! Checking that bundling the same case again gives the same chunks.
use crate::output::{info_views, ChunkInfo, InfoModel};
use crate::text::{decimal, decimal_text, same_text, texts};
use vstd::prelude::*;

verus! {

/// Number of times a case is bundled. Some differences show in a small part
/// of the builds only, so that two runs would often miss them.
pub const DETERMINISTIC_CHECK_ITERATIONS: usize = 4;

// ---------------------------------------------------------------------------
// Comparing two runs
// ---------------------------------------------------------------------------

/// How a message about a run ends.
pub open spec fn seed_note(seed: u64) -> Seq<char> {
    " (seed "@ + decimal(seed as nat) + ")"@
}

/// That a run gave another number of chunks than the first.
pub open spec fn count_message(baseline: nat, chunks: nat, seed: u64, iteration: usize) -> Seq<
    char,
> {
    "Nondeterministic output: baseline produced "@ + decimal(baseline) + " chunks, iteration "@
        + decimal(iteration as nat) + " produced "@ + decimal(chunks) + " chunks"@ + seed_note(seed)
}

/// That a chunk has another filename than in the first run.
pub open spec fn filename_message(a: Seq<char>, b: Seq<char>, seed: u64, iteration: usize) -> Seq<
    char,
> {
    "Nondeterministic output: chunk filenames differ at iteration "@ + decimal(iteration as nat)
        + ": '"@ + a + "' vs '"@ + b + "'"@ + seed_note(seed)
}

/// That something else in a chunk differs from the first run.
pub open spec fn content_message(
    what: Seq<char>,
    filename: Seq<char>,
    seed: u64,
    iteration: usize,
) -> Seq<char> {
    "Nondeterministic output: "@ + what + " for chunk '"@ + filename + "' at iteration "@
        + decimal(iteration as nat) + seed_note(seed)
}

/// What is wrong with a chunk `b` where the first run gave `a`.
pub open spec fn chunk_complaint(
    a: InfoModel,
    b: InfoModel,
    seed: u64,
    iteration: usize,
) -> Option<Seq<char>> {
    if a.filename != b.filename {
        Some(filename_message(a.filename, b.filename, seed, iteration))
    } else if a.code != b.code {
        Some(content_message("code differs"@, a.filename, seed, iteration))
    } else if a.imports != b.imports {
        Some(content_message("imports differ"@, a.filename, seed, iteration))
    } else if a.exports != b.exports {
        Some(content_message("exports differ"@, a.filename, seed, iteration))
    } else if a.dynamic_imports != b.dynamic_imports {
        Some(content_message("dynamic_imports differ"@, a.filename, seed, iteration))
    } else {
        None
    }
}

/// The first complaint about chunks of a run, from chunk `start` on.
pub open spec fn first_complaint(
    baseline: Seq<InfoModel>,
    chunks: Seq<InfoModel>,
    seed: u64,
    iteration: usize,
    start: nat,
) -> Option<Seq<char>>
    decreases baseline.len() - start,
{
    if start >= baseline.len() {
        None
    } else {
        match chunk_complaint(baseline[start as int], chunks[start as int], seed, iteration) {
            Some(message) => Some(message),
            None => first_complaint(baseline, chunks, seed, iteration, start + 1),
        }
    }
}

/// What comparing a run with the first one gives.
pub open spec fn comparison(
    baseline: Seq<InfoModel>,
    chunks: Seq<InfoModel>,
    seed: u64,
    iteration: usize,
) -> Result<(), Seq<char>> {
    if baseline.len() != chunks.len() {
        Err(count_message(baseline.len(), chunks.len(), seed, iteration))
    } else {
        match first_complaint(baseline, chunks, seed, iteration, 0) {
            Some(message) => Err(message),
            None => Ok(()),
        }
    }
}

proof fn lemma_no_complaint(
    baseline: Seq<InfoModel>,
    chunks: Seq<InfoModel>,
    seed: u64,
    iteration: usize,
    start: nat,
)
    requires
        baseline.len() == chunks.len(),
        start <= baseline.len(),
    ensures
        first_complaint(baseline, chunks, seed, iteration, start) is None <==> (forall|i: int|
            start <= i < baseline.len() ==> #[trigger] baseline[i] == chunks[i]),
    decreases baseline.len() - start,
{
    if start < baseline.len() {
        let a = baseline[start as int];
        let b = chunks[start as int];
        lemma_no_complaint(baseline, chunks, seed, iteration, start + 1);
        if chunk_complaint(a, b, seed, iteration) is None {
            assert(a =~= b);
        }
    }
}

/// A run passes exactly when its chunks are those of the first run.
pub proof fn runs_pass_when_they_agree(
    baseline: Seq<InfoModel>,
    chunks: Seq<InfoModel>,
    seed: u64,
    iteration: usize,
)
    ensures
        comparison(baseline, chunks, seed, iteration) is Ok <==> baseline == chunks,
{
    if baseline.len() == chunks.len() {
        lemma_no_complaint(baseline, chunks, seed, iteration, 0);
        if comparison(baseline, chunks, seed, iteration) is Ok {
            assert(baseline =~= chunks);
        }
    }
}

fn append_seed(message: &mut String, seed: u64)
    ensures
        final(message)@ == old(message)@ + seed_note(seed),
{
    let mut note = " (seed ".to_owned();
    note.append(decimal_text(seed as u128).as_str());
    note.append(")");
    message.append(note.as_str());
}

fn complain_of_content(what: &str, filename: &str, seed: u64, iteration: usize) -> (message: String)
    ensures
        message@ == content_message(what@, filename@, seed, iteration),
{
    let mut message = "Nondeterministic output: ".to_owned();
    message.append(what);
    message.append(" for chunk '");
    message.append(filename);
    message.append("' at iteration ");
    message.append(decimal_text(iteration as u128).as_str());
    append_seed(&mut message, seed);
    message
}

/// Whether two lists hold the same texts.
pub fn same_texts(a: &Vec<String>, b: &Vec<String>) -> (same: bool)
    ensures
        same == (texts(a@) == texts(b@)),
{
    assert(texts(a@).len() == a@.len() && texts(b@).len() == b@.len());
    if a.len() != b.len() {
        return false;
    }
    for i in 0..a.len()
        invariant
            a.len() == b.len(),
            forall|j: int| 0 <= j < i ==> texts(a@)[j] == texts(b@)[j],
    {
        assert(texts(a@)[i as int] == a@[i as int]@);
        assert(texts(b@)[i as int] == b@[i as int]@);
        if !same_text(a[i].as_str(), b[i].as_str()) {
            return false;
        }
    }
    assert(texts(a@) =~= texts(b@));
    true
}

fn complain_of_chunk(a: &ChunkInfo, b: &ChunkInfo, seed: u64, iteration: usize) -> (complaint:
    Option<String>)
    ensures
        match complaint {
            Some(message) => chunk_complaint(a@, b@, seed, iteration) == Some(message@),
            None => chunk_complaint(a@, b@, seed, iteration) is None,
        },
{
    let filename = a.filename.as_str();
    if !same_text(filename, b.filename.as_str()) {
        let mut message =
            "Nondeterministic output: chunk filenames differ at iteration ".to_owned();
        message.append(decimal_text(iteration as u128).as_str());
        message.append(": '");
        message.append(filename);
        message.append("' vs '");
        message.append(b.filename.as_str());
        message.append("'");
        append_seed(&mut message, seed);
        Some(message)
    } else if !same_text(a.code.as_str(), b.code.as_str()) {
        Some(complain_of_content("code differs", filename, seed, iteration))
    } else if !same_texts(&a.imports, &b.imports) {
        Some(complain_of_content("imports differ", filename, seed, iteration))
    } else if !same_texts(&a.exports, &b.exports) {
        Some(complain_of_content("exports differ", filename, seed, iteration))
    } else if !same_texts(&a.dynamic_imports, &b.dynamic_imports) {
        Some(complain_of_content("dynamic_imports differ", filename, seed, iteration))
    } else {
        None
    }
}

/// Compares the chunks of a run with those of the first one.
pub fn compare_chunk_info(
    baseline: &[ChunkInfo],
    chunks: &[ChunkInfo],
    seed: u64,
    iteration: usize,
) -> (result: Result<(), String>)
    ensures
        match result {
            Ok(()) => comparison(info_views(baseline@), info_views(chunks@), seed, iteration)
                is Ok,
            Err(message) => comparison(info_views(baseline@), info_views(chunks@), seed, iteration)
                == Err::<(), Seq<char>>(message@),
        },
{
    let ghost a = info_views(baseline@);
    let ghost b = info_views(chunks@);
    if baseline.len() != chunks.len() {
        let mut message = "Nondeterministic output: baseline produced ".to_owned();
        message.append(decimal_text(baseline.len() as u128).as_str());
        message.append(" chunks, iteration ");
        message.append(decimal_text(iteration as u128).as_str());
        message.append(" produced ");
        message.append(decimal_text(chunks.len() as u128).as_str());
        message.append(" chunks");
        append_seed(&mut message, seed);
        return Err(message);
    }
    for i in 0..baseline.len()
        invariant
            a == info_views(baseline@),
            b == info_views(chunks@),
            baseline.len() == chunks.len(),
            first_complaint(a, b, seed, iteration, 0) == first_complaint(
                a,
                b,
                seed,
                iteration,
                i as nat,
            ),
    {
        assert(a[i as int] == baseline@[i as int]@);
        assert(b[i as int] == chunks@[i as int]@);
        if let Some(message) = complain_of_chunk(&baseline[i], &chunks[i], seed, iteration) {
            return Err(message);
        }
    }
    Ok(())
}

// ---------------------------------------------------------------------------
// Running a case again and again
// ---------------------------------------------------------------------------

/// What to do after a run.
pub enum DeterminismStep {
    /// Bundle the case once more.
    Bundle,
    /// The case has been bundled often enough, always with the same chunks.
    Finished,
    /// A run differed from the first one, as the message says.
    Failed(String),
}

/// What a [`DeterminismStep`] says.
pub enum StepModel {
    Bundle,
    Finished,
    Failed(Seq<char>),
}

impl View for DeterminismStep {
    type V = StepModel;

    open spec fn view(&self) -> StepModel {
        match self {
            DeterminismStep::Bundle => StepModel::Bundle,
            DeterminismStep::Finished => StepModel::Finished,
            DeterminismStep::Failed(message) => StepModel::Failed(message@),
        }
    }
}

/// What to do after the given runs: stop at the first that differs from the
/// first one, or after the last; otherwise bundle once more.
pub open spec fn step_after(seed: u64, runs: Seq<Seq<InfoModel>>) -> StepModel
    decreases runs.len(),
{
    if runs.len() <= 1 {
        StepModel::Bundle
    } else {
        match step_after(seed, runs.drop_last()) {
            StepModel::Bundle => match comparison(
                runs[0],
                runs.last(),
                seed,
                (runs.len() - 1) as usize,
            ) {
                Err(message) => StepModel::Failed(message),
                Ok(_) => if runs.len() >= DETERMINISTIC_CHECK_ITERATIONS {
                    StepModel::Finished
                } else {
                    StepModel::Bundle
                },
            },
            step => step,
        }
    }
}

/// The first runs of a case pass exactly when they all gave the same chunks.
pub proof fn cases_pass_when_all_runs_agree(seed: u64, runs: Seq<Seq<InfoModel>>)
    requires
        runs.len() == DETERMINISTIC_CHECK_ITERATIONS,
    ensures
        step_after(seed, runs) is Finished <==> (forall|i: int|
            0 <= i < runs.len() ==> #[trigger] runs[i] == runs[0]),
        !(step_after(seed, runs) is Bundle),
{
    lemma_runs_so_far(seed, runs.drop_last());
    runs_pass_when_they_agree(runs[0], runs.last(), seed, (runs.len() - 1) as usize);
    assert forall|i: int| 0 <= i < runs.len() - 1 implies #[trigger] runs.drop_last()[i]
        == runs[i] by {}
    assert(runs.drop_last()[0] == runs[0]);
    if forall|i: int| 0 <= i < runs.len() ==> #[trigger] runs[i] == runs[0] {
        assert(runs[runs.len() - 1] == runs[0]);
    }
    if step_after(seed, runs) is Finished {
        assert forall|i: int| 0 <= i < runs.len() implies #[trigger] runs[i] == runs[0] by {
            if i < runs.len() - 1 {
                assert(runs.drop_last()[i] == runs.drop_last()[0]);
            }
        }
    }
}

proof fn lemma_runs_so_far(seed: u64, runs: Seq<Seq<InfoModel>>)
    requires
        runs.len() < DETERMINISTIC_CHECK_ITERATIONS,
    ensures
        step_after(seed, runs) is Bundle <==> (forall|i: int|
            0 <= i < runs.len() ==> #[trigger] runs[i] == runs[0]),
        !(step_after(seed, runs) is Finished),
    decreases runs.len(),
{
    if runs.len() > 1 {
        let front = runs.drop_last();
        lemma_runs_so_far(seed, front);
        runs_pass_when_they_agree(runs[0], runs.last(), seed, (runs.len() - 1) as usize);
        assert(front[0] == runs[0]);
        if step_after(seed, runs) is Bundle {
            assert forall|i: int| 0 <= i < runs.len() implies #[trigger] runs[i] == runs[0] by {
                if i < runs.len() - 1 {
                    assert(front[i] == front[0]);
                }
            }
        }
        if forall|i: int| 0 <= i < runs.len() ==> #[trigger] runs[i] == runs[0] {
            assert(runs[runs.len() - 1] == runs[0]);
            assert forall|i: int| 0 <= i < front.len() implies #[trigger] front[i] == front[0] by {
                assert(front[i] == runs[i]);
            }
        }
    }
}

/// How far a check has come: the chunks of the first run, and the number of
/// runs so far.
pub struct DeterminismCheck {
    pub seed: u64,
    pub baseline: Vec<ChunkInfo>,
    pub iteration: usize,
}

impl DeterminismCheck {
    /// Whether the check stands where the given runs lead to, and goes on.
    pub open spec fn has_seen(self, runs: Seq<Seq<InfoModel>>) -> bool {
        &&& self.iteration == runs.len()
        &&& runs.len() < DETERMINISTIC_CHECK_ITERATIONS
        &&& runs.len() > 0 ==> info_views(self.baseline@) == runs[0]
        &&& step_after(self.seed, runs) is Bundle
    }

    /// A check that has seen no run yet.
    pub fn new(seed: u64) -> (check: Self)
        ensures
            check.seed == seed,
            check.has_seen(Seq::empty()),
    {
        DeterminismCheck { seed, baseline: Vec::new(), iteration: 0 }
    }

    /// Takes the chunks of one more run and says what to do next.
    pub fn observe(&mut self, chunks: Vec<ChunkInfo>) -> (step: DeterminismStep)
        requires
            old(self).iteration < DETERMINISTIC_CHECK_ITERATIONS,
        ensures
            final(self).seed == old(self).seed,
            forall|runs: Seq<Seq<InfoModel>>| #[trigger]
                old(self).has_seen(runs) ==> {
                    let longer = runs.push(info_views(chunks@));
                    &&& step@ == step_after(old(self).seed, longer)
                    &&& step is Bundle ==> final(self).has_seen(longer)
                },
    {
        let iteration: usize = self.iteration;
        self.iteration = iteration + 1;
        if iteration == 0 {
            self.baseline = chunks;
            return DeterminismStep::Bundle;
        }
        let compared = compare_chunk_info(
            self.baseline.as_slice(),
            chunks.as_slice(),
            self.seed,
            iteration,
        );
        assert forall|runs: Seq<Seq<InfoModel>>| #[trigger] old(self).has_seen(runs) implies ({
            let longer = runs.push(info_views(chunks@));
            &&& longer.drop_last() == runs
            &&& longer.last() == info_views(chunks@)
            &&& longer[0] == info_views(self.baseline@)
        }) by {
            assert(runs.push(info_views(chunks@)).drop_last() =~= runs);
        }
        match compared {
            Err(message) => DeterminismStep::Failed(message),
            Ok(()) => if iteration + 1 >= DETERMINISTIC_CHECK_ITERATIONS {
                DeterminismStep::Finished
            } else {
                DeterminismStep::Bundle
            },
        }
    }
}

} // verus!
