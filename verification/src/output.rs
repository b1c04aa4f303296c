//! What a bundler puts out: chunks and assets.
use crate::order::{
    in_order, is_order, lemma_mapped_multiset, lemma_order_is_unique, lemma_sorting_mapped, rank,
    sort_ranked, sorted, sorting_is_stable, sorting_orders, Ranked,
};
use crate::text::{
    lemma_texts_push, optional_text, text_at_most, text_leq, text_order_is_total, texts,
};
use vstd::prelude::*;

verus! {

/// A chunk of the output.
pub struct OutputChunk {
    pub filename: String,
    pub code: String,
    /// The files and modules that the chunk imports.
    pub imports: Vec<String>,
    pub exports: Vec<String>,
    pub dynamic_imports: Vec<String>,
    pub is_entry: bool,
    /// The module whose exports an entry chunk stands for.
    pub facade_module_id: Option<String>,
    pub module_ids: Vec<String>,
}

/// A file of the output.
pub enum Output {
    Chunk(OutputChunk),
    Asset,
}

/// The output of one run of the bundler.
pub struct BundleOutput {
    pub assets: Vec<Output>,
}

/// What has to be the same when the same case is bundled again.
pub struct ChunkInfo {
    pub filename: String,
    pub code: String,
    pub imports: Vec<String>,
    pub exports: Vec<String>,
    pub dynamic_imports: Vec<String>,
}

/// What an [`OutputChunk`] holds.
#[verifier::ext_equal]
pub struct ChunkModel {
    pub filename: Seq<char>,
    pub code: Seq<char>,
    pub imports: Seq<Seq<char>>,
    pub exports: Seq<Seq<char>>,
    pub dynamic_imports: Seq<Seq<char>>,
    pub is_entry: bool,
    pub facade_module_id: Option<Seq<char>>,
    pub module_ids: Seq<Seq<char>>,
}

/// What a [`ChunkInfo`] holds.
#[verifier::ext_equal]
pub struct InfoModel {
    pub filename: Seq<char>,
    pub code: Seq<char>,
    pub imports: Seq<Seq<char>>,
    pub exports: Seq<Seq<char>>,
    pub dynamic_imports: Seq<Seq<char>>,
}

impl View for OutputChunk {
    type V = ChunkModel;

    open spec fn view(&self) -> ChunkModel {
        ChunkModel {
            filename: self.filename@,
            code: self.code@,
            imports: texts(self.imports@),
            exports: texts(self.exports@),
            dynamic_imports: texts(self.dynamic_imports@),
            is_entry: self.is_entry,
            facade_module_id: optional_text(self.facade_module_id),
            module_ids: texts(self.module_ids@),
        }
    }
}

impl View for ChunkInfo {
    type V = InfoModel;

    open spec fn view(&self) -> InfoModel {
        InfoModel {
            filename: self.filename@,
            code: self.code@,
            imports: texts(self.imports@),
            exports: texts(self.exports@),
            dynamic_imports: texts(self.dynamic_imports@),
        }
    }
}

/// The chunks among the files of the output, in their order.
pub open spec fn chunks_among(assets: Seq<Output>) -> Seq<ChunkModel>
    decreases assets.len(),
{
    if assets.len() == 0 {
        Seq::empty()
    } else {
        let before = chunks_among(assets.drop_last());
        match assets.last() {
            Output::Chunk(chunk) => before.push(chunk@),
            Output::Asset => before,
        }
    }
}

impl View for BundleOutput {
    type V = Seq<ChunkModel>;

    /// The chunks of the output; nothing else in it is looked at.
    open spec fn view(&self) -> Seq<ChunkModel> {
        chunks_among(self.assets@)
    }
}

/// One file more is one chunk more, or an asset.
pub proof fn lemma_chunks_take(assets: Seq<Output>, i: int)
    requires
        0 <= i < assets.len(),
    ensures
        chunks_among(assets.take(i + 1)) == match assets[i] {
            Output::Chunk(chunk) => chunks_among(assets.take(i)).push(chunk@),
            Output::Asset => chunks_among(assets.take(i)),
        },
{
    assert(assets.take(i + 1).drop_last() == assets.take(i));
}

/// The first complaint about some chunks, where `complaint` says what is wrong
/// with each.
pub open spec fn first_among(
    chunks: Seq<ChunkModel>,
    complaint: spec_fn(ChunkModel) -> Option<Seq<char>>,
) -> Option<Seq<char>>
    decreases chunks.len(),
{
    if chunks.len() == 0 {
        None
    } else {
        match first_among(chunks.drop_last(), complaint) {
            Some(message) => Some(message),
            None => complaint(chunks.last()),
        }
    }
}

/// There is no complaint exactly when there is none about any chunk.
pub proof fn lemma_none_among(
    chunks: Seq<ChunkModel>,
    complaint: spec_fn(ChunkModel) -> Option<Seq<char>>,
)
    ensures
        first_among(chunks, complaint) is None <==> (forall|i: int|
            0 <= i < chunks.len() ==> complaint(#[trigger] chunks[i]) is None),
    decreases chunks.len(),
{
    if chunks.len() > 0 {
        let front = chunks.drop_last();
        lemma_none_among(front, complaint);
        if first_among(chunks, complaint) is None {
            assert forall|i: int| 0 <= i < chunks.len() implies complaint(
                #[trigger] chunks[i],
            ) is None by {
                if i < front.len() {
                    assert(front[i] == chunks[i]);
                }
            }
        }
        if forall|i: int| 0 <= i < chunks.len() ==> complaint(#[trigger] chunks[i]) is None {
            assert forall|i: int| 0 <= i < front.len() implies complaint(
                #[trigger] front[i],
            ) is None by {
                assert(front[i] == chunks[i]);
            }
            assert(complaint(chunks[chunks.len() - 1]) is None);
        }
    }
}

/// Looking at one file more.
pub proof fn lemma_among_take(
    assets: Seq<Output>,
    complaint: spec_fn(ChunkModel) -> Option<Seq<char>>,
    i: int,
)
    requires
        0 <= i < assets.len(),
    ensures
        first_among(chunks_among(assets.take(i + 1)), complaint) == match (
            first_among(chunks_among(assets.take(i)), complaint),
            assets[i],
        ) {
            (None, Output::Chunk(chunk)) => complaint(chunk@),
            (earlier, _) => earlier,
        },
{
    lemma_chunks_take(assets, i);
    let before = chunks_among(assets.take(i));
    if let Output::Chunk(chunk) = assets[i] {
        assert(before.push(chunk@).drop_last() =~= before);
    }
}

/// A complaint about the first files is the first one about all of them.
pub proof fn lemma_complaint_stays(
    assets: Seq<Output>,
    complaint: spec_fn(ChunkModel) -> Option<Seq<char>>,
    i: int,
)
    requires
        0 <= i <= assets.len(),
        first_among(chunks_among(assets.take(i)), complaint) is Some,
    ensures
        first_among(chunks_among(assets), complaint) == first_among(
            chunks_among(assets.take(i)),
            complaint,
        ),
    decreases assets.len() - i,
{
    if i == assets.len() {
        assert(assets.take(i) =~= assets);
    } else {
        lemma_among_take(assets, complaint, i);
        lemma_complaint_stays(assets, complaint, i + 1);
    }
}

// ---------------------------------------------------------------------------
// Chunks, to be compared
// ---------------------------------------------------------------------------

/// What is compared of a chunk.
pub open spec fn info_of(chunk: ChunkModel) -> InfoModel {
    InfoModel {
        filename: chunk.filename,
        code: chunk.code,
        imports: chunk.imports,
        exports: chunk.exports,
        dynamic_imports: chunk.dynamic_imports,
    }
}

/// The order of chunks: by the names of their files.
pub open spec fn by_filename() -> spec_fn(InfoModel, InfoModel) -> bool {
    |a: InfoModel, b: InfoModel| text_at_most(a.filename, b.filename)
}

/// What is compared of an output: its chunks, ordered by filename.
pub open spec fn infos_of(chunks: Seq<ChunkModel>) -> Seq<InfoModel> {
    sorted(chunks.map_values(|c: ChunkModel| info_of(c)), by_filename())
}

/// What is compared holds the chunks of the output, each as often, ordered by
/// filename; chunks with the same filename keep the order they had.
pub proof fn compared_chunks_are_in_order(chunks: Seq<ChunkModel>, filename: Seq<char>)
    ensures
        in_order(infos_of(chunks), by_filename()),
        infos_of(chunks).to_multiset() == chunks.map_values(
            |c: ChunkModel| info_of(c),
        ).to_multiset(),
        infos_of(chunks).filter(|info: InfoModel| info.filename == filename) == chunks.map_values(
            |c: ChunkModel| info_of(c),
        ).filter(|info: InfoModel| info.filename == filename),
{
    lemma_by_filename_is_order();
    let infos = chunks.map_values(|c: ChunkModel| info_of(c));
    let keep = |info: InfoModel| info.filename == filename;
    assert forall|a: InfoModel, b: InfoModel| keep(a) && keep(b) implies #[trigger] by_filename()(
        a,
        b,
    ) by {
        text_order_is_total(filename, filename, filename);
    }
    sorting_orders(infos, by_filename());
    sorting_is_stable(infos, by_filename(), keep);
}

/// Where no two chunks have the same filename, the order in which the bundler
/// puts its chunks out makes no difference to what is compared.
pub proof fn the_order_of_chunks_does_not_matter(a: Seq<ChunkModel>, b: Seq<ChunkModel>)
    requires
        a.to_multiset() == b.to_multiset(),
        forall|i: int, j: int|
            0 <= i < j < a.len() ==> (#[trigger] a[i]).filename != (#[trigger] a[j]).filename,
    ensures
        infos_of(a) == infos_of(b),
{
    let to_info = |c: ChunkModel| info_of(c);
    let xs = a.map_values(to_info);
    let ys = b.map_values(to_info);
    lemma_by_filename_is_order();
    lemma_mapped_multiset(a, b, to_info);
    sorting_orders(xs, by_filename());
    sorting_orders(ys, by_filename());
    assert forall|p: InfoModel, q: InfoModel|
        infos_of(a).contains(p) && infos_of(a).contains(q) && by_filename()(p, q)
            && #[trigger] by_filename()(q, p) implies p == q by {
        let i = choose|i: int| 0 <= i < xs.len() && xs[i] == p;
        let j = choose|j: int| 0 <= j < xs.len() && xs[j] == q;
        assert(xs.contains(p) && xs.contains(q));
        text_order_is_total(p.filename, q.filename, p.filename);
        assert(a[i].filename == p.filename);
        assert(a[j].filename == q.filename);
    }
    lemma_order_is_unique(infos_of(a), infos_of(b), by_filename());
}

proof fn lemma_by_filename_is_order()
    ensures
        is_order(by_filename()),
{
    let leq = by_filename();
    assert forall|a: InfoModel, b: InfoModel| #[trigger] leq(a, b) || leq(b, a) by {
        text_order_is_total(a.filename, b.filename, a.filename);
    }
    assert forall|a: InfoModel, b: InfoModel, c: InfoModel| #[trigger]
        leq(a, b) && #[trigger] leq(b, c) implies leq(a, c) by {
        text_order_is_total(a.filename, b.filename, c.filename);
    }
}

/// What a list of chunks holds.
pub open spec fn info_views(infos: Seq<ChunkInfo>) -> Seq<InfoModel> {
    infos.map_values(|info: ChunkInfo| info@)
}

impl Ranked for ChunkInfo {
    open spec fn at_most(self, other: Self) -> bool {
        text_at_most(self.filename@, other.filename@)
    }

    proof fn order_holds(a: Self, b: Self, c: Self) {
        text_order_is_total(a.filename@, b.filename@, c.filename@);
    }

    fn leq(&self, other: &Self) -> (r: bool) {
        text_leq(self.filename.as_str(), other.filename.as_str())
    }
}

/// Copies a list of texts.
pub fn copy_texts(list: &Vec<String>) -> (copy: Vec<String>)
    ensures
        texts(copy@) == texts(list@),
{
    let mut copy: Vec<String> = Vec::new();
    for i in 0..list.len()
        invariant
            texts(copy@) == texts(list@).take(i as int),
    {
        let item = list[i].clone();
        proof {
            lemma_texts_push(copy@, item);
            assert(texts(list@).take(i + 1) =~= texts(list@).take(i as int).push(
                texts(list@)[i as int],
            ));
        }
        copy.push(item);
    }
    assert(texts(list@).take(list@.len() as int) =~= texts(list@));
    copy
}

/// Lists what has to be the same when the same case is bundled again, ordered
/// by filename.
pub fn collect_chunk_info(output: &BundleOutput) -> (infos: Vec<ChunkInfo>)
    ensures
        info_views(infos@) == infos_of(output@),
{
    let ghost to_info = |c: ChunkModel| info_of(c);
    let mut infos: Vec<ChunkInfo> = Vec::new();
    for i in 0..output.assets.len()
        invariant
            to_info == (|c: ChunkModel| info_of(c)),
            info_views(infos@) == chunks_among(output.assets@.take(i as int)).map_values(to_info),
    {
        proof {
            lemma_chunks_take(output.assets@, i as int);
        }
        match &output.assets[i] {
            Output::Chunk(chunk) => {
                let info = ChunkInfo {
                    filename: chunk.filename.clone(),
                    code: chunk.code.clone(),
                    imports: copy_texts(&chunk.imports),
                    exports: copy_texts(&chunk.exports),
                    dynamic_imports: copy_texts(&chunk.dynamic_imports),
                };
                let ghost before = chunks_among(output.assets@.take(i as int));
                assert(info@ == info_of(chunk@));
                assert(info_views(infos@.push(info)) =~= info_views(infos@).push(info@));
                assert(before.push(chunk@).map_values(to_info) =~= before.map_values(to_info).push(
                    info_of(chunk@),
                ));
                infos.push(info);
            },
            Output::Asset => {},
        }
    }
    proof {
        assert(output.assets@.take(output.assets@.len() as int) =~= output.assets@);
        lemma_sorting_mapped(
            infos@,
            |info: ChunkInfo| info@,
            rank::<ChunkInfo>(),
            by_filename(),
        );
    }
    sort_ranked(infos)
}

} // verus!
