//! The graph of imports between output chunks.
use crate::graph_cycle_checker::{has_step, is_cycle};
use crate::order::has_number;
use crate::output::{chunks_among, lemma_chunks_take, BundleOutput, ChunkModel, Output, OutputChunk};
use crate::paths::{resolve_specifier, resolved};
use crate::text::{ends_with, lemma_texts_push, same_text, text_ends_with, texts};
use crate::text_laws::endings_are_suffixes;
use vstd::prelude::*;

verus! {

/// The files of some chunks.
pub open spec fn files_of(chunks: Seq<ChunkModel>) -> Seq<Seq<char>> {
    chunks.map_values(|c: ChunkModel| c.filename)
}

/// Whether a chunk holds a CommonJS source module: those are `.cjs` files.
pub open spec fn holds_cjs(chunk: ChunkModel) -> bool {
    exists|i: int|
        0 <= i < chunk.module_ids.len() && ends_with(#[trigger] chunk.module_ids[i], ".cjs"@)
}

/// Which of some chunks hold a CommonJS source module.
pub open spec fn cjs_flags(chunks: Seq<ChunkModel>) -> Seq<bool> {
    chunks.map_values(|c: ChunkModel| holds_cjs(c))
}

/// The index of a file: of the last one, where several have the same name.
pub open spec fn index_of_file(files: Seq<Seq<char>>, name: Seq<char>) -> Option<usize>
    decreases files.len(),
{
    if files.len() == 0 {
        None
    } else if files.last() == name {
        Some((files.len() - 1) as usize)
    } else {
        index_of_file(files.drop_last(), name)
    }
}

/// The edges from a file along its imports; imports of anything but an output
/// file are left out.
pub open spec fn import_edges(
    files: Seq<Seq<char>>,
    importer: Seq<char>,
    specifiers: Seq<Seq<char>>,
) -> Seq<(usize, usize)>
    decreases specifiers.len(),
{
    if specifiers.len() == 0 {
        Seq::empty()
    } else {
        let before = import_edges(files, importer, specifiers.drop_last());
        match (
            index_of_file(files, importer),
            index_of_file(files, resolved(importer, specifiers.last())),
        ) {
            (Some(from), Some(to)) => before.push((from, to)),
            _ => before,
        }
    }
}

/// The edges along the static imports of some chunks, with the given files.
pub open spec fn static_edges_among(
    files: Seq<Seq<char>>,
    chunks: Seq<ChunkModel>,
) -> Seq<(usize, usize)>
    decreases chunks.len(),
{
    if chunks.len() == 0 {
        Seq::empty()
    } else {
        static_edges_among(files, chunks.drop_last()) + import_edges(
            files,
            chunks.last().filename,
            chunks.last().imports,
        )
    }
}

/// The edges along the dynamic imports of some chunks, with the given files.
pub open spec fn dynamic_edges_among(
    files: Seq<Seq<char>>,
    chunks: Seq<ChunkModel>,
) -> Seq<(usize, usize)>
    decreases chunks.len(),
{
    if chunks.len() == 0 {
        Seq::empty()
    } else {
        dynamic_edges_among(files, chunks.drop_last()) + import_edges(
            files,
            chunks.last().filename,
            chunks.last().dynamic_imports,
        )
    }
}

/// The static edges of an output.
pub open spec fn static_edges_of(chunks: Seq<ChunkModel>) -> Seq<(usize, usize)> {
    static_edges_among(files_of(chunks), chunks)
}

/// The dynamic edges of an output.
pub open spec fn dynamic_edges_of(chunks: Seq<ChunkModel>) -> Seq<(usize, usize)> {
    dynamic_edges_among(files_of(chunks), chunks)
}

/// Whether a path visits a chunk that holds a CommonJS module.
pub open spec fn visits_cjs(path: Seq<usize>, flags: Seq<bool>) -> bool {
    exists|i: int|
        0 <= i < path.len() && (#[trigger] path[i]) < flags.len() && flags[path[i] as int]
}

/// Whether a path visits exactly two chunks.
pub open spec fn visits_two(path: Seq<usize>) -> bool {
    path.to_set().len() == 2
}

/// Whether a cycle is no fault of the bundler: two chunks that import each
/// other directly, one of them holding a CommonJS module. Such a cycle comes
/// with CommonJS modules and cannot be bundled away.
pub open spec fn is_tolerated(cycle: Seq<usize>, flags: Seq<bool>) -> bool {
    visits_two(cycle) && visits_cjs(cycle, flags)
}

// ---------------------------------------------------------------------------
// Laws
// ---------------------------------------------------------------------------

/// A file is found under its name, and only files are found.
pub proof fn files_are_found(files: Seq<Seq<char>>, name: Seq<char>)
    requires
        files.len() <= usize::MAX,
    ensures
        index_of_file(files, name) is Some <==> files.contains(name),
        index_of_file(files, name) matches Some(i) ==> i < files.len() && files[i as int] == name,
    decreases files.len(),
{
    if files.len() > 0 {
        let front = files.drop_last();
        files_are_found(front, name);
        if files.last() == name {
            assert(files.contains(name));
        } else if files.contains(name) {
            let i = choose|i: int| 0 <= i < files.len() && files[i] == name;
            assert(front[i] == name);
        } else if front.contains(name) {
            let i = choose|i: int| 0 <= i < front.len() && front[i] == name;
            assert(files[i] == name);
        }
    }
}

proof fn lemma_import_edges_in_range(
    files: Seq<Seq<char>>,
    importer: Seq<char>,
    specifiers: Seq<Seq<char>>,
)
    requires
        files.len() <= usize::MAX,
    ensures
        forall|i: int|
            0 <= i < import_edges(files, importer, specifiers).len() ==> {
                let edge = #[trigger] import_edges(files, importer, specifiers)[i];
                &&& edge.0 < files.len()
                &&& edge.1 < files.len()
                &&& files[edge.0 as int] == importer
                &&& exists|k: int|
                    0 <= k < specifiers.len() && files[edge.1 as int] == resolved(
                        importer,
                        #[trigger] specifiers[k],
                    )
            },
    decreases specifiers.len(),
{
    if specifiers.len() > 0 {
        let front = specifiers.drop_last();
        lemma_import_edges_in_range(files, importer, front);
        files_are_found(files, importer);
        files_are_found(files, resolved(importer, specifiers.last()));
        let before = import_edges(files, importer, front);
        assert forall|i: int|
            0 <= i < import_edges(files, importer, specifiers).len() implies ({
            let edge = #[trigger] import_edges(files, importer, specifiers)[i];
            &&& edge.0 < files.len()
            &&& edge.1 < files.len()
            &&& files[edge.0 as int] == importer
            &&& exists|k: int|
                0 <= k < specifiers.len() && files[edge.1 as int] == resolved(
                    importer,
                    #[trigger] specifiers[k],
                )
        }) by {
            let edge = import_edges(files, importer, specifiers)[i];
            if i < before.len() {
                assert(edge == before[i]);
                let k = choose|k: int|
                    0 <= k < front.len() && files[edge.1 as int] == resolved(
                        importer,
                        #[trigger] front[k],
                    );
                assert(specifiers[k] == front[k]);
            } else {
                assert(specifiers[specifiers.len() - 1] == specifiers.last());
            }
        }
    }
}

/// Whether an edge follows a static import: it starts at a chunk of the given
/// ones and ends at the file that one of its imports refers to.
pub open spec fn follows_import(
    files: Seq<Seq<char>>,
    chunks: Seq<ChunkModel>,
    edge: (usize, usize),
) -> bool {
    &&& edge.0 < files.len()
    &&& edge.1 < files.len()
    &&& exists|c: int, k: int|
        0 <= c < chunks.len() && 0 <= k < chunks[c].imports.len() && files[edge.0 as int]
            == chunks[c].filename && files[edge.1 as int] == resolved(
            chunks[c].filename,
            #[trigger] chunks[c].imports[k],
        )
}

/// Every static edge of the output joins two of its chunks, along an import of
/// the one it starts at.
pub proof fn static_edges_follow_imports(chunks: Seq<ChunkModel>, i: int)
    requires
        chunks.len() <= usize::MAX,
        0 <= i < static_edges_of(chunks).len(),
    ensures
        follows_import(files_of(chunks), chunks, static_edges_of(chunks)[i]),
{
    lemma_static_edges_follow(files_of(chunks), chunks, i);
}

proof fn lemma_static_edges_follow(files: Seq<Seq<char>>, chunks: Seq<ChunkModel>, i: int)
    requires
        files.len() <= usize::MAX,
        0 <= i < static_edges_among(files, chunks).len(),
    ensures
        follows_import(files, chunks, static_edges_among(files, chunks)[i]),
    decreases chunks.len(),
{
    let front = chunks.drop_last();
    let last = chunks.last();
    let before = static_edges_among(files, front);
    let edge = static_edges_among(files, chunks)[i];
    if i < before.len() {
        assert(edge == before[i]);
        lemma_static_edges_follow(files, front, i);
        let (c, k) = choose|c: int, k: int|
            0 <= c < front.len() && 0 <= k < front[c].imports.len() && files[edge.0 as int]
                == front[c].filename && files[edge.1 as int] == resolved(
                front[c].filename,
                #[trigger] front[c].imports[k],
            );
        assert(chunks[c].imports[k] == front[c].imports[k]);
    } else {
        lemma_import_edges_in_range(files, last.filename, last.imports);
        let own = import_edges(files, last.filename, last.imports);
        assert(edge == own[i - before.len()]);
        let k = choose|k: int|
            0 <= k < last.imports.len() && files[edge.1 as int] == resolved(
                last.filename,
                #[trigger] last.imports[k],
            );
        assert(chunks[chunks.len() - 1].imports[k] == last.imports[k]);
    }
}

/// Every import of an output file makes a static edge: none is passed over.
pub proof fn imports_give_static_edges(chunks: Seq<ChunkModel>, c: int, k: int)
    requires
        chunks.len() <= usize::MAX,
        0 <= c < chunks.len(),
        0 <= k < chunks[c].imports.len(),
    ensures
        ({
            let files = files_of(chunks);
            let importer = chunks[c].filename;
            match (
                index_of_file(files, importer),
                index_of_file(files, resolved(importer, chunks[c].imports[k])),
            ) {
                (Some(from), Some(to)) => static_edges_of(chunks).contains((from, to)),
                (Some(_), None) => !files.contains(resolved(importer, chunks[c].imports[k])),
                (None, _) => false,
            }
        }),
{
    let files = files_of(chunks);
    let importer = chunks[c].filename;
    let target = resolved(importer, chunks[c].imports[k]);
    files_are_found(files, importer);
    files_are_found(files, target);
    assert(files[c] == importer);
    if let (Some(from), Some(to)) = (
        index_of_file(files, importer),
        index_of_file(files, target),
    ) {
        lemma_import_edge_found(files, importer, chunks[c].imports, k);
        lemma_static_edge_found(files, chunks, c, (from, to));
    }
}

proof fn lemma_import_edge_found(
    files: Seq<Seq<char>>,
    importer: Seq<char>,
    specifiers: Seq<Seq<char>>,
    k: int,
)
    requires
        0 <= k < specifiers.len(),
        index_of_file(files, importer) is Some,
        index_of_file(files, resolved(importer, specifiers[k])) is Some,
    ensures
        import_edges(files, importer, specifiers).contains(
            (
                index_of_file(files, importer)->0,
                index_of_file(files, resolved(importer, specifiers[k]))->0,
            ),
        ),
    decreases specifiers.len(),
{
    let front = specifiers.drop_last();
    let edge = (
        index_of_file(files, importer)->0,
        index_of_file(files, resolved(importer, specifiers[k]))->0,
    );
    let all = import_edges(files, importer, specifiers);
    if k < front.len() {
        assert(front[k] == specifiers[k]);
        lemma_import_edge_found(files, importer, front, k);
        let before = import_edges(files, importer, front);
        let i = choose|i: int| 0 <= i < before.len() && before[i] == edge;
        assert(all[i] == edge);
    } else {
        assert(all.last() == edge);
    }
}

proof fn lemma_static_edge_found(
    files: Seq<Seq<char>>,
    chunks: Seq<ChunkModel>,
    c: int,
    edge: (usize, usize),
)
    requires
        0 <= c < chunks.len(),
        import_edges(files, chunks[c].filename, chunks[c].imports).contains(edge),
    ensures
        static_edges_among(files, chunks).contains(edge),
    decreases chunks.len(),
{
    let front = chunks.drop_last();
    let before = static_edges_among(files, front);
    let all = static_edges_among(files, chunks);
    if c < front.len() {
        assert(front[c] == chunks[c]);
        lemma_static_edge_found(files, front, c, edge);
        let i = choose|i: int| 0 <= i < before.len() && before[i] == edge;
        assert(all[i] == edge);
    } else {
        let own = import_edges(files, chunks[c].filename, chunks[c].imports);
        let i = choose|i: int| 0 <= i < own.len() && own[i] == edge;
        assert(all[before.len() + i] == edge);
    }
}

/// Every dynamic edge of the output joins two of its chunks.
pub proof fn dynamic_edges_join_chunks(chunks: Seq<ChunkModel>, i: int)
    requires
        chunks.len() <= usize::MAX,
        0 <= i < dynamic_edges_of(chunks).len(),
    ensures
        dynamic_edges_of(chunks)[i].0 < chunks.len(),
        dynamic_edges_of(chunks)[i].1 < chunks.len(),
{
    lemma_dynamic_edges_in_range(files_of(chunks), chunks, i);
}

proof fn lemma_dynamic_edges_in_range(files: Seq<Seq<char>>, chunks: Seq<ChunkModel>, i: int)
    requires
        files.len() <= usize::MAX,
        0 <= i < dynamic_edges_among(files, chunks).len(),
    ensures
        dynamic_edges_among(files, chunks)[i].0 < files.len(),
        dynamic_edges_among(files, chunks)[i].1 < files.len(),
    decreases chunks.len(),
{
    let front = chunks.drop_last();
    let before = dynamic_edges_among(files, front);
    if i < before.len() {
        assert(dynamic_edges_among(files, chunks)[i] == before[i]);
        lemma_dynamic_edges_in_range(files, front, i);
    } else {
        let last = chunks.last();
        lemma_import_edges_in_range(files, last.filename, last.dynamic_imports);
        assert(dynamic_edges_among(files, chunks)[i] == import_edges(
            files,
            last.filename,
            last.dynamic_imports,
        )[i - before.len()]);
    }
}

/// A cycle visits exactly two nodes exactly when it is a path of three nodes
/// that ends where it starts: two nodes joined both ways.
pub proof fn immediate_cycles_have_two_edges(
    node_count: usize,
    edges: Seq<(usize, usize)>,
    cycle: Seq<usize>,
)
    requires
        is_cycle(node_count, edges, cycle),
    ensures
        visits_two(cycle) <==> cycle.len() == 3,
{
    let round = cycle.drop_last();
    assert(cycle.to_set() =~= round.to_set()) by {
        assert forall|n: usize| cycle.contains(n) implies round.contains(n) by {
            let i = choose|i: int| 0 <= i < cycle.len() && cycle[i] == n;
            if i == cycle.len() - 1 {
                assert(round[0] == n);
            } else {
                assert(round[i] == n);
            }
        }
        assert forall|n: usize| round.contains(n) implies cycle.contains(n) by {
            let i = choose|i: int| 0 <= i < round.len() && round[i] == n;
            assert(cycle[i] == n);
        }
    }
    round.unique_seq_to_set();
}

/// A cycle is tolerated exactly when it runs between two chunks and one of
/// those two holds a CommonJS module.
pub proof fn tolerated_cycles_are_between_two_chunks(
    node_count: usize,
    edges: Seq<(usize, usize)>,
    cycle: Seq<usize>,
    flags: Seq<bool>,
)
    requires
        is_cycle(node_count, edges, cycle),
        flags.len() == node_count,
    ensures
        is_tolerated(cycle, flags) <==> cycle.len() == 3 && (flags[cycle[0] as int]
            || flags[cycle[1] as int]),
{
    immediate_cycles_have_two_edges(node_count, edges, cycle);
    if cycle.len() == 3 {
        assert(has_step(node_count, edges, cycle, 0));
        assert(has_step(node_count, edges, cycle, 1));
    }
}

/// A chunk counts as CommonJS exactly when the id of some module in it, at
/// whatever position, ends in `.cjs`.
pub proof fn chunks_are_cjs_by_any_module(chunk: ChunkModel)
    ensures
        holds_cjs(chunk) <==> exists|k: int, front: Seq<char>|
            0 <= k < chunk.module_ids.len() && #[trigger] chunk.module_ids[k] == #[trigger] (front
                + ".cjs"@),
{
    if holds_cjs(chunk) {
        let k = choose|k: int|
            0 <= k < chunk.module_ids.len() && ends_with(#[trigger] chunk.module_ids[k], ".cjs"@);
        endings_are_suffixes(chunk.module_ids[k], ".cjs"@);
        let front = choose|front: Seq<char>|
            chunk.module_ids[k] == #[trigger] (front + ".cjs"@);
        assert(chunk.module_ids[k] == front + ".cjs"@);
    }
    if exists|k: int, front: Seq<char>|
        0 <= k < chunk.module_ids.len() && #[trigger] chunk.module_ids[k] == #[trigger] (front
            + ".cjs"@) {
        let (k, front) = choose|k: int, front: Seq<char>|
            0 <= k < chunk.module_ids.len() && #[trigger] chunk.module_ids[k] == #[trigger] (front
                + ".cjs"@);
        endings_are_suffixes(chunk.module_ids[k], ".cjs"@);
        assert(ends_with(chunk.module_ids[k], ".cjs"@));
    }
}

/// A module whose id ends in `.cjs` makes its chunk a CommonJS one, whatever
/// modules stand before it and after it; any other module changes nothing.
pub proof fn one_module_decides(
    chunk: ChunkModel,
    before: Seq<Seq<char>>,
    id: Seq<char>,
    after: Seq<Seq<char>>,
)
    requires
        chunk.module_ids == before.push(id) + after,
    ensures
        ends_with(id, ".cjs"@) ==> holds_cjs(chunk),
        !ends_with(id, ".cjs"@) ==> (holds_cjs(chunk) <==> holds_cjs(
            ChunkModel { module_ids: before + after, ..chunk },
        )),
{
    let ids = chunk.module_ids;
    let without = before + after;
    let smaller = ChunkModel { module_ids: without, ..chunk };
    assert(ids[before.len() as int] == id);
    if !ends_with(id, ".cjs"@) {
        if holds_cjs(chunk) {
            let k = choose|k: int| 0 <= k < ids.len() && ends_with(#[trigger] ids[k], ".cjs"@);
            if k < before.len() {
                assert(smaller.module_ids[k] == ids[k]);
            } else {
                assert(smaller.module_ids[k - 1] == ids[k]);
            }
        }
        if holds_cjs(smaller) {
            let k = choose|k: int|
                0 <= k < without.len() && ends_with(
                    #[trigger] smaller.module_ids[k],
                    ".cjs"@,
                );
            if k < before.len() {
                assert(ids[k] == without[k]);
            } else {
                assert(ids[k + 1] == without[k]);
            }
        }
    }
}

/// Whether a chunk counts as CommonJS does not depend on the order of its
/// modules, nor on anything else but their ids.
pub proof fn the_order_of_modules_does_not_matter(a: ChunkModel, b: ChunkModel)
    requires
        a.module_ids.to_multiset() == b.module_ids.to_multiset(),
    ensures
        holds_cjs(a) == holds_cjs(b),
{
    lemma_same_ids_give_cjs(a, b);
    lemma_same_ids_give_cjs(b, a);
}

proof fn lemma_same_ids_give_cjs(a: ChunkModel, b: ChunkModel)
    requires
        a.module_ids.to_multiset() == b.module_ids.to_multiset(),
    ensures
        holds_cjs(a) ==> holds_cjs(b),
{
    a.module_ids.to_multiset_ensures();
    b.module_ids.to_multiset_ensures();
    if holds_cjs(a) {
        let k = choose|k: int|
            0 <= k < a.module_ids.len() && ends_with(#[trigger] a.module_ids[k], ".cjs"@);
        let id = a.module_ids[k];
        assert(a.module_ids.contains(id));
        assert(b.module_ids.to_multiset().count(id) > 0);
        assert(b.module_ids.contains(id));
        let j = choose|j: int| 0 <= j < b.module_ids.len() && b.module_ids[j] == id;
        assert(ends_with(b.module_ids[j], ".cjs"@));
    }
}

/// A cycle between the chunks of an output is tolerated exactly when it runs
/// between two of them and the id of some module in one of the two ends in
/// `.cjs`.
pub proof fn tolerance_rests_on_module_ids(chunks: Seq<ChunkModel>, cycle: Seq<usize>)
    requires
        chunks.len() <= usize::MAX,
        is_cycle(chunks.len() as usize, static_edges_of(chunks), cycle),
    ensures
        is_tolerated(cycle, cjs_flags(chunks)) <==> cycle.len() == 3 && exists|i: int, k: int|
            0 <= i < 2 && 0 <= k < chunks[cycle[i] as int].module_ids.len() && ends_with(
                #[trigger] chunks[cycle[i] as int].module_ids[k],
                ".cjs"@,
            ),
{
    let flags = cjs_flags(chunks);
    let n = chunks.len() as usize;
    let edges = static_edges_of(chunks);
    tolerated_cycles_are_between_two_chunks(n, edges, cycle, flags);
    if cycle.len() == 3 {
        assert(has_step(n, edges, cycle, 0));
        assert(has_step(n, edges, cycle, 1));
        assert(flags[cycle[0] as int] == holds_cjs(chunks[cycle[0] as int]));
        assert(flags[cycle[1] as int] == holds_cjs(chunks[cycle[1] as int]));
        if is_tolerated(cycle, flags) {
            let i: int = if flags[cycle[0] as int] {
                0
            } else {
                1
            };
            let chunk = chunks[cycle[i] as int];
            let k = choose|k: int|
                0 <= k < chunk.module_ids.len() && ends_with(
                    #[trigger] chunk.module_ids[k],
                    ".cjs"@,
                );
            assert(ends_with(chunks[cycle[i] as int].module_ids[k], ".cjs"@));
        }
        if exists|i: int, k: int|
            0 <= i < 2 && 0 <= k < chunks[cycle[i] as int].module_ids.len() && ends_with(
                #[trigger] chunks[cycle[i] as int].module_ids[k],
                ".cjs"@,
            ) {
            let (i, k) = choose|i: int, k: int|
                0 <= i < 2 && 0 <= k < chunks[cycle[i] as int].module_ids.len() && ends_with(
                    #[trigger] chunks[cycle[i] as int].module_ids[k],
                    ".cjs"@,
                );
            let chunk = chunks[cycle[i] as int];
            assert(ends_with(chunk.module_ids[k], ".cjs"@));
            assert(holds_cjs(chunk));
            assert(flags[cycle[i] as int]);
        }
    }
}

/// The files of an output are those of its chunks, and each is marked exactly
/// when its chunk has a module whose id ends in `.cjs`.
pub proof fn files_and_marks_belong_to_chunks(chunks: Seq<ChunkModel>, i: int)
    requires
        0 <= i < chunks.len(),
    ensures
        files_of(chunks).len() == chunks.len(),
        files_of(chunks)[i] == chunks[i].filename,
        cjs_flags(chunks).len() == chunks.len(),
        cjs_flags(chunks)[i] <==> exists|k: int|
            0 <= k < chunks[i].module_ids.len() && ends_with(
                #[trigger] chunks[i].module_ids[k],
                ".cjs"@,
            ),
{
}

/// Of several files with one name the last one is found.
pub proof fn the_last_file_is_found(
    files: Seq<Seq<char>>,
    name: Seq<char>,
    after: Seq<Seq<char>>,
)
    requires
        files.len() + 1 + after.len() <= usize::MAX,
        !after.contains(name),
    ensures
        index_of_file(files.push(name) + after, name) == Some(files.len() as usize),
    decreases after.len(),
{
    let all = files.push(name) + after;
    if after.len() == 0 {
        assert(all =~= files.push(name));
    } else {
        let front = after.drop_last();
        assert(after.contains(after.last()));
        assert(!front.contains(name)) by {
            if front.contains(name) {
                let i = choose|i: int| 0 <= i < front.len() && front[i] == name;
                assert(after[i] == name);
            }
        }
        the_last_file_is_found(files, name, front);
        assert(all.drop_last() =~= files.push(name) + front);
    }
}

/// Imports become edges one after another: each one of an output file gives an
/// edge from the importer to that file, and any other gives none.
pub proof fn imports_become_edges_in_order(
    files: Seq<Seq<char>>,
    importer: Seq<char>,
    a: Seq<Seq<char>>,
    b: Seq<Seq<char>>,
    specifier: Seq<char>,
)
    requires
        files.len() <= usize::MAX,
        files.contains(importer),
    ensures
        import_edges(files, importer, a + b) == import_edges(files, importer, a) + import_edges(
            files,
            importer,
            b,
        ),
        ({
            let edges = import_edges(files, importer, seq![specifier]);
            let target = resolved(importer, specifier);
            if files.contains(target) {
                edges.len() == 1 && files[edges[0].0 as int] == importer && files[edges[0].1 as int]
                    == target
            } else {
                edges.len() == 0
            }
        }),
    decreases b.len(),
{
    let one = seq![specifier];
    let none = one.drop_last();
    assert(none.len() == 0);
    assert(import_edges(files, importer, none) =~= Seq::<(usize, usize)>::empty());
    files_are_found(files, importer);
    files_are_found(files, resolved(importer, specifier));
    if b.len() == 0 {
        assert(a + b =~= a);
        assert(import_edges(files, importer, a + b) =~= import_edges(files, importer, a)
            + import_edges(files, importer, b));
    } else {
        imports_become_edges_in_order(files, importer, a, b.drop_last(), specifier);
        assert((a + b).drop_last() =~= a + b.drop_last());
        assert(import_edges(files, importer, a + b) =~= import_edges(files, importer, a)
            + import_edges(files, importer, b));
    }
}

/// The edges of an output are those of its chunks, one chunk after another:
/// the static edges follow the imports of a chunk, the dynamic edges its
/// dynamic imports.
pub proof fn edges_go_chunk_by_chunk(
    files: Seq<Seq<char>>,
    a: Seq<ChunkModel>,
    b: Seq<ChunkModel>,
    chunk: ChunkModel,
)
    ensures
        static_edges_among(files, a + b) == static_edges_among(files, a) + static_edges_among(
            files,
            b,
        ),
        dynamic_edges_among(files, a + b) == dynamic_edges_among(files, a) + dynamic_edges_among(
            files,
            b,
        ),
        static_edges_among(files, seq![chunk]) == import_edges(
            files,
            chunk.filename,
            chunk.imports,
        ),
        dynamic_edges_among(files, seq![chunk]) == import_edges(
            files,
            chunk.filename,
            chunk.dynamic_imports,
        ),
    decreases b.len(),
{
    let one = seq![chunk];
    let none = one.drop_last();
    assert(none.len() == 0);
    assert(static_edges_among(files, none) =~= Seq::<(usize, usize)>::empty());
    assert(dynamic_edges_among(files, none) =~= Seq::<(usize, usize)>::empty());
    assert(static_edges_among(files, one) =~= import_edges(files, chunk.filename, chunk.imports));
    assert(dynamic_edges_among(files, one) =~= import_edges(
        files,
        chunk.filename,
        chunk.dynamic_imports,
    ));
    if b.len() == 0 {
        assert(a + b =~= a);
        assert(static_edges_among(files, a + b) =~= static_edges_among(files, a)
            + static_edges_among(files, b));
        assert(dynamic_edges_among(files, a + b) =~= dynamic_edges_among(files, a)
            + dynamic_edges_among(files, b));
    } else {
        edges_go_chunk_by_chunk(files, a, b.drop_last(), chunk);
        assert((a + b).drop_last() =~= a + b.drop_last());
        assert(static_edges_among(files, a + b) =~= static_edges_among(files, a)
            + static_edges_among(files, b));
        assert(dynamic_edges_among(files, a + b) =~= dynamic_edges_among(files, a)
            + dynamic_edges_among(files, b));
    }
}

/// The dynamic edges of an output follow its dynamic imports: every dynamic
/// import of an output file is among them.
pub proof fn dynamic_imports_give_dynamic_edges(chunks: Seq<ChunkModel>, c: int, k: int, t: int)
    requires
        chunks.len() <= usize::MAX,
        0 <= c < chunks.len(),
        0 <= k < chunks[c].dynamic_imports.len(),
        0 <= t < chunks.len(),
        chunks[t].filename == resolved(chunks[c].filename, chunks[c].dynamic_imports[k]),
    ensures
        exists|i: int|
            0 <= i < dynamic_edges_of(chunks).len() && chunks[(
            #[trigger] dynamic_edges_of(chunks)[i]).0 as int].filename == chunks[c].filename
                && chunks[dynamic_edges_of(chunks)[i].1 as int].filename == chunks[t].filename,
{
    let files = files_of(chunks);
    let importer = chunks[c].filename;
    let target = resolved(importer, chunks[c].dynamic_imports[k]);
    files_are_found(files, importer);
    files_are_found(files, target);
    assert(files[c] == importer);
    assert(files[t] == target);
    lemma_import_edge_found(files, importer, chunks[c].dynamic_imports, k);
    let edge = (index_of_file(files, importer)->0, index_of_file(files, target)->0);
    let before = chunks.take(c);
    let after = chunks.skip(c + 1);
    assert(chunks =~= before + (seq![chunks[c]] + after));
    edges_go_chunk_by_chunk(files, before, seq![chunks[c]] + after, chunks[c]);
    edges_go_chunk_by_chunk(files, seq![chunks[c]], after, chunks[c]);
    let own = import_edges(files, importer, chunks[c].dynamic_imports);
    let j = choose|j: int| 0 <= j < own.len() && own[j] == edge;
    let all = dynamic_edges_of(chunks);
    let i = dynamic_edges_among(files, before).len() + j;
    assert(all[i] == edge);
    assert(files[edge.0 as int] == chunks[edge.0 as int].filename);
    assert(files[edge.1 as int] == chunks[edge.1 as int].filename);
}

// ---------------------------------------------------------------------------
// Building the graph
// ---------------------------------------------------------------------------

/// Whether an output chunk holds a CommonJS source module.
///
/// CommonJS source modules are `.cjs` files, so a chunk that holds one has the
/// wrappers by which CommonJS and ES modules work together.
pub fn chunk_contains_cjs_module(chunk: &OutputChunk) -> (r: bool)
    ensures
        r == holds_cjs(chunk@),
        r <==> exists|k: int|
            0 <= k < chunk.module_ids@.len() && ends_with(
                (#[trigger] chunk.module_ids@[k])@,
                ".cjs"@,
            ),
{
    proof {
        let ids = chunk.module_ids@;
        assert forall|k: int| 0 <= k < ids.len() implies chunk@.module_ids[k] == (
        #[trigger] ids[k])@ by {}
        if holds_cjs(chunk@) {
            let k = choose|k: int|
                0 <= k < chunk@.module_ids.len() && ends_with(
                    #[trigger] chunk@.module_ids[k],
                    ".cjs"@,
                );
            assert(ends_with(ids[k]@, ".cjs"@));
        }
        if exists|k: int| 0 <= k < ids.len() && ends_with((#[trigger] ids[k])@, ".cjs"@) {
            let k = choose|k: int| 0 <= k < ids.len() && ends_with((#[trigger] ids[k])@, ".cjs"@);
            assert(ends_with(chunk@.module_ids[k], ".cjs"@));
        }
    }
    for i in 0..chunk.module_ids.len()
        invariant
            forall|j: int| 0 <= j < i ==> !ends_with(#[trigger] chunk@.module_ids[j], ".cjs"@),
    {
        assert(chunk@.module_ids[i as int] == chunk.module_ids@[i as int]@);
        if text_ends_with(chunk.module_ids[i].as_str(), ".cjs") {
            return true;
        }
    }
    false
}

/// Whether any chunk along a cycle of the output holds a CommonJS module.
pub fn cycle_involves_cjs(cycle: &[usize], chunk_has_cjs: &[bool]) -> (r: bool)
    ensures
        r == visits_cjs(cycle@, chunk_has_cjs@),
        r <==> exists|k: int|
            0 <= k < cycle@.len() && (#[trigger] cycle@[k]) < chunk_has_cjs@.len()
                && chunk_has_cjs@[cycle@[k] as int],
{
    for i in 0..cycle.len()
        invariant
            forall|j: int|
                0 <= j < i && (#[trigger] cycle@[j]) < chunk_has_cjs@.len()
                    ==> !chunk_has_cjs@[cycle@[j] as int],
    {
        let index: usize = cycle[i];
        if index < chunk_has_cjs.len() && chunk_has_cjs[index] {
            assert(cycle@[i as int] == index);
            return true;
        }
    }
    false
}

/// Whether a cycle is immediate: exactly two chunks that import each other
/// directly. A cycle is given with the chunk it starts from at both ends
/// (e.g. `[a, b, a]`).
pub fn is_immediate_cycle(cycle: &[usize]) -> (r: bool)
    ensures
        r == visits_two(cycle@),
        r <==> cycle@.to_set().len() == 2,
{
    let mut distinct: Vec<usize> = Vec::new();
    assert(distinct@.to_set() =~= cycle@.take(0).to_set());
    for i in 0..cycle.len()
        invariant
            distinct@.no_duplicates(),
            distinct@.to_set() == cycle@.take(i as int).to_set(),
    {
        let node: usize = cycle[i];
        let known = has_number(&distinct, node);
        let ghost before = distinct@;
        let ghost shorter = cycle@.take(i as int);
        assert(cycle@.take(i + 1) =~= shorter.push(node));
        assert(shorter.push(node).to_set() =~= shorter.to_set().insert(node)) by {
            lemma_pushed_set(shorter, node);
        }
        if !known {
            distinct.push(node);
            proof {
                lemma_pushed_set(before, node);
            }
        } else {
            assert(before.to_set().contains(node));
            assert(shorter.to_set().insert(node) =~= shorter.to_set());
        }
    }
    assert(cycle@.take(cycle@.len() as int) =~= cycle@);
    proof {
        distinct@.unique_seq_to_set();
    }
    distinct.len() == 2
}

proof fn lemma_pushed_set(s: Seq<usize>, n: usize)
    ensures
        s.push(n).to_set() == s.to_set().insert(n),
{
    assert forall|x: usize| s.push(n).contains(x) <==> s.contains(x) || x == n by {
        if s.push(n).contains(x) {
            let i = choose|i: int| 0 <= i < s.push(n).len() && s.push(n)[i] == x;
            if i < s.len() {
                assert(s[i] == x);
            }
        }
        if s.contains(x) {
            let i = choose|i: int| 0 <= i < s.len() && s[i] == x;
            assert(s.push(n)[i] == x);
        }
        assert(s.push(n)[s.len() as int] == n);
    }
    assert forall|x: usize| #[trigger] s.push(n).to_set().contains(x) <==> s.to_set().insert(
        n,
    ).contains(x) by {
        assert(s.push(n).to_set().contains(x) <==> s.push(n).contains(x));
        assert(s.to_set().contains(x) <==> s.contains(x));
    }
    assert(s.push(n).to_set() =~= s.to_set().insert(n));
}

fn find_file(files: &Vec<String>, name: &str) -> (index: Option<usize>)
    ensures
        index == index_of_file(texts(files@), name@),
{
    let ghost all = texts(files@);
    let mut i: usize = files.len();
    assert(all.take(i as int) =~= all);
    while i > 0
        invariant
            all == texts(files@),
            i <= files.len(),
            index_of_file(all, name@) == index_of_file(all.take(i as int), name@),
        decreases i,
    {
        assert(all.take(i as int).drop_last() =~= all.take(i - 1));
        assert(all.take(i as int).last() == files@[i - 1]@);
        if same_text(files[i - 1].as_str(), name) {
            return Some(i - 1);
        }
        i = i - 1;
    }
    None
}

fn collect_import_edges(
    files: &Vec<String>,
    importer: &str,
    specifiers: &Vec<String>,
    edges: &mut Vec<(usize, usize)>,
)
    ensures
        final(edges)@ == old(edges)@ + import_edges(texts(files@), importer@, texts(specifiers@)),
{
    let ghost start = edges@;
    let ghost all = texts(specifiers@);
    let from = find_file(files, importer);
    assert(start + import_edges(texts(files@), importer@, all.take(0)) =~= start);
    for i in 0..specifiers.len()
        invariant
            all == texts(specifiers@),
            from == index_of_file(texts(files@), importer@),
            edges@ == start + import_edges(texts(files@), importer@, all.take(i as int)),
    {
        assert(all.take(i + 1).drop_last() =~= all.take(i as int));
        assert(all.take(i + 1).last() == specifiers@[i as int]@);
        let target = resolve_specifier(importer, specifiers[i].as_str());
        let to = find_file(files, target.as_str());
        if let Some(from_index) = from {
            if let Some(to_index) = to {
                edges.push((from_index, to_index));
            }
        }
    }
    assert(all.take(specifiers@.len() as int) =~= all);
}

/// Lists the files of the chunks of an output.
pub fn output_files(output: &BundleOutput) -> (files: Vec<String>)
    ensures
        texts(files@) == files_of(output@),
{
    let mut files: Vec<String> = Vec::new();
    for i in 0..output.assets.len()
        invariant
            texts(files@) == files_of(chunks_among(output.assets@.take(i as int))),
    {
        proof {
            lemma_chunks_take(output.assets@, i as int);
        }
        match &output.assets[i] {
            Output::Chunk(chunk) => {
                let name = chunk.filename.clone();
                let ghost before = chunks_among(output.assets@.take(i as int));
                proof {
                    lemma_texts_push(files@, name);
                    assert(files_of(before.push(chunk@)) =~= files_of(before).push(name@));
                }
                files.push(name);
            },
            Output::Asset => {},
        }
    }
    assert(output.assets@.take(output.assets@.len() as int) =~= output.assets@);
    files
}

/// Builds the graph of imports between the chunks of an output: the files, the
/// static edges and the dynamic edges between them, and which of the files
/// hold a CommonJS module.
pub fn build_output_dependency_graph(output: &BundleOutput) -> (graph: (
    Vec<String>,
    Vec<(usize, usize)>,
    Vec<(usize, usize)>,
    Vec<bool>,
))
    ensures
        texts(graph.0@) == files_of(output@),
        graph.1@ == static_edges_of(output@),
        graph.2@ == dynamic_edges_of(output@),
        graph.3@ == cjs_flags(output@),
{
    let files = output_files(output);
    let ghost names = files_of(output@);
    let mut static_edges: Vec<(usize, usize)> = Vec::new();
    let mut dynamic_edges: Vec<(usize, usize)> = Vec::new();
    let mut chunk_has_cjs: Vec<bool> = Vec::new();
    for i in 0..output.assets.len()
        invariant
            names == texts(files@),
            static_edges@ == static_edges_among(
                names,
                chunks_among(output.assets@.take(i as int)),
            ),
            dynamic_edges@ == dynamic_edges_among(
                names,
                chunks_among(output.assets@.take(i as int)),
            ),
            chunk_has_cjs@ == cjs_flags(chunks_among(output.assets@.take(i as int))),
    {
        proof {
            lemma_chunks_take(output.assets@, i as int);
        }
        match &output.assets[i] {
            Output::Chunk(chunk) => {
                let ghost before = chunks_among(output.assets@.take(i as int));
                assert(before.push(chunk@).drop_last() =~= before);
                let importer = chunk.filename.as_str();
                collect_import_edges(&files, importer, &chunk.imports, &mut static_edges);
                collect_import_edges(&files, importer, &chunk.dynamic_imports, &mut dynamic_edges);
                assert(cjs_flags(before.push(chunk@)) =~= cjs_flags(before).push(
                    holds_cjs(chunk@),
                ));
                chunk_has_cjs.push(chunk_contains_cjs_module(chunk));
            },
            Output::Asset => {},
        }
    }
    assert(output.assets@.take(output.assets@.len() as int) =~= output.assets@);
    (files, static_edges, dynamic_edges, chunk_has_cjs)
}

} // verus!
