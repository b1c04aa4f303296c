//! Paths of output files, and what the imports in them refer to.
use crate::text::{
    characters, join_texts, joined, lemma_texts_push, same_text, split, split_text,
    split_undoes_join, texts,
};
use vstd::prelude::*;

verus! {

/// Whether a piece of a path leads nowhere: it is empty or a single dot.
pub open spec fn stays(piece: Seq<char>) -> bool {
    piece.len() == 0 || piece == "."@
}

/// Where the pieces of a path lead, walked one after another: two dots lead
/// one step back, where there is one.
pub open spec fn walked(pieces: Seq<Seq<char>>) -> Seq<Seq<char>>
    decreases pieces.len(),
{
    if pieces.len() == 0 {
        Seq::empty()
    } else {
        let before = walked(pieces.drop_last());
        let piece = pieces.last();
        if stays(piece) {
            before
        } else if piece == ".."@ {
            if before.len() == 0 {
                before
            } else {
                before.drop_last()
            }
        } else {
            before.push(piece)
        }
    }
}

/// A path without empty pieces, dots and double dots.
pub open spec fn normal(path: Seq<char>) -> Seq<char> {
    joined(walked(split(path, '/')), "/"@)
}

/// The pieces of a path that lead somewhere.
pub open spec fn steps(pieces: Seq<Seq<char>>) -> Seq<Seq<char>>
    decreases pieces.len(),
{
    if pieces.len() == 0 {
        Seq::empty()
    } else if stays(pieces.last()) {
        steps(pieces.drop_last())
    } else {
        steps(pieces.drop_last()).push(pieces.last())
    }
}

/// The directory of a file, or nothing where the path names no directory.
pub open spec fn parent(path: Seq<char>) -> Seq<char> {
    let pieces = steps(split(path, '/'));
    if pieces.len() == 0 {
        Seq::empty()
    } else {
        joined(pieces.drop_last(), "/"@)
    }
}

/// Whether a specifier names a file by its place relative to the importer.
pub open spec fn is_relative(specifier: Seq<char>) -> bool {
    specifier.len() > 0 && specifier[0] == '.'
}

/// The file that a specifier in the file `importer` refers to.
pub open spec fn resolved(importer: Seq<char>, specifier: Seq<char>) -> Seq<char> {
    if is_relative(specifier) {
        normal(parent(importer) + "/"@ + specifier)
    } else {
        specifier
    }
}

// ---------------------------------------------------------------------------
// Laws
// ---------------------------------------------------------------------------

/// Whether a piece is the name of a file or a directory.
pub open spec fn is_name(piece: Seq<char>) -> bool {
    !stays(piece) && piece != ".."@ && !piece.contains('/')
}

proof fn lemma_split_pieces(s: Seq<char>, sep: char)
    ensures
        split(s, sep).len() > 0,
        forall|i: int|
            0 <= i < split(s, sep).len() ==> !(#[trigger] split(s, sep)[i]).contains(sep),
    decreases s.len(),
{
    if s.len() > 0 {
        lemma_split_pieces(s.drop_last(), sep);
        let before = split(s.drop_last(), sep);
        if s.last() != sep {
            let piece = before.last();
            assert(!piece.contains(sep));
            assert forall|c: char| piece.push(s.last()).contains(c) implies piece.contains(c) || c
                == s.last() by {
                let i = choose|i: int|
                    0 <= i < piece.push(s.last()).len() && piece.push(s.last())[i] == c;
                if i < piece.len() {
                    assert(piece[i] == c);
                }
            }
        }
    }
}

proof fn lemma_walked_names(pieces: Seq<Seq<char>>)
    requires
        forall|i: int| 0 <= i < pieces.len() ==> !(#[trigger] pieces[i]).contains('/'),
    ensures
        forall|i: int| 0 <= i < walked(pieces).len() ==> is_name(#[trigger] walked(pieces)[i]),
    decreases pieces.len(),
{
    if pieces.len() > 0 {
        let front = pieces.drop_last();
        assert forall|i: int| 0 <= i < front.len() implies !(#[trigger] front[i]).contains('/') by {
            assert(front[i] == pieces[i]);
        }
        lemma_walked_names(front);
        assert(!pieces[pieces.len() - 1].contains('/'));
        let before = walked(front);
        assert forall|i: int| 0 <= i < walked(pieces).len() implies is_name(
            #[trigger] walked(pieces)[i],
        ) by {
            if i < before.len() {
                assert(walked(pieces)[i] == before[i]);
            }
        }
    }
}

proof fn lemma_walked_keeps_names(pieces: Seq<Seq<char>>)
    requires
        forall|i: int| 0 <= i < pieces.len() ==> is_name(#[trigger] pieces[i]),
    ensures
        walked(pieces) == pieces,
    decreases pieces.len(),
{
    if pieces.len() > 0 {
        let front = pieces.drop_last();
        assert forall|i: int| 0 <= i < front.len() implies is_name(#[trigger] front[i]) by {
            assert(front[i] == pieces[i]);
        }
        lemma_walked_keeps_names(front);
        assert(is_name(pieces[pieces.len() - 1]));
        assert(front.push(pieces.last()) == pieces);
    }
}

/// A normal path is the root itself, or it splits into names: no piece of it
/// is empty, a dot or a double dot.
pub proof fn normal_paths_hold_names_only(path: Seq<char>)
    ensures
        normal(path).len() == 0 || (forall|i: int|
            0 <= i < split(normal(path), '/').len() ==> is_name(
                #[trigger] split(normal(path), '/')[i],
            )),
{
    lemma_split_pieces(path, '/');
    let pieces = walked(split(path, '/'));
    lemma_walked_names(split(path, '/'));
    lemma_slash();
    if pieces.len() > 0 {
        split_undoes_join(pieces, '/');
    }
}

proof fn lemma_slash()
    ensures
        "/"@ == seq!['/'],
{
    reveal_strlit("/");
    assert("/"@ =~= seq!['/']);
}

/// A normal path stays as it is.
pub proof fn normal_paths_stay(path: Seq<char>)
    ensures
        normal(normal(path)) == normal(path),
{
    lemma_split_pieces(path, '/');
    let pieces = walked(split(path, '/'));
    lemma_walked_names(split(path, '/'));
    lemma_slash();
    if pieces.len() > 0 {
        split_undoes_join(pieces, '/');
        lemma_walked_keeps_names(pieces);
    } else {
        let nowhere = seq![Seq::<char>::empty()];
        assert(normal(path) =~= Seq::<char>::empty());
        assert(split(normal(path), '/') =~= nowhere);
        assert(nowhere.drop_last() =~= Seq::<Seq<char>>::empty());
        assert(walked(nowhere.drop_last()) =~= Seq::<Seq<char>>::empty());
        assert(stays(nowhere.last()));
        assert(walked(nowhere) =~= Seq::<Seq<char>>::empty());
    }
}

/// A file beside the importer is found under the importer's directory.
pub proof fn neighbours_are_found(dir: Seq<Seq<char>>, file: Seq<char>, name: Seq<char>)
    requires
        forall|i: int| 0 <= i < dir.len() ==> is_name(#[trigger] dir[i]),
        is_name(file),
        is_name(name),
    ensures
        resolved(joined(dir.push(file), "/"@), "./"@ + name) == joined(dir.push(name), "/"@),
{
    lemma_slash();
    reveal_strlit("./");
    reveal_strlit(".");
    reveal_strlit("..");
    let importer = joined(dir.push(file), "/"@);
    assert forall|i: int| 0 <= i < dir.push(file).len() implies !(#[trigger] dir.push(
        file,
    )[i]).contains('/') by {
        if i < dir.len() {
            assert(is_name(dir[i]));
        }
    }
    split_undoes_join(dir.push(file), '/');
    lemma_steps_keep_names(dir.push(file));
    assert(dir.push(file).drop_last() =~= dir);
    assert(parent(importer) == joined(dir, "/"@));
    let dot = "."@;
    let path = parent(importer) + "/"@ + ("./"@ + name);
    let pieces = if dir.len() == 0 {
        seq![Seq::<char>::empty(), dot, name]
    } else {
        dir.push(dot).push(name)
    };
    assert(!dot.contains('/'));
    assert forall|i: int| 0 <= i < pieces.len() implies !(#[trigger] pieces[i]).contains('/') by {
        if i < dir.len() {
            assert(is_name(dir[i]));
        }
    }
    let front = pieces.drop_last();
    assert(joined(pieces, "/"@) == joined(front, "/"@) + "/"@ + name);
    if dir.len() == 0 {
        let first = front.drop_last();
        assert(first =~= seq![Seq::<char>::empty()]);
        assert(joined(first, "/"@) == Seq::<char>::empty());
        assert(joined(front, "/"@) == joined(first, "/"@) + "/"@ + dot);
        assert(first.drop_last() =~= Seq::<Seq<char>>::empty());
        assert(walked(first.drop_last()) =~= Seq::<Seq<char>>::empty());
        assert(stays(first.last()));
        assert(walked(first) =~= Seq::<Seq<char>>::empty());
        assert(walked(front) =~= walked(first));
        assert(walked(pieces) =~= dir.push(name));
    } else {
        assert(front =~= dir.push(dot));
        assert(front.drop_last() =~= dir);
        assert(joined(front, "/"@) == joined(dir, "/"@) + "/"@ + dot);
        lemma_walked_keeps_names(dir);
        assert(walked(front) == walked(dir));
        assert(walked(pieces) == dir.push(name));
    }
    assert("./"@ =~= dot + "/"@);
    assert(joined(pieces, "/"@) =~= path);
    split_undoes_join(pieces, '/');
}

proof fn lemma_steps_keep_names(pieces: Seq<Seq<char>>)
    requires
        forall|i: int| 0 <= i < pieces.len() ==> is_name(#[trigger] pieces[i]),
    ensures
        steps(pieces) == pieces,
    decreases pieces.len(),
{
    if pieces.len() > 0 {
        let front = pieces.drop_last();
        assert forall|i: int| 0 <= i < front.len() implies is_name(#[trigger] front[i]) by {
            assert(front[i] == pieces[i]);
        }
        lemma_steps_keep_names(front);
        assert(is_name(pieces[pieces.len() - 1]));
        assert(front.push(pieces.last()) == pieces);
    }
}

// ---------------------------------------------------------------------------
// Resolving
// ---------------------------------------------------------------------------

fn piece_stays(piece: &str) -> (r: bool)
    ensures
        r == stays(piece@),
{
    let nothing = String::new();
    assert(piece@.len() == 0 ==> piece@ =~= nothing@);
    same_text(piece, nothing.as_str()) || same_text(piece, ".")
}

/// A path without empty pieces, dots and double dots.
pub fn normalize_path(path: &str) -> (s: String)
    ensures
        s@ == normal(path@),
{
    let pieces = split_text(path, '/');
    let ghost all = split(path@, '/');
    let mut names: Vec<String> = Vec::new();
    for i in 0..pieces.len()
        invariant
            all == texts(pieces@),
            texts(names@) == walked(all.take(i as int)),
    {
        let piece = pieces[i].as_str();
        proof {
            assert(all.take(i + 1).drop_last() =~= all.take(i as int));
            assert(all.take(i + 1).last() == piece@);
            assert(texts(names@).len() == names@.len());
        }
        if piece_stays(piece) {
        } else if same_text(piece, "..") {
            let ghost before = names@;
            let _ = names.pop();
            assert(before.len() > 0 ==> texts(names@) =~= texts(before).drop_last());
        } else {
            let name = piece.to_owned();
            proof {
                lemma_texts_push(names@, name);
            }
            names.push(name);
        }
    }
    assert(all.take(pieces@.len() as int) =~= all);
    join_texts(&names, "/")
}

/// The directory of a file.
pub fn parent_path(path: &str) -> (s: String)
    ensures
        s@ == parent(path@),
{
    let pieces = split_text(path, '/');
    let ghost all = split(path@, '/');
    let mut names: Vec<String> = Vec::new();
    for i in 0..pieces.len()
        invariant
            all == texts(pieces@),
            texts(names@) == steps(all.take(i as int)),
    {
        let piece = pieces[i].as_str();
        proof {
            assert(all.take(i + 1).drop_last() =~= all.take(i as int));
            assert(all.take(i + 1).last() == piece@);
        }
        if !piece_stays(piece) {
            let name = piece.to_owned();
            proof {
                lemma_texts_push(names@, name);
            }
            names.push(name);
        }
    }
    assert(all.take(pieces@.len() as int) =~= all);
    let ghost before = names@;
    let _ = names.pop();
    assert(texts(before).len() == before.len());
    assert(before.len() > 0 ==> texts(names@) =~= texts(before).drop_last());
    assert(before.len() == 0 ==> texts(names@) =~= Seq::<Seq<char>>::empty());
    join_texts(&names, "/")
}

/// The file that a specifier in the file `importer` refers to.
pub fn resolve_specifier(importer: &str, specifier: &str) -> (s: String)
    ensures
        s@ == resolved(importer@, specifier@),
        specifier@.len() == 0 || specifier@[0] != '.' ==> s@ == specifier@,
        specifier@.len() > 0 && specifier@[0] == '.' ==> s@ == normal(
            parent(importer@) + "/"@ + specifier@,
        ),
{
    let start = characters(specifier);
    if start.len() == 0 || start[0] != '.' {
        return specifier.to_owned();
    }
    let mut path = parent_path(importer);
    path.append("/");
    path.append(specifier);
    normalize_path(path.as_str())
}

} // verus!
