//! Laws of walking along paths.
use crate::paths::{is_name, normal, parent, resolved, steps, walked};
use crate::text::{joined, split_undoes_join};
use crate::text_laws::joining_is_concatenation;
use vstd::prelude::*;

verus! {

/// A name leads one step on, two dots lead one step back, where there is one,
/// and a single dot or nothing leads nowhere.
pub proof fn steps_lead_on_and_back(pieces: Seq<Seq<char>>, piece: Seq<char>)
    ensures
        walked(pieces.push("."@)) == walked(pieces),
        walked(pieces.push(Seq::empty())) == walked(pieces),
        walked(pieces.push(".."@)) == (if walked(pieces).len() == 0 {
            Seq::<Seq<char>>::empty()
        } else {
            walked(pieces).drop_last()
        }),
        piece.len() > 0 && piece != "."@ && piece != ".."@ ==> walked(pieces.push(piece)) == walked(
            pieces,
        ).push(piece),
        walked(Seq::empty()) == Seq::<Seq<char>>::empty(),
{
    reveal_strlit(".");
    reveal_strlit("..");
    assert(pieces.push("."@).drop_last() =~= pieces);
    assert(pieces.push(Seq::empty()).drop_last() =~= pieces);
    assert(pieces.push(".."@).drop_last() =~= pieces);
    assert(pieces.push(piece).drop_last() =~= pieces);
    assert(".."@.len() == 2);
    assert("."@.len() == 1);
    if walked(pieces).len() == 0 {
        assert(walked(pieces) =~= Seq::<Seq<char>>::empty());
    }
}

/// Going into a directory and back out of it leads nowhere else.
pub proof fn there_and_back(pieces: Seq<Seq<char>>, name: Seq<char>)
    requires
        is_name(name),
    ensures
        walked(pieces.push(name).push(".."@)) == walked(pieces),
{
    steps_lead_on_and_back(pieces, name);
    steps_lead_on_and_back(pieces.push(name), name);
    assert(walked(pieces).push(name).drop_last() =~= walked(pieces));
}

proof fn lemma_slash()
    ensures
        "/"@ == seq!['/'],
{
    reveal_strlit("/");
    assert("/"@ =~= seq!['/']);
}

/// A path is made normal by walking along its pieces between the slashes.
pub proof fn normal_paths_are_walked(pieces: Seq<Seq<char>>)
    requires
        pieces.len() > 0,
        forall|i: int| 0 <= i < pieces.len() ==> !(#[trigger] pieces[i]).contains('/'),
    ensures
        normal(joined(pieces, "/"@)) == joined(walked(pieces), "/"@),
{
    lemma_slash();
    split_undoes_join(pieces, '/');
}

/// The directory of a file is what stands before its last piece that leads
/// somewhere; pieces that lead nowhere do not count.
pub proof fn directories_stand_before_files(
    a: Seq<Seq<char>>,
    b: Seq<Seq<char>>,
    piece: Seq<char>,
)
    ensures
        steps(a + b) == steps(a) + steps(b),
        steps(seq![piece]) == (if piece.len() == 0 || piece == "."@ {
            Seq::<Seq<char>>::empty()
        } else {
            seq![piece]
        }),
        a.len() > 0 && (forall|i: int| 0 <= i < a.len() ==> !(#[trigger] a[i]).contains('/')) && steps(
            a,
        ).len() > 0 ==> parent(joined(a, "/"@)) == joined(steps(a).drop_last(), "/"@),
        a.len() > 0 && (forall|i: int| 0 <= i < a.len() ==> !(#[trigger] a[i]).contains('/')) && steps(
            a,
        ).len() == 0 ==> parent(joined(a, "/"@)) == Seq::<char>::empty(),
    decreases b.len(),
{
    lemma_slash();
    let one = seq![piece];
    let none = one.drop_last();
    assert(none.len() == 0);
    assert(steps(none) =~= Seq::<Seq<char>>::empty());
    assert(steps(one) =~= (if piece.len() == 0 || piece == "."@ {
        Seq::<Seq<char>>::empty()
    } else {
        seq![piece]
    }));
    if a.len() > 0 && (forall|i: int| 0 <= i < a.len() ==> !(#[trigger] a[i]).contains('/')) {
        split_undoes_join(a, '/');
    }
    if b.len() == 0 {
        assert(a + b =~= a);
        assert(steps(a + b) =~= steps(a) + steps(b));
    } else {
        directories_stand_before_files(a, b.drop_last(), piece);
        assert((a + b).drop_last() =~= a + b.drop_last());
        assert(steps(a + b) =~= steps(a) + steps(b));
    }
}

/// A specifier that does not start with a dot is the name of a file itself;
/// one that does leads there from the directory of the importer.
pub proof fn specifiers_lead_from_the_importer(importer: Seq<char>, specifier: Seq<char>)
    ensures
        specifier.len() == 0 || specifier[0] != '.' ==> resolved(importer, specifier) == specifier,
        specifier.len() > 0 && specifier[0] == '.' ==> resolved(importer, specifier) == normal(
            parent(importer) + "/"@ + specifier,
        ),
{
}

proof fn lemma_names_stay(dir: Seq<Seq<char>>)
    requires
        forall|i: int| 0 <= i < dir.len() ==> is_name(#[trigger] dir[i]),
    ensures
        walked(dir) == dir,
        steps(dir) == dir,
    decreases dir.len(),
{
    if dir.len() > 0 {
        let front = dir.drop_last();
        assert forall|i: int| 0 <= i < front.len() implies is_name(#[trigger] front[i]) by {
            assert(front[i] == dir[i]);
        }
        lemma_names_stay(front);
        assert(is_name(dir[dir.len() - 1]));
        assert(front.push(dir.last()) =~= dir);
    }
}

/// A specifier that starts with two dots leads out of the directory of the
/// importer: to a file in the directory above it.
pub proof fn double_dots_lead_to_the_directory_above(
    dir: Seq<Seq<char>>,
    sub: Seq<char>,
    file: Seq<char>,
    name: Seq<char>,
)
    requires
        forall|i: int| 0 <= i < dir.len() ==> is_name(#[trigger] dir[i]),
        is_name(sub),
        is_name(file),
        is_name(name),
    ensures
        resolved(joined(dir.push(sub).push(file), "/"@), "../"@ + name) == joined(
            dir.push(name),
            "/"@,
        ),
{
    lemma_slash();
    reveal_strlit("../");
    reveal_strlit("..");
    reveal_strlit(".");
    let up = ".."@;
    let importer_pieces = dir.push(sub).push(file);
    assert forall|i: int| 0 <= i < importer_pieces.len() implies is_name(
        #[trigger] importer_pieces[i],
    ) by {
        if i < dir.len() {
            assert(is_name(dir[i]));
        }
    }
    lemma_names_stay(importer_pieces);
    directories_stand_before_files(importer_pieces, Seq::empty(), file);
    assert(importer_pieces.drop_last() =~= dir.push(sub));
    let importer = joined(importer_pieces, "/"@);
    assert(parent(importer) == joined(dir.push(sub), "/"@));
    let tail = seq![up, name];
    let front = tail.drop_last();
    assert(front =~= seq![up]);
    assert(joined(tail, "/"@) == joined(front, "/"@) + "/"@ + name);
    assert("../"@ =~= up + "/"@);
    assert(joined(tail, "/"@) =~= "../"@ + name);
    joining_is_concatenation(dir.push(sub), tail, "/"@);
    let pieces = dir.push(sub) + tail;
    assert(pieces =~= dir.push(sub).push(up).push(name));
    assert(!up.contains('/'));
    assert forall|i: int| 0 <= i < pieces.len() implies !(#[trigger] pieces[i]).contains('/') by {
        if i < dir.len() {
            assert(is_name(dir[i]));
        }
    }
    normal_paths_are_walked(pieces);
    there_and_back(dir, sub);
    steps_lead_on_and_back(dir.push(sub).push(up), name);
    lemma_names_stay(dir);
    assert(name.len() > 0 && name != "."@ && name != ".."@);
    assert(("../"@ + name)[0] == '.');
}

} // verus!
