//! Links that open a case in the online playground of the bundler.
use crate::base64_text::{base64_text, encode_base64};
use crate::case::{filename, CaseModel, GraphCase};
use crate::fixture::{
    files_tell_nodes_apart, fixture_files, fixture_names_are_distinct, fixture_of,
};
use crate::json::{
    entries, json_text, new_members_come_last, new_object, put, write_object, Json, JsonItem,
};
use crate::options::{items_of, BundlerOptions, OptionsModel};
use crate::order::has_number;
use crate::render::{file_view, file_views};
use crate::text::optional_text;
use flate2::write::ZlibEncoder;
use flate2::Compression;
use serde_json::Value;
use std::io::Write;
use vstd::prelude::*;
use vstd::utf8::encode_utf8;

verus! {

// ---------------------------------------------------------------------------
// The state of the playground
// ---------------------------------------------------------------------------

/// A file of the playground: its name, what it holds, and a mark where it is
/// an entry point.
pub open spec fn file_members(file: (Seq<char>, Seq<char>), is_entry: bool) -> Seq<
    (Seq<char>, Json),
> {
    let plain = seq![("n"@, Json::Text(file.0)), ("c"@, Json::Text(file.1))];
    if is_entry {
        plain.push(("e"@, Json::Flag(true)))
    } else {
        plain
    }
}

/// Whether a file of the fixture of a case is an entry point. The files of the
/// nodes come first, in the order of the nodes.
pub open spec fn is_entry_file(case: CaseModel, i: int) -> bool {
    i < case.node_count && case.entry_nodes.contains(i as usize)
}

/// The files of the playground: those of the fixture, in their order.
pub open spec fn repl_files(case: CaseModel, options: OptionsModel) -> Seq<(Seq<char>, Json)> {
    let files = fixture_of(case, options);
    Seq::new(
        files.len(),
        |i: int| (files[i].0, Json::Object(file_members(files[i], is_entry_file(case, i)))),
    )
}

/// The state of the playground: the files, and the version of the bundler.
pub open spec fn repl_state(case: CaseModel, options: OptionsModel) -> Seq<(Seq<char>, Json)> {
    seq![("f"@, Json::Object(repl_files(case, options))), ("v"@, Json::Text("latest"@))]
}

/// The files that are marked as entry points are those that the entry points
/// of the case import.
pub proof fn marked_files_are_imported_by_entries(case: CaseModel, options: OptionsModel, i: int)
    requires
        0 <= i < case.node_count,
    ensures
        is_entry_file(case, i) <==> exists|k: int|
            0 <= k < items_of(case).len() && (#[trigger] items_of(case)[k]).import == "./"@
                + fixture_of(case, options)[i].0,
{
    let file = fixture_of(case, options)[i].0;
    if is_entry_file(case, i) {
        let k = choose|k: int| 0 <= k < case.entry_nodes.len() && case.entry_nodes[k] == i as usize;
        assert(items_of(case)[k].import == "./"@ + file);
    }
    if exists|k: int|
        0 <= k < items_of(case).len() && (#[trigger] items_of(case)[k]).import == "./"@ + file {
        let k = choose|k: int|
            0 <= k < items_of(case).len() && (#[trigger] items_of(case)[k]).import == "./"@ + file;
        let entry = case.entry_nodes[k];
        let lead = "./"@;
        assert(items_of(case)[k].import == lead + filename(case, entry));
        assert((lead + filename(case, entry)).skip(lead.len() as int) =~= filename(case, entry));
        assert((lead + file).skip(lead.len() as int) =~= file);
        files_tell_nodes_apart(case, entry, i as usize);
        assert(case.entry_nodes.contains(i as usize));
    }
}

/// The playground is given every file of the fixture under its name, with the
/// name and what the file holds, and with a mark exactly where the file is that
/// of an entry node; and the latest version of the bundler. The link has it all
/// behind the hash sign.
pub proof fn playgrounds_hold_the_fixture(case: CaseModel, options: OptionsModel, i: int)
    requires
        0 <= i < fixture_of(case, options).len(),
    ensures
        ({
            let file = fixture_of(case, options)[i];
            let plain = seq![("n"@, Json::Text(file.0)), ("c"@, Json::Text(file.1))];
            let marked = i < case.node_count && case.entry_nodes.contains(i as usize);
            &&& repl_files(case, options).len() == fixture_of(case, options).len()
            &&& repl_files(case, options)[i] == (
                file.0,
                Json::Object(
                    if marked {
                        plain.push(("e"@, Json::Flag(true)))
                    } else {
                        plain
                    },
                ),
            )
            &&& repl_state(case, options) == seq![
                ("f"@, Json::Object(repl_files(case, options))),
                ("v"@, Json::Text("latest"@)),
            ]
        }),
        repl_url(case, options) == "https://repl.rolldown.rs/#"@ + base64_text(
            zlib_best(encode_utf8(json_text(Json::Object(repl_state(case, options))))),
        ),
{
}

proof fn lemma_keys_differ()
    ensures
        "n"@ != "c"@,
        "n"@ != "e"@,
        "c"@ != "e"@,
        "f"@ != "v"@,
{
    reveal_strlit("n");
    reveal_strlit("c");
    reveal_strlit("e");
    reveal_strlit("f");
    reveal_strlit("v");
    assert("n"@[0] == 'n');
    assert("c"@[0] == 'c');
    assert("e"@[0] == 'e');
    assert("f"@[0] == 'f');
    assert("v"@[0] == 'v');
}

fn file_object(name: String, source: String, is_entry: bool) -> (object: serde_json::Map<
    String,
    Value,
>)
    ensures
        entries(object) == file_members((name@, source@), is_entry),
{
    let mut object = new_object();
    let ghost n = ("n"@, Json::Text(name@));
    let ghost c = ("c"@, Json::Text(source@));
    put(&mut object, "n".to_owned(), JsonItem::Text(name));
    proof {
        lemma_keys_differ();
        new_members_come_last(Seq::empty(), n.0, n.1);
        assert(entries(object) =~= seq![n]);
        new_members_come_last(seq![n], c.0, c.1);
    }
    put(&mut object, "c".to_owned(), JsonItem::Text(source));
    assert(entries(object) =~= seq![n, c]);
    if is_entry {
        proof {
            new_members_come_last(seq![n, c], "e"@, Json::Flag(true));
        }
        put(&mut object, "e".to_owned(), JsonItem::Flag(true));
    }
    object
}

fn files_object(case: &GraphCase, options: &BundlerOptions) -> (object: serde_json::Map<
    String,
    Value,
>)
    requires
        case@.edges_start_at_nodes(),
    ensures
        entries(object) == repl_files(case@, options@),
{
    let files = fixture_files(case, options);
    let ghost fixture = fixture_of(case@, options@);
    let ghost members = repl_files(case@, options@);
    let mut object = new_object();
    proof {
        fixture_names_are_distinct(case@, options@);
        assert(members.take(0) =~= Seq::<(Seq<char>, Json)>::empty());
        assert(file_views(files@).len() == files@.len());
    }
    for i in 0..files.len()
        invariant
            fixture == fixture_of(case@, options@),
            members == repl_files(case@, options@),
            file_views(files@) == fixture,
            files@.len() == fixture.len(),
            fixture.len() == case@.node_count + 1,
            forall|a: int, b: int|
                0 <= a < b < fixture.len() ==> (#[trigger] fixture[a]).0 != (
                #[trigger] fixture[b]).0,
            entries(object) == members.take(i as int),
    {
        let is_entry = i < case.node_count && has_number(&case.entry_nodes, i);
        let name = files[i].0.clone();
        let source = files[i].1.clone();
        assert(file_views(files@)[i as int] == file_view(files@[i as int]));
        let file = file_object(name.clone(), source, is_entry);
        proof {
            let before = members.take(i as int);
            assert forall|k: int| 0 <= k < before.len() implies (#[trigger] before[k]).0
                != name@ by {
                assert(before[k] == members[k]);
                assert(members[k].0 == fixture[k].0);
                assert(fixture[k].0 != fixture[i as int].0);
            }
            new_members_come_last(before, name@, Json::Object(entries(file)));
            assert(members.take(i + 1) =~= before.push(members[i as int]));
        }
        put(&mut object, name, JsonItem::Object(file));
    }
    assert(members.take(files@.len() as int) =~= members);
    object
}

fn state_object(case: &GraphCase, options: &BundlerOptions) -> (object: serde_json::Map<
    String,
    Value,
>)
    requires
        case@.edges_start_at_nodes(),
    ensures
        entries(object) == repl_state(case@, options@),
{
    let mut object = new_object();
    let files = files_object(case, options);
    let ghost f = ("f"@, Json::Object(repl_files(case@, options@)));
    put(&mut object, "f".to_owned(), JsonItem::Object(files));
    proof {
        lemma_keys_differ();
        new_members_come_last(Seq::empty(), f.0, f.1);
        assert(entries(object) =~= seq![f]);
        new_members_come_last(seq![f], "v"@, Json::Text("latest"@));
    }
    put(&mut object, "v".to_owned(), JsonItem::Text("latest".to_owned()));
    assert(entries(object) =~= repl_state(case@, options@));
    object
}

// ---------------------------------------------------------------------------
// The link
// ---------------------------------------------------------------------------

/// Bytes as a zlib stream at the best compression.
pub uninterp spec fn zlib_best(bytes: Seq<u8>) -> Seq<u8>;

/// The bytes in an option.
pub open spec fn optional_bytes(bytes: Option<Vec<u8>>) -> Option<Seq<u8>> {
    match bytes {
        Some(bytes) => Some(bytes@),
        None => None,
    }
}

/// `flate2::write::ZlibEncoder` compresses what is written to it into a zlib
/// stream; here all of `bytes`, at `Compression::best`, into a list of bytes.
/// The stream is taken to depend on the bytes alone; what it holds is left
/// unsaid. A list of bytes takes whatever is written to it, and a fresh stream
/// that is written to and then finished is never in a wrong state, so that
/// neither step fails.
#[verifier::external_body]
fn compress(bytes: &[u8]) -> (compressed: Option<Vec<u8>>)
    ensures
        optional_bytes(compressed) == Some(zlib_best(bytes@)),
{
    let mut encoder = ZlibEncoder::new(Vec::new(), Compression::best());
    encoder.write_all(bytes).ok()?;
    encoder.finish().ok()
}

/// The hash for some bytes, given what they were compressed to: that in base64
/// or, where there is none, the bytes themselves.
pub open spec fn hash_of(bytes: Seq<u8>, compressed: Option<Seq<u8>>) -> Seq<char> {
    match compressed {
        Some(stream) => base64_text(stream),
        None => base64_text(bytes),
    }
}

/// The hash for a text: the text compressed, in base64.
pub open spec fn repl_hash(serialized: Seq<char>) -> Seq<char> {
    base64_text(zlib_best(encode_utf8(serialized)))
}

/// The link for a hash or, where there is none, to the empty playground.
pub open spec fn link_of(hash: Option<Seq<char>>) -> Seq<char> {
    match hash {
        Some(hash) => "https://repl.rolldown.rs/#"@ + hash,
        None => "https://repl.rolldown.rs/"@,
    }
}

/// The link that opens a case with its options: the files of its fixture as
/// JSON, compressed, in base64.
pub open spec fn repl_url(case: CaseModel, options: OptionsModel) -> Seq<char> {
    "https://repl.rolldown.rs/#"@ + repl_hash(json_text(Json::Object(repl_state(case, options))))
}

/// The hash for some bytes, given what they were compressed to.
pub fn hash_from_compressed(bytes: &[u8], compressed: Option<Vec<u8>>) -> (hash: String)
    ensures
        hash@ == hash_of(bytes@, optional_bytes(compressed)),
        compressed matches Some(stream) ==> hash@ == base64_text(stream@),
        compressed is None ==> hash@ == base64_text(bytes@),
{
    match compressed {
        Some(stream) => encode_base64(stream.as_slice()),
        None => encode_base64(bytes),
    }
}

/// The hash for a text: the text compressed, in base64.
pub fn encode_repl_hash(serialized: &str) -> (hash: String)
    ensures
        hash@ == repl_hash(serialized@),
{
    let bytes = serialized.as_bytes();
    hash_from_compressed(bytes, compress(bytes))
}

/// The link for a hash, if there is one.
pub fn link_for_hash(hash: Option<String>) -> (url: String)
    ensures
        url@ == link_of(optional_text(hash)),
        hash matches Some(hash) ==> url@ == "https://repl.rolldown.rs/#"@ + hash@,
        hash is None ==> url@ == "https://repl.rolldown.rs/"@,
{
    match hash {
        Some(hash) => {
            let mut url = "https://repl.rolldown.rs/#".to_owned();
            url.append(hash.as_str());
            url
        },
        None => "https://repl.rolldown.rs/".to_owned(),
    }
}

/// The link that opens a case with its options: the files of its fixture as
/// JSON, compressed, in base64.
pub fn build_repl_url(case: &GraphCase, options: &BundlerOptions) -> (url: String)
    requires
        case@.edges_start_at_nodes(),
    ensures
        url@ == repl_url(case@, options@),
{
    let hash = match write_object(state_object(case, options)) {
        Some(serialized) => Some(encode_repl_hash(serialized.as_str())),
        None => None,
    };
    link_for_hash(hash)
}

} // verus!
