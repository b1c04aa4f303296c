//! Checking that output chunks are valid JavaScript.
use crate::output::{
    chunks_among, first_among, lemma_among_take, lemma_complaint_stays, lemma_none_among,
    BundleOutput, ChunkModel, Output,
};
use crate::text::{join_texts, joined, texts};
use oxc::allocator::Allocator;
use oxc::parser::{ParseOptions, Parser};
use oxc::span::SourceType;
use vstd::prelude::*;

verus! {

/// What parsing a text as an ES module gives: whether the parser gave up, and
/// the messages of the syntax errors it met. The flag says whether `return` is
/// allowed outside functions.
pub uninterp spec fn module_parse(
    code: Seq<char>,
    allow_return_outside_function: bool,
) -> (bool, Seq<Seq<char>>);

/// Parses a text with `oxc::parser::Parser::parse`, as a JavaScript module
/// (`SourceType::mjs`) and with the default options but for the given one.
/// The result is taken to depend on these two arguments alone; which texts
/// have errors, and what the messages are, is left unsaid. The parser descends
/// into nested code by recursion, so that deep nesting takes much stack.
///
/// Of the result it gives `panicked`, and each of the `errors` by its
/// `Display`, which is the message of the error.
#[verifier::external_body]
fn parse_module(code: &str, allow_return_outside_function: bool) -> (report: (bool, Vec<String>))
    ensures
        (report.0, texts(report.1@)) == module_parse(code@, allow_return_outside_function),
{
    let allocator = Allocator::default();
    let options = ParseOptions { allow_return_outside_function, ..ParseOptions::default() };
    let parsed = Parser::new(&allocator, code, SourceType::mjs()).with_options(options).parse();
    (parsed.panicked, parsed.errors.iter().map(|error| error.to_string()).collect())
}

/// What is wrong with a file whose parse gave the given report.
pub open spec fn syntax_complaint(
    filename: Seq<char>,
    panicked: bool,
    errors: Seq<Seq<char>>,
) -> Option<Seq<char>> {
    if panicked || errors.len() > 0 {
        Some("Syntax error in output chunk '"@ + filename + "':\n"@ + joined(errors, "\n"@))
    } else {
        None
    }
}

/// What is wrong with the syntax of each chunk.
pub open spec fn syntax_complaints() -> spec_fn(ChunkModel) -> Option<Seq<char>> {
    |chunk: ChunkModel|
        syntax_complaint(
            chunk.filename,
            module_parse(chunk.code, true).0,
            module_parse(chunk.code, true).1,
        )
}

/// What checking the syntax of an output gives.
pub open spec fn syntax_verdict(chunks: Seq<ChunkModel>) -> Result<(), Seq<char>> {
    match first_among(chunks, syntax_complaints()) {
        Some(message) => Err(message),
        None => Ok(()),
    }
}

/// An output passes exactly when the parser gets through every chunk without
/// an error.
pub proof fn outputs_pass_when_chunks_parse(chunks: Seq<ChunkModel>)
    ensures
        syntax_verdict(chunks) is Ok <==> (forall|i: int|
            0 <= i < chunks.len() ==> {
                let report = module_parse((#[trigger] chunks[i]).code, true);
                !report.0 && report.1.len() == 0
            }),
{
    lemma_none_among(chunks, syntax_complaints());
    assert forall|i: int| 0 <= i < chunks.len() implies ({
        let report = module_parse((#[trigger] chunks[i]).code, true);
        !report.0 && report.1.len() == 0
    } <==> syntax_complaints()(chunks[i]) is None) by {}
}

/// Says what is wrong with a file, given what the parser reported of it.
pub fn complain_of_syntax(filename: &str, panicked: bool, errors: &Vec<String>) -> (complaint:
    Option<String>)
    ensures
        match complaint {
            Some(message) => syntax_complaint(filename@, panicked, texts(errors@)) == Some(
                message@,
            ),
            None => syntax_complaint(filename@, panicked, texts(errors@)) is None,
        },
{
    assert(texts(errors@).len() == errors@.len());
    if !panicked && errors.len() == 0 {
        return None;
    }
    let mut message = "Syntax error in output chunk '".to_owned();
    message.append(filename);
    message.append("':\n");
    message.append(join_texts(errors, "\n").as_str());
    Some(message)
}

/// Checks that every chunk of an output is valid JavaScript, where a `return`
/// outside functions is let pass.
pub fn validate_output_js_syntax(output: &BundleOutput) -> (result: Result<(), String>)
    ensures
        match result {
            Ok(()) => syntax_verdict(output@) is Ok,
            Err(message) => syntax_verdict(output@) == Err::<(), Seq<char>>(message@),
        },
{
    let ghost complaints = syntax_complaints();
    for i in 0..output.assets.len()
        invariant
            complaints == syntax_complaints(),
            first_among(chunks_among(output.assets@.take(i as int)), complaints) is None,
    {
        proof {
            lemma_among_take(output.assets@, complaints, i as int);
        }
        match &output.assets[i] {
            Output::Chunk(chunk) => {
                let (panicked, errors) = parse_module(chunk.code.as_str(), true);
                if let Some(message) = complain_of_syntax(
                    chunk.filename.as_str(),
                    panicked,
                    &errors,
                ) {
                    proof {
                        lemma_complaint_stays(output.assets@, complaints, i + 1);
                    }
                    return Err(message);
                }
            },
            Output::Asset => {},
        }
    }
    assert(output.assets@.take(output.assets@.len() as int) =~= output.assets@);
    Ok(())
}

} // verus!
