//! The parsing workload: one document, parsed into a tree again and again.

use vstd::prelude::*;
use vstd::slice::slice_to_vec;

verus! {

/// The error with which `simd_json` refuses a document. Nothing of it is read
/// here.
#[verifier::external_type_specification]
#[verifier::external_body]
pub struct ExJsonError(simd_json::Error);

/// Whether `simd_json::to_borrowed_value` builds a tree from these bytes.
pub uninterp spec fn is_json(doc: Seq<u8>) -> bool;

/// The document was refused at the parse with this index.
#[derive(Clone, Copy, Debug, PartialEq, Eq, Structural)]
pub struct Malformed {
    pub attempt: usize,
}

/// The record of the parses made in one run: for each parse, the bytes that
/// were handed to the parser.
pub struct Parser {
    parsed: Ghost<Seq<Seq<u8>>>,
}

impl Parser {
    /// The bytes handed to the parser so far, one entry for each parse, the
    /// oldest first.
    pub closed spec fn parsed(&self) -> Seq<Seq<u8>> {
        self.parsed@
    }

    /// A record of no parse.
    pub fn new() -> (parser: Parser)
        ensures
            parser.parsed() == Seq::<Seq<u8>>::empty(),
    {
        Parser { parsed: Ghost(Seq::empty()) }
    }
}

/// `count` entries, each of them `doc`.
pub open spec fn repeated(doc: Seq<u8>, count: nat) -> Seq<Seq<u8>> {
    Seq::new(count, |i: int| doc)
}

/// Calls `simd_json::to_borrowed_value` on the buffer, which the parser may
/// rewrite, and drops the tree. Trusted: the call is made, the record is
/// longer by the bytes that the buffer held, and whether a tree is built
/// depends on those bytes alone.
#[verifier::external_body]
fn parse_in_place(parser: &mut Parser, buffer: &mut Vec<u8>) -> (parsed: Result<
    (),
    simd_json::Error,
>)
    ensures
        parsed is Ok <==> is_json(old(buffer)@),
        final(parser).parsed() == old(parser).parsed().push(old(buffer)@),
{
    let parsed = match simd_json::to_borrowed_value(buffer.as_mut_slice()) {
        Ok(_) => Ok(()),
        Err(e) => Err(e),
    };
    parsed
}

/// One parse of the document: the parser gets a fresh copy, and the document
/// stays as it is.
fn parse_copy(parser: &mut Parser, doc: &[u8]) -> (parsed: Result<(), simd_json::Error>)
    ensures
        parsed is Ok <==> is_json(doc@),
        final(parser).parsed() == old(parser).parsed().push(doc@),
{
    let mut buffer = slice_to_vec(doc);
    parse_in_place(parser, &mut buffer)
}

/// What one parse means for the run: a tree lets it go on, a refusal ends it
/// and is reported with the index of the parse.
pub fn settle(attempt: usize, parsed: Result<(), simd_json::Error>) -> (verdict: Result<
    (),
    Malformed,
>)
    ensures
        verdict == (match parsed {
            Ok(_) => Ok::<(), Malformed>(()),
            Err(_) => Err::<(), Malformed>(Malformed { attempt }),
        }),
{
    match parsed {
        Ok(_) => Ok(()),
        Err(_) => Err(Malformed { attempt }),
    }
}

/// The parsing workload: parses `doc` `iteration` times, each time from a
/// fresh copy, drops each tree, and hands back the number of trees built.
/// That the document is JSON is a precondition of every run that parses at
/// all: a run on any other document is no run of this workload.
pub fn simdjson(parser: &mut Parser, doc: &[u8], iteration: usize) -> (built: usize)
    requires
        iteration == 0 || is_json(doc@),
    ensures
        built == iteration,
        final(parser).parsed() == old(parser).parsed() + repeated(doc@, iteration as nat),
{
    let ghost before = parser.parsed();
    let mut built: usize = 0;
    assert(before + repeated(doc@, 0) =~= before);
    while built < iteration
        invariant
            built <= iteration,
            iteration == 0 || is_json(doc@),
            parser.parsed() == before + repeated(doc@, built as nat),
        decreases iteration - built,
    {
        let parsed = parse_copy(parser, doc);
        assert(parsed is Ok);
        built += 1;
        assert(parser.parsed() =~= before + repeated(doc@, built as nat));
    }
    built
}

/// The parsing workload for a document of which nothing is known. With no
/// parse asked for, nothing is parsed and nothing refused. Else the first
/// parse decides: a document that is no JSON is refused there and no other
/// parse is made, and a document that is JSON goes through all `iteration`
/// parses, the deciding one counted.
pub fn try_simdjson(parser: &mut Parser, doc: &[u8], iteration: usize) -> (outcome: Result<
    usize,
    Malformed,
>)
    ensures
        iteration == 0 || is_json(doc@) ==> outcome == Ok::<usize, Malformed>(iteration)
            && final(parser).parsed() == old(parser).parsed() + repeated(doc@, iteration as nat),
        iteration > 0 && !is_json(doc@) ==> outcome == Err::<usize, Malformed>(
            Malformed { attempt: 0 },
        ) && final(parser).parsed() == old(parser).parsed().push(doc@),
{
    let ghost before = parser.parsed();
    if iteration == 0 {
        return Ok(simdjson(parser, doc, 0));
    }
    match settle(0, parse_copy(parser, doc)) {
        Ok(_) => {
            let rest = simdjson(parser, doc, iteration - 1);
            assert(parser.parsed() =~= before + repeated(doc@, iteration as nat));
            Ok(rest + 1)
        },
        Err(refusal) => Err(refusal),
    }
}

} // verus!
