//! Top-level orchestration: from the input text and the collaborators'
//! outcomes to the final result handed to the calling runtime.
//!
//! The stages: empty input is done at once with the empty success; a
//! non-empty input's grammar outcome is a syntax error or a tree; a
//! tree is walked into tool calls or the first semantic error; the
//! collected calls pass through the codec, whose bytes or failure text
//! end the invocation. Every failure is terminal: nothing is retried.

use vstd::prelude::*;

use crate::collector::{collect_result_view, collect_tool_calls, lemma_first_error_short_circuit, spec_collect};
use crate::errors::{BaseError, ConversionError, SpecBaseError, SpecError, spec_message};
use crate::model::{SpecToolCall, ToolCalls};
use crate::syntax::{ParseOutcome, SerializeOutcome, SpecParseOutcome, SpecSerializeOutcome};

verus! {

/// The tagged result handed across the boundary: the serialized calls
/// on success, a human-readable message on failure.
#[derive(Debug, PartialEq, Eq)]
pub struct ToolCallResult {
    pub serialized_tool_calls: Vec<u8>,
    pub is_ok: bool,
    pub error: String,
}

impl ToolCallResult {
    /// A successful result carrying the codec's bytes.
    pub fn with_tool_calls(tool_calls: Vec<u8>) -> (r: Self)
        ensures
            r.is_ok,
            r.serialized_tool_calls@ == tool_calls@,
            r.error@ == Seq::<char>::empty(),
    {
        Self { serialized_tool_calls: tool_calls, is_ok: true, error: String::new() }
    }

    /// A failed result carrying the message.
    pub fn with_error(error: String) -> (r: Self)
        ensures
            !r.is_ok,
            r.serialized_tool_calls@ == Seq::<u8>::empty(),
            r.error@ == error@,
    {
        Self { serialized_tool_calls: Vec::new(), is_ok: false, error }
    }
}

impl Default for ToolCallResult {
    /// An empty, successful result: no bytes, no error.
    fn default() -> (d: Self)
        ensures
            d.is_ok,
            d.serialized_tool_calls@ == Seq::<u8>::empty(),
            d.error@ == Seq::<char>::empty(),
    {
        Self { serialized_tool_calls: Vec::new(), is_ok: true, error: String::new() }
    }
}

/// What one expression yields before serialization: the empty success
/// for empty input; otherwise the grammar's verdict — its syntax error,
/// or the collected calls of its tree.
pub open spec fn spec_expression_outcome(text: Seq<char>, grammar: SpecParseOutcome) -> Result<
    Seq<SpecToolCall>,
    SpecError,
> {
    if text.len() == 0 {
        Ok(Seq::empty())
    } else {
        match grammar {
            SpecParseOutcome::Failure(m) => Err(
                ConversionError::spec_new(SpecBaseError::Syntax(m)),
            ),
            SpecParseOutcome::Tree(cs) => spec_collect(cs),
        }
    }
}

/// Converts one expression, given the grammar collaborator's outcome
/// for this text. Empty input never consults the grammar and never
/// fails; a grammar failure is surfaced unchanged as a syntax error;
/// a tree is walked by the call collector.
pub fn parse_fc_expression(text: &str, grammar: ParseOutcome) -> (r: Result<
    ToolCalls,
    ConversionError,
>)
    ensures
        collect_result_view(r) == spec_expression_outcome(text@, grammar@),
        text@.len() == 0 ==> (r matches Ok(ts) && ts@ == Seq::<SpecToolCall>::empty()),
        text@.len() != 0 ==> (grammar@ matches SpecParseOutcome::Failure(m) ==> (r matches Err(e)
            && e@ == ConversionError::spec_new(SpecBaseError::Syntax(m)))),
{
    if text.is_empty() {
        let r: Result<ToolCalls, ConversionError> = Ok(ToolCalls { tool_calls: Vec::new() });
        proof {
            assert(crate::model::tool_calls_view(Seq::<crate::model::ToolCall>::empty())
                =~= Seq::<SpecToolCall>::empty());
        }
        return r;
    }
    match grammar {
        ParseOutcome::Failure(m) => Err(ConversionError::new(BaseError::Syntax(m))),
        ParseOutcome::Tree(start) => collect_tool_calls(&start),
    }
}

/// Wraps the collected outcome and the codec's verdict into the final
/// result: a conversion failure's message, or for collected calls the
/// codec's bytes or its failure text.
pub fn serialized_result(
    collected: Result<ToolCalls, ConversionError>,
    serialized: SerializeOutcome,
) -> (r: ToolCallResult)
    ensures
        collected matches Err(e) ==> (!r.is_ok && r.error@ == spec_message(e@)
            && r.serialized_tool_calls@ == Seq::<u8>::empty()),
        collected matches Ok(_) ==> (serialized@ matches SpecSerializeOutcome::Failure(m)
            ==> (!r.is_ok && r.error@ == m && r.serialized_tool_calls@ == Seq::<u8>::empty())),
        collected matches Ok(_) ==> (serialized@ matches SpecSerializeOutcome::Bytes(b)
            ==> (r.is_ok && r.serialized_tool_calls@ == b && r.error@ == Seq::<char>::empty())),
{
    match collected {
        Err(e) => ToolCallResult::with_error(e.message()),
        Ok(_) => match serialized {
            SerializeOutcome::Failure(m) => ToolCallResult::with_error(m),
            SerializeOutcome::Bytes(b) => ToolCallResult::with_tool_calls(b),
        },
    }
}

/// The first failure decides the whole expression: for a non-empty
/// input whose grammar outcome is a tree, a failure over a prefix of
/// the tree's calls is the expression's outcome, whatever calls follow.
pub proof fn lemma_expression_first_error(
    text: Seq<char>,
    cs: Seq<crate::syntax::SpecCall>,
    i: int,
    e: SpecError,
)
    requires
        text.len() != 0,
        0 <= i <= cs.len(),
        spec_collect(cs.take(i)) == Err::<Seq<SpecToolCall>, SpecError>(e),
    ensures
        spec_expression_outcome(text, SpecParseOutcome::Tree(cs)) == Err::<
            Seq<SpecToolCall>,
            SpecError,
        >(e),
{
    lemma_first_error_short_circuit(cs, i, e);
}

} // verus!
