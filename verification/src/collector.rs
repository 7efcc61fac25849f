//! The call collector: reacts to every function-call node a top-down
//! walk of the tree enters, in order, accumulating tool calls until the
//! first failure; after a failure the walk goes on but the collector
//! ignores further calls.

use vstd::prelude::*;

use crate::builder::{parse_object, spec_build_object, struct_result_view};
use crate::errors::{ConversionError, SpecError};
use crate::model::tool_calls_view;
use crate::model::{SpecToolCall, ToolCall, ToolCalls};
use crate::syntax::{calls_view, lemma_calls_view_index, CallNode, SpecCall, StartNode};

verus! {

/// The tool call one call node yields: its identifier's text — empty
/// where the grammar omitted it, never an error — and its argument
/// object's conversion if an object is present.
pub open spec fn spec_call_of(c: SpecCall) -> Result<SpecToolCall, SpecError> {
    let name = match c.id {
        Some(k) => k,
        None => Seq::empty(),
    };
    match c.arguments {
        None => Ok(SpecToolCall { name, arguments: None }),
        Some(ps) => match spec_build_object(ps) {
            Ok(fs) => Ok(SpecToolCall { name, arguments: Some(fs) }),
            Err(e) => Err(e),
        },
    }
}

/// One step of the accumulator: a failed accumulator ignores the call;
/// otherwise the call's outcome is appended, or its failure recorded.
pub open spec fn spec_collect_step(
    acc: Result<Seq<SpecToolCall>, SpecError>,
    c: SpecCall,
) -> Result<Seq<SpecToolCall>, SpecError> {
    match acc {
        Err(e) => Err(e),
        Ok(ts) => match spec_call_of(c) {
            Ok(tc) => Ok(ts.push(tc)),
            Err(e) => Err(e),
        },
    }
}

/// The collector's outcome over call nodes in walk order.
pub open spec fn spec_collect(cs: Seq<SpecCall>) -> Result<Seq<SpecToolCall>, SpecError>
    decreases cs,
{
    if cs.len() == 0 {
        Ok(Seq::empty())
    } else {
        spec_collect_step(spec_collect(cs.drop_last()), cs.last())
    }
}

pub open spec fn collect_result_view(r: Result<ToolCalls, ConversionError>) -> Result<
    Seq<SpecToolCall>,
    SpecError,
> {
    match r {
        Ok(ts) => Ok(ts@),
        Err(e) => Err(e@),
    }
}

/// The tree listener: holds the accumulator the walk feeds.
pub struct FcListener {
    pub tool_calls: Result<ToolCalls, ConversionError>,
}

impl FcListener {
    pub fn new() -> (l: Self)
        ensures
            collect_result_view(l.tool_calls) == Ok::<Seq<SpecToolCall>, SpecError>(Seq::empty()),
    {
        let l = FcListener { tool_calls: Ok(ToolCalls { tool_calls: Vec::new() }) };
        proof {
            assert(tool_calls_view(Seq::<ToolCall>::empty()) =~= Seq::<SpecToolCall>::empty());
        }
        l
    }

    /// The accumulated outcome.
    pub fn tool_calls(self) -> (r: Result<ToolCalls, ConversionError>)
        ensures
            r == self.tool_calls,
    {
        self.tool_calls
    }

    /// Reacts to one function-call node the walk enters.
    #[allow(non_snake_case)]
    pub fn enter_functionCall(&mut self, ctx: &CallNode)
        ensures
            collect_result_view(final(self).tool_calls) == spec_collect_step(
                collect_result_view(old(self).tool_calls),
                ctx@,
            ),
    {
        let mut acc: Result<ToolCalls, ConversionError> = Ok(ToolCalls { tool_calls: Vec::new() });
        core::mem::swap(&mut acc, &mut self.tool_calls);
        match acc {
            Err(e) => {
                self.tool_calls = Err(e);
            },
            Ok(mut ts) => {
                let name = match &ctx.id {
                    Some(k) => k.clone(),
                    None => String::new(),
                };
                match &ctx.arguments {
                    None => {
                        let ghost before = ts.tool_calls@;
                        ts.tool_calls.push(ToolCall { name, arguments: None });
                        proof {
                            assert(ts.tool_calls@.drop_last() =~= before);
                        }
                        self.tool_calls = Ok(ts);
                    },
                    Some(object_ctx) => match parse_object(object_ctx) {
                        Ok(args) => {
                            let ghost before = ts.tool_calls@;
                            ts.tool_calls.push(ToolCall { name, arguments: Some(args) });
                            proof {
                                assert(ts.tool_calls@.drop_last() =~= before);
                            }
                            self.tool_calls = Ok(ts);
                        },
                        Err(e) => {
                            self.tool_calls = Err(e);
                        },
                    },
                }
            },
        }
    }
}

/// Walks the tree: enters every function-call node in walk order and
/// hands back the accumulated outcome.
pub fn collect_tool_calls(start: &StartNode) -> (r: Result<ToolCalls, ConversionError>)
    ensures
        collect_result_view(r) == spec_collect(start@),
{
    let ghost all = calls_view(start.calls@);
    proof {
        lemma_calls_view_index(start.calls@);
        assert(all.take(0) =~= Seq::<SpecCall>::empty());
    }
    let mut listener = FcListener::new();
    let n = start.calls.len();
    let mut i: usize = 0;
    while i < n
        invariant
            0 <= i <= n == start.calls@.len(),
            all == calls_view(start.calls@),
            all.len() == n,
            forall|j: int| 0 <= j < n ==> all[j] == #[trigger] start.calls@[j]@,
            collect_result_view(listener.tool_calls) == spec_collect(all.take(i as int)),
        decreases n - i,
    {
        proof {
            assert(all.take(i + 1).drop_last() =~= all.take(i as int));
            assert(all.take(i + 1).last() == start.calls@[i as int]@);
        }
        listener.enter_functionCall(&start.calls[i]);
        i = i + 1;
    }
    proof {
        assert(all.take(n as int) =~= all);
    }
    listener.tool_calls()
}

/// Where every call succeeds the collected entries correspond one to
/// one, in walk order: entry `i` is the outcome of call node `i`.
pub proof fn lemma_order_preserved(cs: Seq<SpecCall>, ts: Seq<SpecToolCall>)
    requires
        spec_collect(cs) == Ok::<Seq<SpecToolCall>, SpecError>(ts),
    ensures
        ts.len() == cs.len(),
        forall|i: int|
            0 <= i < cs.len() ==> spec_call_of(#[trigger] cs[i]) == Ok::<SpecToolCall, SpecError>(
                ts[i],
            ),
    decreases cs,
{
    if cs.len() > 0 {
        match spec_collect(cs.drop_last()) {
            Err(_) => {
                assert(false);
            },
            Ok(ts0) => {
                match spec_call_of(cs.last()) {
                    Err(_) => {
                        assert(false);
                    },
                    Ok(tc) => {
                        assert(ts == ts0.push(tc));
                        lemma_order_preserved(cs.drop_last(), ts0);
                        assert forall|i: int| 0 <= i < cs.len() implies spec_call_of(
                            #[trigger] cs[i],
                        ) == Ok::<SpecToolCall, SpecError>(ts[i]) by {
                            if i < cs.len() - 1 {
                                assert(cs.drop_last()[i] == cs[i]);
                                assert(ts0.push(tc)[i] == ts0[i]);
                            } else {
                                assert(cs[i] == cs.last());
                                assert(ts0.push(tc)[i] == tc);
                            }
                        }
                    },
                }
            },
        }
    }
}

/// The first failure decides the whole expression: a failure over a
/// prefix of the calls is the outcome over all of them, whatever call
/// nodes follow.
pub proof fn lemma_first_error_short_circuit(cs: Seq<SpecCall>, i: int, e: SpecError)
    requires
        0 <= i <= cs.len(),
        spec_collect(cs.take(i)) == Err::<Seq<SpecToolCall>, SpecError>(e),
    ensures
        spec_collect(cs) == Err::<Seq<SpecToolCall>, SpecError>(e),
    decreases cs.len() - i,
{
    if i < cs.len() {
        assert(cs.take(i + 1).drop_last() =~= cs.take(i));
        assert(spec_collect(cs.take(i + 1)) == Err::<Seq<SpecToolCall>, SpecError>(e));
        lemma_first_error_short_circuit(cs, i + 1, e);
    } else {
        assert(cs.take(i) =~= cs);
    }
}

} // verus!
