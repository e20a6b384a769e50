//! The contexts that a token is read in, and how collections open and close them.
use vstd::prelude::*;

verus! {

/// The grammar mode a token is read in: flow or block, and inside, outside or as a key.
#[derive(Clone, Copy, Debug, PartialEq, Eq, Structural)]
pub enum ParseContext {
    FlowIn,
    FlowOut,
    FlowKey,
    BlockIn,
    BlockOut,
    BlockKey,
}

/// What a caller opens or closes: a collection of one of four kinds.
#[derive(Clone, Copy, Debug, PartialEq, Eq, Structural)]
pub enum ParseContextKind {
    FlowMapping,
    Flow,
    BlockMapping,
    Block,
}

/// A context of the flow family.
pub open spec fn is_flow(ctx: ParseContext) -> bool {
    ctx == ParseContext::FlowIn || ctx == ParseContext::FlowOut || ctx == ParseContext::FlowKey
}

/// The innermost context is present and of the flow family.
pub open spec fn in_flow(active: Option<ParseContext>) -> bool {
    match active {
        Some(ctx) => is_flow(ctx),
        None => false,
    }
}

/// The context that opening `kind` pushes while `active` is innermost. `None`: the
/// combination is refused, a block collection cannot stand inside a flow collection.
pub open spec fn entered(active: Option<ParseContext>, kind: ParseContextKind) -> Option<
    ParseContext,
> {
    match kind {
        ParseContextKind::Flow => Some(ParseContext::FlowIn),
        ParseContextKind::FlowMapping => Some(ParseContext::FlowKey),
        ParseContextKind::BlockMapping => Some(ParseContext::BlockKey),
        ParseContextKind::Block => match active {
            None => Some(ParseContext::BlockOut),
            Some(ctx) => if is_flow(ctx) {
                None
            } else {
                Some(ParseContext::BlockIn)
            },
        },
    }
}

/// Closing `kind` is in order when `actual` is the context on top of the stack.
pub open spec fn closes(kind: ParseContextKind, actual: ParseContext) -> bool {
    match kind {
        ParseContextKind::Flow => actual == ParseContext::FlowIn || actual
            == ParseContext::FlowOut,
        ParseContextKind::FlowMapping => actual == ParseContext::FlowKey,
        ParseContextKind::Block => actual == ParseContext::BlockIn || actual
            == ParseContext::BlockOut,
        ParseContextKind::BlockMapping => actual == ParseContext::BlockKey,
    }
}

/// The innermost context of a stack, if it has one.
pub open spec fn top_context(contexts: Seq<ParseContext>) -> Option<ParseContext> {
    if contexts.len() > 0 {
        Some(contexts.last())
    } else {
        None
    }
}

#[verifier::when_used_as_spec(is_flow)]
pub fn context_is_flow(ctx: ParseContext) -> (r: bool)
    ensures
        r == is_flow(ctx),
{
    match ctx {
        ParseContext::FlowIn | ParseContext::FlowOut | ParseContext::FlowKey => true,
        _ => false,
    }
}

pub fn context_in_flow(active: Option<ParseContext>) -> (r: bool)
    ensures
        r == in_flow(active),
{
    match active {
        Some(ctx) => context_is_flow(ctx),
        None => false,
    }
}

pub fn enter_context(active: Option<ParseContext>, kind: ParseContextKind) -> (r: Option<
    ParseContext,
>)
    ensures
        r == entered(active, kind),
{
    match kind {
        ParseContextKind::Flow => Some(ParseContext::FlowIn),
        ParseContextKind::FlowMapping => Some(ParseContext::FlowKey),
        ParseContextKind::BlockMapping => Some(ParseContext::BlockKey),
        ParseContextKind::Block => match active {
            None => Some(ParseContext::BlockOut),
            Some(ctx) => if context_is_flow(ctx) {
                None
            } else {
                Some(ParseContext::BlockIn)
            },
        },
    }
}

pub fn context_closes(kind: ParseContextKind, actual: ParseContext) -> (r: bool)
    ensures
        r == closes(kind, actual),
{
    match kind {
        ParseContextKind::Flow => matches!(actual, ParseContext::FlowIn | ParseContext::FlowOut),
        ParseContextKind::FlowMapping => matches!(actual, ParseContext::FlowKey),
        ParseContextKind::Block => matches!(actual, ParseContext::BlockIn | ParseContext::BlockOut),
        ParseContextKind::BlockMapping => matches!(actual, ParseContext::BlockKey),
    }
}

} // verus!
