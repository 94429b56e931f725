//! The router: the stack of open conversations, and who gets what arrives.

use vstd::prelude::*;

verus! {

/// What reaches the router's mailbox.
///
/// `H` is the handle of a conversation, `M` what the transport delivers. The
/// router looks inside neither.
pub enum RedirectMessage<H, M> {
    /// Something arrived for whichever conversation is active.
    IncomingMessage(M),
    /// A conversation starts and becomes the active one.
    PushThinker(H),
    /// The active conversation is over.
    PopThinker,
}

/// A violation of the stack discipline. The router's state cannot be trusted
/// after one; it is not an error to recover from.
#[derive(Debug, Clone, Copy, PartialEq, Eq, Structural)]
pub enum RoutingDefect {
    /// A conversation was closed while none was open.
    PopOnEmptyStack,
    /// Something arrived while no conversation was open.
    DeliverOnEmptyStack,
}

/// What the router did with a message.
#[derive(Debug, PartialEq, Eq)]
pub enum Routed<H, M> {
    /// The conversation was put on the stack.
    Registered,
    /// The conversation with this handle was taken off the stack.
    Released { handle: H },
    /// `message` belongs to the conversation at position `to` of the stack,
    /// counted from the one opened first.
    Forward { to: usize, message: M },
}

/// The stack after `message`. A violation leaves it as it is.
pub open spec fn stack_after<H, M>(stack: Seq<H>, message: RedirectMessage<H, M>) -> Seq<H> {
    match message {
        RedirectMessage::IncomingMessage(_) => stack,
        RedirectMessage::PushThinker(handle) => stack.push(handle),
        RedirectMessage::PopThinker => if stack.len() == 0 {
            stack
        } else {
            stack.drop_last()
        },
    }
}

/// What the router answers to `message`: a push registers, a pop releases
/// the conversation opened last, and anything else goes to the conversation
/// opened last. The last two need an open conversation.
pub open spec fn outcome<H, M>(stack: Seq<H>, message: RedirectMessage<H, M>) -> Result<
    Routed<H, M>,
    RoutingDefect,
> {
    match message {
        RedirectMessage::IncomingMessage(message) => if stack.len() == 0 {
            Err(RoutingDefect::DeliverOnEmptyStack)
        } else {
            Ok(Routed::Forward { to: (stack.len() - 1) as usize, message })
        },
        RedirectMessage::PushThinker(_) => Ok(Routed::Registered),
        RedirectMessage::PopThinker => if stack.len() == 0 {
            Err(RoutingDefect::PopOnEmptyStack)
        } else {
            Ok(Routed::Released { handle: stack.last() })
        },
    }
}

/// The stack after `messages`, applied in order, or `None` if one of them
/// violated the stack discipline.
pub open spec fn stack_after_all<H, M>(stack: Seq<H>, messages: Seq<RedirectMessage<H, M>>) -> Option<
    Seq<H>,
>
    decreases messages.len(),
{
    if messages.len() == 0 {
        Some(stack)
    } else {
        match stack_after_all(stack, messages.drop_last()) {
            Some(before) => if outcome(before, messages.last()) is Ok {
                Some(stack_after(before, messages.last()))
            } else {
                None
            },
            None => None,
        }
    }
}

/// Pushes minus pops.
pub open spec fn net<H, M>(messages: Seq<RedirectMessage<H, M>>) -> int
    decreases messages.len(),
{
    if messages.len() == 0 {
        0
    } else {
        net(messages.drop_last()) + match messages.last() {
            RedirectMessage::IncomingMessage(_) => 0int,
            RedirectMessage::PushThinker(_) => 1int,
            RedirectMessage::PopThinker => -1int,
        }
    }
}

/// Whether `messages` never close more conversations than they opened
/// before: whatever was open when they began stays open throughout.
pub open spec fn nested<H, M>(messages: Seq<RedirectMessage<H, M>>) -> bool
    decreases messages.len(),
{
    messages.len() == 0 || (nested(messages.drop_last()) && net(messages) >= 0)
}

/// The stack of open conversations, the active one last.
///
/// Routing goes by recency alone: conversations open and close strictly
/// nested, so whatever arrives belongs to the one opened last.
pub struct Router<H> {
    stack: Vec<H>,
}

impl<H> View for Router<H> {
    type V = Seq<H>;

    closed spec fn view(&self) -> Seq<H> {
        self.stack@
    }
}

impl<H> Router<H> {
    /// A router with no conversation open.
    pub fn new() -> (router: Self)
        ensures
            router@ == Seq::<H>::empty(),
    {
        Router { stack: Vec::new() }
    }

    /// How many conversations are open.
    pub fn depth(&self) -> (depth: usize)
        ensures
            depth == self@.len(),
    {
        self.stack.len()
    }

    /// The handle at position `at`, counted from the conversation opened
    /// first.
    pub fn handle(&self, at: usize) -> (handle: Option<&H>)
        ensures
            handle == if at < self@.len() {
                Some(&self@[at as int])
            } else {
                None
            },
    {
        if at < self.stack.len() {
            Some(&self.stack[at])
        } else {
            None
        }
    }

    /// Applies one message from the mailbox.
    pub fn apply<M>(&mut self, message: RedirectMessage<H, M>) -> (routed: Result<
        Routed<H, M>,
        RoutingDefect,
    >)
        ensures
            final(self)@ == stack_after(old(self)@, message),
            routed == outcome(old(self)@, message),
    {
        match message {
            RedirectMessage::IncomingMessage(message) => {
                let depth: usize = self.stack.len();
                if depth == 0 {
                    Err(RoutingDefect::DeliverOnEmptyStack)
                } else {
                    Ok(Routed::Forward { to: depth - 1, message })
                }
            },
            RedirectMessage::PushThinker(handle) => {
                self.stack.push(handle);
                Ok(Routed::Registered)
            },
            RedirectMessage::PopThinker => match self.stack.pop() {
                Some(handle) => Ok(Routed::Released { handle }),
                None => Err(RoutingDefect::PopOnEmptyStack),
            },
        }
    }
}

/// Nested messages close no more than they open.
pub proof fn lemma_nested_net<H, M>(messages: Seq<RedirectMessage<H, M>>)
    requires
        nested(messages),
    ensures
        net(messages) >= 0,
{
}

/// A prefix of nested messages is nested.
pub proof fn lemma_nested_prefix<H, M>(messages: Seq<RedirectMessage<H, M>>, n: int)
    requires
        nested(messages),
        0 <= n <= messages.len(),
    ensures
        nested(messages.take(n)),
    decreases messages.len(),
{
    if n == messages.len() {
        assert(messages.take(n) =~= messages);
    } else {
        lemma_nested_prefix(messages.drop_last(), n);
        assert(messages.drop_last().take(n) =~= messages.take(n));
    }
}

/// An inner conversation shields the outer ones.
///
/// Let conversations `outer` be open, let `inner` open on top of them, and
/// let `messages` arrive that do not close `inner`, though they may open and
/// close conversations inside it. Then none of them is a violation, and
/// afterwards `outer` and `inner` are still on the stack, in place, beneath
/// whatever else is open: the active conversation is `inner` or one inside
/// it, never one of `outer`. When every conversation opened inside `inner`
/// is closed again, `inner` itself is the active one.
pub proof fn lemma_inner_conversation_shields<H, M>(
    outer: Seq<H>,
    inner: H,
    messages: Seq<RedirectMessage<H, M>>,
)
    requires
        nested(messages),
    ensures
        stack_after_all(outer.push(inner), messages) matches Some(stack) && {
            &&& stack.len() == outer.len() + 1 + net(messages)
            &&& stack.take((outer.len() + 1) as int) == outer.push(inner)
            &&& net(messages) == 0 ==> stack == outer.push(inner)
        },
    decreases messages.len(),
{
    if messages.len() > 0 {
        lemma_inner_conversation_shields(outer, inner, messages.drop_last());
        lemma_nested_net(messages.drop_last());
    }
}

/// What arrives while `inner` is open is delivered to `inner` or to a
/// conversation inside it, never to one of `outer`; and to `inner` itself
/// when nothing inside it is open.
///
/// This holds at every moment: `arrival` may come after any number `n` of
/// the `messages`.
pub proof fn lemma_delivery_stays_inside<H, M>(
    outer: Seq<H>,
    inner: H,
    messages: Seq<RedirectMessage<H, M>>,
    n: int,
    arrival: M,
)
    requires
        nested(messages),
        0 <= n <= messages.len(),
        outer.len() + net(messages.take(n)) <= usize::MAX,
    ensures
        stack_after_all(outer.push(inner), messages.take(n)) matches Some(stack) && outcome(
            stack,
            RedirectMessage::IncomingMessage(arrival),
        ) matches Ok(Routed::Forward { to, message }) && {
            &&& message == arrival
            &&& to == outer.len() + net(messages.take(n))
            &&& to >= outer.len()
            &&& net(messages.take(n)) == 0 ==> to == outer.len() && stack[to as int] == inner
        },
{
    lemma_nested_prefix(messages, n);
    lemma_inner_conversation_shields(outer, inner, messages.take(n));
    let stack = stack_after_all(outer.push(inner), messages.take(n))->Some_0;
}

/// Closing what was opened restores the stack.
///
/// If a conversation opens, `messages` arrive that leave nothing open inside
/// it, and it closes, the stack is what it was before, whatever arrived.
pub proof fn lemma_release_restores<H, M>(
    stack: Seq<H>,
    handle: H,
    messages: Seq<RedirectMessage<H, M>>,
)
    requires
        nested(messages),
        net(messages) == 0,
    ensures
        stack_after_all(
            stack,
            seq![RedirectMessage::PushThinker(handle)] + messages + seq![
                RedirectMessage::PopThinker,
            ],
        ) == Some(stack),
{
    let push = seq![RedirectMessage::<H, M>::PushThinker(handle)];
    let all = push + messages + seq![RedirectMessage::PopThinker];
    lemma_inner_conversation_shields(stack, handle, messages);
    lemma_stack_after_all_append(stack, push, messages);
    assert(stack_after_all(stack, push.drop_last()) == Some(stack));
    assert(all.drop_last() =~= push + messages);
}

/// Messages may be applied in two batches.
pub proof fn lemma_stack_after_all_append<H, M>(
    stack: Seq<H>,
    first: Seq<RedirectMessage<H, M>>,
    then: Seq<RedirectMessage<H, M>>,
)
    ensures
        stack_after_all(stack, first + then) == match stack_after_all(stack, first) {
            Some(middle) => stack_after_all(middle, then),
            None => None,
        },
    decreases then.len(),
{
    if then.len() > 0 {
        lemma_stack_after_all_append(stack, first, then.drop_last());
        assert((first + then).drop_last() =~= first + then.drop_last());
    }
}

} // verus!
