//! The session driver: one conversation with the agent, from the opening of
//! its session to the report of its result.

use vstd::prelude::*;
use vstd::string::StringExecFns;
use crate::error::{AgentFault, Error, StopReason};
use crate::interpreter::{Response, ThinkResponse};
use crate::router::{RedirectMessage, stack_after_all};

verus! {

/// What a chunk of a message holds.
pub enum ContentBlock {
    Text { text: String },
    Image,
    Audio,
    ResourceLink,
    Resource,
}

/// What the agent reports about a session while its turn runs.
pub enum SessionUpdate {
    UserMessageChunk { content: ContentBlock },
    AgentMessageChunk { content: ContentBlock },
    AgentThoughtChunk { content: ContentBlock },
    ToolCall,
    ToolCallUpdate,
    Plan,
    AvailableCommandsUpdate,
    CurrentModeUpdate,
}

/// What the router delivers to a conversation. `S` is the reply slot of a
/// callback.
pub enum PerSessionMessage<S> {
    /// Notification from the agent.
    SessionNotification { update: SessionUpdate },
    /// Agent invoked the "do" tool.
    DoInvocation { number: usize, do_tx: S },
    /// Agent completed their turn.
    PromptResponse { stop_reason: StopReason },
}

/// What happened to a conversation since its driver was last asked.
pub enum DriverEvent<S> {
    /// The agent opened a session.
    SessionOpened { session_id: String },
    /// Opening the session, or submitting the prompt, failed.
    TransportFailed,
    /// The router delivered something.
    Message { message: PerSessionMessage<S> },
    /// The channel from the router closed.
    Disconnected,
}

/// What the driver wants done, for the caller to carry out in the order
/// given.
#[derive(Debug, PartialEq, Eq)]
pub enum Command<S> {
    /// Put this conversation on the router's stack.
    Push,
    /// Submit the prompt as a new turn of the session.
    SubmitPrompt { session_id: String, prompt: String },
    /// Hand this to the interpreter that waits on the conversation.
    Forward { response: ThinkResponse<S> },
    /// Take this conversation off the router's stack.
    Pop,
}

/// The model of a `Command`.
pub enum Order<S> {
    Push,
    SubmitPrompt { session_id: Seq<char>, prompt: Seq<char> },
    Forward { response: Response<S> },
    Pop,
}

impl<S> View for Command<S> {
    type V = Order<S>;

    open spec fn view(&self) -> Order<S> {
        match *self {
            Command::Push => Order::Push,
            Command::SubmitPrompt { session_id, prompt } => Order::SubmitPrompt {
                session_id: session_id@,
                prompt: prompt@,
            },
            Command::Forward { response } => Order::Forward { response: response@ },
            Command::Pop => Order::Pop,
        }
    }
}

/// The models of a run of commands, position by position.
pub open spec fn orders<S>(commands: Seq<Command<S>>) -> Seq<Order<S>> {
    Seq::new(commands.len(), |i: int| commands[i]@)
}

/// How far a conversation has come.
#[derive(Debug, Clone, Copy, PartialEq, Eq, Structural)]
pub enum Phase {
    /// A session was asked for; the conversation is not on the router's
    /// stack yet.
    Opening,
    /// The conversation is on the stack and the turn runs.
    Streaming,
    /// The conversation is off the stack and its result was reported.
    Closed,
}

/// The model of a `SessionDriver`.
pub struct Session {
    pub phase: Phase,
    pub prompt: Seq<char>,
    /// The text of the turn so far.
    pub result: Seq<char>,
}

/// A conversation after an event, and what the event calls for.
pub struct Stepped<S> {
    pub session: Session,
    pub orders: Seq<Order<S>>,
}

/// The text that an update adds to the turn: that of a text chunk of the
/// agent's message, and nothing for any other update.
pub open spec fn chunk(update: SessionUpdate) -> Seq<char> {
    match update {
        SessionUpdate::AgentMessageChunk { content: ContentBlock::Text { text } } => text@,
        _ => Seq::empty(),
    }
}

/// A conversation that ends before it was put on the stack: only the
/// failure is reported.
pub open spec fn refused<S>(session: Session, error: Error) -> Stepped<S> {
    Stepped {
        session: Session { phase: Phase::Closed, ..session },
        orders: seq![Order::Forward { response: Response::Failed { error } }],
    }
}

/// A conversation that ends while it is on the stack: it is taken off
/// first, then its result is reported.
pub open spec fn released<S>(session: Session, response: Response<S>) -> Stepped<S> {
    Stepped {
        session: Session { phase: Phase::Closed, ..session },
        orders: seq![Order::Pop, Order::Forward { response }],
    }
}

/// What the turn comes to when the agent stops for `stop_reason`.
pub open spec fn verdict<S>(result: Seq<char>, stop_reason: StopReason) -> Response<S> {
    if stop_reason == StopReason::EndTurn {
        Response::Complete { message: result }
    } else {
        Response::Failed {
            error: Error::UnexpectedAgentState { fault: AgentFault::Stopped { reason: stop_reason } },
        }
    }
}

/// The conversation after `event`, and what the event calls for.
///
/// While opening: once the session is there, the conversation goes on the
/// stack and then the prompt is submitted; anything else ends it.
/// While streaming: an update adds its chunk to the text, a tool invocation
/// is forwarded as a callback, and the end of the turn, a failure of the
/// transport, a closed channel or a second session all end the conversation,
/// which is taken off the stack whatever ended it.
/// Once closed, nothing more happens.
pub open spec fn stepped<S>(session: Session, event: DriverEvent<S>) -> Stepped<S> {
    match session.phase {
        Phase::Opening => match event {
            DriverEvent::SessionOpened { session_id } => Stepped {
                session: Session { phase: Phase::Streaming, ..session },
                orders: seq![
                    Order::Push,
                    Order::SubmitPrompt { session_id: session_id@, prompt: session.prompt },
                ],
            },
            DriverEvent::TransportFailed => refused(session, Error::Transport),
            DriverEvent::Message { .. } => refused(
                session,
                Error::UnexpectedAgentState { fault: AgentFault::OutOfOrder },
            ),
            DriverEvent::Disconnected => refused(session, Error::InternalProtocol),
        },
        Phase::Streaming => match event {
            DriverEvent::SessionOpened { .. } => released(
                session,
                Response::Failed {
                    error: Error::UnexpectedAgentState { fault: AgentFault::OutOfOrder },
                },
            ),
            DriverEvent::TransportFailed => released(
                session,
                Response::Failed { error: Error::Transport },
            ),
            DriverEvent::Message { message } => match message {
                PerSessionMessage::SessionNotification { update } => Stepped {
                    session: Session { result: session.result + chunk(update), ..session },
                    orders: Seq::empty(),
                },
                PerSessionMessage::DoInvocation { number, do_tx } => Stepped {
                    session,
                    orders: seq![Order::Forward { response: Response::Do { uuid: number, do_tx } }],
                },
                PerSessionMessage::PromptResponse { stop_reason } => released(
                    session,
                    verdict(session.result, stop_reason),
                ),
            },
            DriverEvent::Disconnected => released(
                session,
                Response::Failed { error: Error::InternalProtocol },
            ),
        },
        Phase::Closed => Stepped { session, orders: Seq::empty() },
    }
}

/// One conversation with the agent, from the session's opening to the
/// report of the turn's result.
///
/// The caller asks the agent for a session when it makes the driver, and
/// from then on tells the driver what happened and does what it is told.
pub struct SessionDriver {
    phase: Phase,
    prompt: String,
    result: String,
}

impl View for SessionDriver {
    type V = Session;

    closed spec fn view(&self) -> Session {
        Session { phase: self.phase, prompt: self.prompt@, result: self.result@ }
    }
}

impl SessionDriver {
    /// A conversation about `prompt` for which a session is being opened.
    pub fn new(prompt: String) -> (driver: Self)
        ensures
            driver@ == (Session { phase: Phase::Opening, prompt: prompt@, result: Seq::empty() }),
    {
        SessionDriver { phase: Phase::Opening, prompt, result: String::new() }
    }

    /// How far the conversation has come.
    pub fn phase(&self) -> (phase: Phase)
        ensures
            phase == self@.phase,
    {
        self.phase
    }

    /// Takes in `event` and says what to do about it.
    pub fn step<S>(&mut self, event: DriverEvent<S>) -> (commands: Vec<Command<S>>)
        ensures
            (Stepped { session: final(self)@, orders: orders(commands@) }) == stepped(
                old(self)@,
                event,
            ),
    {
        match self.phase {
            Phase::Opening => match event {
                DriverEvent::SessionOpened { session_id } => {
                    self.phase = Phase::Streaming;
                    let mut commands = Vec::new();
                    commands.push(Command::Push);
                    commands.push(Command::SubmitPrompt { session_id, prompt: self.prompt.clone() });
                    assert(orders(commands@) =~= seq![
                        Order::Push,
                        Order::SubmitPrompt { session_id: session_id@, prompt: self.prompt@ },
                    ]);
                    commands
                },
                DriverEvent::TransportFailed => self.refuse(Error::Transport),
                DriverEvent::Message { .. } => self.refuse(
                    Error::UnexpectedAgentState { fault: AgentFault::OutOfOrder },
                ),
                DriverEvent::Disconnected => self.refuse(Error::InternalProtocol),
            },
            Phase::Streaming => match event {
                DriverEvent::SessionOpened { .. } => self.release(
                    ThinkResponse::Failed {
                        error: Error::UnexpectedAgentState { fault: AgentFault::OutOfOrder },
                    },
                ),
                DriverEvent::TransportFailed => self.release(
                    ThinkResponse::Failed { error: Error::Transport },
                ),
                DriverEvent::Message { message } => match message {
                    PerSessionMessage::SessionNotification { update } => {
                        match update {
                            SessionUpdate::AgentMessageChunk {
                                content: ContentBlock::Text { text },
                            } => {
                                self.result.append(text.as_str());
                            },
                            _ => {},
                        }
                        let commands = Vec::new();
                        assert(orders(commands@) =~= Seq::<Order<S>>::empty());
                        commands
                    },
                    PerSessionMessage::DoInvocation { number, do_tx } => {
                        let mut commands = Vec::new();
                        commands.push(
                            Command::Forward { response: ThinkResponse::Do { uuid: number, do_tx } },
                        );
                        assert(orders(commands@) =~= seq![
                            Order::Forward { response: Response::Do { uuid: number, do_tx } },
                        ]);
                        commands
                    },
                    PerSessionMessage::PromptResponse { stop_reason } => match stop_reason {
                        StopReason::EndTurn => {
                            let message = self.result.clone();
                            self.release(ThinkResponse::Complete { message })
                        },
                        reason => self.release(
                            ThinkResponse::Failed {
                                error: Error::UnexpectedAgentState {
                                    fault: AgentFault::Stopped { reason },
                                },
                            },
                        ),
                    },
                },
                DriverEvent::Disconnected => self.release(
                    ThinkResponse::Failed { error: Error::InternalProtocol },
                ),
            },
            Phase::Closed => {
                let commands = Vec::new();
                assert(orders(commands@) =~= Seq::<Order<S>>::empty());
                commands
            },
        }
    }

    /// Ends a conversation that is not on the stack.
    fn refuse<S>(&mut self, error: Error) -> (commands: Vec<Command<S>>)
        ensures
            (Stepped { session: final(self)@, orders: orders(commands@) }) == refused::<S>(
                old(self)@,
                error,
            ),
    {
        self.phase = Phase::Closed;
        let mut commands = Vec::new();
        commands.push(Command::Forward { response: ThinkResponse::Failed { error } });
        assert(orders(commands@) =~= seq![
            Order::<S>::Forward { response: Response::Failed { error } },
        ]);
        commands
    }

    /// Ends a conversation that is on the stack.
    fn release<S>(&mut self, response: ThinkResponse<S>) -> (commands: Vec<Command<S>>)
        ensures
            (Stepped { session: final(self)@, orders: orders(commands@) }) == released(
                old(self)@,
                response@,
            ),
    {
        self.phase = Phase::Closed;
        let mut commands = Vec::new();
        commands.push(Command::Pop);
        commands.push(Command::Forward { response });
        assert(orders(commands@) =~= seq![Order::Pop, Order::Forward { response: response@ }]);
        commands
    }
}

/// The conversation after `events`, and every order they called for, in
/// order.
pub open spec fn ran<S>(session: Session, events: Seq<DriverEvent<S>>) -> Stepped<S>
    decreases events.len(),
{
    if events.len() == 0 {
        Stepped { session, orders: Seq::empty() }
    } else {
        let before = ran(session, events.drop_last());
        let last = stepped(before.session, events.last());
        Stepped { session: last.session, orders: before.orders + last.orders }
    }
}

/// What `orders` send to the router's mailbox for the conversation with
/// this handle.
pub open spec fn mailbox<S, H, M>(orders: Seq<Order<S>>, handle: H) -> Seq<RedirectMessage<H, M>>
    decreases orders.len(),
{
    if orders.len() == 0 {
        Seq::empty()
    } else {
        mailbox(orders.drop_last(), handle) + match orders.last() {
            Order::Push => seq![RedirectMessage::PushThinker(handle)],
            Order::Pop => seq![RedirectMessage::PopThinker],
            _ => Seq::empty(),
        }
    }
}

/// How many results `orders` report to the interpreter.
pub open spec fn reports<S>(orders: Seq<Order<S>>) -> nat
    decreases orders.len(),
{
    if orders.len() == 0 {
        0
    } else {
        reports(orders.drop_last()) + match orders.last() {
            Order::Forward { response: Response::Complete { .. } } => 1nat,
            Order::Forward { response: Response::Failed { .. } } => 1nat,
            _ => 0nat,
        }
    }
}

/// A new conversation about `prompt`.
pub open spec fn opening(prompt: Seq<char>) -> Session {
    Session { phase: Phase::Opening, prompt, result: Seq::empty() }
}

/// What `orders ++ more` send to the mailbox and report.
proof fn lemma_orders_append<S, H, M>(front: Seq<Order<S>>, back: Seq<Order<S>>, handle: H)
    ensures
        mailbox::<S, H, M>(front + back, handle) == mailbox::<S, H, M>(front, handle) + mailbox::<
            S,
            H,
            M,
        >(back, handle),
        reports(front + back) == reports(front) + reports(back),
    decreases back.len(),
{
    if back.len() > 0 {
        lemma_orders_append::<S, H, M>(front, back.drop_last(), handle);
        assert((front + back).drop_last() =~= front + back.drop_last());
    }
}

/// What a single order sends to the mailbox and reports.
proof fn lemma_orders_one<S, H, M>(order: Order<S>, handle: H)
    ensures
        mailbox::<S, H, M>(seq![order], handle) == match order {
            Order::Push => seq![RedirectMessage::<H, M>::PushThinker(handle)],
            Order::Pop => seq![RedirectMessage::<H, M>::PopThinker],
            _ => Seq::empty(),
        },
        reports(seq![order]) == match order {
            Order::Forward { response: Response::Complete { .. } } => 1nat,
            Order::Forward { response: Response::Failed { .. } } => 1nat,
            _ => 0nat,
        },
{
    let none = Seq::<Order<S>>::empty();
    assert(seq![order].drop_last() =~= none);
    assert(mailbox::<S, H, M>(none, handle) =~= Seq::empty());
    assert(reports(none) == 0);
}

/// What the orders of one event send to the mailbox and report: a push
/// when the conversation begins to stream, a pop when it closes after
/// streaming, and a report when it closes.
proof fn lemma_stepped_orders<S, H, M>(session: Session, event: DriverEvent<S>, handle: H)
    ensures
        ({
            let next = stepped(session, event);
            let sent = mailbox::<S, H, M>(next.orders, handle);
            &&& session.phase is Closed ==> next.session.phase is Closed
            &&& session.phase is Streaming ==> !(next.session.phase is Opening)
            &&& sent == if session.phase is Opening && next.session.phase is Streaming {
                seq![RedirectMessage::<H, M>::PushThinker(handle)]
            } else if session.phase is Streaming && next.session.phase is Closed {
                seq![RedirectMessage::<H, M>::PopThinker]
            } else {
                Seq::empty()
            }
            &&& reports(next.orders) == if !(session.phase is Closed)
                && next.session.phase is Closed {
                1nat
            } else {
                0nat
            }
        }),
{
    let next = stepped(session, event);
    if next.orders.len() == 1 {
        lemma_orders_one::<S, H, M>(next.orders[0], handle);
    } else if next.orders.len() == 2 {
        let first = seq![next.orders[0]];
        let second = seq![next.orders[1]];
        assert(next.orders =~= first + second);
        lemma_orders_one::<S, H, M>(next.orders[0], handle);
        lemma_orders_one::<S, H, M>(next.orders[1], handle);
        lemma_orders_append::<S, H, M>(first, second, handle);
    }
}

/// Every conversation leaves the router's stack as it found it.
///
/// Whatever happens to a conversation, in whatever order: it goes on the
/// stack at most once, and never after it closed; while it streams it is
/// on the stack; and once it is closed it has been taken off exactly as
/// often as it was put on, so the stack is what it was before, and exactly
/// one result has been reported. A failure of the transport in the middle
/// of the turn is no exception.
pub proof fn lemma_every_push_is_popped<S, H, M>(
    prompt: Seq<char>,
    events: Seq<DriverEvent<S>>,
    stack: Seq<H>,
    handle: H,
)
    ensures
        ({
            let end = ran(opening(prompt), events);
            let sent = mailbox::<S, H, M>(end.orders, handle);
            let push = seq![RedirectMessage::<H, M>::PushThinker(handle)];
            let pop = seq![RedirectMessage::<H, M>::PopThinker];
            &&& end.session.phase is Opening ==> sent == Seq::<RedirectMessage<H, M>>::empty()
                && reports(end.orders) == 0
            &&& end.session.phase is Streaming ==> sent == push && reports(end.orders) == 0
                && stack_after_all(stack, sent) == Some(stack.push(handle))
            &&& end.session.phase is Closed ==> (sent == Seq::<RedirectMessage<H, M>>::empty()
                || sent == push + pop) && reports(end.orders) == 1 && stack_after_all(stack, sent)
                == Some(stack)
        }),
    decreases events.len(),
{
    let none = Seq::<RedirectMessage<H, M>>::empty();
    let push = seq![RedirectMessage::<H, M>::PushThinker(handle)];
    let pop = seq![RedirectMessage::<H, M>::PopThinker];
    assert(stack_after_all(stack, none) == Some(stack));
    assert(push.drop_last() =~= none);
    assert(stack_after_all(stack, push) == Some(stack.push(handle)));
    assert((push + pop).drop_last() =~= push);
    if events.len() > 0 {
        let before = ran(opening(prompt), events.drop_last());
        let last = stepped(before.session, events.last());
        lemma_every_push_is_popped::<S, H, M>(prompt, events.drop_last(), stack, handle);
        lemma_stepped_orders::<S, H, M>(before.session, events.last(), handle);
        lemma_orders_append::<S, H, M>(before.orders, last.orders, handle);
    }
}

} // verus!
