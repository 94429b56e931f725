//! What an evaluation comes to, given all that its conversations sent, and
//! the laws that hold of it.

use vstd::prelude::*;
use crate::ast::{Ast, Node, has_think, lemma_render_concat, line, messages, messages_from, render};
use crate::error::Error;
use crate::interpreter::{
    Action, Entered, Frame, Interpreter, Response, State, Step, ThinkResponse, aborted, entered,
    entered_from, landed, resumed, returned, started,
};

verus! {

/// The state after `responses` arrived one by one. The first failure stands:
/// what arrives after it changes nothing.
pub open spec fn fed<S>(state: State<S>, responses: Seq<Response<S>>) -> State<S>
    decreases responses.len(),
{
    if responses.len() == 0 || state.action is Failed {
        state
    } else {
        fed(resumed(state.stack, responses.first()), responses.drop_first())
    }
}

/// What an evaluation of `node` has come to once `responses` arrived.
pub open spec fn evaluate<S>(node: Node, responses: Seq<Response<S>>) -> Action<S> {
    fed(started(node), responses).action
}

/// The models of a run of responses, position by position.
pub open spec fn responses<S>(sent: Seq<ThinkResponse<S>>) -> Seq<Response<S>> {
    Seq::new(sent.len(), |i: int| sent[i]@)
}

/// Evaluates `ast` against a conversation that was recorded: `sent` is what
/// arrived, in order. Gives what the evaluation has come to when the record
/// ends, which is a request if the record ends too early.
pub fn replay<S>(ast: &Ast, sent: Vec<ThinkResponse<S>>) -> (step: Step<S>)
    ensures
        step@ == evaluate(ast@, responses(sent@)),
{
    let ghost all = responses(sent@);
    let mut interpreter = Interpreter::new();
    let mut step = interpreter.run(ast);
    for response in iter: sent
        invariant
            all == responses(iter.seq()),
            (State { stack: interpreter@, action: step@ }) == fed(
                started(ast@),
                all.take(iter.index() as int),
            ),
    {
        let ghost n = iter.index() as int;
        let ghost before = State { stack: interpreter@, action: step@ };
        proof {
            assert(all.take(n + 1) =~= all.take(n) + seq![response@]);
            lemma_fed_append(started(ast@), all.take(n), seq![response@]);
            lemma_fed_one(before, response@);
        }
        let failed = match &step {
            Step::Failed { .. } => true,
            _ => false,
        };
        if !failed {
            step = interpreter.resume(response);
        }
    }
    assert(all.take(all.len() as int) =~= all);
    step
}

/// Whether the caller is waiting on a conversation.
pub open spec fn suspended<S>(action: Action<S>) -> bool {
    action is Think || action is Reply
}

/// What `state`, reached by an evaluation that began with nothing suspended,
/// amounts to when that evaluation ran on top of `base`: its text goes back
/// to `base` when it ends, its failure fails everything, and until then
/// `base` lies untouched beneath its own suspended nodes.
pub open spec fn lifted<S>(base: Seq<Frame<S>>, state: State<S>) -> State<S> {
    match state.action {
        Action::Done { output } => returned(base, output),
        Action::Failed { error } => aborted(error),
        _ => State { stack: base + state.stack, action: state.action },
    }
}

/// One callback of a turn.
pub struct Callback<S> {
    /// The child it names.
    pub uuid: usize,
    /// The slot it came with.
    pub do_tx: S,
    /// What arrived while the child ran: the responses of the conversations
    /// that the child opened.
    pub nested: Seq<Response<S>>,
    /// What the child wrote.
    pub text: Seq<char>,
}

/// Whether `call` names a child of `children` that, evaluated alone, ends
/// with `call.text` exactly when `call.nested` has arrived.
pub open spec fn answered<S>(children: Seq<Node>, call: Callback<S>) -> bool {
    &&& call.uuid < children.len()
    &&& evaluate(children[call.uuid as int], call.nested) == Action::<S>::Done {
        output: call.text,
    }
}

/// All that arrives during a turn that makes `calls` in order: each callback,
/// followed by what arrives while its child runs.
pub open spec fn transcript<S>(calls: Seq<Callback<S>>) -> Seq<Response<S>>
    decreases calls.len(),
{
    if calls.len() == 0 {
        Seq::empty()
    } else {
        transcript(calls.drop_last()) + seq![
            Response::Do { uuid: calls.last().uuid, do_tx: calls.last().do_tx },
        ] + calls.last().nested
    }
}

/// What the children named by `calls` wrote, in the order of the calls.
pub open spec fn written<S>(calls: Seq<Callback<S>>) -> Seq<char>
    decreases calls.len(),
{
    if calls.len() == 0 {
        Seq::empty()
    } else {
        written(calls.drop_last()) + calls.last().text
    }
}

/// The children `from..` of a think-free run write their flattened messages.
proof fn lemma_think_free_from<S>(children: Seq<Node>, from: nat, out: Seq<char>)
    requires
        forall|i: int| from <= i < children.len() ==> !has_think(#[trigger] children[i]),
    ensures
        entered_from::<S>(children, from, out) == (Entered::<S>::Value {
            text: out + render(messages_from(children, from)),
        }),
    decreases children, children.len() - from,
{
    if from < children.len() {
        let child = children[from as int];
        lemma_think_free_entered::<S>(child);
        lemma_think_free_from::<S>(children, from + 1, out + render(messages(child)));
        lemma_render_concat(messages(child), messages_from(children, from + 1));
        assert(out + render(messages(child)) + render(messages_from(children, from + 1)) =~= out
            + (render(messages(child)) + render(messages_from(children, from + 1))));
    }
}

/// Walking into a script without a `Think` never blocks.
proof fn lemma_think_free_entered<S>(node: Node)
    requires
        !has_think(node),
    ensures
        entered::<S>(node) == (Entered::<S>::Value { text: render(messages(node)) }),
    decreases node, 0nat,
{
    match node {
        Node::Print { message } => {
            assert(seq![message].drop_last() =~= Seq::<Seq<char>>::empty());
            assert(render(Seq::<Seq<char>>::empty()) =~= Seq::<char>::empty());
        },
        Node::Think { .. } => {},
        Node::Do { children } => {
            lemma_think_free_from::<S>(children, 0, Seq::empty());
        },
    }
}

/// A script without a `Think` needs no agent: it ends at once, and its
/// output is every `Print` message in reading order, each followed by a
/// newline, however the `Do` nodes are nested.
pub proof fn lemma_think_free<S>(node: Node)
    requires
        !has_think(node),
    ensures
        started::<S>(node) == (State::<S> {
            stack: Seq::empty(),
            action: Action::Done { output: render(messages(node)) },
        }),
        evaluate::<S>(node, Seq::empty()) == (Action::<S>::Done { output: render(messages(node)) }),
{
    lemma_think_free_entered::<S>(node);
}

/// Whether the caller waits exactly when something is suspended.
pub open spec fn coherent<S>(state: State<S>) -> bool {
    suspended(state.action) <==> state.stack.len() > 0
}

/// A run of children that blocks suspends at least the `Do` around them.
proof fn lemma_blocked_from<S>(children: Seq<Node>, from: nat, out: Seq<char>)
    ensures
        entered_from::<S>(children, from, out) matches Entered::Blocked { frames, .. }
            ==> frames.len() > 0,
    decreases children.len() - from,
{
    if from < children.len() {
        match entered::<S>(children[from as int]) {
            Entered::Value { text } => lemma_blocked_from::<S>(children, from + 1, out + text),
            Entered::Blocked { .. } => {},
        }
    }
}

/// A node that blocks suspends at least the `Think` that was reached.
proof fn lemma_blocked<S>(node: Node)
    ensures
        entered::<S>(node) matches Entered::Blocked { frames, .. } ==> frames.len() > 0,
{
    match node {
        Node::Do { children } => lemma_blocked_from::<S>(children, 0, Seq::empty()),
        _ => {},
    }
}

/// Handing a text back leaves the caller waiting exactly when something
/// stays suspended.
proof fn lemma_returned_coherent<S>(stack: Seq<Frame<S>>, text: Seq<char>)
    ensures
        coherent(returned(stack, text)),
    decreases stack.len(),
{
    if stack.len() > 0 {
        match stack.last() {
            Frame::Do { children, next, out } => {
                lemma_blocked_from::<S>(children, next, out + text);
                match entered_from::<S>(children, next, out + text) {
                    Entered::Value { text } => lemma_returned_coherent(stack.drop_last(), text),
                    Entered::Blocked { .. } => {},
                }
            },
            _ => {},
        }
    }
}

proof fn lemma_landed_coherent<S>(base: Seq<Frame<S>>, node: Node)
    ensures
        coherent(landed(base, entered::<S>(node))),
{
    lemma_blocked::<S>(node);
    match entered::<S>(node) {
        Entered::Value { text } => lemma_returned_coherent(base, text),
        Entered::Blocked { .. } => {},
    }
}

/// Every state that the interpreter reaches is coherent.
pub proof fn lemma_coherent<S>(node: Node, stack: Seq<Frame<S>>, response: Response<S>)
    ensures
        coherent(started::<S>(node)),
        coherent(resumed(stack, response)),
{
    lemma_landed_coherent::<S>(Seq::empty(), node);
    if stack.len() > 0 {
        match stack.last() {
            Frame::Think { children, out, do_tx: None } => match response {
                Response::Do { uuid, do_tx } => {
                    if uuid < children.len() {
                        lemma_landed_coherent(
                            stack.drop_last().push(
                                Frame::Think { children, out, do_tx: Some(do_tx) },
                            ),
                            children[uuid as int],
                        );
                    }
                },
                Response::Complete { message } => lemma_returned_coherent(
                    stack.drop_last(),
                    out + message,
                ),
                Response::Failed { .. } => {},
            },
            _ => {},
        }
    }
}

/// Handing a text back to `stack` on top of `base` is handing it back to
/// `stack` alone, lifted onto `base`.
proof fn lemma_returned_atop<S>(base: Seq<Frame<S>>, stack: Seq<Frame<S>>, text: Seq<char>)
    ensures
        returned(base + stack, text) == lifted(base, returned(stack, text)),
    decreases stack.len(),
{
    if stack.len() > 0 {
        let rest = stack.drop_last();
        assert((base + stack).drop_last() =~= base + rest);
        match stack.last() {
            Frame::Do { children, next, out } => {
                lemma_blocked_from::<S>(children, next, out + text);
                match entered_from::<S>(children, next, out + text) {
                    Entered::Value { text } => lemma_returned_atop(base, rest, text),
                    Entered::Blocked { frames, .. } => {
                        assert(base + rest + frames =~= base + (rest + frames));
                    },
                }
            },
            Frame::Think { children, out, do_tx: Some(_) } => {
                let waiting = Frame::Think { children, out: out + text, do_tx: None };
                assert((base + rest).push(waiting) =~= base + rest.push(waiting));
            },
            Frame::Think { do_tx: None, .. } => {},
        }
    }
}

proof fn lemma_landed_atop<S>(base: Seq<Frame<S>>, stack: Seq<Frame<S>>, found: Entered<S>)
    ensures
        landed(base + stack, found) == lifted(base, landed(stack, found)),
{
    match found {
        Entered::Value { text } => lemma_returned_atop(base, stack, text),
        Entered::Blocked { frames, .. } => {
            assert(base + stack + frames =~= base + (stack + frames));
        },
    }
}

/// A response changes only the evaluation it belongs to: the one on top.
proof fn lemma_resumed_atop<S>(base: Seq<Frame<S>>, stack: Seq<Frame<S>>, response: Response<S>)
    requires
        stack.len() > 0,
    ensures
        resumed(base + stack, response) == lifted(base, resumed(stack, response)),
{
    let rest = stack.drop_last();
    assert((base + stack).drop_last() =~= base + rest);
    match stack.last() {
        Frame::Think { children, out, do_tx: None } => match response {
            Response::Do { uuid, do_tx } => {
                if uuid < children.len() {
                    let parked = Frame::Think { children, out, do_tx: Some(do_tx) };
                    lemma_landed_atop(base, rest.push(parked), entered::<S>(children[uuid as int]));
                }
            },
            Response::Complete { message } => lemma_returned_atop(base, rest, out + message),
            Response::Failed { .. } => {},
        },
        _ => {},
    }
}

/// Feeding one response is resuming once.
pub proof fn lemma_fed_one<S>(state: State<S>, response: Response<S>)
    ensures
        fed(state, seq![response]) == if state.action is Failed {
            state
        } else {
            resumed(state.stack, response)
        },
{
    let next = resumed(state.stack, response);
    assert(seq![response].drop_first() =~= Seq::<Response<S>>::empty());
    assert(fed(next, Seq::<Response<S>>::empty()) == next);
}

/// Responses may be fed in two batches.
pub proof fn lemma_fed_append<S>(state: State<S>, first: Seq<Response<S>>, then: Seq<Response<S>>)
    ensures
        fed(state, first + then) == fed(fed(state, first), then),
    decreases first.len(),
{
    if first.len() > 0 && !(state.action is Failed) {
        assert((first + then).drop_first() =~= first.drop_first() + then);
        lemma_fed_append(resumed(state.stack, first.first()), first.drop_first(), then);
    }
}

/// Nested evaluations do not disturb what is suspended beneath them.
///
/// Let an evaluation wait on a conversation, and let `responses` arrive
/// without failing it. Had the same evaluation run on top of the suspended
/// nodes `base`, every one of these responses would have gone to it and none
/// to `base`: the result is the same state lifted onto `base`.
pub proof fn lemma_nested_evaluation<S>(
    base: Seq<Frame<S>>,
    state: State<S>,
    responses: Seq<Response<S>>,
)
    requires
        suspended(state.action),
        state.stack.len() > 0,
        !(fed(state, responses).action is Failed),
    ensures
        fed(State { stack: base + state.stack, action: state.action }, responses) == lifted(
            base,
            fed(state, responses),
        ),
    decreases responses.len(),
{
    if responses.len() > 0 {
        let next = resumed(state.stack, responses.first());
        let rest = responses.drop_first();
        lemma_resumed_atop(base, state.stack, responses.first());
        lemma_coherent(Node::Do { children: Seq::empty() }, state.stack, responses.first());
        if suspended(next.action) {
            lemma_nested_evaluation(base, next, rest);
        } else if next.action is Done {
            if rest.len() > 0 {
                assert(fed(next, rest) == fed(resumed(next.stack, rest.first()), rest.drop_first()));
            }
            lemma_returned_coherent(base, next.action->Done_output);
            assert(fed(lifted(base, next), rest) == lifted(base, next));
        }
    }
}

/// A failure inside a nested evaluation fails everything.
///
/// If the last of `responses` fails an evaluation that was still waiting
/// when it arrived, it fails with the same error when that evaluation runs
/// on top of the suspended nodes `base`, and nothing stays suspended.
pub proof fn lemma_nested_failure<S>(
    base: Seq<Frame<S>>,
    state: State<S>,
    responses: Seq<Response<S>>,
    error: Error,
)
    requires
        suspended(state.action),
        state.stack.len() > 0,
        responses.len() > 0,
        suspended(fed(state, responses.drop_last()).action),
        fed(state, responses).action == (Action::<S>::Failed { error }),
    ensures
        fed(State { stack: base + state.stack, action: state.action }, responses) == aborted::<S>(
            error,
        ),
{
    let before = responses.drop_last();
    let last = seq![responses.last()];
    assert(responses =~= before + last);
    let waiting = fed(state, before);
    let lower = State { stack: base + state.stack, action: state.action };
    lemma_nested_evaluation(base, state, before);
    lemma_fed_append(state, before, last);
    lemma_fed_append(lower, before, last);
    lemma_fed_coherent(state, before);
    lemma_fed_one(waiting, responses.last());
    lemma_fed_one(lifted(base, waiting), responses.last());
    lemma_resumed_atop(base, waiting.stack, responses.last());
}

/// Feeding responses keeps a coherent state coherent.
pub proof fn lemma_fed_coherent<S>(state: State<S>, responses: Seq<Response<S>>)
    requires
        coherent(state),
    ensures
        coherent(fed(state, responses)),
    decreases responses.len(),
{
    if responses.len() > 0 && !(state.action is Failed) {
        lemma_coherent(Node::Do { children: Seq::empty() }, state.stack, responses.first());
        lemma_fed_coherent(resumed(state.stack, responses.first()), responses.drop_first());
    }
}

/// One callback, from its arrival to the reply.
proof fn lemma_callback<S>(
    base: Seq<Frame<S>>,
    children: Seq<Node>,
    out: Seq<char>,
    action: Action<S>,
    call: Callback<S>,
)
    requires
        suspended(action),
        answered(children, call),
    ensures
        fed(
            State { stack: base.push(Frame::Think { children, out, do_tx: None }), action },
            seq![Response::Do { uuid: call.uuid, do_tx: call.do_tx }] + call.nested,
        ) == (State {
            stack: base.push(Frame::Think { children, out: out + call.text, do_tx: None }),
            action: Action::Reply { do_tx: call.do_tx, text: call.text },
        }),
{
    let waiting = Frame::Think { children, out, do_tx: None };
    let parked = base.push(Frame::Think { children, out, do_tx: Some(call.do_tx) });
    let state = State { stack: base.push(waiting), action };
    let request = Response::Do { uuid: call.uuid, do_tx: call.do_tx };
    let child = children[call.uuid as int];
    let alone = started::<S>(child);
    lemma_fed_append(state, seq![request], call.nested);
    lemma_fed_one(state, request);
    assert(base.push(waiting).drop_last() =~= base);
    lemma_landed_atop(parked, Seq::empty(), entered::<S>(child));
    lemma_coherent(child, Seq::<Frame<S>>::empty(), request);
    if suspended(alone.action) {
        lemma_nested_evaluation(parked, alone, call.nested);
    } else if call.nested.len() > 0 && alone.action is Done {
        let over = resumed(alone.stack, call.nested.first());
        assert(fed(over, call.nested.drop_first()) == over);
    }
    assert(parked.drop_last() =~= base);
}

/// The callbacks of one turn, up to the last reply.
proof fn lemma_turn<S>(
    base: Seq<Frame<S>>,
    children: Seq<Node>,
    out: Seq<char>,
    action: Action<S>,
    calls: Seq<Callback<S>>,
)
    requires
        suspended(action),
        forall|k: int| 0 <= k < calls.len() ==> answered(children, #[trigger] calls[k]),
    ensures
        fed(
            State { stack: base.push(Frame::Think { children, out, do_tx: None }), action },
            transcript(calls),
        ) == (State {
            stack: base.push(Frame::Think { children, out: out + written(calls), do_tx: None }),
            action: if calls.len() == 0 {
                action
            } else {
                Action::Reply { do_tx: calls.last().do_tx, text: calls.last().text }
            },
        }),
    decreases calls.len(),
{
    let state = State { stack: base.push(Frame::Think { children, out, do_tx: None }), action };
    if calls.len() > 0 {
        let earlier = calls.drop_last();
        let call = calls.last();
        let request = seq![Response::Do { uuid: call.uuid, do_tx: call.do_tx }];
        lemma_turn(base, children, out, action, earlier);
        assert(transcript(calls) =~= transcript(earlier) + (request + call.nested));
        lemma_fed_append(state, transcript(earlier), request + call.nested);
        lemma_callback(base, children, out + written(earlier), fed(state, transcript(earlier)).action, call);
        assert(out + written(earlier) + call.text =~= out + written(calls));
    }
}

/// The callbacks of a turn are served in the order in which they arrive.
///
/// Let the agent, asked by a `Think`, make `calls` one after the other, each
/// naming a child that ends with its text once the responses nested in the
/// call have arrived. Then every call is answered before the next arrives:
/// after the last of them the interpreter replies to that call's slot with
/// that child's text. And when the turn completes with `message`, the
/// `Think` has written the texts of the called children in call order,
/// followed by `message`.
pub proof fn lemma_callbacks_in_order<S>(
    prompt: Seq<char>,
    children: Seq<Node>,
    calls: Seq<Callback<S>>,
    message: Seq<char>,
)
    requires
        forall|k: int| 0 <= k < calls.len() ==> answered(children, #[trigger] calls[k]),
    ensures
        evaluate(Node::Think { prompt, children }, transcript(calls)) == if calls.len() == 0 {
            Action::<S>::Think { prompt }
        } else {
            Action::<S>::Reply { do_tx: calls.last().do_tx, text: calls.last().text }
        },
        evaluate(
            Node::Think { prompt, children },
            transcript(calls) + seq![Response::Complete { message }],
        ) == (Action::<S>::Done { output: written(calls) + message }),
{
    let node = Node::Think { prompt, children };
    let first = started::<S>(node);
    let base = Seq::<Frame<S>>::empty();
    lemma_turn(base, children, Seq::empty(), Action::Think { prompt }, calls);
    let waiting = fed(first, transcript(calls));
    lemma_fed_append(first, transcript(calls), seq![Response::Complete { message }]);
    lemma_fed_one(waiting, Response::Complete { message });
}

/// A callback that names no child fails the evaluation.
///
/// Let the agent, asked by a `Think`, make `calls` that are all answered,
/// and then a callback whose index is not below the number of the `Think`'s
/// children. The evaluation fails with `Error::IndexBounds`, naming the
/// index and that number, whatever arrives afterwards. It writes nothing.
pub proof fn lemma_callback_out_of_range<S>(
    prompt: Seq<char>,
    children: Seq<Node>,
    calls: Seq<Callback<S>>,
    uuid: usize,
    do_tx: S,
    later: Seq<Response<S>>,
)
    requires
        forall|k: int| 0 <= k < calls.len() ==> answered(children, #[trigger] calls[k]),
        uuid >= children.len(),
    ensures
        evaluate(
            Node::Think { prompt, children },
            transcript(calls) + seq![Response::Do { uuid, do_tx }] + later,
        ) == (Action::<S>::Failed {
            error: Error::IndexBounds { index: uuid, len: children.len() as usize },
        }),
{
    let node = Node::Think { prompt, children };
    let first = started::<S>(node);
    let base = Seq::<Frame<S>>::empty();
    let request = Response::Do { uuid, do_tx };
    lemma_turn(base, children, Seq::empty(), Action::Think { prompt }, calls);
    let waiting = fed(first, transcript(calls));
    lemma_fed_append(first, transcript(calls) + seq![request], later);
    lemma_fed_append(first, transcript(calls), seq![request]);
    lemma_fed_one(waiting, request);
}

/// One child of a `Do`, evaluated alone.
pub struct Part<S> {
    /// What arrives while the child runs.
    pub nested: Seq<Response<S>>,
    /// What the child writes.
    pub text: Seq<char>,
}

/// All that arrives while the children `from..` run one after the other.
pub open spec fn arrivals<S>(parts: Seq<Part<S>>, from: nat) -> Seq<Response<S>>
    decreases parts.len() - from,
{
    if from >= parts.len() {
        Seq::empty()
    } else {
        parts[from as int].nested + arrivals(parts, from + 1)
    }
}

/// What the children `from..` write, joined in order.
pub open spec fn joined<S>(parts: Seq<Part<S>>, from: nat) -> Seq<char>
    decreases parts.len() - from,
{
    if from >= parts.len() {
        Seq::empty()
    } else {
        parts[from as int].text + joined(parts, from + 1)
    }
}

/// The children `from..` of a `Do`, run on top of `base` after `out` was
/// written.
proof fn lemma_do_from<S>(
    base: Seq<Frame<S>>,
    children: Seq<Node>,
    from: nat,
    out: Seq<char>,
    parts: Seq<Part<S>>,
)
    requires
        parts.len() == children.len(),
        forall|k: int|
            from <= k < children.len() ==> evaluate(children[k], (#[trigger] parts[k]).nested) == (
            Action::<S>::Done { output: parts[k].text }),
    ensures
        fed(landed(base, entered_from::<S>(children, from, out)), arrivals(parts, from))
            == returned(base, out + joined(parts, from)),
    decreases children.len() - from,
{
    if from < children.len() {
        let child = children[from as int];
        let part = parts[from as int];
        let alone = started::<S>(child);
        let later = arrivals(parts, from + 1);
        let begun = landed(base, entered_from::<S>(children, from, out));
        lemma_do_from(base, children, from + 1, out + part.text, parts);
        assert(out + part.text + joined(parts, from + 1) =~= out + joined(parts, from));
        lemma_coherent(child, Seq::<Frame<S>>::empty(), Response::Failed { error: Error::Transport });
        match entered::<S>(child) {
            Entered::Value { text } => {
                if part.nested.len() > 0 {
                    let over = resumed(alone.stack, part.nested.first());
                    assert(fed(over, part.nested.drop_first()) == over);
                }
            },
            Entered::Blocked { frames, prompt } => {
                let parked = base.push(Frame::Do { children, next: from + 1, out });
                lemma_blocked::<S>(child);
                assert(base + (seq![Frame::Do { children, next: from + 1, out }] + frames)
                    =~= parked + frames);
                lemma_fed_append(begun, part.nested, later);
                lemma_nested_evaluation(parked, alone, part.nested);
                assert(parked.drop_last() =~= base);
            },
        }
    }
}

/// A `Do` runs its children in order and joins what they write.
///
/// Let every child of a `Do`, evaluated alone, end with its part's text once
/// its part's responses have arrived. Then the `Do`, given the responses of
/// all parts one after the other, ends with the texts joined in the order of
/// the children: each child's conversations are over before the next child
/// begins.
pub proof fn lemma_do_in_order<S>(children: Seq<Node>, parts: Seq<Part<S>>)
    requires
        parts.len() == children.len(),
        forall|k: int|
            0 <= k < children.len() ==> evaluate(children[k], (#[trigger] parts[k]).nested) == (
            Action::<S>::Done { output: parts[k].text }),
    ensures
        evaluate(Node::Do { children }, arrivals(parts, 0)) == (Action::<S>::Done {
            output: joined(parts, 0),
        }),
{
    lemma_do_from(Seq::empty(), children, 0, Seq::empty(), parts);
}

/// Whether every conversation on the stack has a callback running: the
/// shape of what lies beneath an evaluation that a callback began.
pub open spec fn busy<S>(stack: Seq<Frame<S>>) -> bool {
    forall|i: int|
        0 <= i < stack.len() ==> (#[trigger] stack[i] matches Frame::Think { do_tx, .. }
            ==> do_tx is Some)
}

/// Whether the stack is one on which the interpreter waits: the innermost
/// node, if there is one, is a `Think` with no callback running, and every
/// conversation beneath it has one running.
pub open spec fn orderly<S>(stack: Seq<Frame<S>>) -> bool {
    stack.len() > 0 ==> busy(stack.drop_last()) && stack.last() matches Frame::Think {
        do_tx: None,
        ..
    }
}

/// What a run of children suspends when it blocks is orderly.
proof fn lemma_entered_from_orderly<S>(children: Seq<Node>, from: nat, out: Seq<char>)
    ensures
        entered_from::<S>(children, from, out) matches Entered::Blocked { frames, .. }
            ==> frames.len() > 0 && orderly(frames),
    decreases children, children.len() - from,
{
    if from < children.len() {
        match entered::<S>(children[from as int]) {
            Entered::Value { text } => lemma_entered_from_orderly::<S>(
                children,
                from + 1,
                out + text,
            ),
            Entered::Blocked { frames, .. } => {
                lemma_entered_orderly::<S>(children[from as int]);
                let all = seq![Frame::<S>::Do { children, next: from + 1, out }] + frames;
                assert forall|i: int| 0 <= i < all.drop_last().len() implies (
                #[trigger] all.drop_last()[i] matches Frame::Think { do_tx, .. }
                    ==> do_tx is Some) by {
                    if i > 0 {
                        assert(all.drop_last()[i] == frames.drop_last()[i - 1]);
                    }
                }
            },
        }
    }
}

/// What a node suspends when it blocks is orderly.
proof fn lemma_entered_orderly<S>(node: Node)
    ensures
        entered::<S>(node) matches Entered::Blocked { frames, .. } ==> frames.len() > 0
            && orderly(frames),
    decreases node, 0nat,
{
    match node {
        Node::Do { children } => lemma_entered_from_orderly::<S>(children, 0, Seq::empty()),
        _ => {},
    }
}

/// Nodes that block on top of busy conversations leave an orderly stack.
proof fn lemma_busy_then_orderly<S>(base: Seq<Frame<S>>, frames: Seq<Frame<S>>)
    requires
        busy(base),
        frames.len() > 0,
        orderly(frames),
    ensures
        orderly(base + frames),
{
    let all = base + frames;
    assert forall|i: int| 0 <= i < all.drop_last().len() implies (
    #[trigger] all.drop_last()[i] matches Frame::Think { do_tx, .. } ==> do_tx is Some) by {
        if i >= base.len() {
            assert(all.drop_last()[i] == frames.drop_last()[i - base.len()]);
        }
    }
}

/// A text handed back to busy conversations never fails, and leaves an
/// orderly stack.
proof fn lemma_returned_orderly<S>(stack: Seq<Frame<S>>, text: Seq<char>)
    requires
        busy(stack),
    ensures
        orderly(returned(stack, text).stack),
        !(returned(stack, text).action is Failed),
    decreases stack.len(),
{
    if stack.len() > 0 {
        let rest = stack.drop_last();
        match stack.last() {
            Frame::Do { children, next, out } => {
                lemma_entered_from_orderly::<S>(children, next, out + text);
                match entered_from::<S>(children, next, out + text) {
                    Entered::Value { text } => lemma_returned_orderly(rest, text),
                    Entered::Blocked { frames, .. } => lemma_busy_then_orderly(rest, frames),
                }
            },
            Frame::Think { children, out, do_tx } => {
                let waiting = Frame::Think { children, out: out + text, do_tx: None };
                assert(rest.push(waiting).drop_last() =~= rest);
            },
        }
    }
}

/// The interpreter keeps its stack orderly, and never fails of itself.
///
/// The stack is orderly when an evaluation begins, and a response to an
/// orderly stack leaves an orderly stack. Beginning never fails. A response
/// fails the evaluation only if no conversation is open, if it is a
/// callback that names no child, or if it is itself a failure, which is
/// then passed on unchanged.
pub proof fn lemma_orderly<S>(node: Node, stack: Seq<Frame<S>>, response: Response<S>)
    requires
        orderly(stack),
    ensures
        orderly(started::<S>(node).stack),
        !(started::<S>(node).action is Failed),
        orderly(resumed(stack, response).stack),
        resumed(stack, response).action matches Action::Failed { error } ==> {
            ||| stack.len() == 0 && error == (Error::UnexpectedAgentState {
                fault: crate::error::AgentFault::OutOfOrder,
            })
            ||| response matches Response::Do { uuid, .. } && error is IndexBounds
            ||| response == (Response::<S>::Failed { error })
        },
{
    let none = Seq::<Frame<S>>::empty();
    lemma_entered_orderly::<S>(node);
    match entered::<S>(node) {
        Entered::Value { text } => lemma_returned_orderly(none, text),
        Entered::Blocked { frames, .. } => assert(none + frames =~= frames),
    }
    if stack.len() > 0 {
        let rest = stack.drop_last();
        match stack.last() {
            Frame::Think { children, out, do_tx: None } => match response {
                Response::Do { uuid, do_tx } => {
                    if uuid < children.len() {
                        let parked = rest.push(Frame::Think { children, out, do_tx: Some(do_tx) });
                        lemma_entered_orderly::<S>(children[uuid as int]);
                        match entered::<S>(children[uuid as int]) {
                            Entered::Value { text } => lemma_returned_orderly(parked, text),
                            Entered::Blocked { frames, .. } => lemma_busy_then_orderly(
                                parked,
                                frames,
                            ),
                        }
                    }
                },
                Response::Complete { message } => lemma_returned_orderly(rest, out + message),
                Response::Failed { .. } => {},
            },
            _ => {},
        }
    }
}

} // verus!
