//! The interpreter: a resumable walk over a script that stops at every
//! `Think` and goes on when the conversation answers.

use vstd::prelude::*;
use vstd::string::StringExecFns;
use crate::ast::{Ast, Node, line, nodes};
use crate::error::{AgentFault, Error};

verus! {

/// What a conversation hands the interpreter while it waits on a `Think`.
///
/// `S` is the reply slot that comes with a callback. The interpreter never
/// looks inside one: it keeps the slot while the subroutine runs and gives it
/// back, with the subroutine's text, in `Step::Reply`.
#[derive(Debug, PartialEq, Eq)]
pub enum ThinkResponse<S> {
    /// The thinker requested us to "do" something.
    Do {
        /// Zero-based position of the subroutine among the children of the
        /// `Think` node that is waiting.
        uuid: usize,
        /// Where to send the result once we have "done" it.
        do_tx: S,
    },
    /// The turn ended normally; `message` is all the text the agent sent.
    Complete { message: String },
    /// The conversation failed.
    Failed { error: Error },
}

/// The model of a `ThinkResponse`.
pub enum Response<S> {
    Do { uuid: usize, do_tx: S },
    Complete { message: Seq<char> },
    Failed { error: Error },
}

impl<S> View for ThinkResponse<S> {
    type V = Response<S>;

    open spec fn view(&self) -> Response<S> {
        match *self {
            ThinkResponse::Do { uuid, do_tx } => Response::Do { uuid, do_tx },
            ThinkResponse::Complete { message } => Response::Complete { message: message@ },
            ThinkResponse::Failed { error } => Response::Failed { error },
        }
    }
}

/// What the interpreter asks of its caller before it can go on, or how the
/// evaluation ended.
#[derive(Debug, PartialEq, Eq)]
pub enum Step<S> {
    /// Open a conversation with this prompt, then `resume` with what it sends.
    Think { prompt: String },
    /// Put `text` into `do_tx`, then `resume` with what the conversation that
    /// made the callback sends next.
    Reply { do_tx: S, text: String },
    /// The script ran to its end and wrote `output`.
    Done { output: String },
    /// The evaluation was abandoned.
    Failed { error: Error },
}

/// The model of a `Step`.
pub enum Action<S> {
    Think { prompt: Seq<char> },
    Reply { do_tx: S, text: Seq<char> },
    Done { output: Seq<char> },
    Failed { error: Error },
}

impl<S> View for Step<S> {
    type V = Action<S>;

    open spec fn view(&self) -> Action<S> {
        match *self {
            Step::Think { prompt } => Action::Think { prompt: prompt@ },
            Step::Reply { do_tx, text } => Action::Reply { do_tx, text: text@ },
            Step::Done { output } => Action::Done { output: output@ },
            Step::Failed { error } => Action::Failed { error },
        }
    }
}

/// One suspended node of the script, as the model sees it.
pub enum Frame<S> {
    /// A `Do` whose child blocked. `out` is what the children before it
    /// wrote; `next` is the position to go on from once it returns.
    Do { children: Seq<Node>, next: nat, out: Seq<char> },
    /// A `Think` with its conversation open. `out` is what its callbacks
    /// wrote so far; `do_tx` is the slot of the callback that is running, if
    /// one is.
    Think { children: Seq<Node>, out: Seq<char>, do_tx: Option<S> },
}

/// What walking into a node leads to when no response is at hand.
pub enum Entered<S> {
    /// The node ran to its end and wrote `text`.
    Value { text: Seq<char> },
    /// A `Think` was reached. `frames` are the nodes suspended on the way,
    /// outermost first, the `Think` last.
    Blocked { frames: Seq<Frame<S>>, prompt: Seq<char> },
}

/// The suspended nodes together with what was last asked of the caller.
pub struct State<S> {
    pub stack: Seq<Frame<S>>,
    pub action: Action<S>,
}

/// The state of an evaluation that failed: nothing stays suspended.
pub open spec fn aborted<S>(error: Error) -> State<S> {
    State { stack: Seq::empty(), action: Action::Failed { error } }
}

/// Walks into `node`: a `Print` writes its line, a `Do` runs its children in
/// order and joins what they wrote, a `Think` blocks.
pub open spec fn entered<S>(node: Node) -> Entered<S>
    decreases node, 0nat,
{
    match node {
        Node::Print { message } => Entered::Value { text: line(message) },
        Node::Think { prompt, children } => Entered::Blocked {
            frames: seq![Frame::Think { children, out: Seq::empty(), do_tx: None }],
            prompt,
        },
        Node::Do { children } => entered_from(children, 0, Seq::empty()),
    }
}

/// Walks into `children[from..]` in order, after `out` was written.
pub open spec fn entered_from<S>(children: Seq<Node>, from: nat, out: Seq<char>) -> Entered<S>
    decreases children, children.len() - from,
{
    if from >= children.len() {
        Entered::Value { text: out }
    } else {
        match entered::<S>(children[from as int]) {
            Entered::Value { text } => entered_from(children, from + 1, out + text),
            Entered::Blocked { frames, prompt } => Entered::Blocked {
                frames: seq![Frame::Do { children, next: from + 1, out }] + frames,
                prompt,
            },
        }
    }
}

/// Hands `text`, which the innermost suspended node was waiting for, back to
/// `stack` and goes on from there.
///
/// A `Do` appends it and runs its remaining children. A `Think` whose
/// callback was running appends it and replies to the callback's slot. With
/// nothing suspended, `text` is the output of the whole script.
pub open spec fn returned<S>(stack: Seq<Frame<S>>, text: Seq<char>) -> State<S>
    decreases stack.len(),
{
    if stack.len() == 0 {
        State { stack, action: Action::Done { output: text } }
    } else {
        let rest = stack.drop_last();
        match stack.last() {
            Frame::Do { children, next, out } => match entered_from::<S>(children, next, out + text) {
                Entered::Value { text } => returned(rest, text),
                Entered::Blocked { frames, prompt } => State {
                    stack: rest + frames,
                    action: Action::Think { prompt },
                },
            },
            Frame::Think { children, out, do_tx: Some(do_tx) } => State {
                stack: rest.push(Frame::Think { children, out: out + text, do_tx: None }),
                action: Action::Reply { do_tx, text },
            },
            Frame::Think { do_tx: None, .. } => aborted(Error::InternalProtocol),
        }
    }
}

/// Runs what `entered` found on top of `base`.
pub open spec fn landed<S>(base: Seq<Frame<S>>, entered: Entered<S>) -> State<S> {
    match entered {
        Entered::Value { text } => returned(base, text),
        Entered::Blocked { frames, prompt } => State {
            stack: base + frames,
            action: Action::Think { prompt },
        },
    }
}

/// The state after an evaluation of `node` began.
pub open spec fn started<S>(node: Node) -> State<S> {
    landed(Seq::empty(), entered(node))
}

/// The state after `response` arrived while `stack` was suspended.
///
/// The response belongs to the innermost node, which must be a `Think` with
/// no callback running; anything else is the agent out of order.
/// A callback in range runs the child it names on top of the `Think`, which
/// keeps the slot meanwhile; one out of range fails the evaluation. A
/// completion appends the agent's text to what the callbacks wrote and
/// returns that to the node around the `Think`. A failure ends the
/// evaluation with the same error. Every failure drops all suspended nodes.
pub open spec fn resumed<S>(stack: Seq<Frame<S>>, response: Response<S>) -> State<S> {
    if stack.len() == 0 {
        aborted(Error::UnexpectedAgentState { fault: AgentFault::OutOfOrder })
    } else {
        match stack.last() {
            Frame::Think { children, out, do_tx: None } => match response {
                Response::Do { uuid, do_tx } => if uuid >= children.len() {
                    aborted(Error::IndexBounds { index: uuid, len: children.len() as usize })
                } else {
                    landed(
                        stack.drop_last().push(Frame::Think { children, out, do_tx: Some(do_tx) }),
                        entered(children[uuid as int]),
                    )
                },
                Response::Complete { message } => returned(stack.drop_last(), out + message),
                Response::Failed { error } => aborted(error),
            },
            _ => aborted(Error::UnexpectedAgentState { fault: AgentFault::OutOfOrder }),
        }
    }
}

/// One suspended node: the exec twin of `Frame`.
enum Activation<'a, S> {
    Do { children: &'a Vec<Ast>, next: usize, out: String },
    Think { children: &'a Vec<Ast>, out: String, do_tx: Option<S> },
}

impl<'a, S> View for Activation<'a, S> {
    type V = Frame<S>;

    closed spec fn view(&self) -> Frame<S> {
        match *self {
            Activation::Do { children, next, out } => Frame::Do {
                children: nodes(children@),
                next: next as nat,
                out: out@,
            },
            Activation::Think { children, out, do_tx } => Frame::Think {
                children: nodes(children@),
                out: out@,
                do_tx,
            },
        }
    }
}

/// A resumable evaluation of one script.
///
/// `run` walks the script until it ends or reaches a `Think`; `resume` takes
/// what the conversation sent and walks on. Between the two the interpreter
/// holds the suspended nodes, innermost last, so a callback may open a
/// conversation of its own and the outer one waits until the inner one is
/// over.
pub struct Interpreter<'a, S> {
    stack: Vec<Activation<'a, S>>,
}

impl<'a, S> View for Interpreter<'a, S> {
    type V = Seq<Frame<S>>;

    closed spec fn view(&self) -> Seq<Frame<S>> {
        Seq::new(self.stack.len() as nat, |i: int| self.stack[i]@)
    }
}

impl<'a, S> Interpreter<'a, S> {
    /// An interpreter with nothing suspended.
    pub fn new() -> (interpreter: Self)
        ensures
            interpreter@ == Seq::<Frame<S>>::empty(),
    {
        let interpreter = Interpreter { stack: Vec::new() };
        interpreter
    }

    /// How many nodes are suspended.
    pub fn depth(&self) -> (depth: usize)
        ensures
            depth == self@.len(),
    {
        self.stack.len()
    }

    /// Begins an evaluation of `ast`, dropping one that was under way.
    pub fn run(&mut self, ast: &'a Ast) -> (step: Step<S>)
        ensures
            (State { stack: final(self)@, action: step@ }) == started::<S>(ast@),
    {
        self.stack.clear();
        assert(self@ =~= Seq::<Frame<S>>::empty());
        match self.enter(ast) {
            Ok(text) => self.ascend(text),
            Err(prompt) => {
                Step::Think { prompt }
            },
        }
    }

    /// Goes on with what the innermost open conversation sent.
    pub fn resume(&mut self, response: ThinkResponse<S>) -> (step: Step<S>)
        ensures
            (State { stack: final(self)@, action: step@ }) == resumed(old(self)@, response@),
    {
        let ghost before = self@;
        match self.stack.pop() {
            Some(Activation::Think { children, out, do_tx: None }) => {
                assert(self@ =~= before.drop_last());
                match response {
                    ThinkResponse::Do { uuid, do_tx } => {
                        if uuid >= children.len() {
                            self.fail(Error::IndexBounds { index: uuid, len: children.len() })
                        } else {
                            let ghost parked = before.drop_last().push(
                                Frame::Think { children: nodes(children@), out: out@, do_tx: Some(do_tx) },
                            );
                            self.stack.push(Activation::Think { children, out, do_tx: Some(do_tx) });
                            assert(self@ =~= parked);
                            match self.enter(&children[uuid]) {
                                Ok(text) => self.ascend(text),
                                Err(prompt) => Step::Think { prompt },
                            }
                        }
                    },
                    ThinkResponse::Complete { message } => {
                        let mut out = out;
                        out.append(message.as_str());
                        self.ascend(out)
                    },
                    ThinkResponse::Failed { error } => self.fail(error),
                }
            },
            _ => self.fail(Error::UnexpectedAgentState { fault: AgentFault::OutOfOrder }),
        }
    }

    /// Drops every suspended node and reports `error`.
    fn fail(&mut self, error: Error) -> (step: Step<S>)
        ensures
            final(self)@ == Seq::<Frame<S>>::empty(),
            step@ == (Action::<S>::Failed { error }),
    {
        self.stack.clear();
        Step::Failed { error }
    }

    /// Walks into `node`. Gives its text if it ran to its end; else suspends
    /// the nodes on the way to the `Think` that was reached and gives the
    /// prompt.
    fn enter(&mut self, node: &'a Ast) -> (found: Result<String, String>)
        ensures
            match entered::<S>(node@) {
                Entered::Value { text } => found matches Ok(t) && t@ == text && final(self)@ == old(
                    self,
                )@,
                Entered::Blocked { frames, prompt } => found matches Err(p) && p@ == prompt
                    && final(self)@ == old(self)@ + frames,
            },
        decreases node,
    {
        match node {
            Ast::Print { message } => {
                let mut text = message.clone();
                text.append("\n");
                proof {
                    reveal_strlit("\n");
                }
                Ok(text)
            },
            Ast::Think { think } => {
                self.stack.push(
                    Activation::Think { children: &think.children, out: String::new(), do_tx: None },
                );
                Err(think.prompt.clone())
            },
            Ast::Do { children } => self.enter_from(children, 0, String::new()),
        }
    }

    /// Walks into `children[from..]` in order, after `out` was written.
    fn enter_from(&mut self, children: &'a Vec<Ast>, from: usize, out: String) -> (found: Result<
        String,
        String,
    >)
        ensures
            match entered_from::<S>(nodes(children@), from as nat, out@) {
                Entered::Value { text } => found matches Ok(t) && t@ == text && final(self)@ == old(
                    self,
                )@,
                Entered::Blocked { frames, prompt } => found matches Err(p) && p@ == prompt
                    && final(self)@ == old(self)@ + frames,
            },
        decreases children,
    {
        let mut written = out;
        let mut i: usize = from;
        while i < children.len()
            invariant
                self@ == old(self)@,
                entered_from::<S>(nodes(children@), i as nat, written@) == entered_from::<S>(
                    nodes(children@),
                    from as nat,
                    out@,
                ),
            decreases children.len() - i,
        {
            let base: usize = self.stack.len();
            match self.enter(&children[i]) {
                Ok(text) => {
                    written.append(text.as_str());
                    i = i + 1;
                },
                Err(prompt) => {
                    let ghost inner = self@;
                    let ghost frame = Frame::<S>::Do {
                        children: nodes(children@),
                        next: (i + 1) as nat,
                        out: written@,
                    };
                    assert(inner.len() == self.stack.len());
                    self.stack.insert(base, Activation::Do { children, next: i + 1, out: written });
                    assert(inner.insert(base as int, frame) =~= old(self)@ + (seq![frame]
                        + inner.subrange(base as int, inner.len() as int)));
                    assert(inner.subrange(base as int, inner.len() as int) =~= match entered::<S>(
                        children[i as int]@,
                    ) {
                        Entered::Blocked { frames, .. } => frames,
                        Entered::Value { .. } => Seq::empty(),
                    });
                    return Err(prompt);
                },
            }
        }
        Ok(written)
    }

    /// Hands `text` back to the innermost suspended node and walks on.
    fn ascend(&mut self, text: String) -> (step: Step<S>)
        ensures
            (State { stack: final(self)@, action: step@ }) == returned(old(self)@, text@),
    {
        let mut carried = text;
        loop
            invariant
                returned(self@, carried@) == returned(old(self)@, text@),
            decreases self.stack.len(),
        {
            let ghost before = self@;
            match self.stack.pop() {
                None => {
                    return Step::Done { output: carried };
                },
                Some(Activation::Do { children, next, out }) => {
                    assert(self@ =~= before.drop_last());
                    let mut out = out;
                    out.append(carried.as_str());
                    match self.enter_from(children, next, out) {
                        Ok(value) => {
                            carried = value;
                        },
                        Err(prompt) => {
                            return Step::Think { prompt };
                        },
                    }
                },
                Some(Activation::Think { children, out, do_tx: Some(do_tx) }) => {
                    let mut out = out;
                    out.append(carried.as_str());
                    let ghost waiting = Frame::<S>::Think {
                        children: nodes(children@),
                        out: out@,
                        do_tx: None,
                    };
                    self.stack.push(Activation::Think { children, out, do_tx: None });
                    assert(self@ =~= before.drop_last().push(waiting));
                    return Step::Reply { do_tx, text: carried };
                },
                Some(Activation::Think { do_tx: None, .. }) => {
                    return self.fail(Error::InternalProtocol);
                },
            }
        }
    }
}

} // verus!
