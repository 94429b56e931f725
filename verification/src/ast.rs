//! The script: a tree of nodes, and what its `Print` nodes write.

use vstd::prelude::*;

verus! {

/// A script: a tree of nodes that print, think, or run their children in order.
#[derive(Debug)]
pub enum Ast {
    Print { message: String },
    /// The prompt can include a message "invoke subroutine N".
    Think { think: Think },
    Do { children: Vec<Ast> },
}

/// A prompt for the agent, and the subroutines the agent may invoke by
/// zero-based position while it answers.
#[derive(Debug)]
pub struct Think {
    pub prompt: String,
    pub children: Vec<Ast>,
}

/// The mathematical model of a script.
pub enum Node {
    Print { message: Seq<char> },
    Think { prompt: Seq<char>, children: Seq<Node> },
    Do { children: Seq<Node> },
}

/// The model of `ast`.
pub open spec fn node(ast: Ast) -> Node
    decreases ast,
{
    match ast {
        Ast::Print { message } => Node::Print { message: message@ },
        Ast::Think { think } => Node::Think {
            prompt: think.prompt@,
            children: nodes(think.children@),
        },
        Ast::Do { children } => Node::Do { children: nodes(children@) },
    }
}

/// The models of a run of scripts, position by position.
pub open spec fn nodes(asts: Seq<Ast>) -> Seq<Node>
    decreases asts,
{
    Seq::new(
        asts.len(),
        |i: int|
            if 0 <= i < asts.len() {
                node(asts[i])
            } else {
                arbitrary()
            },
    )
}

impl View for Ast {
    type V = Node;

    open spec fn view(&self) -> Node {
        node(*self)
    }
}

impl View for Think {
    type V = Node;

    open spec fn view(&self) -> Node {
        Node::Think { prompt: self.prompt@, children: nodes(self.children@) }
    }
}

/// A message followed by a newline: what one `Print` writes.
pub open spec fn line(message: Seq<char>) -> Seq<char> {
    message + seq!['\n']
}

/// Whether a `Think` node occurs anywhere in the script.
pub open spec fn has_think(node: Node) -> bool
    decreases node,
{
    match node {
        Node::Print { .. } => false,
        Node::Think { .. } => true,
        Node::Do { children } => exists|i: int|
            0 <= i < children.len() && has_think(#[trigger] children[i]),
    }
}

/// The messages of the script's `Print` nodes in reading order, every `Do`
/// flattened. A `Think` contributes none: what it writes is up to the agent.
pub open spec fn messages(node: Node) -> Seq<Seq<char>>
    decreases node, 0nat,
{
    match node {
        Node::Print { message } => seq![message],
        Node::Think { .. } => Seq::empty(),
        Node::Do { children } => messages_from(children, 0),
    }
}

/// The messages of `children[from..]`, in order.
pub open spec fn messages_from(children: Seq<Node>, from: nat) -> Seq<Seq<char>>
    decreases children, children.len() - from,
{
    if from >= children.len() {
        Seq::empty()
    } else {
        messages(children[from as int]) + messages_from(children, from + 1)
    }
}

/// Each message followed by a newline, all joined.
pub open spec fn render(messages: Seq<Seq<char>>) -> Seq<char>
    decreases messages.len(),
{
    if messages.len() == 0 {
        Seq::empty()
    } else {
        render(messages.drop_last()) + line(messages.last())
    }
}

/// Rendering a run of messages is rendering its two halves one after the other.
pub proof fn lemma_render_concat(a: Seq<Seq<char>>, b: Seq<Seq<char>>)
    ensures
        render(a + b) == render(a) + render(b),
    decreases b.len(),
{
    if b.len() > 0 {
        lemma_render_concat(a, b.drop_last());
        assert((a + b).drop_last() =~= a + b.drop_last());
    }
}

/// Nesting `Do` nodes changes nothing: a `Do` of two runs writes what a `Do`
/// of the first run followed by a `Do` of the second writes.
pub proof fn lemma_messages_flatten(front: Seq<Node>, back: Seq<Node>)
    ensures
        messages(Node::Do { children: front + back }) == messages(Node::Do { children: front })
            + messages(Node::Do { children: back }),
        messages(Node::Do { children: seq![Node::Do { children: front }] + back }) == messages(
            Node::Do { children: front + back },
        ),
{
    lemma_messages_split(front, back, 0);
    lemma_messages_shift(seq![Node::Do { children: front }], back, 0);
}

/// The messages of `(front + back)[from..]` when `from` lies in `front`.
proof fn lemma_messages_split(front: Seq<Node>, back: Seq<Node>, from: nat)
    requires
        from <= front.len(),
    ensures
        messages_from(front + back, from) == messages_from(front, from) + messages_from(back, 0),
    decreases front.len() - from,
{
    if from == front.len() {
        lemma_messages_shift(front, back, 0);
    } else {
        lemma_messages_split(front, back, from + 1);
    }
}

/// The messages of `(front + back)[front.len() + from..]` are those of `back[from..]`.
proof fn lemma_messages_shift(front: Seq<Node>, back: Seq<Node>, from: nat)
    ensures
        messages_from(front + back, front.len() + from) == messages_from(back, from),
    decreases back.len() - from,
{
    if from < back.len() {
        lemma_messages_shift(front, back, from + 1);
    }
}

} // verus!
