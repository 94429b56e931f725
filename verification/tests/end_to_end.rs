use patchwork::ast::{Ast, Think};
use patchwork::driver::{
    Command, ContentBlock, DriverEvent, PerSessionMessage, SessionDriver, SessionUpdate,
};
use patchwork::error::{AgentFault, Error, StopReason};
use patchwork::interpreter::{Interpreter, Step};
use patchwork::router::{RedirectMessage, Routed, Router};

/// What a simulated agent does next.
enum Move {
    /// Sends this to the router's mailbox.
    Send(PerSessionMessage<usize>),
    /// Fails the transport of the conversation opened last.
    Break,
}

/// What a simulated run leaves behind.
struct Trace {
    result: Result<String, Error>,
    /// The prompts submitted, each with the session it went to.
    prompts: Vec<(String, String)>,
    /// The text put into each reply slot, by slot.
    replies: Vec<(usize, String)>,
    /// How many conversations the router holds at the end.
    depth: usize,
    /// The router's depth at every push and pop, in order.
    depths: Vec<usize>,
}

fn print(message: &str) -> Ast {
    Ast::Print { message: message.to_string() }
}

fn think(prompt: &str, children: Vec<Ast>) -> Ast {
    Ast::Think { think: Think { prompt: prompt.to_string(), children } }
}

fn says(words: &str) -> Move {
    Move::Send(PerSessionMessage::SessionNotification {
        update: SessionUpdate::AgentMessageChunk {
            content: ContentBlock::Text { text: words.to_string() },
        },
    })
}

fn invokes(number: usize, do_tx: usize) -> Move {
    Move::Send(PerSessionMessage::DoInvocation { number, do_tx })
}

fn stops(stop_reason: StopReason) -> Move {
    Move::Send(PerSessionMessage::PromptResponse { stop_reason })
}

/// Runs `ast` with the interpreter, the router and one driver for each
/// conversation wired as the program wires them, against an agent that makes
/// `moves` in order. Panics on a routing defect.
fn simulate(ast: &Ast, moves: Vec<Move>) -> Trace {
    let mut interpreter = Interpreter::<usize>::new();
    let mut router = Router::<usize>::new();
    let mut drivers: Vec<SessionDriver> = Vec::new();
    let mut trace = Trace {
        result: Err(Error::InternalProtocol),
        prompts: Vec::new(),
        replies: Vec::new(),
        depth: 0,
        depths: Vec::new(),
    };
    let mut moves = moves.into_iter();
    let mut step = interpreter.run(ast);
    loop {
        let mut events: Vec<(usize, DriverEvent<usize>)> = Vec::new();
        match step {
            Step::Done { output } => {
                trace.result = Ok(output);
                break;
            }
            Step::Failed { error } => {
                trace.result = Err(error);
                break;
            }
            Step::Reply { do_tx, text } => trace.replies.push((do_tx, text)),
            Step::Think { prompt } => {
                drivers.push(SessionDriver::new(prompt));
                let session_id = format!("session-{}", drivers.len());
                events.push((drivers.len() - 1, DriverEvent::SessionOpened { session_id }));
            }
        }
        let mut next = None;
        while next.is_none() {
            if events.is_empty() {
                match moves.next().expect("the agent goes on until the script ends") {
                    Move::Break => events.push((router.depth() - 1, DriverEvent::TransportFailed)),
                    Move::Send(message) => {
                        match router.apply(RedirectMessage::IncomingMessage(message)) {
                            Ok(Routed::Forward { to, message }) => {
                                let conversation = *router.handle(to).expect("open");
                                events.push((conversation, DriverEvent::Message { message }));
                            }
                            other => panic!("not forwarded: {:?}", other.map(|_| ())),
                        }
                    }
                }
            }
            let (conversation, event) = events.remove(0);
            for command in drivers[conversation].step(event) {
                match command {
                    Command::Push => {
                        router.apply(RedirectMessage::<usize, ()>::PushThinker(conversation)).unwrap();
                        trace.depths.push(router.depth());
                    }
                    Command::Pop => {
                        let released = router.apply(RedirectMessage::<usize, ()>::PopThinker);
                        assert_eq!(released, Ok(Routed::Released { handle: conversation }));
                        trace.depths.push(router.depth());
                    }
                    Command::SubmitPrompt { session_id, prompt } => {
                        assert_eq!(router.handle(router.depth() - 1), Some(&conversation));
                        trace.prompts.push((session_id, prompt));
                    }
                    Command::Forward { response } => next = Some(interpreter.resume(response)),
                }
            }
        }
        step = next.unwrap();
    }
    trace.depth = router.depth();
    trace
}

#[test]
fn script_with_one_callback_writes_print_callback_and_agent_text() {
    let ast = Ast::Do {
        children: vec![print("a"), think("p", vec![print("b"), print("c")])],
    };
    let trace = simulate(&ast, vec![invokes(1, 0), says("agent-said"), stops(StopReason::EndTurn)]);
    assert_eq!(trace.result, Ok("a\nc\nagent-said".to_string()));
    assert_eq!(trace.prompts, vec![("session-1".to_string(), "p".to_string())]);
    assert_eq!(trace.replies, vec![(0, "c\n".to_string())]);
    assert_eq!(trace.depths, vec![1, 0]);
    assert_eq!(trace.depth, 0);
}

#[test]
fn text_before_and_after_a_callback_is_one_text() {
    let ast = think("p", vec![print("b")]);
    let trace = simulate(
        &ast,
        vec![says("agent-"), invokes(0, 5), says("said"), stops(StopReason::EndTurn)],
    );
    assert_eq!(trace.result, Ok("b\nagent-said".to_string()));
    assert_eq!(trace.replies, vec![(5, "b\n".to_string())]);
}

#[test]
fn nested_conversations_get_their_own_events() {
    let inner = think("inner", vec![print("leaf")]);
    let ast = think("outer", vec![inner]);
    let trace = simulate(
        &ast,
        vec![
            says("A1 "),
            invokes(0, 1),
            // The inner conversation is open: all of this is its own.
            says("B1 "),
            invokes(0, 2),
            says("B2"),
            stops(StopReason::EndTurn),
            // Back in the outer conversation.
            says("A2"),
            stops(StopReason::EndTurn),
        ],
    );
    assert_eq!(trace.result, Ok("leaf\nB1 B2A1 A2".to_string()));
    assert_eq!(
        trace.prompts,
        vec![
            ("session-1".to_string(), "outer".to_string()),
            ("session-2".to_string(), "inner".to_string()),
        ]
    );
    assert_eq!(
        trace.replies,
        vec![(2, "leaf\n".to_string()), (1, "leaf\nB1 B2".to_string())]
    );
    assert_eq!(trace.depths, vec![1, 2, 1, 0]);
    assert_eq!(trace.depth, 0);
}

#[test]
fn index_out_of_bounds_fails_the_run() {
    let ast = think("p", vec![print("b"), print("c")]);
    let trace = simulate(&ast, vec![invokes(5, 0)]);
    assert_eq!(trace.result, Err(Error::IndexBounds { index: 5, len: 2 }));
    assert_eq!(trace.replies, vec![]);
}

#[test]
fn transport_failure_mid_turn_restores_the_depth() {
    let ast = Ast::Do { children: vec![print("a"), think("p", vec![print("b")])] };
    let trace = simulate(&ast, vec![says("partial"), invokes(0, 9), Move::Break]);
    assert_eq!(trace.result, Err(Error::Transport));
    assert_eq!(trace.replies, vec![(9, "b\n".to_string())]);
    assert_eq!(trace.depths, vec![1, 0]);
    assert_eq!(trace.depth, 0);
}

#[test]
fn transport_failure_in_a_nested_turn_pops_the_inner_conversation() {
    let ast = think("outer", vec![think("inner", vec![])]);
    let trace = simulate(&ast, vec![invokes(0, 1), says("x"), Move::Break]);
    assert_eq!(trace.result, Err(Error::Transport));
    assert_eq!(trace.depths, vec![1, 2, 1]);
    assert_eq!(trace.depth, 1);
}

#[test]
fn refusal_fails_the_run_after_the_pop() {
    let ast = think("p", vec![]);
    let trace = simulate(&ast, vec![says("no"), stops(StopReason::Refusal)]);
    assert_eq!(
        trace.result,
        Err(Error::UnexpectedAgentState {
            fault: AgentFault::Stopped { reason: StopReason::Refusal },
        })
    );
    assert_eq!(trace.depths, vec![1, 0]);
}

#[test]
fn conversations_one_after_the_other_reuse_the_stack() {
    let ast = Ast::Do {
        children: vec![think("first", vec![]), print("-"), think("second", vec![])],
    };
    let trace = simulate(
        &ast,
        vec![says("1"), stops(StopReason::EndTurn), says("2"), stops(StopReason::EndTurn)],
    );
    assert_eq!(trace.result, Ok("1-\n2".to_string()));
    assert_eq!(trace.depths, vec![1, 0, 1, 0]);
}
