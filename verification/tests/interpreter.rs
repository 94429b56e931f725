use patchwork::ast::{Ast, Think};
use patchwork::error::{AgentFault, Error, StopReason};
use patchwork::interpreter::{Interpreter, Step, ThinkResponse};

fn print(message: &str) -> Ast {
    Ast::Print { message: message.to_string() }
}

fn run_all(children: Vec<Ast>) -> Ast {
    Ast::Do { children }
}

fn think(prompt: &str, children: Vec<Ast>) -> Ast {
    Ast::Think { think: Think { prompt: prompt.to_string(), children } }
}

fn call(uuid: usize, do_tx: u32) -> ThinkResponse<u32> {
    ThinkResponse::Do { uuid, do_tx }
}

fn complete(message: &str) -> ThinkResponse<u32> {
    ThinkResponse::Complete { message: message.to_string() }
}

fn asks(prompt: &str) -> Step<u32> {
    Step::Think { prompt: prompt.to_string() }
}

fn replies(do_tx: u32, text: &str) -> Step<u32> {
    Step::Reply { do_tx, text: text.to_string() }
}

fn done(output: &str) -> Step<u32> {
    Step::Done { output: output.to_string() }
}

#[test]
fn print_writes_its_message_and_a_newline() {
    let ast = print("hello");
    let mut interpreter = Interpreter::<u32>::new();
    assert_eq!(interpreter.run(&ast), done("hello\n"));
    assert_eq!(interpreter.depth(), 0);
}

#[test]
fn print_of_nothing_writes_a_newline() {
    let ast = print("");
    let mut interpreter = Interpreter::<u32>::new();
    assert_eq!(interpreter.run(&ast), done("\n"));
}

#[test]
fn empty_do_writes_nothing() {
    let ast = run_all(vec![]);
    let mut interpreter = Interpreter::<u32>::new();
    assert_eq!(interpreter.run(&ast), done(""));
}

#[test]
fn do_joins_its_children_in_order() {
    let ast = run_all(vec![print("a"), print("b"), print("c")]);
    let mut interpreter = Interpreter::<u32>::new();
    assert_eq!(interpreter.run(&ast), done("a\nb\nc\n"));
}

#[test]
fn nested_do_is_flattened() {
    let left = run_all(vec![run_all(vec![print("a"), print("b")]), print("c")]);
    let right = run_all(vec![print("a"), run_all(vec![print("b"), print("c")])]);
    let deep = run_all(vec![run_all(vec![run_all(vec![print("a")]), run_all(vec![])]), print("b"), print("c")]);
    let mut interpreter = Interpreter::<u32>::new();
    assert_eq!(interpreter.run(&left), done("a\nb\nc\n"));
    assert_eq!(interpreter.run(&right), done("a\nb\nc\n"));
    assert_eq!(interpreter.run(&deep), done("a\nb\nc\n"));
}

#[test]
fn think_asks_with_its_prompt_and_waits() {
    let ast = think("what now?", vec![print("x")]);
    let mut interpreter = Interpreter::<u32>::new();
    assert_eq!(interpreter.run(&ast), asks("what now?"));
    assert_eq!(interpreter.depth(), 1);
}

#[test]
fn think_without_callbacks_writes_the_agent_text() {
    let ast = think("p", vec![print("unused")]);
    let mut interpreter = Interpreter::<u32>::new();
    assert_eq!(interpreter.run(&ast), asks("p"));
    assert_eq!(interpreter.resume(complete("only this")), done("only this"));
    assert_eq!(interpreter.depth(), 0);
}

#[test]
fn callbacks_are_served_in_call_order() {
    let ast = think("p", vec![print("zero"), print("one"), print("two")]);
    let mut interpreter = Interpreter::<u32>::new();
    assert_eq!(interpreter.run(&ast), asks("p"));
    assert_eq!(interpreter.resume(call(2, 10)), replies(10, "two\n"));
    assert_eq!(interpreter.resume(call(0, 11)), replies(11, "zero\n"));
    assert_eq!(interpreter.resume(call(2, 12)), replies(12, "two\n"));
    assert_eq!(interpreter.resume(complete("")), done("two\nzero\ntwo\n"));
}

#[test]
fn callback_index_out_of_bounds_fails() {
    let ast = think("p", vec![print("b"), print("c")]);
    let mut interpreter = Interpreter::<u32>::new();
    assert_eq!(interpreter.run(&ast), asks("p"));
    assert_eq!(
        interpreter.resume(call(5, 1)),
        Step::Failed { error: Error::IndexBounds { index: 5, len: 2 } }
    );
    assert_eq!(interpreter.depth(), 0);
}

#[test]
fn callback_index_equal_to_length_fails() {
    let ast = think("p", vec![print("b"), print("c")]);
    let mut interpreter = Interpreter::<u32>::new();
    interpreter.run(&ast);
    assert_eq!(
        interpreter.resume(call(2, 1)),
        Step::Failed { error: Error::IndexBounds { index: 2, len: 2 } }
    );
}

#[test]
fn callback_on_think_without_children_fails() {
    let ast = think("p", vec![]);
    let mut interpreter = Interpreter::<u32>::new();
    interpreter.run(&ast);
    assert_eq!(
        interpreter.resume(call(0, 1)),
        Step::Failed { error: Error::IndexBounds { index: 0, len: 0 } }
    );
}

#[test]
fn end_to_end_script_output() {
    let ast = run_all(vec![print("a"), think("p", vec![print("b"), print("c")])]);
    let mut interpreter = Interpreter::<u32>::new();
    assert_eq!(interpreter.run(&ast), asks("p"));
    assert_eq!(interpreter.resume(call(1, 7)), replies(7, "c\n"));
    assert_eq!(interpreter.resume(complete("agent-said")), done("a\nc\nagent-said"));
}

#[test]
fn do_goes_on_after_a_think() {
    let ast = run_all(vec![print("a"), think("p", vec![]), print("z")]);
    let mut interpreter = Interpreter::<u32>::new();
    assert_eq!(interpreter.run(&ast), asks("p"));
    assert_eq!(interpreter.resume(complete("mid")), done("a\nmidz\n"));
}

#[test]
fn two_thinks_in_a_row_open_one_after_the_other() {
    let ast = run_all(vec![think("first", vec![]), think("second", vec![])]);
    let mut interpreter = Interpreter::<u32>::new();
    assert_eq!(interpreter.run(&ast), asks("first"));
    assert_eq!(interpreter.resume(complete("1")), asks("second"));
    assert_eq!(interpreter.resume(complete("2")), done("12"));
}

#[test]
fn nested_conversation_runs_inside_a_callback() {
    let inner = think("inner", vec![print("deep")]);
    let ast = think("outer", vec![run_all(vec![print("before"), inner, print("after")])]);
    let mut interpreter = Interpreter::<u32>::new();
    assert_eq!(interpreter.run(&ast), asks("outer"));
    // The outer agent calls child 0, which reaches the inner think.
    assert_eq!(interpreter.resume(call(0, 1)), asks("inner"));
    // From here on responses belong to the inner conversation.
    assert_eq!(interpreter.resume(call(0, 2)), replies(2, "deep\n"));
    // The inner turn ends; the outer callback is answered with all of child 0.
    assert_eq!(
        interpreter.resume(complete("inner-said")),
        replies(1, "before\ndeep\ninner-saidafter\n")
    );
    assert_eq!(
        interpreter.resume(complete("outer-said")),
        done("before\ndeep\ninner-saidafter\nouter-said")
    );
}

#[test]
fn inner_index_is_checked_against_the_inner_children() {
    let inner = think("inner", vec![print("only")]);
    let ast = think("outer", vec![inner, print("x"), print("y")]);
    let mut interpreter = Interpreter::<u32>::new();
    interpreter.run(&ast);
    assert_eq!(interpreter.resume(call(0, 1)), asks("inner"));
    assert_eq!(
        interpreter.resume(call(2, 2)),
        Step::Failed { error: Error::IndexBounds { index: 2, len: 1 } }
    );
}

#[test]
fn response_without_open_conversation_is_out_of_order() {
    let mut interpreter = Interpreter::<u32>::new();
    assert_eq!(
        interpreter.resume(complete("late")),
        Step::Failed { error: Error::UnexpectedAgentState { fault: AgentFault::OutOfOrder } }
    );
    let ast = print("a");
    interpreter.run(&ast);
    assert_eq!(
        interpreter.resume(call(0, 1)),
        Step::Failed { error: Error::UnexpectedAgentState { fault: AgentFault::OutOfOrder } }
    );
}

#[test]
fn failure_of_the_conversation_is_passed_on() {
    for error in [
        Error::Transport,
        Error::InternalProtocol,
        Error::UnexpectedAgentState { fault: AgentFault::Stopped { reason: StopReason::Refusal } },
    ] {
        let ast = run_all(vec![print("a"), think("p", vec![print("b")]), print("never")]);
        let mut interpreter = Interpreter::<u32>::new();
        assert_eq!(interpreter.run(&ast), asks("p"));
        assert_eq!(interpreter.resume(ThinkResponse::Failed { error }), Step::Failed { error });
        assert_eq!(interpreter.depth(), 0);
    }
}

#[test]
fn failure_inside_a_nested_conversation_fails_everything() {
    let ast = think("outer", vec![think("inner", vec![])]);
    let mut interpreter = Interpreter::<u32>::new();
    interpreter.run(&ast);
    assert_eq!(interpreter.resume(call(0, 1)), asks("inner"));
    assert_eq!(interpreter.depth(), 2);
    assert_eq!(
        interpreter.resume(ThinkResponse::Failed { error: Error::Transport }),
        Step::Failed { error: Error::Transport }
    );
    assert_eq!(interpreter.depth(), 0);
    assert_eq!(
        interpreter.resume(complete("too late")),
        Step::Failed { error: Error::UnexpectedAgentState { fault: AgentFault::OutOfOrder } }
    );
}

#[test]
fn run_drops_an_evaluation_under_way() {
    let first = think("p", vec![]);
    let second = print("fresh");
    let mut interpreter = Interpreter::<u32>::new();
    assert_eq!(interpreter.run(&first), asks("p"));
    assert_eq!(interpreter.run(&second), done("fresh\n"));
    assert_eq!(interpreter.depth(), 0);
}

#[test]
fn depth_counts_suspended_nodes() {
    let ast = run_all(vec![run_all(vec![think("p", vec![think("q", vec![])])])]);
    let mut interpreter = Interpreter::<u32>::new();
    assert_eq!(interpreter.depth(), 0);
    assert_eq!(interpreter.run(&ast), asks("p"));
    assert_eq!(interpreter.depth(), 3);
    assert_eq!(interpreter.resume(call(0, 9)), asks("q"));
    assert_eq!(interpreter.depth(), 4);
    assert_eq!(interpreter.resume(complete("x")), replies(9, "x"));
    assert_eq!(interpreter.depth(), 3);
    assert_eq!(interpreter.resume(complete("y")), done("xy"));
    assert_eq!(interpreter.depth(), 0);
}

#[test]
fn reply_goes_to_the_slot_of_its_own_call() {
    let ast = think("p", vec![print("a"), think("q", vec![print("b")])]);
    let mut interpreter = Interpreter::<u32>::new();
    interpreter.run(&ast);
    assert_eq!(interpreter.resume(call(1, 100)), asks("q"));
    assert_eq!(interpreter.resume(call(0, 200)), replies(200, "b\n"));
    assert_eq!(interpreter.resume(complete("")), replies(100, "b\n"));
    assert_eq!(interpreter.resume(call(0, 300)), replies(300, "a\n"));
    assert_eq!(interpreter.resume(complete("!")), done("b\na\n!"));
}
