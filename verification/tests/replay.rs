use patchwork::ast::{Ast, Think};
use patchwork::error::{AgentFault, Error};
use patchwork::evaluation::replay;
use patchwork::interpreter::{Step, ThinkResponse};

fn print(message: &str) -> Ast {
    Ast::Print { message: message.to_string() }
}

fn think(prompt: &str, children: Vec<Ast>) -> Ast {
    Ast::Think { think: Think { prompt: prompt.to_string(), children } }
}

fn call(uuid: usize, do_tx: u8) -> ThinkResponse<u8> {
    ThinkResponse::Do { uuid, do_tx }
}

fn complete(message: &str) -> ThinkResponse<u8> {
    ThinkResponse::Complete { message: message.to_string() }
}

fn done(output: &str) -> Step<u8> {
    Step::Done { output: output.to_string() }
}

#[test]
fn replay_of_a_script_without_think_needs_no_record() {
    let ast = Ast::Do {
        children: vec![print("a"), Ast::Do { children: vec![print("b"), print("c")] }, print("d")],
    };
    assert_eq!(replay(&ast, Vec::<ThinkResponse<u8>>::new()), done("a\nb\nc\nd\n"));
}

#[test]
fn replay_of_one_callback_and_the_agent_text() {
    let ast = Ast::Do {
        children: vec![print("a"), think("p", vec![print("b"), print("c")])],
    };
    assert_eq!(replay(&ast, vec![call(1, 0), complete("agent-said")]), done("a\nc\nagent-said"));
}

#[test]
fn replay_that_ends_early_gives_the_pending_request() {
    let ast = think("p", vec![print("b"), think("q", vec![])]);
    assert_eq!(replay(&ast, vec![]), Step::<u8>::Think { prompt: "p".to_string() });
    assert_eq!(
        replay(&ast, vec![call(0, 4)]),
        Step::Reply { do_tx: 4, text: "b\n".to_string() }
    );
    assert_eq!(
        replay(&ast, vec![call(0, 4), call(1, 5)]),
        Step::Think { prompt: "q".to_string() }
    );
    assert_eq!(
        replay(&ast, vec![call(0, 4), call(1, 5), complete("x")]),
        Step::Reply { do_tx: 5, text: "x".to_string() }
    );
    assert_eq!(
        replay(&ast, vec![call(0, 4), call(1, 5), complete("x"), complete("y")]),
        done("b\nxy")
    );
}

#[test]
fn replay_keeps_the_first_failure() {
    let ast = think("p", vec![print("b"), print("c")]);
    let failed = Step::Failed { error: Error::IndexBounds { index: 5, len: 2 } };
    assert_eq!(replay(&ast, vec![call(5, 0)]), failed);
    assert_eq!(replay(&ast, vec![call(5, 0), call(0, 1), complete("late")]), failed);
    assert_eq!(
        replay(&ast, vec![call(0, 1), ThinkResponse::Failed { error: Error::Transport }, complete("x")]),
        Step::Failed { error: Error::Transport }
    );
}

#[test]
fn replay_past_the_end_is_out_of_order() {
    let ast = think("p", vec![]);
    assert_eq!(
        replay(&ast, vec![complete("x"), complete("y")]),
        Step::Failed { error: Error::UnexpectedAgentState { fault: AgentFault::OutOfOrder } }
    );
}

#[test]
fn replay_joins_the_children_of_a_do_with_their_conversations() {
    let ast = Ast::Do {
        children: vec![think("one", vec![print("x")]), print("-"), think("two", vec![print("y")])],
    };
    let record = vec![call(0, 1), complete("1"), call(0, 2), call(0, 3), complete("2")];
    assert_eq!(replay(&ast, record), done("x\n1-\ny\ny\n2"));
}
