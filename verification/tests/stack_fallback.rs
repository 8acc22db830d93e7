use texio::handles::InputOrigin;
use texio::provider::IoProvider;
use texio::open_result::{IoError, IoErrorKind, OpenResult};
use texio::stack::IoStack;
use texio::testing::{InputScript, OutputScript, ScriptedIo};

fn not_available() -> ScriptedIo {
    ScriptedIo::new(InputScript::NotAvailable, OutputScript::NotAvailable)
}

fn success(content: &[u8]) -> ScriptedIo {
    ScriptedIo::new(
        InputScript::Success {
            name: "X".to_string(),
            origin: InputOrigin::Other,
            content: content.to_vec(),
        },
        OutputScript::NotAvailable,
    )
}

fn fatal(message: &str) -> ScriptedIo {
    ScriptedIo::new(
        InputScript::Fatal(IoError {
            kind: IoErrorKind::Backend,
            message: message.to_string(),
        }),
        OutputScript::NotAvailable,
    )
}

#[test]
fn fallback_returns_first_success_and_stops() {
    let providers = vec![
        not_available(),
        not_available(),
        success(b"third"),
        success(b"fourth"),
    ];
    let mut stack = IoStack::new(providers);
    match stack.input_open_name("X") {
        OpenResult::Success(h) => {
            assert_eq!(h.name().as_str(), "X");
            assert_eq!(h.into_contents(), b"third".to_vec());
        }
        _ => panic!("expected the third backend's handle"),
    }
    let queries: Vec<u64> = stack.into_providers().iter().map(|p| p.queries()).collect();
    assert_eq!(queries, vec![1, 1, 1, 0]);
}

#[test]
fn fallback_stops_at_first_fatal() {
    let providers = vec![not_available(), fatal("backend broke"), success(b"X")];
    let mut stack = IoStack::new(providers);
    match stack.input_open_name("X") {
        OpenResult::Fatal(e) => {
            assert_eq!(e.kind, IoErrorKind::Backend);
            assert_eq!(e.message, "backend broke");
        }
        _ => panic!("expected the second backend's error"),
    }
    let queries: Vec<u64> = stack.into_providers().iter().map(|p| p.queries()).collect();
    assert_eq!(queries, vec![1, 1, 0]);
}

#[test]
fn fallback_exhausts_to_not_available() {
    let providers = vec![not_available(), not_available()];
    let mut stack = IoStack::new(providers);
    assert!(matches!(
        stack.input_open_name("anything"),
        OpenResult::NotAvailable
    ));
    let queries: Vec<u64> = stack.into_providers().iter().map(|p| p.queries()).collect();
    assert_eq!(queries, vec![1, 1]);
}

#[test]
fn empty_stack_answers_not_available() {
    let mut stack: IoStack<ScriptedIo> = IoStack::new(Vec::new());
    assert!(matches!(stack.input_open_name("x"), OpenResult::NotAvailable));
    assert!(matches!(stack.output_open_name("x"), OpenResult::NotAvailable));
    assert!(matches!(stack.output_open_stdout(), OpenResult::NotAvailable));
}

#[test]
fn output_fallback_follows_the_same_rule() {
    let accepting = ScriptedIo::new(
        InputScript::NotAvailable,
        OutputScript::Accept {
            name: "sink".to_string(),
        },
    );
    let providers = vec![not_available(), accepting, not_available()];
    let mut stack = IoStack::new(providers);
    match stack.output_open_name("out.log") {
        OpenResult::Success(mut h) => {
            assert_eq!(h.name().as_str(), "sink");
            h.write(b"bytes");
            h.write(b" more");
            assert_eq!(h.into_contents(), b"bytes more".to_vec());
        }
        _ => panic!("expected the second backend's sink"),
    }
    let queries: Vec<u64> = stack.into_providers().iter().map(|p| p.queries()).collect();
    assert_eq!(queries, vec![1, 1, 0]);
}

#[test]
fn stdout_fallback_follows_the_same_rule() {
    let fatal_out = ScriptedIo::new(
        InputScript::NotAvailable,
        OutputScript::Fatal(IoError {
            kind: IoErrorKind::Backend,
            message: "no stdout".to_string(),
        }),
    );
    let accepting = ScriptedIo::new(
        InputScript::NotAvailable,
        OutputScript::Accept {
            name: "stdout".to_string(),
        },
    );
    let providers = vec![fatal_out, accepting];
    let mut stack = IoStack::new(providers);
    match stack.output_open_stdout() {
        OpenResult::Fatal(e) => assert_eq!(e.message, "no stdout"),
        _ => panic!("expected the first backend's error"),
    }
    let queries: Vec<u64> = stack.into_providers().iter().map(|p| p.queries()).collect();
    assert_eq!(queries, vec![1, 0]);
}

#[test]
fn boxed_providers_stack_like_plain_ones() {
    let providers: Vec<Box<ScriptedIo>> = vec![
        Box::new(not_available()),
        Box::new(success(b"boxed")),
    ];
    let mut stack = IoStack::new(providers);
    match stack.input_open_name("X") {
        OpenResult::Success(h) => assert_eq!(h.into_contents(), b"boxed".to_vec()),
        _ => panic!("expected the boxed backend's handle"),
    }
}

#[test]
fn a_stack_composes_as_a_provider() {
    let inner = IoStack::new(vec![not_available(), success(b"inner")]);
    let mut outer = IoStack::new(vec![inner]);
    match IoProvider::input_open_name(&mut outer, "X") {
        OpenResult::Success(h) => assert_eq!(h.into_contents(), b"inner".to_vec()),
        _ => panic!("expected the inner stack's handle"),
    }
}
