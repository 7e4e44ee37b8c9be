//! The dispatcher: line parsing, the command table, rendering, and the
//! end-to-end command scenarios against a scripted broker.

use piko_cli::dispatch::{
    complete_command, goodbye_text, node_commands, render_failure, render_response, repl_step,
    should_record_history, split_first_word, str_eq, ReplAction, ReplEvent, ReplState,
};
use piko_cli::protocol::{ExchangeError, Request, Response};
use piko_cli::session::{build_frame, read_reply};

const CLIENT_ID: u64 = 1234;

fn step_line(line: &str) -> (ReplState, ReplAction) {
    repl_step(
        CLIENT_ID,
        ReplState::AwaitingInput,
        &ReplEvent::Line(line.to_string()),
    )
}

#[test]
fn split_first_word_examples() {
    assert_eq!(split_first_word("pub hello world"), ("pub", "hello world"));
    assert_eq!(split_first_word("  pub   hello  world "), ("pub", "hello  world"));
    assert_eq!(split_first_word("quit"), ("quit", ""));
    assert_eq!(split_first_word("   "), ("", ""));
    assert_eq!(split_first_word(""), ("", ""));
    assert_eq!(split_first_word("\tsub\n"), ("sub", ""));
}

#[test]
fn str_eq_examples() {
    assert!(str_eq("pub", "pub"));
    assert!(!str_eq("pub", "sub"));
    assert!(!str_eq("pub", "publ"));
    assert!(str_eq("", ""));
}

#[test]
fn publish_command_end_to_end() {
    // user types `pub hello world`
    let (state, action) = step_line("pub hello world");
    assert!(matches!(state, ReplState::AwaitingInput));
    let req = match action {
        ReplAction::Exchange(req) => req,
        _ => panic!("pub must run an exchange"),
    };
    assert_eq!(
        req,
        Request::Publish { client_id: 1234, payload: b"hello world".to_vec() }
    );
    // the client puts one frame on the wire
    let framed = build_frame(&req).unwrap();
    assert_eq!(framed[0] as usize, framed.len() - 1);
    // the broker answers success; the client prints the message alone
    let reply = Response::Success { message: "published".to_string(), bytes: vec![] };
    let mut wire = piko_cli::codec::encode_response(&reply);
    wire.insert(0, wire.len() as u8);
    let got = read_reply(&wire).unwrap();
    assert_eq!(render_response(&got), "published");
}

#[test]
fn subscribe_rejection_end_to_end() {
    // user types `sub`; the broker rejects it as a domain error
    let (state, action) = step_line("sub");
    assert!(matches!(state, ReplState::AwaitingInput));
    match action {
        ReplAction::Exchange(req) => {
            assert_eq!(req, Request::Subscribe { client_id: 1234 });
        },
        _ => panic!("sub must run an exchange"),
    }
    let reply = Response::Error { message: "already subscribed".to_string() };
    let mut wire = piko_cli::codec::encode_response(&reply);
    wire.insert(0, wire.len() as u8);
    let got = read_reply(&wire).unwrap();
    assert_eq!(render_response(&got), "Error: already subscribed");
}

#[test]
fn quit_sends_final_unsubscribe() {
    // user types `quit` with no prior subscription
    let (state, action) = step_line("quit");
    assert!(matches!(state, ReplState::Terminated));
    match action {
        ReplAction::FinalUnsubscribe(req) => {
            assert_eq!(req, Request::Unsubscribe { client_id: 1234 });
        },
        _ => panic!("quit must send one final unsubscribe"),
    }
    assert_eq!(goodbye_text(), "Goodbye.");
}

#[test]
fn end_of_input_terminates_like_quit() {
    let (state, action) = repl_step(CLIENT_ID, ReplState::AwaitingInput, &ReplEvent::EndOfInput);
    assert!(matches!(state, ReplState::Terminated));
    assert!(matches!(action, ReplAction::FinalUnsubscribe(_)));
}

#[test]
fn connect_failure_leaves_prompt_alive() {
    // the exchange fails outright; the diagnostic is rendered and the
    // machine still awaits input, so the user may retry at once
    let (state, action) = step_line("pub hello");
    assert!(matches!(state, ReplState::AwaitingInput));
    assert!(matches!(action, ReplAction::Exchange(_)));
    let diagnostic = render_failure(&ExchangeError::ConnectFailed);
    assert_eq!(diagnostic, "Error: could not connect to the server");
}

#[test]
fn sub_twice_and_bare_unsub_dispatch_alike() {
    // the dispatcher holds no subscription state: repeating `sub`, or
    // issuing `unsub` without one, builds the same well-formed request
    // every time, and either broker answer renders without any fuss
    let first = step_line("sub");
    let second = step_line("sub");
    match (first.1, second.1) {
        (ReplAction::Exchange(a), ReplAction::Exchange(b)) => assert_eq!(a, b),
        _ => panic!("sub must always run an exchange"),
    }
    let (state, action) = step_line("unsub");
    assert!(matches!(state, ReplState::AwaitingInput));
    match action {
        ReplAction::Exchange(req) => {
            assert_eq!(req, Request::Unsubscribe { client_id: 1234 });
        },
        _ => panic!("unsub must run an exchange"),
    }
    let ok = Response::Success { message: "unsubscribed".to_string(), bytes: vec![] };
    let rejected = Response::Error { message: "not subscribed".to_string() };
    assert_eq!(render_response(&ok), "unsubscribed");
    assert_eq!(render_response(&rejected), "Error: not subscribed");
}

#[test]
fn local_and_unknown_commands() {
    assert!(matches!(step_line("help").1, ReplAction::ShowHelp));
    assert!(matches!(step_line("list-commands").1, ReplAction::ShowCommandList));
    assert!(matches!(step_line("").1, ReplAction::DoNothing));
    assert!(matches!(step_line("   ").1, ReplAction::DoNothing));
    assert!(matches!(step_line("frobnicate now").1, ReplAction::ShowUnknown));
    // matching is case-sensitive
    assert!(matches!(step_line("PUB x").1, ReplAction::ShowUnknown));
}

#[test]
fn history_records_only_nonblank_lines() {
    assert!(should_record_history("pub x"));
    assert!(!should_record_history(""));
    assert!(!should_record_history(" \t "));
}

#[test]
fn command_table_is_fixed() {
    let table = node_commands();
    let names: Vec<&str> = table.iter().map(|e| e.0.as_str()).collect();
    assert_eq!(
        names,
        vec!["help", "list-commands", "quit", "sub", "unsub", "pub", "poll"]
    );
    assert_eq!(table[0].1, "You're looking at it");
}

#[test]
fn completion_by_prefix() {
    assert_eq!(complete_command("p"), vec!["pub".to_string(), "poll".to_string()]);
    assert_eq!(complete_command("su"), vec!["sub".to_string()]);
    assert_eq!(complete_command("x"), Vec::<String>::new());
    assert_eq!(complete_command("").len(), 7);
}

#[test]
fn oversize_publish_is_stopped_before_the_wire() {
    let req = Request::Publish { client_id: 1234, payload: vec![0u8; 300] };
    assert_eq!(build_frame(&req), Err(ExchangeError::PayloadTooLarge));
}

#[test]
fn short_reply_is_truncation() {
    let data = vec![9u8, 1, 2];
    assert_eq!(read_reply(&data), Err(ExchangeError::Truncated));
    assert_eq!(read_reply(&vec![]), Err(ExchangeError::ConnectionClosed));
}

#[test]
fn garbage_reply_is_malformed() {
    let data = vec![3u8, 1, 2, 3];
    assert_eq!(read_reply(&data), Err(ExchangeError::MalformedPayload));
}

#[test]
fn loopback_exchange_is_lossless() {
    let req = Request::Publish { client_id: 1234, payload: b"hello world".to_vec() };
    let resp = Response::Success { message: "published".to_string(), bytes: vec![7, 8] };
    let (r, s) = piko_cli::session::loopback_exchange(&req, &resp);
    assert_eq!(r, req);
    assert_eq!(s, resp);
}
