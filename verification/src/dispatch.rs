//! The command dispatcher behind the REPL prompt.
//!
//! One step takes the state machine from awaiting input, through parsing
//! the line into a command word and raw argument remainder, to the action
//! the surrounding loop performs: render locally, run one exchange, or
//! terminate after a final best-effort unsubscribe. Failures of an
//! exchange are rendered and leave the machine awaiting input again.

use vstd::prelude::*;
use vstd::string::{StrSliceExecFns, StringExecFns};
use vstd::utf8::encode_utf8;

use crate::protocol::{ExchangeError, Request, RequestView, Response, ResponseView};

verus! {

/// A white-space character, as line trimming and word splitting see it.
pub open spec fn is_wschar(c: char) -> bool {
    ||| c == ' '
    ||| c == '\t'
    ||| c == '\n'
    ||| c == '\u{B}'
    ||| c == '\u{C}'
    ||| c == '\r'
    ||| c == '\u{85}'
    ||| c == '\u{A0}'
    ||| c == '\u{1680}'
    ||| c == '\u{2000}'
    ||| c == '\u{2001}'
    ||| c == '\u{2002}'
    ||| c == '\u{2003}'
    ||| c == '\u{2004}'
    ||| c == '\u{2005}'
    ||| c == '\u{2006}'
    ||| c == '\u{2007}'
    ||| c == '\u{2008}'
    ||| c == '\u{2009}'
    ||| c == '\u{200A}'
    ||| c == '\u{2028}'
    ||| c == '\u{2029}'
    ||| c == '\u{202F}'
    ||| c == '\u{205F}'
    ||| c == '\u{3000}'
}

fn wschar(c: char) -> (r: bool)
    ensures
        r == is_wschar(c),
{
    c == ' ' || c == '\t' || c == '\n' || c == '\u{B}' || c == '\u{C}' || c == '\r' || c == '\u{85}'
        || c == '\u{A0}' || c == '\u{1680}' || (c >= '\u{2000}' && c <= '\u{200A}') || c
        == '\u{2028}' || c == '\u{2029}' || c == '\u{202F}' || c == '\u{205F}' || c == '\u{3000}'
}

/// What is left after dropping leading white space.
pub open spec fn spec_trim_start(s: Seq<char>) -> Seq<char>
    decreases s.len(),
{
    if s.len() > 0 && is_wschar(s[0]) {
        spec_trim_start(s.drop_first())
    } else {
        s
    }
}

/// What is left after dropping trailing white space.
pub open spec fn spec_trim_end(s: Seq<char>) -> Seq<char>
    decreases s.len(),
{
    if s.len() > 0 && is_wschar(s.last()) {
        spec_trim_end(s.drop_last())
    } else {
        s
    }
}

/// What is left after dropping white space on both ends.
pub open spec fn spec_trim(s: Seq<char>) -> Seq<char> {
    spec_trim_end(spec_trim_start(s))
}

/// The position of the first white-space character, or the length.
pub open spec fn spec_first_ws(s: Seq<char>) -> int
    decreases s.len(),
{
    if s.len() == 0 {
        0
    } else if is_wschar(s[0]) {
        0
    } else {
        1 + spec_first_ws(s.drop_first())
    }
}

/// The command word of a line and its raw argument remainder: trim the
/// line, split at the first white space, and strip the remainder's lead.
pub open spec fn spec_split_first_word(s: Seq<char>) -> (Seq<char>, Seq<char>) {
    let t = spec_trim(s);
    let p = spec_first_ws(t);
    (t.take(p), spec_trim_start(t.skip(p)))
}

proof fn lemma_trim_start_skip(s: Seq<char>, i: int)
    requires
        0 <= i <= s.len(),
        forall|j: int| 0 <= j < i ==> is_wschar(s[j]),
        i == s.len() || !is_wschar(s[i]),
    ensures
        spec_trim_start(s) == s.skip(i),
    decreases i,
{
    if i == 0 {
        assert(s.skip(0) =~= s);
    } else {
        lemma_trim_start_skip(s.drop_first(), i - 1);
        assert(s.drop_first().skip(i - 1) =~= s.skip(i));
    }
}

proof fn lemma_trim_end_take(s: Seq<char>, k: int)
    requires
        0 <= k <= s.len(),
        forall|j: int| k <= j < s.len() ==> is_wschar(s[j]),
        k == 0 || !is_wschar(s[k - 1]),
    ensures
        spec_trim_end(s) == s.take(k),
    decreases s.len(),
{
    if k == s.len() {
        assert(s.take(k) =~= s);
    } else {
        lemma_trim_end_take(s.drop_last(), k);
        assert(s.drop_last().take(k) =~= s.take(k));
    }
}

proof fn lemma_first_ws_at(s: Seq<char>, p: int)
    requires
        0 <= p <= s.len(),
        forall|j: int| 0 <= j < p ==> !is_wschar(s[j]),
        p == s.len() || is_wschar(s[p]),
    ensures
        spec_first_ws(s) == p,
    decreases p,
{
    if p > 0 {
        lemma_first_ws_at(s.drop_first(), p - 1);
    }
}

/// Split a line into its first white-space-delimited word and the raw
/// remainder, both ends trimmed as the prompt expects.
pub fn split_first_word<'a>(s: &'a str) -> (r: (&'a str, &'a str))
    ensures
        r.0@ == spec_split_first_word(s@).0,
        r.1@ == spec_split_first_word(s@).1,
{
    let n = s.unicode_len();
    let mut a: usize = 0;
    while a < n && wschar(s.get_char(a))
        invariant
            n == s@.len(),
            a <= n,
            forall|j: int| 0 <= j < a ==> is_wschar(s@[j]),
        decreases n - a,
    {
        a += 1;
    }
    let mut b: usize = n;
    while b > a && wschar(s.get_char(b - 1))
        invariant
            n == s@.len(),
            a <= b <= n,
            forall|j: int| b <= j < n ==> is_wschar(s@[j]),
        decreases b,
    {
        b -= 1;
    }
    let ghost t = s@.subrange(a as int, b as int);
    proof {
        lemma_trim_start_skip(s@, a as int);
        assert(s@.skip(a as int) =~= s@.subrange(a as int, s@.len() as int));
        lemma_trim_end_take(s@.skip(a as int), b - a);
        assert(s@.skip(a as int).take(b - a) =~= t);
        assert(spec_trim(s@) == t);
    }
    let mut p: usize = a;
    while p < b && !wschar(s.get_char(p))
        invariant
            n == s@.len(),
            a <= p <= b <= n,
            forall|j: int| a <= j < p ==> !is_wschar(s@[j]),
        decreases b - p,
    {
        p += 1;
    }
    proof {
        lemma_first_ws_at(t, p - a);
        assert(t.take(p - a) =~= s@.subrange(a as int, p as int));
    }
    let mut q: usize = p;
    while q < b && wschar(s.get_char(q))
        invariant
            n == s@.len(),
            p <= q <= b <= n,
            forall|j: int| p <= j < q ==> is_wschar(s@[j]),
        decreases b - q,
    {
        q += 1;
    }
    proof {
        lemma_trim_start_skip(t.skip(p - a), q - p);
        assert(t.skip(p - a).skip(q - p) =~= s@.subrange(q as int, b as int));
    }
    let word = s.substring_char(a, p);
    let rest = s.substring_char(q, b);
    (word, rest)
}

/// Character-for-character string equality.
pub fn str_eq(a: &str, b: &str) -> (r: bool)
    ensures
        r == (a@ == b@),
{
    let n = a.unicode_len();
    let m = b.unicode_len();
    if n != m {
        return false;
    }
    let mut i: usize = 0;
    while i < n
        invariant
            n == a@.len(),
            b@.len() == n,
            i <= n,
            forall|j: int| 0 <= j < i ==> a@[j] == b@[j],
        decreases n - i,
    {
        if a.get_char(i) != b.get_char(i) {
            return false;
        }
        i += 1;
    }
    proof {
        assert(a@ =~= b@);
    }
    true
}

/// One line of user input, or the end of it.
pub enum ReplEvent {
    Line(String),
    EndOfInput,
}

/// The control states of the dispatcher.
pub enum ReplState {
    AwaitingInput,
    Terminated,
}

/// What the surrounding loop does next.
pub enum ReplAction {
    /// Render the command table locally; no network interaction.
    ShowHelp,
    /// Render the line editor's command list locally; no network
    /// interaction.
    ShowCommandList,
    /// Run one request/response exchange and render its outcome.
    Exchange(Request),
    /// Tell the user the command word was not recognized.
    ShowUnknown,
    /// An empty line: nothing at all.
    DoNothing,
    /// Send one best-effort unsubscribe, print the goodbye line, stop.
    FinalUnsubscribe(Request),
}

/// Advance the dispatcher by one event.
///
/// The command word is matched case-sensitively against the fixed table;
/// `pub` carries the raw argument remainder as its payload bytes; `quit`
/// and end-of-input terminate after one final unsubscribe; everything
/// else leaves the machine awaiting input.
pub fn repl_step(client_id: u64, state: ReplState, event: &ReplEvent) -> (r: (
    ReplState,
    ReplAction,
))
    requires
        state is AwaitingInput,
    ensures
        event is EndOfInput ==> r.0 is Terminated && (r.1 matches ReplAction::FinalUnsubscribe(q)
            && q@ == RequestView::Unsubscribe { client_id }),
        event matches ReplEvent::Line(line) ==> {
            let cmd = spec_split_first_word(line@).0;
            let args = spec_split_first_word(line@).1;
            &&& cmd == "quit"@ ==> r.0 is Terminated && (r.1
                matches ReplAction::FinalUnsubscribe(q) && q@ == RequestView::Unsubscribe {
                client_id,
            })
            &&& cmd == "help"@ ==> r.0 is AwaitingInput && r.1 is ShowHelp
            &&& cmd == "list-commands"@ ==> r.0 is AwaitingInput && r.1 is ShowCommandList
            &&& cmd == "pub"@ ==> r.0 is AwaitingInput && (r.1 matches ReplAction::Exchange(q)
                && q@ == RequestView::Publish { client_id, payload: encode_utf8(args) })
            &&& cmd == "sub"@ ==> r.0 is AwaitingInput && (r.1 matches ReplAction::Exchange(q)
                && q@ == RequestView::Subscribe { client_id })
            &&& cmd == "unsub"@ ==> r.0 is AwaitingInput && (r.1 matches ReplAction::Exchange(q)
                && q@ == RequestView::Unsubscribe { client_id })
            &&& cmd.len() == 0 ==> r.0 is AwaitingInput && r.1 is DoNothing
            &&& (cmd != "help"@ && cmd != "list-commands"@ && cmd != "pub"@ && cmd != "sub"@ && cmd
                != "unsub"@ && cmd != "quit"@ && cmd.len() != 0) ==> r.0 is AwaitingInput && r.1
                is ShowUnknown
        },
{
    proof {
        reveal_strlit("help");
        reveal_strlit("list-commands");
        reveal_strlit("pub");
        reveal_strlit("sub");
        reveal_strlit("unsub");
        reveal_strlit("quit");
        assert("help"@.len() == 4);
        assert("list-commands"@.len() == 13);
        assert("pub"@.len() == 3);
        assert("sub"@.len() == 3);
        assert("unsub"@.len() == 5);
        assert("quit"@.len() == 4);
        assert("help"@[0] == 'h');
        assert("quit"@[0] == 'q');
        assert("pub"@[0] == 'p');
        assert("sub"@[0] == 's');
        assert("help"@ != "quit"@);
        assert("pub"@ != "sub"@);
    }
    match event {
        ReplEvent::EndOfInput => (
            ReplState::Terminated,
            ReplAction::FinalUnsubscribe(Request::Unsubscribe { client_id }),
        ),
        ReplEvent::Line(line) => {
            let (cmd, args) = split_first_word(line.as_str());
            if str_eq(cmd, "help") {
                (ReplState::AwaitingInput, ReplAction::ShowHelp)
            } else if str_eq(cmd, "list-commands") {
                (ReplState::AwaitingInput, ReplAction::ShowCommandList)
            } else if str_eq(cmd, "pub") {
                let payload = args.as_bytes_vec();
                (
                    ReplState::AwaitingInput,
                    ReplAction::Exchange(Request::Publish { client_id, payload }),
                )
            } else if str_eq(cmd, "sub") {
                (
                    ReplState::AwaitingInput,
                    ReplAction::Exchange(Request::Subscribe { client_id }),
                )
            } else if str_eq(cmd, "unsub") {
                (
                    ReplState::AwaitingInput,
                    ReplAction::Exchange(Request::Unsubscribe { client_id }),
                )
            } else if str_eq(cmd, "quit") {
                (
                    ReplState::Terminated,
                    ReplAction::FinalUnsubscribe(Request::Unsubscribe { client_id }),
                )
            } else if cmd.unicode_len() == 0 {
                (ReplState::AwaitingInput, ReplAction::DoNothing)
            } else {
                (ReplState::AwaitingInput, ReplAction::ShowUnknown)
            }
        },
    }
}

/// Is a line worth recording in history? Only when something is left of
/// it after trimming.
pub fn should_record_history(line: &str) -> (r: bool)
    ensures
        r == (spec_trim(line@).len() != 0),
{
    let (cmd, _args) = split_first_word(line);
    proof {
        let ts = spec_trim_start(line@);
        let t = spec_trim(line@);
        let p = spec_first_ws(t);
        lemma_first_ws_range(t);
        if t.len() != 0 {
            lemma_trim_start_head(line@);
            lemma_trim_end_head(ts);
            assert(!is_wschar(t[0]));
            lemma_first_ws_range(t.drop_first());
            assert(p == 1 + spec_first_ws(t.drop_first()));
            assert(p != 0);
            assert(t.take(p).len() != 0);
        }
    }
    cmd.unicode_len() != 0
}

proof fn lemma_first_ws_range(s: Seq<char>)
    ensures
        0 <= spec_first_ws(s) <= s.len(),
    decreases s.len(),
{
    if s.len() > 0 && !is_wschar(s[0]) {
        lemma_first_ws_range(s.drop_first());
    }
}

proof fn lemma_trim_start_head(s: Seq<char>)
    ensures
        spec_trim_start(s).len() > 0 ==> !is_wschar(spec_trim_start(s)[0]),
    decreases s.len(),
{
    if s.len() > 0 && is_wschar(s[0]) {
        lemma_trim_start_head(s.drop_first());
    }
}

proof fn lemma_trim_end_head(s: Seq<char>)
    ensures
        spec_trim_end(s).len() > 0 ==> spec_trim_end(s)[0] == s[0],
    decreases s.len(),
{
    if s.len() > 0 && is_wschar(s.last()) {
        lemma_trim_end_head(s.drop_last());
    }
}

/// Render a response the way the prompt shows it: the message itself on
/// success, the message behind an `Error: ` mark on a broker rejection.
pub fn render_response(resp: &Response) -> (r: String)
    ensures
        resp@ matches ResponseView::Success { message, .. } ==> r@ == message,
        resp@ matches ResponseView::Error { message } ==> r@ == "Error: "@ + message,
{
    match resp {
        Response::Success { message, .. } => message.clone(),
        Response::Error { message } => {
            let mut s = String::from_str("Error: ");
            s.append(message.as_str());
            s
        },
    }
}

/// The one-line diagnostic for each way an exchange can fail. None of
/// them ends the prompt; the user may retry at once.
pub fn render_failure(err: &ExchangeError) -> (r: String)
    ensures
        *err == ExchangeError::ConnectFailed ==> r@ == "Error: could not connect to the server"@,
        *err == ExchangeError::PayloadTooLarge ==> r@
            == "Error: payload too large for one frame"@,
        *err == ExchangeError::ConnectionClosed ==> r@
            == "Error: connection closed before a reply arrived"@,
        *err == ExchangeError::Truncated ==> r@ == "Error: reply frame was cut short"@,
        *err == ExchangeError::MalformedPayload ==> r@ == "Error: malformed reply payload"@,
{
    match err {
        ExchangeError::ConnectFailed => String::from_str("Error: could not connect to the server"),
        ExchangeError::PayloadTooLarge => String::from_str(
            "Error: payload too large for one frame",
        ),
        ExchangeError::ConnectionClosed => String::from_str(
            "Error: connection closed before a reply arrived",
        ),
        ExchangeError::Truncated => String::from_str("Error: reply frame was cut short"),
        ExchangeError::MalformedPayload => String::from_str("Error: malformed reply payload"),
    }
}

/// The farewell printed on normal termination.
pub fn goodbye_text() -> (r: String)
    ensures
        r@ == "Goodbye."@,
{
    String::from_str("Goodbye.")
}

/// The command names offered for completion, in table order.
pub open spec fn spec_command_names() -> Seq<Seq<char>> {
    seq!["help"@, "list-commands"@, "quit"@, "sub"@, "unsub"@, "pub"@, "poll"@]
}

/// `p` is a prefix of `s`.
pub open spec fn is_prefix_of(p: Seq<char>, s: Seq<char>) -> bool {
    p.len() <= s.len() && s.take(p.len() as int) == p
}

/// The command names a partly typed word completes to.
pub open spec fn command_completions(word: Seq<char>) -> Seq<Seq<char>> {
    spec_command_names().filter(|c: Seq<char>| is_prefix_of(word, c))
}

/// Does `p` open `s`, character for character?
pub fn str_is_prefix(p: &str, s: &str) -> (r: bool)
    ensures
        r == is_prefix_of(p@, s@),
{
    let np = p.unicode_len();
    let ns = s.unicode_len();
    if np > ns {
        return false;
    }
    let mut i: usize = 0;
    while i < np
        invariant
            np == p@.len(),
            ns == s@.len(),
            np <= ns,
            i <= np,
            forall|j: int| 0 <= j < i ==> p@[j] == s@[j],
        decreases np - i,
    {
        if p.get_char(i) != s.get_char(i) {
            proof {
                if is_prefix_of(p@, s@) {
                    assert(s@.take(np as int)[i as int] == s@[i as int]);
                }
            }
            return false;
        }
        i += 1;
    }
    proof {
        assert(s@.take(np as int) =~= p@);
    }
    true
}

/// Complete a command word being typed at the start of a line: every name
/// of the fixed table it opens, in table order.
pub fn complete_command(word: &str) -> (r: Vec<String>)
    ensures
        r.deep_view() == command_completions(word@),
{
    let mut out: Vec<String> = Vec::new();
    let ghost pred = |c: Seq<char>| is_prefix_of(word@, c);
    proof {
        reveal(Seq::filter);
        assert(out.deep_view() =~= spec_command_names().take(0).filter(pred));
    }
    if str_is_prefix(word, "help") {
        out.push(String::from_str("help"));
    }
    proof {
        lemma_filter_step(spec_command_names(), pred, 0);
        assert(out.deep_view() =~= spec_command_names().take(1).filter(pred));
    }
    if str_is_prefix(word, "list-commands") {
        out.push(String::from_str("list-commands"));
    }
    proof {
        lemma_filter_step(spec_command_names(), pred, 1);
        assert(out.deep_view() =~= spec_command_names().take(2).filter(pred));
    }
    if str_is_prefix(word, "quit") {
        out.push(String::from_str("quit"));
    }
    proof {
        lemma_filter_step(spec_command_names(), pred, 2);
        assert(out.deep_view() =~= spec_command_names().take(3).filter(pred));
    }
    if str_is_prefix(word, "sub") {
        out.push(String::from_str("sub"));
    }
    proof {
        lemma_filter_step(spec_command_names(), pred, 3);
        assert(out.deep_view() =~= spec_command_names().take(4).filter(pred));
    }
    if str_is_prefix(word, "unsub") {
        out.push(String::from_str("unsub"));
    }
    proof {
        lemma_filter_step(spec_command_names(), pred, 4);
        assert(out.deep_view() =~= spec_command_names().take(5).filter(pred));
    }
    if str_is_prefix(word, "pub") {
        out.push(String::from_str("pub"));
    }
    proof {
        lemma_filter_step(spec_command_names(), pred, 5);
        assert(out.deep_view() =~= spec_command_names().take(6).filter(pred));
    }
    if str_is_prefix(word, "poll") {
        out.push(String::from_str("poll"));
    }
    proof {
        lemma_filter_step(spec_command_names(), pred, 6);
        assert(spec_command_names().take(7) =~= spec_command_names());
        assert(out.deep_view() =~= command_completions(word@));
    }
    out
}

/// Filtering one more element appends it exactly when it passes.
proof fn lemma_filter_step(s: Seq<Seq<char>>, pred: spec_fn(Seq<char>) -> bool, i: int)
    requires
        0 <= i < s.len(),
    ensures
        pred(s[i]) ==> s.take(i + 1).filter(pred) == s.take(i).filter(pred) + seq![s[i]],
        !pred(s[i]) ==> s.take(i + 1).filter(pred) == s.take(i).filter(pred),
{
    reveal(Seq::filter);
    assert(s.take(i + 1).drop_last() =~= s.take(i));
    assert(s.take(i + 1).last() == s[i]);
    if !pred(s[i]) {
        assert(s.take(i + 1).filter(pred) =~= s.take(i).filter(pred));
    }
}

/// The fixed command table the prompt documents: each command word with
/// its help line, in display order.
pub fn node_commands() -> (r: Vec<(String, String)>)
    ensures
        r@.len() == 7,
        r@[0].0@ == "help"@ && r@[0].1@ == "You're looking at it"@,
        r@[1].0@ == "list-commands"@ && r@[1].1@ == "List command names"@,
        r@[2].0@ == "quit"@ && r@[2].1@ == "Quit"@,
        r@[3].0@ == "sub"@ && r@[3].1@ == "Subscribe to cluster"@,
        r@[4].0@ == "unsub"@ && r@[4].1@ == "Unsubscribe from cluster"@,
        r@[5].0@ == "pub"@ && r@[5].1@ == "Publish to cluster"@,
        r@[6].0@ == "poll"@ && r@[6].1@ == "Poll you message queue from cluster"@,
{
    let mut v: Vec<(String, String)> = Vec::new();
    v.push((String::from_str("help"), String::from_str("You're looking at it")));
    v.push((String::from_str("list-commands"), String::from_str("List command names")));
    v.push((String::from_str("quit"), String::from_str("Quit")));
    v.push((String::from_str("sub"), String::from_str("Subscribe to cluster")));
    v.push((String::from_str("unsub"), String::from_str("Unsubscribe from cluster")));
    v.push((String::from_str("pub"), String::from_str("Publish to cluster")));
    v.push((String::from_str("poll"), String::from_str("Poll you message queue from cluster")));
    v
}

} // verus!
