use std::cell::RefCell;
use std::rc::Rc;

use bash_interop::rig::codegen::{BashSrc, Codegen};
use bash_interop::rig::control::{answer, verb_of, Reply, Verb};
use bash_interop::rig::instrument::{text, Instrument};
use bash_interop::rig::record::{FromRecord, Record};
use bash_interop::rig::steering::{outcome, step_body, Ran, Repl, Steering, Turn, RAN_TAG, VERB};
use bash_interop::rig::wire::control::token;
use bash_interop::rig::wire::lines::Cut;
use bash_interop::rig::wire::reply::Reply as Next;
use bash_interop::rig::wire::Micros;
use bash_strings::parse_array;

fn ask(words: &[&str]) -> Record {
    Record::new("ASK".into(), words.iter().map(|word| word.to_string()).collect())
}

fn carry_on(_: &Record) -> Reply {
    Reply::Continue { status: 0 }
}

fn carry_on_too(_: &Record) -> Reply {
    Reply::Continue { status: 2 }
}

fn run_it(ask: &Record) -> Reply {
    Reply::Source { body: format!("echo {}", ask.args.len()) }
}

#[test]
fn an_ask_names_its_verb_first() {
    assert_eq!(verb_of(&ask(&["step", "4"])), "step");
    assert_eq!(verb_of(&ask(&[])), "");
}

#[test]
fn an_unknown_verb_is_loud() {
    assert_eq!(
        Reply::unknown_verb("frob"),
        Reply::Fail { message: "unknown verb \"frob\"".into(), status: 127 }
    );
    assert_eq!(
        Reply::unknown_verb("a\"b"),
        Reply::Fail { message: "unknown verb \"a\\\"b\"".into(), status: 127 }
    );
}

#[test]
fn the_first_verb_of_the_name_answers() {
    let verbs: Vec<Verb<fn(&Record) -> Reply>> = vec![
        Verb::new("go".into(), carry_on as fn(&Record) -> Reply),
        Verb::new("step".into(), run_it as fn(&Record) -> Reply),
        Verb::new("go".into(), carry_on_too as fn(&Record) -> Reply),
    ];
    assert_eq!(answer(&verbs, &ask(&["go"])), Reply::Continue { status: 0 }, "not the later one of that name");
    assert_eq!(answer(&verbs, &ask(&["step", "a", "b"])), Reply::Source { body: "echo 3".into() });
    assert_eq!(answer(&verbs, &ask(&["stop"])), Reply::unknown_verb("stop"));
    assert_eq!(answer(&verbs, &ask(&[])), Reply::unknown_verb(""));
    assert_eq!(verbs[1].answer(&ask(&["x"])), Reply::Source { body: "echo 1".into() });
    assert_eq!(verbs[1].name, "step");
}

#[test]
fn a_reply_is_one_message_of_its_words() {
    let status = Next::status(-3);
    assert_eq!(status.words(), ["return", "-3"]);
    let message = status.to_message();
    assert!(!message.contains('\n'));
    assert_eq!(parse_array(&message).unwrap(), ["return", "-3"]);

    let source = Next::source("/ws/step two.bash");
    assert_eq!(source.words(), ["source", "/ws/step two.bash"]);
    assert_eq!(parse_array(&source.to_message()).unwrap(), ["source", "/ws/step two.bash"]);

    let odd = Next::of(vec!["printf".into(), "a\nb".into(), "it's".into()]);
    let message = odd.to_message();
    assert!(!message.contains('\n'), "a raw newline would end the read: {message}");
    assert_eq!(parse_array(&message).unwrap(), ["printf", "a\nb", "it's"]);
}

#[test]
fn a_fifo_is_cut_at_its_newlines() {
    let mut cut = Cut::new();
    let first = cut.cut(b"one\ntw", Micros(5));
    assert_eq!(first.len(), 1);
    assert_eq!(first[0].bytes, b"one");
    assert_eq!(first[0].heard_at, Micros(5));
    let second = cut.cut(b"o\n\nthree\n", Micros(6));
    let lines: Vec<&[u8]> = second.iter().map(|raw| raw.bytes.as_slice()).collect();
    assert_eq!(lines, [&b"two"[..], &b""[..], &b"three"[..]]);
    assert!(second.iter().all(|raw| raw.heard_at == Micros(6)), "all read at once");
    assert!(cut.cut(b"", Micros(7)).is_empty());
    cut.finish("the up pipe").unwrap();
}

#[test]
fn a_fifo_may_not_end_part_way_through_a_line() {
    let mut cut = Cut::new();
    assert!(cut.cut(b"abc", Micros(1)).is_empty());
    let why = cut.finish("the up pipe").unwrap_err();
    assert_eq!(why.doing(), "closing the up pipe");
    assert_eq!(why.cause(), "a line was cut short: \"abc\"");

    let mut bad = Cut::new();
    bad.cut(&[0x61, 0xff], Micros(1));
    assert_eq!(bad.finish("x").unwrap_err().cause(), "a line was cut short: \"a\u{fffd}\"");
}

#[test]
fn a_token_must_name_a_file() {
    assert_eq!(token("4242.1".into()).unwrap(), "4242.1");
    for bad in ["", "a/b", "a b", "a\tb", "a\0b", "x\n"] {
        let why = token(bad.into()).unwrap_err();
        assert_eq!(why.doing(), "reading the control fifo");
        assert_eq!(why.cause(), format!("{bad:?} is not a token"));
    }
}

#[test]
fn a_ran_record_decodes_or_says_why_not() {
    let ran = |args: &[&str]| Ran::from_record(&Record::new(RAN_TAG.into(), args.iter().map(|a| a.to_string()).collect()));
    assert_eq!(ran(&["command", "ls -l", "status", "2"]), Some(Ok(Ran { command: "ls -l".into(), status: 2 })));
    assert_eq!(ran(&["status", "-1", "command", "x"]), Some(Ok(Ran { command: "x".into(), status: -1 })));
    assert_eq!(ran(&["status", "2"]), Some(Err("__RAN__ is missing \"command\"".into())));
    assert_eq!(ran(&["command", "ls"]), Some(Err("__RAN__ is missing \"status\"".into())));
    assert_eq!(ran(&["command", "ls", "status", "two"]), Some(Err("status is not a number".into())));
    assert_eq!(Ran::from_record(&Record::new("OTHER".into(), Vec::new())), None);
}

#[test]
fn a_step_runs_the_call_and_reports_it() {
    let codegen = Codegen::new();
    let expected = format!(
        "ls -l\n__BC__repl_rc=$?\ndeclare -a __bc_ran=(__RAN__ command 'ls -l' status \"$__BC__repl_rc\")\n{}",
        codegen.emit("__bc_ran").as_str()
    );
    assert_eq!(step_body("ls -l", &codegen), expected);
    let traced = Codegen::debugging(true);
    assert!(step_body("ls", &traced).ends_with(traced.emit("__bc_ran").as_str()));
}

struct Script {
    calls: Vec<&'static str>,
    seen: Rc<RefCell<Vec<Option<Ran>>>>,
}

impl Steering for Script {
    fn next(&self, last: Option<&Ran>) -> Turn {
        let turn = self.seen.borrow().len();
        self.seen.borrow_mut().push(last.cloned());
        match self.calls.get(turn) {
            Some(call) => Turn::Run(call.to_string()),
            None => Turn::Stop,
        }
    }
}

#[test]
fn a_steering_loop_hears_each_outcome_before_choosing() {
    let seen = Rc::new(RefCell::new(Vec::new()));
    let mut repl = Repl::new(Script { calls: vec!["echo hi", "false"], seen: seen.clone() });
    let first = repl.answer(&ask(&[VERB]));
    assert_eq!(first, Reply::Source { body: step_body("echo hi", &Codegen::new()) });
    let second = repl.answer(&ask(&[VERB, "0"]));
    assert_eq!(second, Reply::Source { body: step_body("false", &Codegen::new()) });
    let last = repl.answer(&ask(&[VERB, "1"]));
    assert_eq!(last, Reply::Continue { status: 1 }, "stopping ends the loop with status 1");
    assert_eq!(
        *seen.borrow(),
        [
            None,
            Some(Ran { command: "echo hi".into(), status: 0 }),
            Some(Ran { command: "false".into(), status: 1 }),
        ]
    );

    let quiet = Rc::new(RefCell::new(Vec::new()));
    let mut stopped = Repl::new(Script { calls: Vec::new(), seen: quiet.clone() });
    assert_eq!(stopped.answer(&ask(&[VERB, "9"])), Reply::Continue { status: 1 });
    assert_eq!(*quiet.borrow(), [None], "nothing was dispatched, so nothing is reported");
}

#[test]
fn an_instrument_renders_under_the_codegen_it_is_given() {
    let plain = text("plain".into(), "echo x".into());
    assert_eq!(plain.name, "plain");
    assert_eq!(plain.render(&Codegen::new()).as_str(), "echo x");
    assert_eq!(plain.render(&Codegen::debugging(true)).as_str(), "echo x");

    let emitting = Instrument::new("emitting".into(), |codegen: &Codegen| codegen.emit("arr"));
    let traced = Codegen::debugging(true);
    assert_eq!(emitting.render(&traced).as_str(), traced.emit("arr").as_str());
    assert_ne!(emitting.render(&traced).as_str(), emitting.render(&Codegen::new()).as_str());
    let _: BashSrc = emitting.render(&Codegen::new());
}

#[test]
fn an_ask_reports_the_call_before_it() {
    assert_eq!(outcome(None, &ask(&[VERB, "3"])), None);
    assert_eq!(outcome(Some("ls".into()), &ask(&[VERB, "3"])), Some(Ran { command: "ls".into(), status: 3 }));
    assert_eq!(outcome(Some("ls".into()), &ask(&[VERB, "-2"])), Some(Ran { command: "ls".into(), status: -2 }));
    assert_eq!(outcome(Some("ls".into()), &ask(&[VERB])), Some(Ran { command: "ls".into(), status: 0 }));
    assert_eq!(outcome(Some("ls".into()), &ask(&[VERB, "x"])), Some(Ran { command: "ls".into(), status: 0 }));
}

use bash_interop::rig::capture::Capture;
use bash_interop::rig::run::behaviour::{Behaviour, UNANSWERED};
use bash_interop::rig::run::rigging::Rigging;
use bash_interop::rig::run::{Setup, Workspace};
use bash_interop::rig::record::{Micros as RecordMicros, Pid as RecordPid, Stamp as RecordStamp, Stamped};
use bash_interop::rig::run::Turn as Question;
use bash_interop::rig::error::RigError;

fn heard_so_far(seen: &Capture) -> usize {
    seen.lines.len()
}

#[test]
fn a_behaviour_with_nothing_to_say_tells_every_ask_127() {
    let quiet: Behaviour<fn(&Record, &Capture) -> Reply> = Behaviour::new();
    assert!(quiet.bash().is_empty());
    assert_eq!(quiet.reply(&ask(&["anything"]), &Capture::new(Vec::new())), Reply::Continue { status: UNANSWERED });
    let defaulted: Behaviour<fn(&Record, &Capture) -> Reply> = Behaviour::default();
    assert_eq!(defaulted.reply(&ask(&[]), &Capture::new(Vec::new())), Reply::Continue { status: 127 });
}

#[test]
fn a_behaviour_answers_from_what_it_has_heard() {
    let seen = Capture::literal(vec![Record::new("A".into(), Vec::new()), Record::new("B".into(), Vec::new())]);
    let told = Behaviour::<fn(&Record, &Capture) -> Reply>::new()
        .speaking(BashSrc::raw("echo hi".into()))
        .answering(|ask: &Record, seen: &Capture| Reply::Continue { status: (ask.args.len() + heard_so_far(seen)) as i32 });
    assert_eq!(told.bash().as_str(), "echo hi");
    assert_eq!(told.reply(&ask(&["x", "y"]), &seen), Reply::Continue { status: 4 });
}

#[test]
fn a_rigging_keeps_its_setup_and_its_state() {
    let setup = Setup::new().env("K", "V").in_workspace(Workspace::At("/keep".into()));
    let mut count = 0;
    let mut rigging = Rigging::new(setup, move |turn: &Question<'_>| -> Result<Next, RigError> {
        count += 1;
        if turn.args().is_empty() {
            Err(RigError::new("answering".into(), "no arguments".into()))
        } else {
            Ok(Next::status(count))
        }
    });
    let again = rigging.setup();
    assert_eq!(again.env, [("K".to_string(), "V".to_string())]);
    assert_eq!(again.workspace, Workspace::At("/keep".into()));

    let asked: Stamped<Record> = Stamped {
        stamp: RecordStamp { at: RecordMicros(1), pid: RecordPid(9), seq: 0 },
        value: Record::new("ASK".into(), Vec::new()),
    };
    let some = vec!["a".to_string()];
    assert_eq!(rigging.answer(&Question::new(&asked, &some, "/ws")).unwrap().words(), ["return", "1"]);
    assert_eq!(rigging.answer(&Question::new(&asked, &some, "/ws")).unwrap().words(), ["return", "2"], "the closure keeps its state");
    let none: Vec<String> = Vec::new();
    assert_eq!(rigging.answer(&Question::new(&asked, &none, "/ws")).unwrap_err().to_string(), "answering: no arguments");
}

use bash_interop::rig::listen::{listening, Conversing};
use bash_interop::rig::run::behaviour::repl;
use bash_interop::rig::run::ExitStatus as Ended;
use bash_interop::rig::steering::reply_to;
use bash_interop::rig::wire::lines::{heard, Raw};

#[test]
fn a_turn_is_answered_and_its_call_kept_pending() {
    let (reply, pending) = reply_to(Turn::Run("ls".into()));
    assert_eq!(reply, Reply::Source { body: step_body("ls", &Codegen::new()) });
    assert_eq!(pending.as_deref(), Some("ls"));
    let (reply, pending) = reply_to(Turn::Stop);
    assert_eq!(reply, Reply::Continue { status: 1 });
    assert!(pending.is_none());
}

#[test]
fn a_repl_answers_from_the_history_it_is_shown() {
    let looped = repl(BashSrc::raw("BC_REPL() { :; }".into()), |seen: &Capture| {
        if seen.lines.is_empty() { Turn::Run("echo first".into()) } else { Turn::Stop }
    });
    assert_eq!(looped.bash().as_str(), "BC_REPL() { :; }");
    let nothing = Capture::new(Vec::new());
    assert_eq!(looped.reply(&ask(&[VERB]), &nothing), Reply::Source { body: step_body("echo first", &Codegen::new()) });
    let something = Capture::literal(vec![Record::new("A".into(), Vec::new())]);
    assert_eq!(looped.reply(&ask(&[VERB]), &something), Reply::Continue { status: 1 });
}

fn asked() -> Stamped<Record> {
    Stamped { stamp: RecordStamp { at: RecordMicros(1), pid: RecordPid(9), seq: 0 }, value: Record::new("ASK".into(), Vec::new()) }
}

#[test]
fn listening_keeps_everything_and_answers_127() {
    let mut listener = listening(Setup::new().env("K", "V"));
    let (setup, mut seen) = listener.start();
    assert_eq!(setup.env, [("K".to_string(), "V".to_string())]);
    assert!(seen.lines.is_empty());
    listener.heard(&mut seen, asked());
    listener.heard(&mut seen, asked());
    assert_eq!(seen.lines.len(), 2);
    let question = asked();
    let args: Vec<String> = Vec::new();
    let reply = listener.answer(&seen, &Question::new(&question, &args, "/ws")).unwrap();
    assert_eq!(reply.words(), ["return", "127"]);
    let (kept, status) = listener.ended(seen, Ended::Code(3));
    assert_eq!(kept.lines.len(), 2);
    assert_eq!(status, Ended::Code(3));
}

#[test]
fn a_conversation_answers_from_what_was_heard() {
    let mut talk = Conversing::new(Setup::new(), |seen: &Capture, _: &Question<'_>| -> Result<Next, RigError> {
        Ok(Next::status(seen.lines.len() as i32))
    });
    let (_, mut seen) = talk.start();
    talk.heard(&mut seen, asked());
    let question = asked();
    let args: Vec<String> = Vec::new();
    assert_eq!(talk.answer(&seen, &Question::new(&question, &args, "/ws")).unwrap().words(), ["return", "1"]);
}

#[test]
fn a_line_s_bytes_are_heard_as_text() {
    let line = heard(Raw { bytes: vec![0x61, 0xff, 0x62], heard_at: Micros(4) });
    assert_eq!(line.text, "a\u{fffd}b");
    assert_eq!(line.heard_at, Micros(4));
}
