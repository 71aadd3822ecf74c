use bash_interop::rig::frame::Frame;
use bash_interop::rig::record::{Micros as RecordMicros, Record};
use bash_interop::rig::wire::{field, Account, Answer, Heard, Line, Message, Micros, Pid, Reassembly, Stamp, Verb};
use bash_strings::{emit_array, parse_array};

const AT: Micros = Micros(9);

fn strings(items: &[&str]) -> Vec<String> {
    items.iter().map(|item| item.to_string()).collect()
}

/// A whole message, as the bash writes one: the protocol's words in front,
/// then the client's.
fn whole(payload: &[&str]) -> String {
    let ahead = ["SAY", "at=1.000002", "parent=7", "shlvl=4"];
    let words: Vec<String> = ahead.iter().chain(payload).map(|word| word.to_string()).collect();
    emit_array(&words)
}

fn frame(pid: u32, seq: u32, body: &str) -> String {
    format!(". {pid} {seq} {body}\n")
}

fn words_of(line: &Line) -> Vec<&str> {
    line.words.iter().map(String::as_str).collect()
}

fn fed(incoming: &mut Reassembly, bytes: &[u8]) -> Vec<Line> {
    incoming.feed(bytes, AT).unwrap()
}

#[test]
fn a_message_survives_any_read_boundary() {
    let stream = frame(7, 0, &whole(&["A", "one"])) + &frame(7, 1, &whole(&["B", "two"]));

    let seen = fed(&mut Reassembly::default(), stream.as_bytes());
    assert_eq!(seen.len(), 2);
    assert_eq!(words_of(&seen[0]), ["A", "one"]);
    assert_eq!(seen[0].sent.sent_at, Micros(1_000_002), "the sender's clock, from the message");
    assert_eq!(seen[0].sent.heard_at, AT, "the reader's, as it was handed in");
    assert_eq!((seen[0].sent.pid, seen[0].sent.seq), (Pid(7), 0), "from the frame header");

    let mut dribbled = Reassembly::default();
    let mut byte_at_a_time = Vec::new();
    for byte in stream.as_bytes() {
        byte_at_a_time.extend(fed(&mut dribbled, &[*byte]));
    }
    assert_eq!(byte_at_a_time.len(), 2);
    assert_eq!(words_of(&byte_at_a_time[1]), ["B", "two"]);
    dribbled.finish().unwrap();
}

#[test]
fn interleaved_split_messages_rejoin_per_sender() {
    let (mine, theirs) = (whole(&["WIDE", "aaaa"]), whole(&["OTHER", "bbbb"]));
    let cut = 12;
    let mut incoming = Reassembly::default();

    assert!(fed(&mut incoming, format!("+ 7 0 {}\n", &mine[..cut]).as_bytes()).is_empty());
    assert!(fed(&mut incoming, format!("+ 9 0 {}\n", &theirs[..cut]).as_bytes()).is_empty());

    let rejoined = fed(&mut incoming, format!(". 7 0 {}\n", &mine[cut..]).as_bytes());
    assert_eq!(words_of(&rejoined[0]), ["WIDE", "aaaa"]);

    let other = fed(&mut incoming, format!(". 9 0 {}\n", &theirs[cut..]).as_bytes());
    assert_eq!(words_of(&other[0]), ["OTHER", "bbbb"]);
    incoming.finish().unwrap();
}

#[test]
fn nothing_may_be_left_part_way() {
    let mut cut = Reassembly::default();
    let no_delimiter = frame(7, 0, &whole(&["A"]));
    fed(&mut cut, no_delimiter.trim_end().as_bytes());
    assert!(cut.finish().is_err(), "a frame without its delimiter");

    let mut unfinished = Reassembly::default();
    fed(&mut unfinished, b"+ 7 0 ('SAY'\n");
    assert!(unfinished.finish().is_err(), "a message without its last chunk");

    Reassembly::default().finish().unwrap();
}

/// One thing wrong per line: first the frame header, in the order it is
/// read, then the message the whole frame carries.
#[test]
fn a_frame_that_will_not_read_is_an_error() {
    let bad = [
        "nonsense\n".to_string(),
        format!("? 7 0 {}\n", whole(&[])),
        format!(". x 0 {}\n", whole(&[])),
        format!(". 7 z {}\n", whole(&[])),
        ". 7 0\n".to_string(),
        ". 7 0 (unquoted\n".to_string(),
        format!(". 7 0 {}\n", emit_array(&["MUMBLE".to_string()])),
    ];
    for frame in bad {
        assert!(Reassembly::default().feed(frame.as_bytes(), AT).is_err(), "{frame:?} should not read");
    }
}

fn heard(kind: &str, payload: &[&str]) -> Heard {
    let mut all = strings(&[kind, "at=1.000002"]);
    all.extend(strings(payload));
    Heard { text: emit_array(&all), heard_at: Micros(50) }
}

fn spoke(payload: &[&str]) -> Message {
    Message::read(heard("SAY", payload)).expect("a message")
}

#[test]
fn the_protocols_words_come_off_and_the_clients_remain() {
    let message = spoke(&["REC", "a space", ""]);

    assert_eq!(message.verb, Verb::Say);
    assert_eq!(message.stamp.sent_at, Micros(1_000_002));
    assert_eq!(message.stamp.heard_at, Micros(50), "the run's clock, from the read");
    assert_eq!(message.words, strings(&["REC", "a space", ""]), "the payload alone");
    assert_eq!(message.behind("REC"), Some(strings(&["a space", ""]).as_slice()));
}

#[test]
fn a_message_may_carry_nothing_of_its_own() {
    let message = spoke(&[]);

    assert!(message.words.is_empty());
    assert_eq!(message.behind("REC"), None);
}

/// An account has no verb: the clock comes first.
#[test]
fn an_account_is_the_clock_and_the_pairs() {
    let text = emit_array(&strings(&["at=1.000002", "zero", "x.bash", "flags", "hB"]));
    let account = Account::read(&text, Micros(50)).unwrap();

    assert_eq!(account.stamp, Stamp { sent_at: Micros(1_000_002), heard_at: Micros(50) });
    assert_eq!(field(&account.words, "zero"), Some("x.bash"));

    let verbed = emit_array(&strings(&["JOIN", "at=1.000002"]));
    assert!(Account::read(&verbed, Micros(0)).is_err(), "a verb where the clock goes");
}

#[test]
fn a_header_the_protocol_did_not_write_is_an_error() {
    let bad = [
        emit_array(&strings(&["MUMBLE", "at=1.000002"])),
        emit_array(&strings(&["JOIN", "at=1.000002"])),
        emit_array(&strings(&["SAY", "when=1.000002"])),
        emit_array(&strings(&["SAY", "at=1.0"])),
        emit_array(&strings(&["SAY"])),
        "(unquoted".to_string(),
    ];
    for text in bad {
        let refused = Message::read(Heard { text: text.clone(), heard_at: Micros(0) });
        assert!(refused.is_err(), "{text} should not read");
    }
}

/// The shell reads an answer with `read -r`, which stops at a newline, so a
/// word carrying one arrives escaped and the delimiter is the only newline
/// on that pipe.
#[test]
fn an_answer_is_one_line_whatever_it_carries() {
    let carried = ["%s", "two\nlines", "a\ttab", "\u{ff}", "it's", ""];
    let message = Answer::of("printf".to_string(), strings(&carried)).to_string();

    assert!(!message.contains('\n'), "a raw newline would truncate the read: {message}");

    let mut expected = vec!["printf".to_string()];
    expected.extend(carried.iter().map(|word| word.to_string()));
    assert_eq!(parse_array(&message).unwrap(), expected, "and it still reads back");
}

/// A word may itself be a message, decoded one level at a time.
#[test]
fn message_messages_round_trip() {
    let nested = emit_array(&strings(&["INNER", "x y"]));
    let message = spoke(&["TAG", "quote'inside", "two\nlines", &nested]);

    assert_eq!(message.words, strings(&["TAG", "quote'inside", "two\nlines", &nested]));
    assert_eq!(parse_array(&nested).unwrap(), strings(&["INNER", "x y"]));
}

/// A message survives everything bash can put in a word, and nesting
/// survives because an element may itself be a literal.
#[test]
fn record_messages_round_trip() {
    let record = Record::new(
        "TAG".to_string(),
        vec![
            "a space".to_string(),
            "quote'inside".to_string(),
            String::new(),
            "two\nlines".to_string(),
            Record::new("INNER".to_string(), vec!["x y".to_string()]).to_message(),
        ],
    );
    let wire = record.to_message();
    assert!(!wire.contains('\n'), "a message is always one line");

    let back = Record::parse_message(&wire).unwrap();
    assert_eq!(back, record);
    assert_eq!(Record::parse_message(&back.args[4]).unwrap().args, ["x y"]);
}

#[test]
fn epochs_and_fields_decode() {
    assert_eq!(RecordMicros::parse_epoch("1785922874.170358"), Some(RecordMicros(1785922874170358)));
    assert_eq!(RecordMicros::parse_epoch("1785922874,170358"), Some(RecordMicros(1785922874170358)));
    assert_eq!(RecordMicros::parse_epoch("nope"), None);

    let record = Record::new("T".to_string(), vec!["k".into(), "v".into()]);
    assert_eq!(record.field("k"), Some("v"));
    assert_eq!(record.field("missing"), None);
}

#[test]
fn markers_and_shapes() {
    let frame = Frame::parse("1.000000 42 7 . ('a')").unwrap();
    assert!(!frame.partial);
    assert_eq!(frame.stamp.pid, Pid(42));
    assert_eq!(frame.chunk, "('a')");

    assert!(Frame::parse("1.000000 42 7 + (").unwrap().partial);

    for bad in ["", "x 1 0 . ()", "1.0 x 0 . ()", "1.0 1 x . ()", "1.0 1 0 ? ()", "1.0 1 0 ."] {
        assert!(Frame::parse(bad).is_err(), "{bad:?} should not parse");
    }
}

/// A value carrying the delimiter travels quoted inside one frame: the frame
/// ends at the first raw newline, and the quoted form holds none.
#[test]
fn a_newline_in_a_word_travels_inside_one_frame() {
    let body = whole(&["REC", "first\nsecond\tthird\\fourth plain"]);
    assert!(!body.contains('\n'));
    let seen = fed(&mut Reassembly::default(), frame(7, 0, &body).as_bytes());
    assert_eq!(seen.len(), 1, "one message, not three");
    assert_eq!(words_of(&seen[0]), ["REC", "first\nsecond\tthird\\fourth plain"]);
}

/// Each refusal says what was being read, and why it would not.
#[test]
fn every_refusal_says_why() {
    let cause = |text: &str| Message::read(Heard { text: text.to_string(), heard_at: AT }).unwrap_err();
    let unquoted = cause("(unquoted");
    assert_eq!(unquoted.doing(), "reading the line \"(unquoted\"");
    assert_eq!(unquoted.cause(), "not an array literal");
    assert_eq!(cause("('SAY')").cause(), "the line ended early");
    assert_eq!(cause("('MUMBLE' 'at=1.000002')").cause(), "MUMBLE is not a verb");
    assert_eq!(cause("('MUMBLE')").cause(), "MUMBLE is not a verb", "the verb is read before the clock");
    assert_eq!(cause("('SAY' 'when=1.000002')").cause(), "no at= header");
    assert_eq!(cause("('SAY' 'at=1.0')").cause(), "bad at");

    let account = |text: &str| Account::read(text, AT).unwrap_err();
    assert_eq!(account("()").cause(), "the line ended early");
    assert_eq!(account("('JOIN')").doing(), "reading the account \"('JOIN')\"");
    assert_eq!(account("('JOIN')").cause(), "no at= header");

    let frame = Frame::parse("nonsense").unwrap_err();
    assert_eq!(frame.doing(), "reading the frame \"nonsense\"");
    assert_eq!(frame.cause(), "bad timestamp");
    assert_eq!(Frame::parse("1.0").unwrap_err().cause(), "bad pid");
    assert_eq!(Frame::parse("1.0 x 0 . ()").unwrap_err().cause(), "bad pid");
    assert_eq!(Frame::parse("1.0 1 x . ()").unwrap_err().cause(), "bad sequence number");
    assert_eq!(Frame::parse("1.0 1 0").unwrap_err().cause(), "bad marker");
    assert_eq!(Frame::parse("1.0 1 0 ? ()").unwrap_err().cause(), "bad marker");
    assert_eq!(Frame::parse("1.0 1 0 .").unwrap_err().cause(), "no message");

    assert_eq!(Record::parse_message("()").unwrap_err().to_string(), "malformed message: empty message");
    assert_eq!(Record::parse_message("(x").unwrap_err().to_string(), "malformed message: not an array literal");
    let mut cut = Reassembly::default();
    fed(&mut cut, b". 7 0 ('SAY'");
    let left = cut.finish().unwrap_err();
    assert_eq!(left.doing(), "draining the instrumentation pipe");
    assert_eq!(left.cause(), "a frame was cut short: \". 7 0 ('SAY'\"");
}
