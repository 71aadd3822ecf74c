use std::sync::Arc;

use bash_interop::digits::{parse_i32, signed_text};
use bash_interop::failure::Failure;
use bash_interop::rig::attended::{heard, Attended, Layout, Provision};
use bash_interop::rig::codegen::{Asset, AssetError, BashSrc};
use bash_interop::rig::driving::Run;
use bash_interop::rig::error::{Doing, RigError as Why};
use bash_interop::rig::record::{Micros as RecordMicros, Pid as RecordPid, Record, Stamp as RecordStamp, Stamped};
use bash_interop::rig::run::{ExitStatus as Ended, RigError, Setup, Turn, Workspace};
use bash_interop::rig::source::prelude;
use bash_interop::rig::status::ExitStatus;
use bash_interop::rig::wire::{Message, Micros, Stamp, Verb};
use bash_interop::scratch::accounts::shell;
use bash_interop::shell::Shell;

fn chars(text: &str) -> Vec<char> {
    text.chars().collect()
}

#[test]
fn a_wait_status_reads_as_a_code_or_a_signal() {
    assert_eq!(ExitStatus::from_wait(7 << 8, false), ExitStatus::Code(7));
    assert_eq!(ExitStatus::from_wait(15, true), ExitStatus::Signal(15));
    assert_eq!(ExitStatus::from_wait((3 << 8) | 0x80 | 9, true), ExitStatus::Signal(9), "the core bit is not the signal");
    assert_eq!(ExitStatus::Code(7).shell_code(), 7);
    assert_eq!(ExitStatus::Signal(15).shell_code(), 143, "128 + signal, the shell convention");
    assert_eq!(ExitStatus::Code(3).to_string(), "exit 3");
    assert_eq!(ExitStatus::Signal(9).to_string(), "killed by signal 9");
}

#[test]
fn a_process_status_reads_as_a_code_or_a_signal() {
    assert_eq!(Ended::of(Some(3), None), Ended::Code(3));
    assert_eq!(Ended::of(Some(3), Some(9)), Ended::Code(3), "an exit code wins");
    assert_eq!(Ended::of(None, Some(9)), Ended::Signal(9));
    assert_eq!(Ended::of(None, None), Ended::Signal(0));
    assert_eq!(Ended::Signal(15).code(), 143);
    assert_eq!(Ended::Code(-1).code(), -1);
    assert_eq!(Ended::Code(-1).to_string(), "exit -1");
    assert_eq!(Ended::Signal(2).to_string(), "killed by signal 2");
}

#[test]
fn every_run_error_says_what_it_was_doing() {
    assert_eq!(RigError::Workspace("gone".into()).to_string(), "run workspace: gone");
    assert_eq!(RigError::Prelude { path: "/p".into(), cause: "denied".into() }.to_string(), "prelude /p: denied");
    assert_eq!(RigError::Pipe("x".into()).to_string(), "instrumentation pipe: x");
    assert_eq!(RigError::Spawn("x".into()).to_string(), "spawn bash: x");
    assert_eq!(RigError::Wait("x".into()).to_string(), "wait for bash: x");
    assert_eq!(RigError::Read("x".into()).to_string(), "read the pipe: x");
    assert_eq!(RigError::Reply("x".into()).to_string(), "answer a question: x");
    let unused = AssetError::UnusedBinding { asset: Asset::new("a.bash"), name: "N".into() };
    let from = RigError::from(unused);
    assert!(matches!(from, RigError::Asset(AssetError::UnusedBinding { .. })));
    assert_eq!(from.to_string(), "bash asset a.bash: nothing to bind for @@N@@");
    let unbound = AssetError::UnboundPlaceholder { asset: Asset::new("a.bash"), name: "M".into() };
    assert_eq!(unbound.to_string(), "bash asset a.bash: @@M@@ was never bound");
    let unreadable = AssetError::Unreadable { asset: Asset::new("a.bash"), path: "/t/a.bash".into(), cause: "no".into() };
    assert_eq!(unreadable.to_string(), "bash asset /t/a.bash: no");
}

#[test]
fn a_cause_is_told_what_it_was_in_aid_of() {
    assert_eq!(Why::new("reading".into(), "eof".into()).to_string(), "reading: eof");
    let failed: Result<u8, String> = Err("eof".into());
    assert_eq!(failed.doing("reading the pipe".into()).unwrap_err().to_string(), "reading the pipe: eof");
    let fine: Result<u8, String> = Ok(3);
    assert_eq!(fine.doing("reading the pipe".into()).unwrap(), 3);
}

#[test]
fn a_workspace_names_its_files() {
    let layout = Layout::new("/tmp/ws".into()).unwrap();
    assert_eq!(layout.path(), "/tmp/ws");
    assert_eq!(layout.text(), "/tmp/ws");
    assert_eq!(layout.prelude(), "/tmp/ws/prelude.bash");
    assert_eq!(layout.rig(), "/tmp/ws/rig.bash");
    assert_eq!(layout.join(), "/tmp/ws/join");
    assert_eq!(layout.lock(), "/tmp/ws/lock");
    assert_eq!(layout.up("t1"), "/tmp/ws/up.t1");
    assert_eq!(layout.rep("t1"), "/tmp/ws/rep.t1");
    assert_eq!(layout.bash_env_file(), "/tmp/ws/bash_env.bash");
}

#[test]
fn a_provisioned_startup_file_sources_both_halves() {
    let layout = Layout::new("/tmp/ws".into()).unwrap();
    let sources = "source '/tmp/ws/prelude.bash'\nsource '/tmp/ws/rig.bash'\n";
    assert_eq!(layout.bash_env(Provision::Definitions), sources);
    assert_eq!(layout.bash_env(Provision::Joining("__BC__join")), format!("{sources}__BC__join"));
}

#[test]
fn a_workspace_must_be_one_line() {
    let refused = Layout::new("/tmp/a\nb".into()).unwrap_err();
    assert_eq!(refused.doing(), "opening the workspace /tmp/a\nb");
    assert_eq!(refused.cause(), "the path is not one line of text");
}

fn said(at: u64, word: &str) -> Message {
    Message {
        verb: Verb::Say,
        stamp: Stamp { sent_at: Micros(at), heard_at: Micros(at + 1) },
        words: vec![word.to_string()],
    }
}

fn attended(shell: Arc<Shell>, kept: Vec<Message>) -> Attended<Vec<Message>> {
    Attended { shell, kept, parted: None }
}

#[test]
fn everything_heard_comes_in_the_order_it_was_said() {
    let shells = vec![
        attended(shell(0, 7, "main.bash", "hB"), vec![said(100, "a"), said(300, "c"), said(300, "d")]),
        attended(shell(1, 8, "child.bash", "hB"), vec![said(200, "b"), said(300, "e"), said(50, "first")]),
    ];
    let all = heard(&shells);
    let words: Vec<&str> = all.iter().map(|s| s.message.words[0].as_str()).collect();
    assert_eq!(words, ["first", "a", "b", "c", "d", "e"], "by the sender's clock, ties in join order");
    let pids: Vec<u32> = all.iter().map(|s| s.shell.pid.0).collect();
    assert_eq!(pids, [8, 7, 8, 7, 7, 8], "each message keeps the shell that sent it");
    assert!(heard(&[]).is_empty());
}

#[test]
fn a_run_is_whole_only_if_it_closed_cleanly() {
    let clean: Run<()> = Run { shells: Vec::new(), subject: ExitStatus::Code(4), failed: None };
    let whole = clean.whole().unwrap();
    assert_eq!(whole.subject, ExitStatus::Code(4));
    assert!(whole.shells.is_empty());

    let broken: Run<()> = Run {
        shells: Vec::new(),
        subject: ExitStatus::Code(0),
        failed: Some(Failure::new("closing the join fifo".into(), "busy".into())),
    };
    let why = broken.whole().unwrap_err();
    assert_eq!(why.to_string(), "closing the join fifo: busy");
}

#[test]
fn a_prelude_configures_then_carries_both_halves() {
    let rig = BashSrc::raw("echo rig".into());
    let quiet = prelude(&rig, false, "/ws", "/ws/up.1", "wire() { :; }");
    assert_eq!(
        quiet.as_str(),
        "__BC__UP='/ws/up.1'\n__BC__DIR='/ws'\n__BC__limit=3800\n__BC__DEBUG=\nwire() { :; }\necho rig"
    );
    let traced = prelude(&rig, true, "/ws", "/ws/up.1", "");
    assert_eq!(traced.as_str(), "__BC__UP='/ws/up.1'\n__BC__DIR='/ws'\n__BC__limit=3800\n__BC__DEBUG=1\necho rig");
}

#[test]
fn a_setup_is_built_a_field_at_a_time() {
    let fresh = Setup::new();
    assert!(fresh.bash.is_empty());
    assert!(fresh.env.is_empty());
    assert_eq!(fresh.workspace, Workspace::Temporary);
    assert!(!fresh.debug);
    let defaulted = Setup::default();
    assert_eq!(defaulted.workspace, Workspace::Temporary);

    let built = Setup::new()
        .bash(BashSrc::raw("echo hi".into()))
        .env("K", "V")
        .env("L", "W")
        .in_workspace(Workspace::At("/keep".into()))
        .debug(true);
    assert_eq!(built.bash.as_str(), "echo hi");
    assert_eq!(built.env, [("K".to_string(), "V".to_string()), ("L".to_string(), "W".to_string())]);
    assert_eq!(built.workspace, Workspace::At("/keep".into()));
    assert!(built.debug);
}

#[test]
fn a_step_is_named_by_the_question_it_answers() {
    let asked: Stamped<Record> = Stamped {
        stamp: RecordStamp { at: RecordMicros(5), pid: RecordPid(42), seq: 3 },
        value: Record::new("ASK".into(), vec!["step".into()]),
    };
    let args = vec!["4".to_string()];
    let turn = Turn::new(&asked, &args, "/ws");
    assert_eq!(turn.step_file(), "/ws/step.42.3.bash");
    assert_eq!(turn.args(), ["4"]);
    assert_eq!(turn.stamp().pid, RecordPid(42));
}

#[test]
fn signed_numbers_read_as_str_parse_reads_them() {
    assert_eq!(parse_i32(&chars("-12")), Some(-12));
    assert_eq!(parse_i32(&chars("+3")), Some(3));
    assert_eq!(parse_i32(&chars("2147483647")), Some(i32::MAX));
    assert_eq!(parse_i32(&chars("2147483648")), None);
    assert_eq!(parse_i32(&chars("-2147483648")), Some(i32::MIN));
    assert_eq!(parse_i32(&chars("-2147483649")), None);
    assert_eq!(parse_i32(&chars("")), None);
    assert_eq!(parse_i32(&chars("-")), None);
    assert_eq!(parse_i32(&chars("1x")), None);
    assert_eq!(signed_text(-5), "-5");
    assert_eq!(signed_text(0), "0");
    assert_eq!(signed_text(i32::MIN), "-2147483648");
}

#[test]
fn an_asset_path_joins_as_path_join_does() {
    let asset = Asset::new("rig/wire.bash");
    assert_eq!(asset.relative(), "rig/wire.bash");
    assert_eq!(asset.path("/root"), "/root/rig/wire.bash");
    assert_eq!(asset.path("/root/"), "/root/rig/wire.bash");
    assert_eq!(asset.path(""), "rig/wire.bash");
    assert_eq!(Asset::new("/abs.bash").path("/root"), "/abs.bash");
}
