use bash_interop::failure::Failure;
use bash_interop::rig::attended::Attended;
use bash_interop::rig::driving::spawning;
use bash_interop::rig::session::{Attendance, Gathering};
use bash_interop::rig::watch::{ready_of, Ready};
use bash_interop::rig::wire::{Account, Micros, Pid, Stamp};
use bash_interop::scratch::accounts::{account, shell};
use bash_interop::shell::{Flags, Shell};

fn attended(nth: usize) -> Attended<()> {
    Attended { shell: shell(nth, 7, "main.bash", "hB"), kept: (), parted: None }
}

fn whole(nth: usize) -> Result<Attendance<()>, Failure> {
    Ok(Attendance { attended: attended(nth), cut: None })
}

fn failure(cause: &str) -> Failure {
    Failure::new("closing".into(), cause.into())
}

fn nths(shells: &[Attended<()>]) -> Vec<usize> {
    shells.iter().map(|at| at.shell.nth).collect()
}

#[test]
fn each_shell_announced_takes_the_next_place() {
    let mut gathering: Gathering<()> = Gathering::new();
    assert_eq!(gathering.joined(), 0);
    assert_eq!(gathering.announced(), 0);
    assert_eq!(gathering.announced(), 1);
    assert_eq!(gathering.joined(), 2);
}

#[test]
fn a_cut_line_while_serving_ends_the_serving() {
    let mut gathering: Gathering<()> = Gathering::new();
    assert!(gathering.finished(Attendance { attended: attended(0), cut: None }).is_none());
    let why = gathering.finished(Attendance { attended: attended(1), cut: Some(failure("cut short")) });
    assert_eq!(why.unwrap().cause(), "cut short");
    let (shells, failed) = gathering.close(None, Vec::new());
    assert_eq!(nths(&shells), [0, 1], "both shells are kept, the cut one too");
    assert!(failed.is_none());
}

#[test]
fn a_closed_session_reports_shells_in_join_order() {
    let mut gathering: Gathering<()> = Gathering::new();
    gathering.finished(Attendance { attended: attended(2), cut: None });
    let outcomes = vec![
        whole(4),
        Err(failure("the task failed")),
        Ok(Attendance { attended: attended(0), cut: Some(failure("cut short")) }),
        whole(1),
    ];
    let (shells, failed) = gathering.close(None, outcomes);
    assert_eq!(nths(&shells), [0, 1, 2, 4], "in the order they joined, a failed task's shell lost");
    assert_eq!(failed.unwrap().cause(), "the task failed", "the first failure, in the order they came back");
}

#[test]
fn a_control_failure_is_the_one_reported() {
    let gathering: Gathering<()> = Gathering::new();
    let (shells, failed) = gathering.close(Some(failure("the fifo")), vec![Err(failure("the task failed")), whole(0)]);
    assert_eq!(nths(&shells), [0]);
    assert_eq!(failed.unwrap().cause(), "the fifo");
}

#[test]
fn starting_the_subject_needs_a_program() {
    let empty = spawning(&[]).unwrap_err();
    assert_eq!(empty.doing(), "starting the subject");
    assert_eq!(empty.cause(), "the command line is empty");
    assert_eq!(spawning(&["bash".to_string(), "x y.bash".to_string()]).unwrap(), "spawning bash x y.bash");
    assert_eq!(spawning(&["bash".to_string()]).unwrap(), "spawning bash");
}

#[test]
fn the_pipe_is_heard_before_the_end_is() {
    const READABLE: i16 = 1;
    assert_eq!(ready_of(READABLE, 0, READABLE), Some(Ready::Spoke));
    assert_eq!(ready_of(READABLE, 16, READABLE), Some(Ready::Spoke), "a ready end does not mean an empty pipe");
    assert_eq!(ready_of(0, 16, READABLE), Some(Ready::Gone), "a hang-up is an end");
    assert_eq!(ready_of(4, 0, READABLE), None, "writable is not readable");
    assert_eq!(ready_of(0, 0, READABLE), None);
}

#[test]
fn an_announcement_carries_the_shell_s_pid() {
    let joined = Stamp { sent_at: Micros(100), heard_at: Micros(101) };
    let mut words = account("x.bash", "hB");
    words.extend(["pid".to_string(), "42".to_string()]);
    let shell = Shell::announced(3, Account { stamp: joined, words: words.clone() }).unwrap();
    assert_eq!((shell.nth, shell.pid, shell.joined), (3, Pid(42), joined));
    assert_eq!(shell.bash.zero, "x.bash");

    let without = Shell::announced(0, Account { stamp: joined, words: account("x.bash", "hB") });
    assert!(without.is_err());

    let mut odd = account("x.bash", "hB");
    odd.extend(["pid".to_string(), "many".to_string()]);
    let refused = Shell::announced(0, Account { stamp: joined, words: odd }).unwrap_err();
    assert_eq!(refused.cause(), "pid \"many\"");
}

#[test]
fn flags_read_back_as_given() {
    let flags = Flags::of("hBc".into());
    assert!(flags.has('c'));
    assert!(!flags.has('i'));
    assert_eq!(flags.to_string(), "hBc");
}
