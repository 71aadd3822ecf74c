use bash_interop::rig::tree::{forest, forked_from, parent_of, shells, Shells};
use bash_interop::rig::wire::{Kind, Line, Micros, Pid, Sent};
use bash_interop::scratch::accounts::account;

fn line(at: u64, pid: u32, parent: u32, kind: Kind, seq: u32) -> Line {
    Line {
        kind,
        sent: Sent {
            pid: Pid(pid),
            parent: Pid(parent),
            shlvl: 5,
            seq,
            sent_at: Micros(at),
            heard_at: Micros(at + 1),
        },
        words: match kind {
            Kind::Join => account("subject.bash", "hB"),
            _ => Vec::new(),
        },
    }
}

/// A shell opening: its account of itself, which always carries seq 0.
fn joins(at: u64, pid: u32, parent: u32) -> Line {
    line(at, pid, parent, Kind::Join, 0)
}

fn says(at: u64, pid: u32, parent: u32, seq: u32) -> Line {
    line(at, pid, parent, Kind::Say, seq)
}

fn joined(shells: &[(u64, u32, u32)]) -> Vec<Line> {
    shells.iter().map(|&(at, pid, parent)| joins(at, pid, parent)).collect()
}

#[test]
fn shells_and_the_forest_over_one_arrival_order() {
    let heard = vec![
        joins(100, 7, 1), // the outermost shell; the run is its parent
        says(110, 7, 1, 1),
        joins(130, 8, 7), // a child of it
        says(140, 8, 7, 1),
        joins(150, 9, 8), // a child of that
        joins(200, 7, 1), // pid 7 again, freshly joined
    ];

    let shells = shells(&heard).unwrap();
    assert_eq!(shells.len(), 4, "the reused pid opens a fourth shell");
    assert_eq!(shells[0].lines.len(), 2);
    assert_eq!(shells[1].lines.len(), 2);
    assert_eq!(shells[3].joined.opened.pid, Pid(7));

    let forest = forest(&shells);
    assert_eq!(forest.len(), 2, "the outermost shell, and the pid-reusing one");
    assert_eq!(forest[0].shell.joined.opened.pid, Pid(7));
    assert_eq!(forest[0].children[0].shell.joined.opened.pid, Pid(8));
    assert_eq!(forest[0].children[0].children[0].shell.joined.opened.pid, Pid(9));
}

/// Shells link through the one that emitted before forking.
#[test]
fn shells_link_through_the_one_that_emitted_before_forking() {
    let heard = joined(&[
        (100, 7, 1), // the outermost shell; the run is its parent
        (130, 8, 7), // a child of it
        (150, 9, 8), // a child of that
        (200, 7, 1), // pid 7 again, freshly joined
    ]);
    let shells = shells(&heard).unwrap();
    let forest = forest(&shells);

    let pids: Vec<u32> = forest.iter().map(|node| node.shell.joined.opened.pid.0).collect();
    assert_eq!(pids, [7, 7], "the outermost shell, and the pid-reusing one");
    let pids: Vec<u32> = forest[0].children.iter().map(|node| node.shell.joined.opened.pid.0).collect();
    assert_eq!(pids, [8]);
    let pids: Vec<u32> =
        forest[0].children[0].children.iter().map(|node| node.shell.joined.opened.pid.0).collect();
    assert_eq!(pids, [9]);
}

/// A child names a pid, not a generation of one. Two shells carried pid 7,
/// so each child attaches to the one that was alive when it opened — never
/// to a later generation that had not started yet.
#[test]
fn tests_a_child_attaches_to_the_generation_that_was_alive() {
    let heard = joined(&[
        (100, 7, 1), // pid 7, first generation
        (150, 8, 7), // opened while that one was alive
        (200, 7, 1), // pid 7 again, a second generation
        (250, 9, 7), // opened after the reuse
    ]);

    let shells = shells(&heard).unwrap();
    let forest = forest(&shells);

    assert_eq!(forest.len(), 2, "two generations of pid 7, both roots");
    assert_eq!(forest[0].shell.joined.opened.sent_at, Micros(100));
    assert_eq!(forest[0].children.len(), 1, "only the earlier child");
    assert_eq!(forest[0].children[0].shell.joined.opened.pid, Pid(8));

    assert_eq!(forest[1].shell.joined.opened.sent_at, Micros(200));
    assert_eq!(forest[1].children.len(), 1);
    assert_eq!(forest[1].children[0].shell.joined.opened.pid, Pid(9), "the later child");
}

/// A shell can only have been forked from one that had already spoken, so
/// the relation points strictly backwards and a walk up it ends. Two shells
/// naming each other's pid in one instant is the input that would otherwise
/// close a loop.
#[test]
fn tests_the_fork_relation_points_strictly_backwards() {
    let heard = [joins(100, 7, 8), joins(100, 8, 7)];
    let shells = shells(&heard).unwrap();

    assert_eq!(forked_from(&shells), [None, Some(0)]);

    let forest = forest(&shells);
    let pids: Vec<u32> = forest.iter().map(|node| node.shell.joined.opened.pid.0).collect();
    assert_eq!(pids, [7], "one root, and no cycle to walk");
    let pids: Vec<u32> = forest[0].children.iter().map(|node| node.shell.joined.opened.pid.0).collect();
    assert_eq!(pids, [8]);
}

/// The same relation, read off the forest: each child under the generation
/// alive when it opened.
#[test]
fn a_child_attaches_to_the_generation_that_was_alive() {
    let heard = joined(&[(100, 7, 1), (150, 8, 7), (200, 7, 1), (250, 9, 7)]);
    let shells = shells(&heard).unwrap();
    let forest = forest(&shells);

    let pids = |nodes: &[bash_interop::rig::tree::ShellNode]| -> Vec<u32> {
        nodes.iter().map(|node| node.shell.joined.opened.pid.0).collect()
    };
    assert_eq!(forest.len(), 2, "two generations of pid 7, both roots");
    assert_eq!(pids(&forest[0].children), [8], "only the earlier child");
    assert_eq!(pids(&forest[1].children), [9], "the later child");
}

/// One root, and no cycle to walk.
#[test]
fn the_fork_relation_points_strictly_backwards() {
    let heard = joined(&[(100, 7, 8), (100, 8, 7)]);
    let shells = shells(&heard).unwrap();
    let forest = forest(&shells);

    assert_eq!(forest.len(), 1, "one root, and no cycle to walk");
    assert_eq!(forest[0].shell.joined.opened.pid, Pid(7));
    assert_eq!(forest[0].children.len(), 1);
    assert_eq!(forest[0].children[0].shell.joined.opened.pid, Pid(8));
}

/// Neither is anyone's child.
#[test]
fn a_shell_whose_parent_never_spoke_is_a_root() {
    let heard = joined(&[(100, 7, 1), (150, 8, 99)]);
    let shells = shells(&heard).unwrap();
    let forest = forest(&shells);

    let pids: Vec<u32> = forest.iter().map(|node| node.shell.joined.opened.pid.0).collect();
    assert_eq!(pids, [7, 8], "neither is anyone's child");
    assert!(forest.iter().all(|node| node.children.is_empty()));
}

/// A shell whose parent pid never emitted is a root: nothing is invented for
/// it, and it is not silently attached to whatever else was running.
#[test]
fn tests_a_shell_whose_parent_never_spoke_is_a_root() {
    let heard = [joins(100, 7, 1), joins(150, 8, 99)];
    let shells = shells(&heard).unwrap();
    let forest = forest(&shells);

    assert_eq!(forest.len(), 2, "neither is anyone's child");
    assert!(forest.iter().all(|node| node.children.is_empty()));
}

/// The register is what a shell said, not what was guessed from how it went
/// on to speak. A message from a pid that never joined has no shell to
/// belong to, and saying so is the only honest answer.
#[test]
fn a_pid_that_never_joined_has_no_shell() {
    let mut known = Shells::default();

    assert!(known.hear(&says(100, 7, 1, 1)).is_err(), "no account of pid 7");

    let at = known.hear(&joins(110, 7, 1)).unwrap();
    assert_eq!(known.hear(&says(120, 7, 1, 1)).unwrap(), at, "and now it belongs to that one");
    assert_eq!(known.at(at).bash.zero, "subject.bash");
    assert_eq!(known.all().len(), 1);
}

/// A pid that joins again is a new shell, and the messages after it belong
/// to the new one.
#[test]
fn joining_again_under_one_pid_opens_a_second_shell() {
    let mut known = Shells::default();

    let first = known.hear(&joins(100, 7, 1)).unwrap();
    let second = known.hear(&joins(200, 7, 1)).unwrap();

    assert_ne!(first, second);
    assert_eq!(known.hear(&says(210, 7, 1, 1)).unwrap(), second);
    assert_eq!(known.all().len(), 2);
}

/// The register read as a run arrives is the one read afterwards.
#[test]
fn the_register_is_the_same_read_either_way() {
    let heard = vec![joins(100, 7, 1), says(110, 7, 1, 1), joins(130, 8, 7), says(140, 9, 8, 1)];
    assert!(Shells::of(&heard).is_err(), "pid 9 never joined");
    assert!(shells(&heard).is_err(), "and the arrangement says the same");

    let heard = &heard[..3];
    let register = Shells::of(heard).unwrap();
    let arranged = shells(heard).unwrap();
    assert_eq!(register.all().len(), arranged.len());
    for (joined, shell) in register.all().iter().zip(&arranged) {
        assert_eq!(joined.opened, shell.joined.opened);
    }
}

/// A run that cannot be read is refused with its first unreadable line's
/// failure, not a later one's.
#[test]
fn the_first_line_that_will_not_place_is_the_refusal() {
    let mut broken = joins(130, 8, 7);
    broken.words = Vec::new();
    let heard = vec![joins(100, 7, 1), says(110, 9, 1, 1), broken];
    let why = Shells::of(&heard).err().unwrap();
    assert_eq!(why.doing(), "placing a message");
    assert_eq!(why.cause(), "pid 9 spoke without ever joining");

    let first = vec![joins(100, 7, 1), broken_join(), says(110, 9, 1, 1)];
    let why = Shells::of(&first).err().unwrap();
    assert_eq!(why.doing(), "reading what a shell said of itself");
    assert_eq!(why.cause(), "no \"versinfo\"");
}

fn broken_join() -> Line {
    let mut line = joins(120, 8, 7);
    line.words = Vec::new();
    line
}

/// A shell's parent is the newest generation of its parent pid that had
/// joined by the time it did, ahead of it in the register.
#[test]
fn a_parent_is_the_newest_generation_open_in_time() {
    let heard = joined(&[(100, 7, 1), (150, 8, 7), (200, 7, 1), (250, 9, 7), (260, 5, 3)]);
    let found = shells(&heard).unwrap();
    assert_eq!(parent_of(&found, 0), None, "the run is its parent");
    assert_eq!(parent_of(&found, 1), Some(0));
    assert_eq!(parent_of(&found, 3), Some(2), "the later generation of pid 7");
    assert_eq!(parent_of(&found, 4), None, "pid 3 never joined");
}
