use bash_interop::rig::capture::{BadField, Capture, Origin, ORIGIN_TAG};
use bash_interop::rig::record::{FromRecord, Line, Micros, Pid, Record, Stamp, Stamped};

fn line(at: u64, pid: u32, seq: u32, tag: &str, args: &[&str]) -> Line {
    Stamped {
        stamp: Stamp { at: Micros(at), pid: Pid(pid), seq },
        value: Record::new(tag.to_string(), args.iter().map(|arg| arg.to_string()).collect()),
    }
}

fn origin(at: u64, pid: u32, parent: &str) -> Line {
    line(at, pid, 0, ORIGIN_TAG, &["parent", parent, "shlvl", "5", "source", "/s.bash"])
}

fn fixture() -> Capture {
    Capture::new(vec![
        line(140, 8, 1, "B", &[]),
        origin(100, 7, ""),
        line(110, 7, 1, "A", &[]),
        origin(130, 8, "7"),
        origin(150, 9, "8"),
        origin(200, 7, ""),
    ])
}

fn views_over(capture: &Capture) {
    let tags: Vec<&str> = capture.chronological().iter().map(|line| line.value.tag.as_str()).collect();
    assert_eq!(tags, [ORIGIN_TAG, "A", ORIGIN_TAG, "B", ORIGIN_TAG, ORIGIN_TAG]);

    let shells = capture.shells();
    assert_eq!(shells.len(), 4, "the reused pid opens a fourth shell");
    assert_eq!(shells[0].lines.len(), 2);
    assert_eq!(shells[1].lines.len(), 2);

    let forest = capture.forest();
    assert_eq!(forest.len(), 2, "the root and the pid-reusing shell");
    assert_eq!(forest[0].shell.pid, Pid(7));
    assert_eq!(forest[0].children[0].shell.pid, Pid(8));
    assert_eq!(forest[0].children[0].children[0].shell.pid, Pid(9));

    let parents: Vec<Option<Pid>> = capture.decoded::<Origin>().into_iter().map(|entry| entry.value.parent).collect();
    assert_eq!(parents, [None, Some(Pid(7)), Some(Pid(8)), None]);
}

/// Ordering, grouping, pid reuse, and the forest share one fixture: two
/// children under a root, plus a later shell reusing the root's pid.
#[test]
fn capture_views_over_one_capture() {
    views_over(&fixture());
}

/// The same fixture, its records built from their leading word and the rest.
#[test]
fn mod_views_over_one_capture() {
    let capture = Capture { lines: fixture().lines };
    views_over(&capture);
    let first = &capture.chronological()[0].value;
    assert_eq!(first.words()[0], ORIGIN_TAG);
}

#[test]
fn origin_decodes_its_own_and_declines_the_rest() {
    let words = |all: &[&str]| all.iter().map(|word| word.to_string()).collect::<Vec<_>>();
    let record = Record::new(ORIGIN_TAG.to_string(), words(&["parent", "", "shlvl", "6", "source", "/x.bash"]));
    let origin = Origin::from_record(&record).unwrap().unwrap();
    assert_eq!(origin.parent, None, "an empty parent is absent, not zero");
    assert_eq!(origin.shlvl, 6);
    assert_eq!(origin.source, Some("/x.bash".to_string()));

    let short = Record::new(ORIGIN_TAG.to_string(), words(&["parent", "3"]));
    assert_eq!(Origin::from_record(&short), Some(Err(BadField("shlvl"))));

    let wrong = Record::new(ORIGIN_TAG.to_string(), words(&["parent", "many", "shlvl", "6"]));
    assert_eq!(Origin::from_record(&wrong), Some(Err(BadField("parent"))));

    assert!(Origin::from_record(&Record::new("OTHER".to_string(), Vec::new())).is_none());
}

/// Records from no shell carry pid 0, and their place in the list.
#[test]
fn literal_records_are_stamped_by_place() {
    let capture = Capture::literal(vec![
        Record::new("A".to_string(), Vec::new()),
        Record::new("B".to_string(), Vec::new()),
    ]);
    assert_eq!(capture.lines.len(), 2);
    assert_eq!(capture.lines[1].stamp, Stamp { at: Micros(0), pid: Pid(0), seq: 1 });

    let both = Capture::concat(vec![capture, fixture()]);
    assert_eq!(both.lines.len(), 8);
    assert_eq!(both.lines[0].value.tag, "A");
    assert_eq!(both.lines[2].value.tag, "B");
}

/// Lines with one stamp keep the order they were read in.
#[test]
fn chronological_order_is_stable() {
    let capture = Capture::new(vec![
        line(5, 1, 1, "late", &[]),
        line(1, 1, 1, "first", &[]),
        line(1, 1, 1, "second", &[]),
        line(1, 2, 0, "pid two", &[]),
    ]);
    let tags: Vec<&str> = capture.chronological().iter().map(|line| line.value.tag.as_str()).collect();
    assert_eq!(tags, ["first", "second", "pid two", "late"]);
}

/// Shells naming each other in one instant are no one's root, and a walk
/// from a root never meets them.
#[test]
fn a_cycle_of_parents_is_never_walked() {
    let capture = Capture::new(vec![origin(100, 7, "8"), origin(100, 8, "7"), origin(90, 3, "")]);
    let forest = capture.forest();
    assert_eq!(forest.len(), 1);
    assert_eq!(forest[0].shell.pid, Pid(3));
    assert!(forest[0].children.is_empty());
    assert_eq!(capture.of::<Origin>().len(), 3);
}
