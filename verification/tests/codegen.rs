use bash_interop::rig::codegen::{Asset, AssetError, BashSrc, Codegen};
use bash_interop::rig::dispatch::Dispatch;

fn raw(text: &str) -> BashSrc {
    BashSrc::raw(text.to_string())
}

/// Multi-line bodies with comments survive `func`; `seq` drops empties;
/// `case` nests its arms. None of this holds for a one-liner rendering.
#[test]
fn composition_renders_readable_bash() {
    let body = BashSrc::seq(vec![raw("# a comment"), BashSrc::empty(), raw("local value=1")]);
    assert_eq!(BashSrc::func("demo", body).as_str(), "demo() {\n    # a comment\n    local value=1\n}");
    assert_eq!(
        BashSrc::case("\"$1\"", vec![("'a'".to_string(), raw("echo a"))]).as_str(),
        "case \"$1\" in\n    'a')\n        echo a\n        ;;\nesac"
    );
}

#[test]
fn sequencing_drops_empties() {
    let joined = BashSrc::seq(vec![raw("one"), BashSrc::default(), raw("two")]);
    assert_eq!(joined.as_str(), "one\ntwo");
    assert!(BashSrc::seq(vec![BashSrc::default()]).is_empty());
}

fn render(dispatch: Dispatch) -> String {
    dispatch.bash(&Codegen::new()).as_str().to_string()
}

/// A bare prefix records directly; literal arguments become nested case
/// arms; prefixes sharing a function merge into one definition.
#[test]
fn trie_shapes() {
    let bare = render(Dispatch::new().on(&["FOO"], "FOO"));
    assert!(bare.contains("FOO() {"));
    assert!(bare.contains("local -a __bc_dispatch_rec=('FOO' \"$@\")"));
    assert!(!bare.contains("case"));

    let merged = render(Dispatch::new().on(&["DSL", "^"], "DSL").on(&["DSL", "%"], "DSL_PCT"));
    assert_eq!(merged.matches("DSL() {").count(), 1);
    assert!(merged.contains("case \"$__bc_dispatch_d1\" in"));
    assert!(merged.contains("'^')") && merged.contains("'%')"));
    assert!(merged.contains("shift || return 2"));

    let nested = render(Dispatch::new().on(&["A", "B", "C"], "X").on(&["A", "B", "D"], "Y"));
    assert_eq!(nested.matches("case").count(), 2);
}

/// The wire's bash, as far as filling it goes: one placeholder.
const WIRE_BODY: &str = "__BC__post() {\n    printf '%s' @@POST@@\n}\n";

#[test]
fn filling_is_exact_in_both_directions() {
    let wire = Asset::new("rig/wire.bash");
    assert!(wire.fill(WIRE_BODY, &[("POST", "x")]).is_ok());
    assert!(matches!(wire.fill(WIRE_BODY, &[]), Err(AssetError::UnboundPlaceholder { .. })));
    assert!(matches!(
        wire.fill(WIRE_BODY, &[("POST", "x"), ("NOPE", "y")]),
        Err(AssetError::UnusedBinding { .. })
    ));
}

#[test]
fn filling_substitutes_every_occurrence() {
    let filled = Asset::new("x.bash").fill("a=@@A@@ b=@@A@@ c=@@B_2@@", &[("A", "1"), ("B_2", "2")]).unwrap();
    assert_eq!(filled, "a=1 b=1 c=2");
    match Asset::new("x.bash").fill("@@ONE@@ @@TWO_X@@", &[("ONE", "1")]) {
        Err(AssetError::UnboundPlaceholder { name, .. }) => assert_eq!(name, "TWO_X"),
        other => panic!("{other:?}"),
    }
}

/// What a send looks like, and that only an emit is guarded.
#[test]
fn sends_are_framed_and_guarded() {
    let codegen = Codegen::new();
    let emitted = codegen.emit("arr");
    assert!(emitted.as_str().starts_with("[[ $BASHPID == \"$__BC__owner\" ]] || __BC__join\n"));
    assert!(emitted.as_str().contains("printf -v __BC__msg '%s ' \"${arr[@]@Q}\""));
    assert!(emitted.as_str().contains("__BC__split 'SAY' \"$__BC__msg\""));
    assert!(!codegen.ask("arr").as_str().contains("__BC__join"));
    assert!(codegen.ask("arr").as_str().contains("'ASK'"));
    assert!(!emitted.as_str().contains("__BC__log"));
    assert!(Codegen::debugging(true).emit("arr").as_str().contains("__BC__log send SAY arr ${#__BC__msg}"));

    let wrapped = codegen.cps_wrapper("w", raw("before"), raw("after"));
    assert_eq!(
        wrapped.as_str(),
        "w() {\n    before\n    \"$@\"\n    local rc=$?\n    after\n    return \"$rc\"\n}"
    );
}
