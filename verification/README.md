# bash_interop

Run a bash program, hear every shell in its process tree, and answer the
questions those shells ask.

The library in `src/` is verified with Verus: the wire's framing and
messages, what a shell says of itself, the trees of shells a run is read
through, the bash a rig injects, and a session's bookkeeping. Each public
function states what it returns in its `ensures`, and the laws that span
functions are public proof functions beside them (`lemma_*`).

`app/` is the runtime around it, in ordinary Rust: the fifos, one task per
shell, the workspace's lock, spawning and watching the subject, and serde
copies of the library's values. It decides nothing the library can.

The crates the library calls through trusted items are `bash-strings` (bash's
quoted forms) and `indexmap` (the dispatch trie's ordered arms); each such
item says in its doc comment what it takes on trust.
