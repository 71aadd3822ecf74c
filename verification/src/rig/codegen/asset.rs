//! A bash file a rig carries, named relative to the tree it lives in, and
//! filled in before it is laid: every `@@NAME@@` placeholder bound, and every
//! binding used — an asset and its codegen drifting apart is a mistake, not
//! something to paper over.

use vstd::prelude::*;

verus! {

/// A bash file, named relative to the tree root.
#[derive(Copy, Clone, PartialEq, Eq, Debug)]
pub struct Asset(&'static str);

impl View for Asset {
    type V = Seq<char>;

    closed spec fn view(&self) -> Seq<char> {
        self.0@
    }
}

#[derive(Debug)]
pub enum AssetError {
    /// The file could not be read; `path` is where it was looked for.
    Unreadable { asset: Asset, path: String, cause: String },
    UnboundPlaceholder { asset: Asset, name: String },
    UnusedBinding { asset: Asset, name: String },
}

/// `@@NAME@@`.
pub open spec fn placeholder(name: Seq<char>) -> Seq<char> {
    "@@"@ + name + "@@"@
}

/// Whether `pat` stands in `s` at `i`.
pub open spec fn occurs_at(s: Seq<char>, pat: Seq<char>, i: int) -> bool {
    0 <= i && i + pat.len() <= s.len() && s.subrange(i, i + pat.len()) == pat
}

pub open spec fn occurs(s: Seq<char>, pat: Seq<char>) -> bool {
    exists|i: int| occurs_at(s, pat, i)
}

/// `s` with every occurrence of `pat` replaced by `val`, left to right, as
/// `str::replace` does for a pattern that is not empty.
pub open spec fn replaced(s: Seq<char>, pat: Seq<char>, val: Seq<char>) -> Seq<char>
    decreases s.len(),
{
    if s.len() == 0 {
        Seq::empty()
    } else if pat.len() > 0 && occurs_at(s, pat, 0) {
        val + replaced(s.skip(pat.len() as int), pat, val)
    } else {
        seq![s[0]] + replaced(s.skip(1), pat, val)
    }
}

/// The body with each binding substituted in order, or the name of the
/// first binding that had no placeholder left to fill.
pub open spec fn filling(body: Seq<char>, bindings: Seq<(Seq<char>, Seq<char>)>) -> Result<
    Seq<char>,
    Seq<char>,
>
    decreases bindings.len(),
{
    if bindings.len() == 0 {
        Ok(body)
    } else {
        match filling(body, bindings.drop_last()) {
            Err(name) => Err(name),
            Ok(text) => {
                let (name, value) = bindings.last();
                if occurs(text, placeholder(name)) {
                    Ok(replaced(text, placeholder(name), value))
                } else {
                    Err(name)
                }
            },
        }
    }
}

/// Where `@@` first stands in the text.
pub open spec fn first_marker(text: Seq<char>) -> Option<int> {
    if exists|i: int| occurs_at(text, "@@"@, i) {
        Some(choose|i: int| occurs_at(text, "@@"@, i) && forall|j: int| 0 <= j < i ==> !occurs_at(text, "@@"@, j))
    } else {
        None
    }
}

/// The name a placeholder's text starts with: capitals and underscores.
pub open spec fn name_prefix(s: Seq<char>) -> Seq<char>
    decreases s.len(),
{
    if s.len() > 0 && (('A' <= s[0] && s[0] <= 'Z') || s[0] == '_') {
        seq![s[0]] + name_prefix(s.skip(1))
    } else {
        Seq::empty()
    }
}

/// What filling a body comes to: the filled text, or which name went wrong
/// and whether it was left unbound (`true`) or bound in vain (`false`).
pub open spec fn fill_of(body: Seq<char>, bindings: Seq<(Seq<char>, Seq<char>)>) -> Result<
    Seq<char>,
    (bool, Seq<char>),
> {
    match filling(body, bindings) {
        Err(name) => Err((false, name)),
        Ok(text) => match first_marker(text) {
            Some(i) => Err((true, name_prefix(text.skip(i + 2)))),
            None => Ok(text),
        },
    }
}

pub open spec fn binding_views(bindings: Seq<(&str, &str)>) -> Seq<(Seq<char>, Seq<char>)> {
    bindings.map_values(|b: (&str, &str)| (b.0@, b.1@))
}

/// Whether `pat` stands in `text` at `i`.
fn matches_at(text: &[char], i: usize, pat: &[char]) -> (r: bool)
    requires
        i <= text@.len(),
    ensures
        r == occurs_at(text@, pat@, i as int),
{
    if pat.len() > text.len() - i {
        return false;
    }
    let mut k: usize = 0;
    while k < pat.len()
        invariant
            k <= pat@.len(),
            i + pat@.len() <= text@.len(),
            i + pat.len() <= text.len(),
            forall|j: int| 0 <= j < k ==> text@[i + j] == pat@[j],
        decreases pat@.len() - k,
    {
        if text[i + k] != pat[k] {
            assert(text@.subrange(i as int, i + pat@.len())[k as int] != pat@[k as int]);
            return false;
        }
        k = k + 1;
    }
    assert(text@.subrange(i as int, i + pat@.len()) =~= pat@);
    true
}

/// Where `pat` first stands in `text`, from `from` on.
fn find_from(text: &[char], pat: &[char], from: usize) -> (r: Option<usize>)
    requires
        from <= text@.len(),
    ensures
        match r {
            Some(i) => from <= i && occurs_at(text@, pat@, i as int) && forall|j: int|
                from <= j < i ==> !occurs_at(text@, pat@, j),
            None => forall|j: int| from <= j ==> !occurs_at(text@, pat@, j),
        },
{
    let mut i = from;
    while i < text.len()
        invariant
            from <= i <= text@.len(),
            forall|j: int| from <= j < i ==> !occurs_at(text@, pat@, j),
        decreases text@.len() - i,
    {
        if matches_at(text, i, pat) {
            return Some(i);
        }
        i = i + 1;
    }
    if matches_at(text, i, pat) {
        return Some(i);
    }
    None
}

/// Every occurrence of `pat` replaced by `val`.
fn replace_all(text: &[char], pat: &[char], val: &[char]) -> (r: Vec<char>)
    requires
        pat@.len() > 0,
    ensures
        r@ == replaced(text@, pat@, val@),
{
    let mut out: Vec<char> = Vec::new();
    let mut i: usize = 0;
    assert(text@.skip(0) =~= text@);
    while i < text.len()
        invariant
            i <= text@.len(),
            pat@.len() > 0,
            out@ + replaced(text@.skip(i as int), pat@, val@) == replaced(text@, pat@, val@),
        decreases text@.len() - i,
    {
        let ghost rest = text@.skip(i as int);
        let ghost before = out@;
        if matches_at(text, i, pat) {
            assert(rest.subrange(0, pat@.len() as int) =~= text@.subrange(i as int, i + pat@.len()));
            for k in 0..val.len()
                invariant
                    out@ == before + val@.take(k as int),
            {
                out.push(val[k]);
                assert(val@.take(k + 1) =~= val@.take(k as int).push(val@[k as int]));
            }
            assert(val@.take(val@.len() as int) =~= val@);
            assert(rest.skip(pat@.len() as int) =~= text@.skip(i + pat@.len()));
            assert(out@ + replaced(text@.skip(i + pat@.len()), pat@, val@) =~= before + (val@ + replaced(
                rest.skip(pat@.len() as int),
                pat@,
                val@,
            )));
            i = i + pat.len();
        } else {
            assert(!occurs_at(rest, pat@, 0) || !(rest.subrange(0, pat@.len() as int) == pat@)) by {
                if occurs_at(rest, pat@, 0) {
                    assert(rest.subrange(0, pat@.len() as int) =~= text@.subrange(
                        i as int,
                        i + pat@.len(),
                    ));
                }
            }
            out.push(text[i]);
            assert(rest.skip(1) =~= text@.skip(i + 1));
            assert(out@ + replaced(text@.skip(i + 1), pat@, val@) =~= before + (seq![rest[0]] + replaced(
                rest.skip(1),
                pat@,
                val@,
            )));
            i = i + 1;
        }
    }
    assert(out@ + replaced(text@.skip(i as int), pat@, val@) =~= out@);
    out
}

/// `@@name@@`, as characters.
fn placeholder_of(name: &str) -> (r: Vec<char>)
    ensures
        r@ == placeholder(name@),
{
    let mut s = crate::text::owned("@@");
    crate::text::push_str(&mut s, name);
    crate::text::push_str(&mut s, "@@");
    crate::text::chars_of(s.as_str())
}

impl Asset {
    pub fn new(relative: &'static str) -> (r: Self)
        ensures
            r@ == relative@,
    {
        Self(relative)
    }

    /// Where the file is, under the tree rooted at `root`, as `Path::join`
    /// puts them together: the root, a slash where it does not end in one,
    /// and the name — or the name alone where the root is empty or the name
    /// is absolute.
    pub fn path(self, root: &str) -> (r: String)
        ensures
            r@ == if root@.len() == 0 || (self@.len() > 0 && self@[0] == '/') {
                self@
            } else if root@.last() == '/' {
                root@ + self@
            } else {
                root@ + seq!['/'] + self@
            },
    {
        let name = crate::text::chars_of(self.0);
        let cs = crate::text::chars_of(root);
        if cs.len() == 0 || (name.len() > 0 && name[0] == '/') {
            return crate::text::owned(self.0);
        }
        let mut path = crate::text::owned(root);
        if cs[cs.len() - 1] != '/' {
            crate::text::push_char(&mut path, '/');
        }
        crate::text::push_str(&mut path, self.0);
        path
    }

    /// The file's name below the tree root.
    pub fn relative(&self) -> (r: &'static str)
        ensures
            r@ == self@,
    {
        self.0
    }

    /// Substitutes `@@NAME@@` placeholders in the file's text. Every
    /// placeholder in it must be bound and every binding must be used.
    pub fn fill(self, body: &str, bindings: &[(&str, &str)]) -> (r: Result<String, AssetError>)
        ensures
            match fill_of(body@, binding_views(bindings@)) {
                Ok(text) => r matches Ok(s) && s@ == text,
                Err((unbound, name)) => if unbound {
                    r matches Err(AssetError::UnboundPlaceholder { asset, name: n }) && asset
                        == self && n@ == name
                } else {
                    r matches Err(AssetError::UnusedBinding { asset, name: n }) && asset == self
                        && n@ == name
                },
            },
    {
        let ghost given = binding_views(bindings@);
        let mut text = crate::text::chars_of(body);
        for k in 0..bindings.len()
            invariant
                given == binding_views(bindings@),
                filling(body@, given.take(k as int)) == Ok::<Seq<char>, Seq<char>>(text@),
        {
            let (name, value) = bindings[k];
            let ph = placeholder_of(name);
            proof {
                reveal_strlit("@@");
                assert(given.take(k + 1).drop_last() =~= given.take(k as int));
                assert(given.take(k + 1).last() == (name@, value@));
            }
            match find_from(text.as_slice(), ph.as_slice(), 0) {
                None => {
                    proof {
                        assert(!occurs(text@, ph@));
                        lemma_filling_stops(body@, given, k as int);
                    }
                    return Err(AssetError::UnusedBinding { asset: self, name: crate::text::owned(name) });
                },
                Some(_) => {},
            }
            let val = crate::text::chars_of(value);
            text = replace_all(text.as_slice(), ph.as_slice(), val.as_slice());
        }
        assert(given.take(bindings.len() as int) =~= given);
        let marker = crate::text::chars_of("@@");
        proof {
            reveal_strlit("@@");
        }
        match find_from(text.as_slice(), marker.as_slice(), 0) {
            Some(i) => {
                proof {
                    assert(marker@.len() == 2);
                    assert(i + 2 <= text@.len());
                    assert(first_marker(text@) == Some(i as int));
                }
                let n = text.len();
                assert(i + 2 <= n);
                let mut name = String::new();
                let mut j = i + 2;
                let ghost start = i + 2;
                assert(text@.skip(start) == text@.skip(j as int));
                while j < text.len() && (('A' <= text[j] && text[j] <= 'Z') || text[j] == '_')
                    invariant
                        start <= j <= text@.len(),
                        name@ + name_prefix(text@.skip(j as int)) == name_prefix(text@.skip(start)),
                    decreases text@.len() - j,
                {
                    let ghost before = name@;
                    crate::text::push_char(&mut name, text[j]);
                    assert(text@.skip(j as int).skip(1) =~= text@.skip(j + 1));
                    assert(name@ + name_prefix(text@.skip(j + 1)) =~= before + (seq![text@[j as int]]
                        + name_prefix(text@.skip(j + 1))));
                    j = j + 1;
                }
                assert(name@ + name_prefix(text@.skip(j as int)) =~= name@);
                Err(AssetError::UnboundPlaceholder { asset: self, name })
            },
            None => {
                proof {
                    assert(!(exists|i: int| occurs_at(text@, "@@"@, i)));
                }
                Ok(crate::text::string_of(text.as_slice()))
            },
        }
    }
}

/// A filling that fails at one binding fails whatever follows.
proof fn lemma_filling_stops(body: Seq<char>, bindings: Seq<(Seq<char>, Seq<char>)>, k: int)
    requires
        0 <= k < bindings.len(),
        filling(body, bindings.take(k + 1)) == Err::<Seq<char>, Seq<char>>(bindings[k].0),
    ensures
        filling(body, bindings) == Err::<Seq<char>, Seq<char>>(bindings[k].0),
    decreases bindings.len() - k,
{
    if k + 1 < bindings.len() {
        assert(bindings.take(k + 2).drop_last() =~= bindings.take(k + 1));
        assert(filling(body, bindings.take(k + 2)) == Err::<Seq<char>, Seq<char>>(bindings[k].0));
        lemma_filling_stops_at(body, bindings, k + 2, bindings[k].0);
    } else {
        assert(bindings.take(k + 1) =~= bindings);
    }
}

proof fn lemma_filling_stops_at(
    body: Seq<char>,
    bindings: Seq<(Seq<char>, Seq<char>)>,
    n: int,
    name: Seq<char>,
)
    requires
        0 <= n <= bindings.len(),
        filling(body, bindings.take(n)) == Err::<Seq<char>, Seq<char>>(name),
    ensures
        filling(body, bindings) == Err::<Seq<char>, Seq<char>>(name),
    decreases bindings.len() - n,
{
    if n < bindings.len() {
        assert(bindings.take(n + 1).drop_last() =~= bindings.take(n));
        lemma_filling_stops_at(body, bindings, n + 1, name);
    } else {
        assert(bindings.take(n) =~= bindings);
    }
}

/// How an asset error reads.
pub open spec fn asset_error_text(e: AssetError) -> Seq<char> {
    match e {
        AssetError::Unreadable { asset, path, cause } => "bash asset "@ + path@ + ": "@ + cause@,
        AssetError::UnboundPlaceholder { asset, name } => "bash asset "@ + asset@ + ": @@"@ + name@
            + "@@ was never bound"@,
        AssetError::UnusedBinding { asset, name } => "bash asset "@ + asset@
            + ": nothing to bind for @@"@ + name@ + "@@"@,
    }
}

impl AssetError {
    /// How the error reads.
    pub fn to_string(&self) -> (s: String)
        ensures
            s@ == asset_error_text(*self),
    {
        let mut s = crate::text::owned("bash asset ");
        match self {
            AssetError::Unreadable { asset: _, path, cause } => {
                crate::text::push_str(&mut s, path.as_str());
                crate::text::push_str(&mut s, ": ");
                crate::text::push_str(&mut s, cause.as_str());
            },
            AssetError::UnboundPlaceholder { asset, name } => {
                crate::text::push_str(&mut s, asset.0);
                crate::text::push_str(&mut s, ": @@");
                crate::text::push_str(&mut s, name.as_str());
                crate::text::push_str(&mut s, "@@ was never bound");
            },
            AssetError::UnusedBinding { asset, name } => {
                crate::text::push_str(&mut s, asset.0);
                crate::text::push_str(&mut s, ": nothing to bind for @@");
                crate::text::push_str(&mut s, name.as_str());
                crate::text::push_str(&mut s, "@@");
            },
        }
        s
    }
}

} // verus!
