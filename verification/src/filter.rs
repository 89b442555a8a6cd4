use vstd::prelude::*;

use crate::error::CreditError;
use crate::git::FileDelta;
use crate::pattern::{regex_compiles, regex_is_match, regex_match_each, regex_valid};
use crate::text::{chars_of, push_char};

verus! {

// ---------------------------------------------------------------------------
// Glob → regex conversion
// ---------------------------------------------------------------------------

/// Characters that `glob_to_regex` escapes with a backslash.
pub open spec fn spec_is_regex_meta(c: char) -> bool {
    c == '\\' || c == '.' || c == '+' || c == '^' || c == '$' || c == '|' || c == '(' || c == ')'
        || c == '[' || c == ']' || c == '{' || c == '}'
}

/// Regex text for the glob `g`, without the anchors:
/// - `**/` becomes `(.*/)?` and `**` becomes `.*` (any characters, `/` too)
/// - `*` becomes `[^/]*` (any run of non-`/` characters)
/// - `?` becomes `[^/]` (one non-`/` character)
/// - every other character stands for itself, escaped when regex syntax.
pub open spec fn glob_body(g: Seq<char>) -> Seq<char>
    decreases g.len(),
{
    if g.len() == 0 {
        Seq::empty()
    } else if g[0] == '*' && g.len() >= 2 && g[1] == '*' {
        if g.len() >= 3 && g[2] == '/' {
            seq!['(', '.', '*', '/', ')', '?'] + glob_body(g.skip(3))
        } else {
            seq!['.', '*'] + glob_body(g.skip(2))
        }
    } else if g[0] == '*' {
        seq!['[', '^', '/', ']', '*'] + glob_body(g.skip(1))
    } else if g[0] == '?' {
        seq!['[', '^', '/', ']'] + glob_body(g.skip(1))
    } else if spec_is_regex_meta(g[0]) {
        seq!['\\', g[0]] + glob_body(g.skip(1))
    } else {
        seq![g[0]] + glob_body(g.skip(1))
    }
}

/// The anchored regex for the glob `g`: it must match the whole path.
pub open spec fn glob_regex(g: Seq<char>) -> Seq<char> {
    seq!['^'] + glob_body(g) + seq!['$']
}

pub fn is_regex_meta(c: char) -> (r: bool)
    ensures
        r == spec_is_regex_meta(c),
{
    c == '\\' || c == '.' || c == '+' || c == '^' || c == '$' || c == '|' || c == '(' || c == ')'
        || c == '[' || c == ']' || c == '{' || c == '}'
}

fn push_all(out: &mut String, cs: &[char])
    ensures
        final(out)@ == old(out)@ + cs@,
{
    let mut i: usize = 0;
    let ghost start = out@;
    while i < cs.len()
        invariant
            i <= cs@.len(),
            out@ == start + cs@.take(i as int),
        decreases cs.len() - i,
    {
        push_char(out, cs[i]);
        i = i + 1;
        assert(out@ =~= start + cs@.take(i as int));
    }
    assert(cs@.take(cs@.len() as int) =~= cs@);
}

/// Convert a glob pattern to a regex pattern.
///
/// Supported syntax:
/// - `*` matches any sequence of non-`/` characters
/// - `**` matches any sequence of characters including `/`
/// - `?` matches any single non-`/` character
/// - All other characters are escaped as regex literals
pub fn glob_to_regex(glob: &str) -> (r: String)
    ensures
        r@ == glob_regex(glob@),
{
    let chars = chars_of(glob);
    let ghost g = chars@;
    let mut regex = String::new();
    push_char(&mut regex, '^');
    let mut i: usize = 0;
    assert(g.skip(0) =~= g);
    while i < chars.len()
        invariant
            g == chars@,
            i <= g.len(),
            seq!['^'] + glob_body(g) == regex@ + glob_body(g.skip(i as int)),
        decreases chars.len() - i,
    {
        let ghost rest = g.skip(i as int);
        assert(rest[0] == g[i as int]);
        let c = chars[i];
        if c == '*' && i + 1 < chars.len() && chars[i + 1] == '*' {
            assert(rest[1] == g[i + 1]);
            if i + 2 < chars.len() && chars[i + 2] == '/' {
                assert(rest[2] == g[i + 2]);
                assert(rest.skip(3) =~= g.skip(i + 3));
                push_all(&mut regex, &['(', '.', '*', '/', ')', '?']);
                i = i + 3;
            } else {
                assert(rest.skip(2) =~= g.skip(i + 2));
                push_all(&mut regex, &['.', '*']);
                i = i + 2;
            }
        } else if c == '*' {
            assert(rest.skip(1) =~= g.skip(i + 1));
            push_all(&mut regex, &['[', '^', '/', ']', '*']);
            i = i + 1;
        } else if c == '?' {
            assert(rest.skip(1) =~= g.skip(i + 1));
            push_all(&mut regex, &['[', '^', '/', ']']);
            i = i + 1;
        } else {
            assert(rest.skip(1) =~= g.skip(i + 1));
            if is_regex_meta(c) {
                push_char(&mut regex, '\\');
            }
            push_char(&mut regex, c);
            i = i + 1;
        }
    }
    assert(g.skip(i as int) =~= Seq::<char>::empty());
    push_char(&mut regex, '$');
    assert(regex@ =~= glob_regex(g));
    regex
}

// ---------------------------------------------------------------------------
// The filter
// ---------------------------------------------------------------------------

/// Whether some glob of `globs` matches `path`: the regex compiled from its
/// anchored regex form matches the path.
pub open spec fn excludes(globs: Seq<Seq<char>>, path: Seq<char>) -> bool {
    exists|i: int| 0 <= i < globs.len() && regex_is_match(glob_regex(#[trigger] globs[i]), path)
}

/// The deltas of `s` whose path no glob of `globs` excludes, in order.
pub open spec fn kept_deltas(globs: Seq<Seq<char>>, s: Seq<FileDelta>) -> Seq<FileDelta>
    decreases s.len(),
{
    if s.len() == 0 {
        Seq::empty()
    } else if excludes(globs, s.last().path@) {
        kept_deltas(globs, s.drop_last())
    } else {
        kept_deltas(globs, s.drop_last()).push(s.last())
    }
}

/// Start of the reason given for a glob whose regex does not compile.
pub const GLOB_ERROR_PREFIX: &'static str = "failed to compile as regex: ";

/// A compiled set of glob exclusion patterns.
pub struct ExclusionFilter {
    /// Each glob with its anchored regex form.
    patterns: Vec<(String, String)>,
}

impl ExclusionFilter {
    /// The globs of the filter, in order.
    pub closed spec fn globs(self) -> Seq<Seq<char>> {
        Seq::new(self.patterns@.len(), |i: int| self.patterns@[i].0@)
    }

    #[verifier::type_invariant]
    spec fn inv(self) -> bool {
        forall|i: int| 0 <= i < self.patterns@.len() ==> {
            &&& (#[trigger] self.patterns@[i]).1@ == glob_regex(self.patterns@[i].0@)
            &&& regex_compiles(self.patterns@[i].1@)
        }
    }

    /// Compile a set of glob patterns into an exclusion filter.
    pub fn new(patterns: &[String]) -> (r: Result<Self, CreditError>)
        ensures
            match r {
                Ok(f) => {
                    &&& f.globs().len() == patterns@.len()
                    &&& forall|i: int| 0 <= i < patterns@.len() ==> #[trigger] f.globs()[i] == patterns@[i]@
                },
                Err(e) => exists|k: int| {
                    &&& 0 <= k < patterns@.len()
                    &&& forall|j: int| 0 <= j < k ==> regex_compiles(glob_regex(#[trigger] patterns@[j]@))
                    &&& !regex_compiles(glob_regex(#[trigger] patterns@[k]@))
                    &&& e matches CreditError::InvalidGlob { pattern, reason }
                    &&& pattern@ == patterns@[k]@
                    &&& reason@ == GLOB_ERROR_PREFIX@ + glob_regex(patterns@[k]@)
                },
            },
            r is Ok <==> forall|i: int| 0 <= i < patterns@.len() ==> regex_compiles(glob_regex(#[trigger] patterns@[i]@)),
    {
        let mut compiled: Vec<(String, String)> = Vec::new();
        let mut i: usize = 0;
        while i < patterns.len()
            invariant
                i <= patterns@.len(),
                compiled@.len() == i,
                forall|j: int| 0 <= j < i ==> {
                    &&& (#[trigger] compiled@[j]).0@ == patterns@[j]@
                    &&& compiled@[j].1@ == glob_regex(patterns@[j]@)
                    &&& regex_compiles(compiled@[j].1@)
                },
            decreases patterns.len() - i,
        {
            let glob = &patterns[i];
            let re = glob_to_regex(glob.as_str());
            if !regex_valid(re.as_str()) {
                let mut reason = GLOB_ERROR_PREFIX.to_string();
                reason.append(re.as_str());
                let err = CreditError::InvalidGlob { pattern: glob.clone(), reason };
                proof {
                    assert forall|j: int| 0 <= j < i implies regex_compiles(glob_regex(#[trigger] patterns@[j]@)) by {
                        assert(compiled@[j].1@ == glob_regex(patterns@[j]@));
                    }
                }
                return Err(err);
            }
            compiled.push((glob.clone(), re));
            i = i + 1;
        }
        let f = ExclusionFilter { patterns: compiled };
        assert forall|k: int| 0 <= k < patterns@.len() implies #[trigger] f.globs()[k] == patterns@[k]@ by {
            assert(f.patterns@[k] == compiled@[k]);
        }
        assert forall|k: int| 0 <= k < patterns@.len() implies regex_compiles(glob_regex(#[trigger] patterns@[k]@)) by {
            assert(compiled@[k].1@ == glob_regex(patterns@[k]@));
        }
        Ok(f)
    }

    /// Returns true if there are no exclusion patterns.
    pub fn is_empty(&self) -> (r: bool)
        ensures
            r == (self.globs().len() == 0),
    {
        self.patterns.len() == 0
    }

    /// Returns true if the given file path should be excluded.
    pub fn is_excluded(&self, path: &str) -> (r: bool)
        ensures
            r == excludes(self.globs(), path@),
    {
        proof {
            use_type_invariant(self);
        }
        let mut texts: Vec<String> = Vec::new();
        texts.push(path.to_string());
        let mut i: usize = 0;
        while i < self.patterns.len()
            invariant
                i <= self.patterns@.len(),
                texts@.len() == 1,
                texts@[0]@ == path@,
                forall|j: int| 0 <= j < self.patterns@.len() ==> {
                    &&& (#[trigger] self.patterns@[j]).1@ == glob_regex(self.patterns@[j].0@)
                    &&& regex_compiles(self.patterns@[j].1@)
                },
                forall|j: int| 0 <= j < i ==> !regex_is_match(glob_regex(#[trigger] self.globs()[j]), path@),
            decreases self.patterns.len() - i,
        {
            let hits = regex_match_each(self.patterns[i].1.as_str(), &texts);
            assert(self.globs()[i as int] == self.patterns@[i as int].0@);
            if hits[0] {
                return true;
            }
            i = i + 1;
        }
        false
    }

    /// Filter a list of file deltas, removing excluded files.
    pub fn filter_deltas(&self, deltas: Vec<FileDelta>) -> (r: Vec<FileDelta>)
        ensures
            r@ == kept_deltas(self.globs(), deltas@),
    {
        proof {
            use_type_invariant(self);
        }
        if self.is_empty() {
            proof {
                lemma_kept_without_globs(self.globs(), deltas@);
            }
            return deltas;
        }
        let mut paths: Vec<String> = Vec::new();
        let mut k: usize = 0;
        while k < deltas.len()
            invariant
                k <= deltas@.len(),
                paths@.len() == k,
                forall|j: int| 0 <= j < k ==> (#[trigger] paths@[j])@ == deltas@[j].path@,
            decreases deltas.len() - k,
        {
            paths.push(deltas[k].path.clone());
            k = k + 1;
        }
        // excluded[j] holds when some glob before the current one matched path j.
        let mut excluded: Vec<bool> = Vec::new();
        let mut k: usize = 0;
        while k < deltas.len()
            invariant
                k <= deltas@.len(),
                excluded@.len() == k,
                forall|j: int| 0 <= j < k ==> !(#[trigger] excluded@[j]),
            decreases deltas.len() - k,
        {
            excluded.push(false);
            k = k + 1;
        }
        let mut i: usize = 0;
        while i < self.patterns.len()
            invariant
                i <= self.patterns@.len(),
                paths@.len() == deltas@.len(),
                excluded@.len() == deltas@.len(),
                forall|j: int| 0 <= j < deltas@.len() ==> (#[trigger] paths@[j])@ == deltas@[j].path@,
                forall|j: int| 0 <= j < self.patterns@.len() ==> {
                    &&& (#[trigger] self.patterns@[j]).1@ == glob_regex(self.patterns@[j].0@)
                    &&& regex_compiles(self.patterns@[j].1@)
                },
                forall|j: int| 0 <= j < deltas@.len() ==> #[trigger] excluded@[j] == exists|g: int| 0 <= g < i && regex_is_match(glob_regex(#[trigger] self.globs()[g]), deltas@[j].path@),
            decreases self.patterns.len() - i,
        {
            let hits = regex_match_each(self.patterns[i].1.as_str(), &paths);
            let ghost before = excluded@;
            assert(self.globs()[i as int] == self.patterns@[i as int].0@);
            let mut j: usize = 0;
            while j < excluded.len()
                invariant
                    j <= excluded@.len(),
                    excluded@.len() == before.len(),
                    hits@.len() == paths@.len(),
                    paths@.len() == before.len(),
                    forall|t: int| 0 <= t < j ==> #[trigger] excluded@[t] == (before[t] || hits@[t]),
                    forall|t: int| j <= t < before.len() ==> #[trigger] excluded@[t] == before[t],
                decreases excluded.len() - j,
            {
                let e = excluded[j] || hits[j];
                excluded.set(j, e);
                j = j + 1;
            }
            proof {
                assert forall|t: int| 0 <= t < deltas@.len() implies #[trigger] excluded@[t] == exists|g: int| 0 <= g < i + 1 && regex_is_match(glob_regex(#[trigger] self.globs()[g]), deltas@[t].path@) by {
                    assert(hits@[t] == regex_is_match(self.patterns@[i as int].1@, paths@[t]@));
                    if hits@[t] {
                        assert(regex_is_match(glob_regex(self.globs()[i as int]), deltas@[t].path@));
                    }
                }
            }
            i = i + 1;
        }
        let mut out: Vec<FileDelta> = Vec::new();
        let mut k: usize = 0;
        while k < deltas.len()
            invariant
                k <= deltas@.len(),
                excluded@.len() == deltas@.len(),
                self.patterns@.len() == self.globs().len(),
                forall|j: int| 0 <= j < deltas@.len() ==> #[trigger] excluded@[j] == excludes(self.globs(), deltas@[j].path@),
                out@ == kept_deltas(self.globs(), deltas@.take(k as int)),
            decreases deltas.len() - k,
        {
            assert(deltas@.take(k + 1).drop_last() =~= deltas@.take(k as int));
            assert(deltas@.take(k + 1).last() == deltas@[k as int]);
            if !excluded[k] {
                let d = &deltas[k];
                out.push(FileDelta { path: d.path.clone(), additions: d.additions, deletions: d.deletions });
            }
            k = k + 1;
        }
        assert(deltas@.take(k as int) =~= deltas@);
        out
    }
}

/// A filter without patterns keeps every delta.
pub proof fn lemma_kept_without_globs(globs: Seq<Seq<char>>, s: Seq<FileDelta>)
    requires
        globs.len() == 0,
    ensures
        kept_deltas(globs, s) == s,
    decreases s.len(),
{
    if s.len() > 0 {
        lemma_kept_without_globs(globs, s.drop_last());
        assert(s.drop_last().push(s.last()) =~= s);
    }
}

/// Filtering keeps a delta exactly when no pattern excludes its path: what
/// it keeps is never excluded, every delta that is not excluded is kept,
/// and filtering again changes nothing.
pub proof fn lemma_kept_deltas(globs: Seq<Seq<char>>, s: Seq<FileDelta>)
    ensures
        forall|i: int| 0 <= i < kept_deltas(globs, s).len() ==> !excludes(globs, (#[trigger] kept_deltas(globs, s)[i]).path@),
        forall|i: int| 0 <= i < kept_deltas(globs, s).len() ==> s.contains(#[trigger] kept_deltas(globs, s)[i]),
        forall|i: int| 0 <= i < s.len() && !excludes(globs, s[i].path@) ==> kept_deltas(globs, s).contains(#[trigger] s[i]),
        kept_deltas(globs, kept_deltas(globs, s)) == kept_deltas(globs, s),
    decreases s.len(),
{
    if s.len() > 0 {
        let s0 = s.drop_last();
        lemma_kept_deltas(globs, s0);
        let k0 = kept_deltas(globs, s0);
        let k = kept_deltas(globs, s);
        assert forall|i: int| 0 <= i < k.len() implies s.contains(#[trigger] k[i]) by {
            if i < k0.len() {
                assert(k[i] == k0[i]);
                assert(s0.contains(k0[i]));
                let j = choose|j: int| 0 <= j < s0.len() && s0[j] == k0[i];
                assert(s[j] == s0[j]);
            } else {
                assert(s[s.len() - 1] == k[i]);
            }
        }
        assert forall|i: int| 0 <= i < s.len() && !excludes(globs, s[i].path@) implies k.contains(#[trigger] s[i]) by {
            if i < s0.len() {
                assert(s0[i] == s[i]);
                assert(k0.contains(s0[i]));
                let j = choose|j: int| 0 <= j < k0.len() && k0[j] == s0[i];
                assert(k[j] == k0[j]);
            } else {
                assert(k[k.len() - 1] == s[i]);
            }
        }
        if !excludes(globs, s.last().path@) {
            assert(k0.push(s.last()).drop_last() =~= k0);
        }
    }
}

/// A glob character that stands for itself: neither a wildcard nor regex
/// syntax.
pub open spec fn plain_glob_char(c: char) -> bool {
    c != '*' && c != '?' && !spec_is_regex_meta(c)
}

/// A glob that does not end in `*` converts on its own: what follows it
/// converts separately.
proof fn lemma_glob_body_split(g1: Seq<char>, rest: Seq<char>)
    requires
        g1.len() == 0 || g1.last() != '*',
    ensures
        glob_body(g1 + rest) == glob_body(g1) + glob_body(rest),
    decreases g1.len(),
{
    let g = g1 + rest;
    if g1.len() == 0 {
        assert(g =~= rest);
        assert(Seq::<char>::empty() + glob_body(rest) =~= glob_body(rest));
    } else {
        assert(g[0] == g1[0]);
        let k: int = if g1[0] == '*' && g1.len() >= 2 && g1[1] == '*' {
            if g1.len() >= 3 && g1[2] == '/' { 3 } else { 2 }
        } else {
            1
        };
        if g1[0] == '*' {
            assert(g1.len() >= 2);
            assert(g[1] == g1[1]);
            if g1[1] == '*' {
                assert(g1.len() >= 3);
                assert(g[2] == g1[2]);
            }
        }
        assert(g.skip(k) =~= g1.skip(k) + rest);
        if g1.skip(k).len() > 0 {
            assert(g1.skip(k).last() == g1.last());
        }
        lemma_glob_body_split(g1.skip(k), rest);
        assert(glob_body(g) =~= glob_body(g1) + glob_body(rest));
    }
}

/// Plain characters convert to themselves.
proof fn lemma_plain_glob_body(p: Seq<char>)
    requires
        forall|i: int| 0 <= i < p.len() ==> plain_glob_char(#[trigger] p[i]),
    ensures
        glob_body(p) == p,
    decreases p.len(),
{
    if p.len() > 0 {
        assert(plain_glob_char(p[0]));
        lemma_plain_glob_body(p.skip(1));
        assert(seq![p[0]] + p.skip(1) =~= p);
    }
}

/// A `**` that a `/` does not follow matches any run of characters, `/`
/// included, wherever it stands: after any glob that does not end in `*`,
/// and before any rest that does not start with `/`, it becomes `.*`.
pub proof fn lemma_double_star_crosses_slash(g1: Seq<char>, t: Seq<char>)
    requires
        g1.len() == 0 || g1.last() != '*',
        t.len() == 0 || t[0] != '/',
    ensures
        glob_regex(g1 + seq!['*', '*'] + t) == seq!['^'] + glob_body(g1) + seq!['.', '*'] + glob_body(t) + seq!['$'],
{
    let st = seq!['*', '*'] + t;
    assert(g1 + seq!['*', '*'] + t =~= g1 + st);
    lemma_glob_body_split(g1, st);
    assert(st[0] == '*' && st[1] == '*');
    if st.len() >= 3 {
        assert(st[2] == t[0]);
    }
    assert(st.skip(2) =~= t);
    assert(glob_body(st) == seq!['.', '*'] + glob_body(t));
    assert(glob_regex(g1 + seq!['*', '*'] + t) =~= seq!['^'] + glob_body(g1) + seq!['.', '*'] + glob_body(t) + seq!['$']);
}

/// For a literal prefix `p`, the glob `p**` is the regex `^p.*$`: it matches
/// every path that starts with `p`, across directories.
pub proof fn lemma_prefix_double_star(p: Seq<char>)
    requires
        forall|i: int| 0 <= i < p.len() ==> plain_glob_char(#[trigger] p[i]),
    ensures
        glob_regex(p + seq!['*', '*']) == seq!['^'] + p + seq!['.', '*', '$'],
{
    lemma_plain_glob_body(p);
    lemma_double_star_crosses_slash(p, Seq::empty());
    assert(p + seq!['*', '*'] + Seq::<char>::empty() =~= p + seq!['*', '*']);
    assert(glob_body(Seq::<char>::empty()) == Seq::<char>::empty());
    assert(seq!['^'] + p + seq!['.', '*'] + Seq::<char>::empty() + seq!['$'] =~= seq!['^'] + p + seq!['.', '*', '$']);
}

} // verus!
