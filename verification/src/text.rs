use vstd::prelude::*;

verus! {

/// Appends `c` to `s` (std's `String::push`).
#[verifier::external_body]
pub(crate) fn push_char(s: &mut String, c: char)
    ensures
        final(s)@ == old(s)@.push(c),
{
    s.push(c);
}

/// The characters of `s`, in order.
pub fn chars_of(s: &str) -> (v: Vec<char>)
    ensures
        v@ == s@,
{
    let mut v: Vec<char> = Vec::new();
    for c in it: s.chars()
        invariant
            v@ == it.seq().take(it.index() as int),
    {
        v.push(c);
    }
    proof {
        broadcast use vstd::string::group_string_axioms;
    }
    assert(v@ =~= s@);
    v
}

/// The pieces of `s` between occurrences of `sep`, as `str::split` yields
/// them (an empty string gives one empty piece).
pub open spec fn split_char(s: Seq<char>, sep: char) -> Seq<Seq<char>>
    decreases s.len(),
{
    if s.len() == 0 {
        seq![Seq::<char>::empty()]
    } else {
        let rest = split_char(s.drop_first(), sep);
        if s[0] == sep {
            seq![Seq::<char>::empty()] + rest
        } else {
            rest.update(0, seq![s[0]] + rest[0])
        }
    }
}

proof fn lemma_split_char_nonempty(s: Seq<char>, sep: char)
    ensures
        split_char(s, sep).len() >= 1,
    decreases s.len(),
{
    if s.len() > 0 {
        lemma_split_char_nonempty(s.drop_first(), sep);
    }
}

/// A prefix without `sep` joins the first piece of what follows it.
proof fn lemma_split_prefix(x: Seq<char>, rest: Seq<char>, sep: char)
    requires
        forall|i: int| 0 <= i < x.len() ==> x[i] != sep,
    ensures
        split_char(x + rest, sep) == split_char(rest, sep).update(0, x + split_char(rest, sep)[0]),
    decreases x.len(),
{
    lemma_split_char_nonempty(rest, sep);
    if x.len() == 0 {
        assert(x + rest =~= rest);
        assert(split_char(rest, sep).update(0, x + split_char(rest, sep)[0]) =~= split_char(rest, sep));
    } else {
        let t = x + rest;
        let x1 = x.drop_first();
        assert(t.drop_first() =~= x1 + rest);
        assert(t[0] == x[0]);
        lemma_split_prefix(x1, rest, sep);
        let r = split_char(rest, sep);
        assert(seq![x[0]] + (x1 + r[0]) =~= x + r[0]);
        assert(r.update(0, x1 + r[0]).update(0, seq![x[0]] + (x1 + r[0])) =~= r.update(0, x + r[0]));
    }
}

/// Three pieces without `sep`, joined by `sep`, split back into those pieces.
pub proof fn lemma_split_three(a: Seq<char>, b: Seq<char>, c: Seq<char>, sep: char)
    requires
        forall|i: int| 0 <= i < a.len() ==> a[i] != sep,
        forall|i: int| 0 <= i < b.len() ==> b[i] != sep,
        forall|i: int| 0 <= i < c.len() ==> c[i] != sep,
    ensures
        split_char(a + seq![sep] + b + seq![sep] + c, sep) == seq![a, b, c],
{
    let e = Seq::<char>::empty();
    lemma_split_prefix(c, e, sep);
    assert(c + e =~= c);
    assert(split_char(e, sep) == seq![e]);
    assert(split_char(c, sep) =~= seq![c]);
    let sc = seq![sep] + c;
    assert(sc.drop_first() =~= c);
    assert(split_char(sc, sep) =~= seq![e, c]);
    lemma_split_prefix(b, sc, sep);
    assert(split_char(b + sc, sep) =~= seq![b, c]);
    let sbc = seq![sep] + (b + sc);
    assert(sbc.drop_first() =~= b + sc);
    assert(split_char(sbc, sep) =~= seq![e, b, c]);
    lemma_split_prefix(a, sbc, sep);
    assert(split_char(a + sbc, sep) =~= seq![a, b, c]);
    assert(a + seq![sep] + b + seq![sep] + c =~= a + sbc);
}

/// Splits `v` at each `sep`, as `str::split` does.
pub fn split_chars(v: &Vec<char>, sep: char) -> (parts: Vec<Vec<char>>)
    ensures
        parts@.len() == split_char(v@, sep).len(),
        forall|k: int| 0 <= k < parts@.len() ==> #[trigger] parts@[k]@ == split_char(v@, sep)[k],
{
    let mut parts: Vec<Vec<char>> = Vec::new();
    parts.push(Vec::new());
    let mut i: usize = v.len();
    proof {
        assert(v@.skip(v.len() as int) =~= Seq::<char>::empty());
        assert(parts@[0]@ =~= Seq::<char>::empty());
    }
    while i > 0
        invariant
            i <= v.len(),
            parts@.len() == split_char(v@.skip(i as int), sep).len(),
            forall|k: int| 0 <= k < parts@.len() ==> #[trigger] parts@[k]@ == split_char(v@.skip(i as int), sep)[k],
        decreases i,
    {
        let ghost before = split_char(v@.skip(i as int), sep);
        i = i - 1;
        let c = v[i];
        proof {
            assert(v@.skip(i as int).drop_first() =~= v@.skip(i + 1));
            assert(v@.skip(i as int)[0] == c);
            lemma_split_char_nonempty(v@.skip(i + 1), sep);
        }
        let ghost prev = parts@;
        if c == sep {
            parts.insert(0, Vec::new());
            assert forall|k: int| 0 <= k < parts@.len() implies #[trigger] parts@[k]@ == split_char(
                v@.skip(i as int),
                sep,
            )[k] by {
                if k > 0 {
                    assert(parts@[k] == prev[k - 1]);
                } else {
                    assert(parts@[0]@ =~= Seq::<char>::empty());
                }
            }
        } else {
            let mut first = parts.remove(0);
            first.insert(0, c);
            parts.insert(0, first);
            assert forall|k: int| 0 <= k < parts@.len() implies #[trigger] parts@[k]@ == split_char(
                v@.skip(i as int),
                sep,
            )[k] by {
                if k > 0 {
                    assert(parts@[k] == prev[k]);
                } else {
                    assert(parts@[0]@ =~= seq![c] + prev[0]@);
                }
            }
        }
    }
    assert(v@.skip(0) =~= v@);
    parts
}

/// Whether `needle` occurs in `hay` as a contiguous run of characters.
pub open spec fn contains_seq(hay: Seq<char>, needle: Seq<char>) -> bool {
    exists|i: int| 0 <= i && i + needle.len() <= hay.len() && #[trigger] hay.subrange(i, i + needle.len()) == needle
}

/// Whether `needle` occurs in `hay` (what `str::contains` answers).
pub fn contains_chars(hay: &Vec<char>, needle: &Vec<char>) -> (r: bool)
    ensures
        r == contains_seq(hay@, needle@),
{
    if needle.len() > hay.len() {
        return false;
    }
    if needle.len() == 0 {
        assert(hay@.subrange(0int, 0int + needle@.len()) =~= needle@);
        return true;
    }
    let last = hay.len() - needle.len();
    let mut i: usize = 0;
    while i <= last
        invariant
            0 < needle.len() <= hay.len(),
            last == hay.len() - needle.len(),
            i <= last + 1,
            forall|j: int| 0 <= j < i ==> #[trigger] hay@.subrange(j, j + needle@.len()) != needle@,
        decreases last + 1 - i,
    {
        let mut k: usize = 0;
        let mut same = true;
        while k < needle.len()
            invariant
                0 < needle.len() <= hay.len(),
                i <= last,
                last == hay.len() - needle.len(),
                k <= needle@.len(),
                same == (forall|t: int| 0 <= t < k ==> hay@[i + t] == needle@[t]),
            decreases needle@.len() - k,
        {
            assert(i + k < hay@.len());
            if hay[i + k] != needle[k] {
                same = false;
            }
            k = k + 1;
        }
        if same {
            assert(hay@.subrange(i as int, i + needle@.len()) =~= needle@);
            return true;
        }
        assert(hay@.subrange(i as int, i + needle@.len()) != needle@) by {
            let t = choose|t: int| 0 <= t < needle@.len() && hay@[i + t] != needle@[t];
            assert(hay@.subrange(i as int, i + needle@.len())[t] != needle@[t]);
        }
        i = i + 1;
    }
    false
}

/// Index of the first `c` in `s`, or `s.len()` when there is none.
pub open spec fn index_of_or_len(s: Seq<char>, c: char) -> int
    decreases s.len(),
{
    if s.len() == 0 {
        0
    } else if s[0] == c {
        0
    } else {
        1 + index_of_or_len(s.drop_first(), c)
    }
}

/// The first item that `str::lines` yields, or the empty string: the text up
/// to the first `\n`, without a `\r` right before it.
pub open spec fn first_line(s: Seq<char>) -> Seq<char> {
    let i = index_of_or_len(s, '\n');
    let line = s.take(i);
    if i < s.len() && line.len() > 0 && line.last() == '\r' {
        line.drop_last()
    } else {
        line
    }
}

proof fn lemma_index_of_or_len(s: Seq<char>, c: char, k: int)
    requires
        0 <= k <= s.len(),
        forall|j: int| 0 <= j < k ==> s[j] != c,
        k == s.len() || s[k] == c,
    ensures
        index_of_or_len(s, c) == k,
    decreases s.len(),
{
    if s.len() > 0 && k > 0 {
        lemma_index_of_or_len(s.drop_first(), c, k - 1);
    }
}

/// The first line of `s`, as `s.lines().next().unwrap_or("")` gives it.
pub fn first_line_of(s: &str) -> (r: String)
    ensures
        r@ == first_line(s@),
{
    let v = chars_of(s);
    let mut i: usize = 0;
    while i < v.len() && v[i] != '\n'
        invariant
            i <= v@.len(),
            v@ == s@,
            forall|j: int| 0 <= j < i ==> v@[j] != '\n',
        decreases v.len() - i,
    {
        i = i + 1;
    }
    proof {
        lemma_index_of_or_len(s@, '\n', i as int);
    }
    let end = if i < v.len() && i > 0 && v[i - 1] == '\r' { i - 1 } else { i };
    let mut out = String::new();
    let mut k: usize = 0;
    while k < end
        invariant
            end <= v@.len(),
            k <= end,
            out@ == v@.take(k as int),
        decreases end - k,
    {
        push_char(&mut out, v[k]);
        k = k + 1;
        assert(out@ =~= v@.take(k as int));
    }
    assert(out@ =~= first_line(s@));
    out
}

/// Lexicographic order of character sequences by code point: the order of
/// `str`'s `Ord` (byte order of UTF-8 agrees with code point order).
pub open spec fn lex_lt(a: Seq<char>, b: Seq<char>) -> bool
    decreases a.len(),
{
    if a.len() == 0 {
        b.len() > 0
    } else if b.len() == 0 {
        false
    } else if a[0] != b[0] {
        (a[0] as int) < (b[0] as int)
    } else {
        lex_lt(a.drop_first(), b.drop_first())
    }
}

pub proof fn lemma_lex_irreflexive(a: Seq<char>)
    ensures
        !lex_lt(a, a),
    decreases a.len(),
{
    if a.len() > 0 {
        lemma_lex_irreflexive(a.drop_first());
    }
}

pub proof fn lemma_lex_asymmetric(a: Seq<char>, b: Seq<char>)
    ensures
        !(lex_lt(a, b) && lex_lt(b, a)),
    decreases a.len(),
{
    if a.len() > 0 && b.len() > 0 && a[0] == b[0] {
        lemma_lex_asymmetric(a.drop_first(), b.drop_first());
    }
}

pub proof fn lemma_lex_transitive(a: Seq<char>, b: Seq<char>, c: Seq<char>)
    requires
        lex_lt(a, b),
        lex_lt(b, c),
    ensures
        lex_lt(a, c),
    decreases a.len(),
{
    if a.len() > 0 && b.len() > 0 && c.len() > 0 && a[0] == b[0] && b[0] == c[0] {
        lemma_lex_transitive(a.drop_first(), b.drop_first(), c.drop_first());
    }
}

pub proof fn lemma_lex_total(a: Seq<char>, b: Seq<char>)
    requires
        a != b,
    ensures
        lex_lt(a, b) || lex_lt(b, a),
    decreases a.len(),
{
    if a.len() > 0 && b.len() > 0 && a[0] == b[0] {
        if a.drop_first() == b.drop_first() {
            assert(a =~= seq![a[0]] + a.drop_first());
            assert(b =~= seq![b[0]] + b.drop_first());
        }
        lemma_lex_total(a.drop_first(), b.drop_first());
    } else if a.len() > 0 && b.len() > 0 {
        assert((a[0] as int) != (b[0] as int));
    } else if a.len() == 0 && b.len() == 0 {
        assert(a =~= b);
    }
}

/// Sequences made of equally long heads compare by their heads first, then
/// by what follows.
pub proof fn lemma_lex_concat(a1: Seq<char>, b1: Seq<char>, a2: Seq<char>, b2: Seq<char>)
    requires
        a1.len() == a2.len(),
    ensures
        lex_lt(a1 + b1, a2 + b2) == (lex_lt(a1, a2) || (a1 == a2 && lex_lt(b1, b2))),
    decreases a1.len(),
{
    if a1.len() == 0 {
        assert(a1 + b1 =~= b1);
        assert(a2 + b2 =~= b2);
        assert(a1 =~= a2);
    } else {
        let s1 = a1 + b1;
        let s2 = a2 + b2;
        assert(s1[0] == a1[0] && s2[0] == a2[0]);
        assert(s1.drop_first() =~= a1.drop_first() + b1);
        assert(s2.drop_first() =~= a2.drop_first() + b2);
        lemma_lex_concat(a1.drop_first(), b1, a2.drop_first(), b2);
        if a1[0] == a2[0] && a1.drop_first() == a2.drop_first() {
            assert(a1 =~= seq![a1[0]] + a1.drop_first());
            assert(a2 =~= seq![a2[0]] + a2.drop_first());
        }
    }
}

/// Whether `a` sorts before `b` (what `a < b` answers for `str`).
pub fn chars_less(a: &Vec<char>, b: &Vec<char>) -> (r: bool)
    ensures
        r == lex_lt(a@, b@),
{
    let mut i: usize = 0;
    assert(a@.skip(0) =~= a@);
    assert(b@.skip(0) =~= b@);
    while i < a.len() && i < b.len() && a[i] == b[i]
        invariant
            i <= a@.len(),
            i <= b@.len(),
            lex_lt(a@, b@) == lex_lt(a@.skip(i as int), b@.skip(i as int)),
        decreases a.len() - i,
    {
        assert(a@.skip(i as int).drop_first() =~= a@.skip(i + 1));
        assert(b@.skip(i as int).drop_first() =~= b@.skip(i + 1));
        i = i + 1;
    }
    if i == a.len() {
        i < b.len()
    } else if i == b.len() {
        false
    } else {
        assert(a@.skip(i as int)[0] == a@[i as int]);
        assert(b@.skip(i as int)[0] == b@[i as int]);
        let x = a[i];
        let y = b[i];
        x < y
    }
}

} // verus!
