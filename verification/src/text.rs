//! Text as a sequence of characters: the string operations that the rest of
//! the library is written with, each with the sequence it computes.
use vstd::prelude::*;
use vstd::utf8::*;

verus! {

/// `String::push` appends one character at the end of the string.
pub assume_specification[ String::push ](s: &mut String, c: char)
    ensures
        final(s)@ == old(s)@.push(c),
;

/// The texts that a list of strings holds.
pub open spec fn texts(v: Seq<String>) -> Seq<Seq<char>> {
    v.map_values(|s: String| s@)
}

proof fn lemma_encoding_not_shorter(s: Seq<char>)
    ensures
        s.len() <= encode_utf8(s).len(),
    decreases s.len(),
{
    if s.len() > 0 {
        lemma_encoding_not_shorter(s.drop_first());
        char_is_scalar(s[0]);
    }
}

/// The length of a string in bytes, which bounds its length in characters.
pub fn byte_len(s: &str) -> (r: usize)
    ensures
        r == encode_utf8(s@).len(),
        s@.len() <= r,
{
    proof {
        lemma_encoding_not_shorter(s@);
    }
    s.as_bytes().len()
}

/// The characters of a string.
pub fn chars_of(s: &str) -> (r: Vec<char>)
    ensures
        r@ == s@,
{
    let mut out: Vec<char> = Vec::new();
    for c in it: s.chars()
        invariant
            it.seq() == s@,
            out@ == s@.take(it.index()),
    {
        out.push(c);
    }
    out
}

/// The characters from `from` up to, not including, `to`, as a string.
pub fn slice(cs: &Vec<char>, from: usize, to: usize) -> (r: String)
    requires
        from <= to <= cs@.len(),
    ensures
        r@ == cs@.subrange(from as int, to as int),
{
    let mut out = String::new();
    let mut i: usize = from;
    while i < to
        invariant
            from <= i <= to <= cs@.len(),
            out@ == cs@.subrange(from as int, i as int),
        decreases to - i,
    {
        out.push(cs[i]);
        i += 1;
    }
    out
}

/// Whether two strings hold the same text.
pub fn same(a: &str, b: &str) -> (r: bool)
    ensures
        r == (a@ == b@),
{
    let x = a.as_bytes();
    let y = b.as_bytes();
    proof {
        encode_utf8_decode_utf8(a@);
        encode_utf8_decode_utf8(b@);
    }
    if x.len() != y.len() {
        return false;
    }
    let mut i: usize = 0;
    while i < x.len()
        invariant
            i <= x@.len(),
            x@.len() == y@.len(),
            x@ == encode_utf8(a@),
            y@ == encode_utf8(b@),
            forall|j: int| 0 <= j < i ==> x@[j] == y@[j],
        decreases x@.len() - i,
    {
        if x[i] != y[i] {
            return false;
        }
        i += 1;
    }
    assert(x@ =~= y@);
    true
}

// ---------------------------------------------------------------------------
// Finding and splitting

/// The characters that occur in `set`.
pub open spec fn among(set: Seq<char>) -> spec_fn(char) -> bool {
    |c: char| set.contains(c)
}

/// Where the first character that satisfies `p` stands; the length of `s` if
/// there is none.
pub open spec fn find(s: Seq<char>, p: spec_fn(char) -> bool) -> int
    decreases s.len(),
{
    if s.len() == 0 || p(s[0]) {
        0
    } else {
        1 + find(s.drop_first(), p)
    }
}

/// What [`find`] finds: no earlier character satisfies `p`.
pub proof fn lemma_find(s: Seq<char>, p: spec_fn(char) -> bool)
    ensures
        0 <= find(s, p) <= s.len(),
        find(s, p) < s.len() ==> p(s[find(s, p)]),
        forall|j: int| 0 <= j < find(s, p) ==> !p(#[trigger] s[j]),
    decreases s.len(),
{
    if s.len() == 0 || p(s[0]) {
    } else {
        let t = s.drop_first();
        lemma_find(t, p);
        assert forall|j: int| 0 <= j < find(s, p) implies !p(#[trigger] s[j]) by {
            if j > 0 {
                assert(t[j - 1] == s[j]);
            }
        }
        if find(s, p) < s.len() {
            assert(t[find(t, p)] == s[find(s, p)]);
        }
    }
}

/// [`find`] is the only position with the properties of [`lemma_find`].
pub proof fn lemma_find_is(s: Seq<char>, p: spec_fn(char) -> bool, i: int)
    requires
        0 <= i <= s.len(),
        i < s.len() ==> p(s[i]),
        forall|j: int| 0 <= j < i ==> !p(#[trigger] s[j]),
    ensures
        find(s, p) == i,
{
    lemma_find(s, p);
    let k = find(s, p);
    if k < i {
        assert(!p(s[k]));
    }
    if i < k {
        assert(!p(s[i]));
    }
}

/// The pieces of `s` between the characters that satisfy `p`.
pub open spec fn split(s: Seq<char>, p: spec_fn(char) -> bool) -> Seq<Seq<char>>
    decreases s.len(),
{
    let i = find(s, p);
    if 0 <= i < s.len() {
        seq![s.take(i)] + split(s.skip(i + 1), p)
    } else {
        seq![s]
    }
}

/// Whether `set` holds the character `c`.
pub fn contains(set: &str, c: char) -> (r: bool)
    ensures
        r == set@.contains(c),
{
    for d in it: set.chars()
        invariant
            it.seq() == set@,
            forall|j: int| 0 <= j < it.index() ==> set@[j] != c,
    {
        if d == c {
            return true;
        }
    }
    false
}

/// Where the first character at or after `from` that is in `set` stands.
pub fn find_from(cs: &Vec<char>, from: usize, set: &str) -> (r: usize)
    requires
        from <= cs@.len(),
    ensures
        from <= r <= cs@.len(),
        r - from == find(cs@.skip(from as int), among(set@)),
{
    let mut i: usize = from;
    let ghost rest = cs@.skip(from as int);
    while i < cs.len()
        invariant
            from <= i <= cs@.len(),
            rest == cs@.skip(from as int),
            forall|j: int| 0 <= j < i - from ==> !among(set@)(#[trigger] rest[j]),
        decreases cs@.len() - i,
    {
        assert(rest[i - from] == cs@[i as int]);
        if contains(set, cs[i]) {
            proof {
                lemma_find_is(rest, among(set@), i - from);
            }
            return i;
        }
        i += 1;
    }
    proof {
        lemma_find_is(rest, among(set@), i - from);
    }
    i
}

/// Splits a string at every character of `set`.
pub fn split_at_any(s: &str, set: &str) -> (r: Vec<String>)
    ensures
        texts(r@) == split(s@, among(set@)),
{
    let cs = chars_of(s);
    let mut out: Vec<String> = Vec::new();
    let mut start: usize = 0;
    let ghost p = among(set@);
    assert(cs@.skip(0) =~= cs@);
    loop
        invariant_except_break
            start <= cs@.len(),
            p == among(set@),
            split(cs@, p) == texts(out@) + split(cs@.skip(start as int), p),
        ensures
            split(cs@, p) == texts(out@),
        decreases cs@.len() - start,
    {
        let i = find_from(&cs, start, set);
        let piece = slice(&cs, start, i);
        let ghost rest = cs@.skip(start as int);
        let ghost before = texts(out@);
        out.push(piece);
        proof {
            assert(piece@ =~= rest.take(i - start));
            assert(texts(out@) =~= before.push(piece@));
            if i < cs@.len() {
                assert(rest.skip(i - start + 1) =~= cs@.skip(i + 1));
                assert(before.push(piece@) + split(cs@.skip(i + 1), p) =~= before + (seq![piece@] + split(cs@.skip(i + 1), p)));
            } else {
                assert(rest.take(i - start) =~= rest);
                assert(before.push(piece@) =~= before + seq![piece@]);
            }
        }
        if i == cs.len() {
            break;
        }
        start = i + 1;
    }
    out
}

// ---------------------------------------------------------------------------
// White space

/// The characters with the Unicode property `White_Space`.
pub open spec fn is_white(c: char) -> bool {
    let v = c as u32;
    ||| 0x09 <= v <= 0x0d
    ||| v == 0x20
    ||| v == 0x85
    ||| v == 0xa0
    ||| v == 0x1680
    ||| 0x2000 <= v <= 0x200a
    ||| v == 0x2028
    ||| v == 0x2029
    ||| v == 0x202f
    ||| v == 0x205f
    ||| v == 0x3000
}

/// The characters that are white space.
pub open spec fn white() -> spec_fn(char) -> bool {
    |c: char| is_white(c)
}

/// Whether a character is white space.
pub fn white_space(c: char) -> (r: bool)
    ensures
        r == is_white(c),
{
    let v: u32 = c as u32;
    (0x09 <= v && v <= 0x0d) || v == 0x20 || v == 0x85 || v == 0xa0 || v == 0x1680 || (0x2000 <= v
        && v <= 0x200a) || v == 0x2028 || v == 0x2029 || v == 0x202f || v == 0x205f || v == 0x3000
}

/// The words of `s`: its longest runs of characters that are not white space.
pub open spec fn words(s: Seq<char>) -> Seq<Seq<char>>
    decreases s.len(),
{
    if s.len() == 0 {
        Seq::empty()
    } else if is_white(s[0]) {
        words(s.drop_first())
    } else {
        let n = find(s, white());
        if 0 < n <= s.len() {
            seq![s.take(n)] + words(s.skip(n))
        } else {
            Seq::empty()
        }
    }
}

/// Splits a string into its words.
pub fn split_words(s: &str) -> (r: Vec<String>)
    ensures
        texts(r@) == words(s@),
{
    let cs = chars_of(s);
    let mut out: Vec<String> = Vec::new();
    let mut i: usize = 0;
    assert(cs@.skip(0) =~= cs@);
    while i < cs.len()
        invariant
            i <= cs@.len(),
            words(cs@) == texts(out@) + words(cs@.skip(i as int)),
        decreases cs@.len() - i,
    {
        let ghost rest = cs@.skip(i as int);
        assert(rest[0] == cs@[i as int]);
        if white_space(cs[i]) {
            assert(rest.drop_first() =~= cs@.skip(i + 1));
            i += 1;
        } else {
            let start = i;
            i += 1;
            while i < cs.len() && !white_space(cs[i])
                invariant
                    start < i <= cs@.len(),
                    forall|j: int| start <= j < i ==> !is_white(#[trigger] cs@[j]),
                decreases cs@.len() - i,
            {
                i += 1;
            }
            let word = slice(&cs, start, i);
            let ghost before = texts(out@);
            out.push(word);
            proof {
                let n = i - start;
                assert forall|j: int| 0 <= j < n implies !white()(#[trigger] rest[j]) by {
                    assert(rest[j] == cs@[start + j]);
                }
                if n < rest.len() {
                    assert(rest[n] == cs@[i as int]);
                }
                lemma_find_is(rest, white(), n);
                assert(rest.take(n) =~= word@);
                assert(rest.skip(n) =~= cs@.skip(i as int));
                assert(texts(out@) =~= before.push(word@));
                assert(before.push(word@) + words(cs@.skip(i as int)) =~= before + (seq![word@]
                    + words(cs@.skip(i as int))));
            }
        }
    }
    assert(words(cs@.skip(cs@.len() as int)) =~= Seq::empty());
    assert(texts(out@) + Seq::<Seq<char>>::empty() =~= texts(out@));
    out
}

// ---------------------------------------------------------------------------
// Trimming

/// `s` without the characters at its start that satisfy `p`.
pub open spec fn trim_start(s: Seq<char>, p: spec_fn(char) -> bool) -> Seq<char>
    decreases s.len(),
{
    if s.len() > 0 && p(s[0]) {
        trim_start(s.drop_first(), p)
    } else {
        s
    }
}

/// `s` without the characters at its end that satisfy `p`.
pub open spec fn trim_end(s: Seq<char>, p: spec_fn(char) -> bool) -> Seq<char>
    decreases s.len(),
{
    if s.len() > 0 && p(s.last()) {
        trim_end(s.drop_last(), p)
    } else {
        s
    }
}

/// `s` without the white space at its start and its end.
pub open spec fn trim(s: Seq<char>) -> Seq<char> {
    trim_end(trim_start(s, white()), white())
}

/// `s` without the copies of `pat` that it starts with.
pub open spec fn strip_prefixes(s: Seq<char>, pat: Seq<char>) -> Seq<char>
    decreases s.len(),
{
    if pat.len() > 0 && pat.is_prefix_of(s) {
        strip_prefixes(s.skip(pat.len() as int), pat)
    } else {
        s
    }
}

/// `s` without the copies of `pat` that it ends with.
pub open spec fn strip_suffixes(s: Seq<char>, pat: Seq<char>) -> Seq<char>
    decreases s.len(),
{
    if pat.len() > 0 && pat.is_suffix_of(s) {
        strip_suffixes(s.take(s.len() - pat.len()), pat)
    } else {
        s
    }
}

/// Removes white space from both ends of a string.
pub fn trimmed(s: &str) -> (r: String)
    ensures
        r@ == trim(s@),
{
    let cs = chars_of(s);
    let mut from: usize = 0;
    let ghost p = white();
    assert(cs@.skip(0) =~= cs@);
    while from < cs.len() && white_space(cs[from])
        invariant
            from <= cs@.len(),
            p == white(),
            trim_start(cs@, p) == trim_start(cs@.skip(from as int), p),
        decreases cs@.len() - from,
    {
        assert(cs@.skip(from as int).drop_first() =~= cs@.skip(from + 1));
        from += 1;
    }
    let ghost rest = cs@.skip(from as int);
    let mut to: usize = cs.len();
    assert(cs@.subrange(from as int, to as int) =~= rest);
    while to > from && white_space(cs[to - 1])
        invariant
            from <= to <= cs@.len(),
            p == white(),
            trim_end(rest, p) == trim_end(cs@.subrange(from as int, to as int), p),
        decreases to,
    {
        assert(cs@.subrange(from as int, to as int).drop_last() =~= cs@.subrange(
            from as int,
            to - 1,
        ));
        to -= 1;
    }
    slice(&cs, from, to)
}

/// Removes the characters of `set` from the start of a string.
pub fn trim_start_any(s: &str, set: &str) -> (r: String)
    ensures
        r@ == trim_start(s@, among(set@)),
{
    let cs = chars_of(s);
    let mut from: usize = 0;
    let ghost p = among(set@);
    assert(cs@.skip(0) =~= cs@);
    while from < cs.len() && contains(set, cs[from])
        invariant
            from <= cs@.len(),
            p == among(set@),
            trim_start(cs@, p) == trim_start(cs@.skip(from as int), p),
        decreases cs@.len() - from,
    {
        assert(cs@.skip(from as int).drop_first() =~= cs@.skip(from + 1));
        from += 1;
    }
    assert(cs@.subrange(from as int, cs@.len() as int) =~= cs@.skip(from as int));
    slice(&cs, from, cs.len())
}

/// Removes the characters of `set` from the end of a string.
pub fn trim_end_any(s: &str, set: &str) -> (r: String)
    ensures
        r@ == trim_end(s@, among(set@)),
{
    let cs = chars_of(s);
    let mut to: usize = cs.len();
    let ghost p = among(set@);
    assert(cs@.subrange(0, to as int) =~= cs@);
    while to > 0 && contains(set, cs[to - 1])
        invariant
            to <= cs@.len(),
            p == among(set@),
            trim_end(cs@, p) == trim_end(cs@.subrange(0, to as int), p),
        decreases to,
    {
        assert(cs@.subrange(0, to as int).drop_last() =~= cs@.subrange(0, to - 1));
        to -= 1;
    }
    slice(&cs, 0, to)
}

/// Whether the characters at `at` begin with `pat`.
pub fn starts_at(cs: &Vec<char>, at: usize, pat: &Vec<char>) -> (r: bool)
    requires
        at <= cs@.len(),
    ensures
        r == pat@.is_prefix_of(cs@.skip(at as int)),
{
    let ghost rest = cs@.skip(at as int);
    let n: usize = cs.len();
    if pat.len() > n - at {
        return false;
    }
    let mut i: usize = 0;
    while i < pat.len()
        invariant
            i <= pat@.len(),
            at + pat@.len() <= n == cs@.len(),
            rest == cs@.skip(at as int),
            forall|j: int| 0 <= j < i ==> pat@[j] == rest[j],
        decreases pat@.len() - i,
    {
        assert(rest[i as int] == cs@[at + i]);
        if cs[at + i] != pat[i] {
            assert(pat@[i as int] != rest.take(pat@.len() as int)[i as int]);
            return false;
        }
        i += 1;
    }
    assert(pat@ =~= rest.take(pat@.len() as int));
    true
}

/// The rest of a string behind `pat`, if it begins with `pat`.
pub fn without_prefix(s: &str, pat: &str) -> (r: Option<String>)
    ensures
        pat@.is_prefix_of(s@) ==> r is Some && r->0@ == s@.skip(pat@.len() as int),
        !pat@.is_prefix_of(s@) ==> r is None,
{
    let cs = chars_of(s);
    let ps = chars_of(pat);
    assert(cs@.skip(0) =~= cs@);
    if starts_at(&cs, 0, &ps) {
        assert(cs@.subrange(ps@.len() as int, cs@.len() as int) =~= cs@.skip(ps@.len() as int));
        Some(slice(&cs, ps.len(), cs.len()))
    } else {
        None
    }
}

/// Removes the copies of `pat` at the start of a string.
pub fn without_prefixes(s: &str, pat: &str) -> (r: String)
    ensures
        r@ == strip_prefixes(s@, pat@),
{
    let cs = chars_of(s);
    let ps = chars_of(pat);
    let n: usize = cs.len();
    let mut from: usize = 0;
    assert(cs@.skip(0) =~= cs@);
    while ps.len() > 0 && starts_at(&cs, from, &ps)
        invariant
            from <= n == cs@.len(),
            ps@ == pat@,
            strip_prefixes(cs@, pat@) == strip_prefixes(cs@.skip(from as int), pat@),
        decreases cs@.len() - from,
    {
        assert(cs@.skip(from as int).skip(ps@.len() as int) =~= cs@.skip(from + ps@.len()));
        from += ps.len();
    }
    assert(cs@.subrange(from as int, cs@.len() as int) =~= cs@.skip(from as int));
    slice(&cs, from, cs.len())
}

/// Removes the copies of `pat` at the end of a string.
pub fn without_suffixes(s: &str, pat: &str) -> (r: String)
    ensures
        r@ == strip_suffixes(s@, pat@),
{
    let cs = chars_of(s);
    let ps = chars_of(pat);
    let mut to: usize = cs.len();
    assert(cs@.subrange(0, to as int) =~= cs@);
    loop
        invariant_except_break
            to <= cs@.len(),
            ps@ == pat@,
            strip_suffixes(cs@, pat@) == strip_suffixes(cs@.subrange(0, to as int), pat@),
        ensures
            to <= cs@.len(),
            strip_suffixes(cs@, pat@) == cs@.subrange(0, to as int),
        decreases to,
    {
        if ps.len() == 0 || ps.len() > to {
            break;
        }
        let at: usize = to - ps.len();
        let ghost cur = cs@.subrange(0, to as int);
        proof {
            assert(cur.subrange(at as int, to as int) =~= cs@.skip(at as int).subrange(
                0,
                pat@.len() as int,
            ));
            assert(cur.take(at as int) =~= cs@.subrange(0, at as int));
        }
        if !starts_at(&cs, at, &ps) {
            break;
        }
        to = at;
    }
    slice(&cs, 0, to)
}

// ---------------------------------------------------------------------------
// Replacing and joining

/// `s` with `with` in place of every character that satisfies `p`.
pub open spec fn replace_chars(s: Seq<char>, p: spec_fn(char) -> bool, with: char) -> Seq<char> {
    Seq::new(
        s.len(),
        |i: int|
            if p(s[i]) {
                with
            } else {
                s[i]
            },
    )
}

/// `s` with `with` in place of every `pat`, taken from left to right without
/// overlap.
pub open spec fn replace(s: Seq<char>, pat: Seq<char>, with: Seq<char>) -> Seq<char>
    decreases s.len(),
{
    if s.len() == 0 {
        Seq::empty()
    } else if pat.len() > 0 && pat.is_prefix_of(s) {
        with + replace(s.skip(pat.len() as int), pat, with)
    } else {
        seq![s[0]] + replace(s.drop_first(), pat, with)
    }
}

/// What stands in `s` before the first `pat`; all of `s` if it holds none.
pub open spec fn before(s: Seq<char>, pat: Seq<char>) -> Seq<char>
    decreases s.len(),
{
    if s.len() == 0 || pat.is_prefix_of(s) {
        Seq::empty()
    } else {
        seq![s[0]] + before(s.drop_first(), pat)
    }
}

/// The texts of `parts` one behind another, with `sep` between them.
pub open spec fn join(parts: Seq<Seq<char>>, sep: Seq<char>) -> Seq<char>
    decreases parts.len(),
{
    if parts.len() == 0 {
        Seq::empty()
    } else if parts.len() == 1 {
        parts[0]
    } else {
        join(parts.drop_last(), sep) + sep + parts.last()
    }
}

/// Puts `with` in place of every character of `set`.
pub fn replace_any(s: &str, set: &str, with: char) -> (r: String)
    ensures
        r@ == replace_chars(s@, among(set@), with),
{
    let mut out = String::new();
    for c in it: s.chars()
        invariant
            it.seq() == s@,
            out@ == replace_chars(s@.take(it.index()), among(set@), with),
    {
        let ghost so_far = s@.take(it.index());
        assert(s@.take(it.index() + 1) =~= so_far.push(c));
        if contains(set, c) {
            out.push(with);
        } else {
            out.push(c);
        }
        assert(out@ =~= replace_chars(so_far.push(c), among(set@), with));
    }
    assert(s@.take(s@.len() as int) =~= s@);
    out
}

/// Puts `with` in place of every `pat`.
pub fn replace_all(s: &str, pat: &str, with: &str) -> (r: String)
    ensures
        r@ == replace(s@, pat@, with@),
{
    let cs = chars_of(s);
    let ps = chars_of(pat);
    let n: usize = cs.len();
    let mut out = String::new();
    let mut i: usize = 0;
    assert(cs@.skip(0) =~= cs@);
    while i < n
        invariant
            i <= n == cs@.len(),
            ps@ == pat@,
            replace(cs@, pat@, with@) == out@ + replace(cs@.skip(i as int), pat@, with@),
        decreases n - i,
    {
        let ghost rest = cs@.skip(i as int);
        let ghost so_far = out@;
        if ps.len() > 0 && starts_at(&cs, i, &ps) {
            proof {
                assert(rest.skip(pat@.len() as int) =~= cs@.skip(i + pat@.len()));
                let tail = replace(rest.skip(pat@.len() as int), pat@, with@);
                assert(so_far + (with@ + tail) =~= (so_far + with@) + tail);
            }
            out.append(with);
            i += ps.len();
        } else {
            proof {
                assert(rest.drop_first() =~= cs@.skip(i + 1));
                let tail = replace(rest.drop_first(), pat@, with@);
                assert(so_far + (seq![rest[0]] + tail) =~= so_far.push(rest[0]) + tail);
            }
            out.push(cs[i]);
            i += 1;
        }
    }
    assert(out@ + Seq::<char>::empty() =~= out@);
    out
}

/// What stands in a string before the first `pat`.
pub fn before_first(s: &str, pat: &str) -> (r: String)
    ensures
        r@ == before(s@, pat@),
{
    let cs = chars_of(s);
    let ps = chars_of(pat);
    let mut i: usize = 0;
    assert(cs@.skip(0) =~= cs@);
    assert(cs@.subrange(0, 0) + before(cs@, pat@) =~= before(cs@, pat@));
    while i < cs.len() && !starts_at(&cs, i, &ps)
        invariant
            i <= cs@.len(),
            ps@ == pat@,
            before(cs@, pat@) == cs@.subrange(0, i as int) + before(cs@.skip(i as int), pat@),
        decreases cs@.len() - i,
    {
        proof {
            let rest = cs@.skip(i as int);
            assert(rest.drop_first() =~= cs@.skip(i + 1));
            assert(cs@.subrange(0, i as int) + (seq![rest[0]] + before(rest.drop_first(), pat@))
                =~= cs@.subrange(0, i + 1) + before(rest.drop_first(), pat@));
        }
        i += 1;
    }
    assert(cs@.subrange(0, i as int) + Seq::<char>::empty() =~= cs@.subrange(0, i as int));
    slice(&cs, 0, i)
}

/// Joins strings with a separator.
pub fn joined(parts: &Vec<String>, sep: &str) -> (r: String)
    ensures
        r@ == join(texts(parts@), sep@),
{
    let mut out = String::new();
    let mut i: usize = 0;
    while i < parts.len()
        invariant
            i <= parts@.len(),
            out@ == join(texts(parts@).take(i as int), sep@),
        decreases parts@.len() - i,
    {
        let ghost next = texts(parts@).take(i + 1);
        assert(next.drop_last() =~= texts(parts@).take(i as int));
        if i > 0 {
            out.append(sep);
        }
        out.append(parts[i].as_str());
        if i == 0 {
            assert(out@ =~= next[0]);
        }
        i += 1;
    }
    assert(texts(parts@).take(i as int) =~= texts(parts@));
    out
}

/// Whether a text is one word: not empty and without white space.
pub open spec fn is_word(w: Seq<char>) -> bool {
    &&& w.len() > 0
    &&& forall|k: int| 0 <= k < w.len() ==> !is_white(#[trigger] w[k])
}

/// Each of the [`words`] of a text is a word, made of characters of the text.
pub proof fn lemma_words(s: Seq<char>, k: int)
    requires
        0 <= k < words(s).len(),
    ensures
        is_word(words(s)[k]),
        forall|m: int| 0 <= m < words(s)[k].len() ==> s.contains(#[trigger] words(s)[k][m]),
    decreases s.len(),
{
    if is_white(s[0]) {
        let t = s.drop_first();
        lemma_words(t, k);
        assert forall|m: int| 0 <= m < words(s)[k].len() implies s.contains(
            #[trigger] words(s)[k][m],
        ) by {
            let c = words(t)[k][m];
            assert(t.contains(c));
            let i = choose|i: int| 0 <= i < t.len() && t[i] == c;
            assert(s[i + 1] == c);
        }
    } else {
        let n = find(s, white());
        lemma_find(s, white());
        let t = s.skip(n);
        if k == 0 {
            let w = s.take(n);
            assert(words(s)[0] == w);
            assert forall|m: int| 0 <= m < w.len() implies !is_white(#[trigger] w[m]) && s.contains(
                w[m],
            ) by {
                assert(w[m] == s[m]);
                assert(!white()(s[m]));
            }
        } else {
            lemma_words(t, k - 1);
            assert(words(s)[k] == words(t)[k - 1]);
            assert forall|m: int| 0 <= m < words(s)[k].len() implies s.contains(
                #[trigger] words(s)[k][m],
            ) by {
                let c = words(t)[k - 1][m];
                assert(t.contains(c));
                let i = choose|i: int| 0 <= i < t.len() && t[i] == c;
                assert(s[n + i] == c);
            }
        }
    }
}

proof fn lemma_one_word(w: Seq<char>)
    requires
        is_word(w),
    ensures
        words(w) == seq![w],
{
    assert forall|k: int| 0 <= k < w.len() implies !white()(#[trigger] w[k]) by {}
    lemma_find_is(w, white(), w.len() as int);
    assert(!is_white(w[0]));
    assert(w.take(w.len() as int) =~= w);
    assert(words(w.skip(w.len() as int)) =~= Seq::empty());
    assert(words(w) =~= seq![w]);
}

proof fn lemma_word_appended(a: Seq<char>, w: Seq<char>)
    requires
        is_word(w),
    ensures
        words(a + seq![' '] + w) == words(a).push(w),
    decreases a.len(),
{
    let s = a + seq![' '] + w;
    if a.len() == 0 {
        assert(s[0] == ' ');
        assert(s.drop_first() =~= w);
        lemma_one_word(w);
        assert(words(a).push(w) =~= seq![w]);
    } else if is_white(a[0]) {
        assert(s[0] == a[0]);
        assert(s.drop_first() =~= a.drop_first() + seq![' '] + w);
        lemma_word_appended(a.drop_first(), w);
    } else {
        assert(s[0] == a[0]);
        let n = find(a, white());
        lemma_find(a, white());
        assert forall|k: int| 0 <= k < n implies !white()(#[trigger] s[k]) by {
            assert(s[k] == a[k]);
        }
        if n < a.len() {
            assert(s[n] == a[n]);
        } else {
            assert(s[n] == ' ');
        }
        lemma_find_is(s, white(), n);
        assert(s.take(n) =~= a.take(n));
        assert(s.skip(n) =~= a.skip(n) + seq![' '] + w);
        lemma_word_appended(a.skip(n), w);
        assert(seq![a.take(n)] + words(a.skip(n)).push(w) =~= (seq![a.take(n)] + words(
            a.skip(n),
        )).push(w));
    }
}

/// Words joined by spaces are the words of the joined text.
pub proof fn lemma_words_of_join(ws: Seq<Seq<char>>)
    requires
        forall|k: int| 0 <= k < ws.len() ==> is_word(#[trigger] ws[k]),
    ensures
        words(join(ws, " "@)) == ws,
    decreases ws.len(),
{
    reveal_strlit(" ");
    if ws.len() == 0 {
        assert(words(join(ws, " "@)) =~= ws);
    } else if ws.len() == 1 {
        lemma_one_word(ws[0]);
        assert(seq![ws[0]] =~= ws);
    } else {
        let init = ws.drop_last();
        assert forall|k: int| 0 <= k < init.len() implies is_word(#[trigger] init[k]) by {
            assert(init[k] == ws[k]);
        }
        lemma_words_of_join(init);
        assert(" "@ =~= seq![' ']);
        assert(is_word(ws[ws.len() - 1]));
        lemma_word_appended(join(init, " "@), ws.last());
        assert(init.push(ws.last()) =~= ws);
    }
}

// ---------------------------------------------------------------------------
// Lines

/// `s` without one carriage return at its end.
pub open spec fn without_cr(s: Seq<char>) -> Seq<char> {
    if s.len() > 0 && s.last() == '\r' {
        s.drop_last()
    } else {
        s
    }
}

/// The line feed.
pub open spec fn line_feed() -> spec_fn(char) -> bool {
    |c: char| c == '\n'
}

/// The lines of `s`: each ends at a line feed, which is not part of it, nor is
/// a carriage return before it; the last one may lack the line feed.
pub open spec fn lines(s: Seq<char>) -> Seq<Seq<char>>
    decreases s.len(),
{
    let i = find(s, line_feed());
    if s.len() == 0 {
        Seq::empty()
    } else if 0 <= i < s.len() {
        seq![without_cr(s.take(i))] + lines(s.skip(i + 1))
    } else {
        seq![s]
    }
}

/// Splits a string into its lines.
pub fn split_lines(s: &str) -> (r: Vec<String>)
    ensures
        texts(r@) == lines(s@),
{
    let cs = chars_of(s);
    let mut out: Vec<String> = Vec::new();
    let mut start: usize = 0;
    assert(cs@.skip(0) =~= cs@);
    while start < cs.len()
        invariant
            start <= cs@.len(),
            lines(cs@) == texts(out@) + lines(cs@.skip(start as int)),
        decreases cs@.len() - start,
    {
        let ghost rest = cs@.skip(start as int);
        let mut i: usize = start;
        while i < cs.len() && cs[i] != '\n'
            invariant
                start <= i <= cs@.len(),
                forall|j: int| start <= j < i ==> cs@[j] != '\n',
            decreases cs@.len() - i,
        {
            i += 1;
        }
        proof {
            assert forall|j: int| 0 <= j < i - start implies !line_feed()(#[trigger] rest[j]) by {
                assert(rest[j] == cs@[start + j]);
            }
            if i < cs@.len() {
                assert(rest[i - start] == cs@[i as int]);
            }
            lemma_find_is(rest, line_feed(), i - start);
            assert(rest.take(i - start) =~= cs@.subrange(start as int, i as int));
        }
        let ghost before_push = texts(out@);
        if i == cs.len() {
            let line = slice(&cs, start, i);
            out.push(line);
            proof {
                assert(line@ =~= rest);
                assert(texts(out@) =~= before_push.push(line@));
                assert(before_push + seq![line@] =~= before_push.push(line@));
                assert(cs@.skip(i as int).len() == 0);
                assert(texts(out@) + lines(cs@.skip(i as int)) =~= texts(out@));
            }
            start = i;
        } else {
            let end: usize = if i > start && cs[i - 1] == '\r' {
                i - 1
            } else {
                i
            };
            let line = slice(&cs, start, end);
            out.push(line);
            proof {
                let full = cs@.subrange(start as int, i as int);
                assert(line@ =~= without_cr(full)) by {
                    if full.len() > 0 {
                        assert(full.last() == cs@[i - 1]);
                    }
                }
                assert(rest.skip(i - start + 1) =~= cs@.skip(i + 1));
                assert(texts(out@) =~= before_push.push(line@));
                let tail = lines(cs@.skip(i + 1));
                assert(before_push.push(line@) + tail =~= before_push + (seq![line@] + tail));
            }
            start = i + 1;
        }
    }
    assert(cs@.skip(start as int).len() == 0);
    assert(texts(out@) + Seq::<Seq<char>>::empty() =~= texts(out@));
    out
}

// ---------------------------------------------------------------------------
// Bytes

/// The longest prefix of `s` that is encoded in at most `limit` bytes.
pub open spec fn byte_prefix(s: Seq<char>, limit: nat) -> Seq<char>
    decreases s.len(),
{
    if s.len() == 0 || encode_utf8(s).len() <= limit {
        s
    } else {
        byte_prefix(s.drop_last(), limit)
    }
}

/// The bytes of two texts, one behind the other.
pub proof fn lemma_encode_concat(a: Seq<char>, b: Seq<char>)
    ensures
        encode_utf8(a + b) == encode_utf8(a) + encode_utf8(b),
    decreases a.len(),
{
    if a.len() == 0 {
        assert(a + b =~= b);
        assert(encode_utf8(a) + encode_utf8(b) =~= encode_utf8(b));
    } else {
        assert((a + b).drop_first() =~= a.drop_first() + b);
        lemma_encode_concat(a.drop_first(), b);
        let first = encode_scalar(a[0] as u32);
        assert(first + (encode_utf8(a.drop_first()) + encode_utf8(b)) =~= (first + encode_utf8(
            a.drop_first(),
        )) + encode_utf8(b));
    }
}

/// The number of bytes of a character.
fn char_width(c: char) -> (r: usize)
    ensures
        r == encode_utf8(seq![c]).len(),
        1 <= r <= 4,
{
    proof {
        assert(seq![c].drop_first() =~= Seq::empty());
        reveal_with_fuel(encode_utf8, 2);
    }
    let v: u32 = c as u32;
    if v < 0x80 {
        1
    } else if v < 0x800 {
        2
    } else if v < 0x10000 {
        3
    } else {
        4
    }
}

proof fn lemma_byte_prefix(s: Seq<char>, limit: nat, k: int)
    requires
        0 <= k <= s.len(),
        encode_utf8(s.take(k)).len() <= limit,
        k < s.len() ==> encode_utf8(s.take(k + 1)).len() > limit,
    ensures
        byte_prefix(s, limit) == s.take(k),
    decreases s.len(),
{
    if k == s.len() {
        assert(s.take(k) =~= s);
    } else {
        lemma_encode_concat(s.take(k + 1), s.skip(k + 1));
        assert(s.take(k + 1) + s.skip(k + 1) =~= s);
        let t = s.drop_last();
        assert(t.take(k) =~= s.take(k));
        if k < t.len() {
            assert(t.take(k + 1) =~= s.take(k + 1));
        }
        lemma_byte_prefix(t, limit, k);
    }
}

/// Cuts a string to its longest prefix of at most `limit` bytes. No character is
/// cut apart.
pub fn cut_to_bytes(s: &str, limit: usize) -> (r: String)
    ensures
        r@ == byte_prefix(s@, limit as nat),
{
    let mut out = String::new();
    let mut used: usize = 0;
    for c in it: s.chars()
        invariant
            it.seq() == s@,
            out@ == s@.take(it.index()),
            used == encode_utf8(out@).len(),
            used <= limit,
    {
        let w = char_width(c);
        proof {
            lemma_encode_concat(out@, seq![c]);
            assert(out@ + seq![c] =~= s@.take(it.index() + 1));
        }
        if w > limit - used {
            proof {
                lemma_byte_prefix(s@, limit as nat, it.index());
            }
            return out;
        }
        out.push(c);
        assert(out@ =~= s@.take(it.index() + 1));
        used += w;
    }
    proof {
        assert(s@.take(s@.len() as int) =~= s@);
        lemma_byte_prefix(s@, limit as nat, s@.len() as int);
    }
    out
}

/// A cut text is a prefix that is short enough; one that is short enough is not
/// cut.
pub proof fn law_byte_prefix(s: Seq<char>, limit: nat)
    ensures
        byte_prefix(s, limit).is_prefix_of(s),
        encode_utf8(byte_prefix(s, limit)).len() <= limit,
        encode_utf8(s).len() <= limit ==> byte_prefix(s, limit) == s,
    decreases s.len(),
{
    if s.len() > 0 && encode_utf8(s).len() > limit {
        law_byte_prefix(s.drop_last(), limit);
        let r = byte_prefix(s, limit);
        assert(r =~= s.subrange(0, r.len() as int)) by {
            assert(r =~= s.drop_last().subrange(0, r.len() as int));
        }
    }
}

// ---------------------------------------------------------------------------
// Numbers

/// The decimal digit `d`.
pub open spec fn digit(d: int) -> char {
    (d + 48) as char
}

/// The number `n` in decimal digits, without leading zeros.
pub open spec fn decimal(n: nat) -> Seq<char>
    decreases n,
{
    if n < 10 {
        seq![digit(n as int)]
    } else {
        decimal(n / 10).push(digit((n % 10) as int))
    }
}

/// A number in decimal digits.
pub fn to_decimal(n: u128) -> (r: String)
    ensures
        r@ == decimal(n as nat),
    decreases n,
{
    let mut out = if n < 10 {
        String::new()
    } else {
        to_decimal(n / 10)
    };
    let d: u8 = (n % 10) as u8;
    out.push((d + 48) as char);
    assert(n < 10 ==> out@ =~= decimal(n as nat));
    out
}

/// The number that decimal digits stand for.
pub open spec fn digits_value(s: Seq<char>) -> int
    decreases s.len(),
{
    if s.len() == 0 {
        0
    } else {
        digits_value(s.drop_last()) * 10 + (s.last() as int - '0' as int)
    }
}

/// Whether a text consists of decimal digits.
pub open spec fn all_digits(s: Seq<char>) -> bool {
    forall|i: int| 0 <= i < s.len() ==> '0' <= #[trigger] s[i] <= '9'
}

/// The number that a text stands for: decimal digits, perhaps behind a plus sign,
/// of a number below 2^64.
pub open spec fn number(s: Seq<char>) -> Option<int> {
    let digits = if s.len() > 0 && s[0] == '+' {
        s.skip(1)
    } else {
        s
    };
    if digits.len() > 0 && all_digits(digits) && digits_value(digits) <= u64::MAX {
        Some(digits_value(digits))
    } else {
        None
    }
}

proof fn lemma_digits_grow(s: Seq<char>, i: int)
    requires
        0 <= i <= s.len(),
        all_digits(s),
    ensures
        0 <= digits_value(s.take(i)) <= digits_value(s),
    decreases s.len() - i,
{
    lemma_digits_nonnegative(s.take(i));
    if i < s.len() {
        lemma_digits_grow(s, i + 1);
        assert(s.take(i + 1).drop_last() =~= s.take(i));
        assert('0' <= s[i] <= '9');
    } else {
        assert(s.take(i) =~= s);
    }
}

proof fn lemma_digits_nonnegative(s: Seq<char>)
    requires
        all_digits(s),
    ensures
        digits_value(s) >= 0,
    decreases s.len(),
{
    if s.len() > 0 {
        let init = s.drop_last();
        assert forall|i: int| 0 <= i < init.len() implies '0' <= #[trigger] init[i] <= '9' by {
            assert(init[i] == s[i]);
        }
        lemma_digits_nonnegative(init);
        assert('0' <= s[s.len() - 1] <= '9');
    }
}

/// Reads a number.
pub fn parse_number(s: &str) -> (r: Option<u64>)
    ensures
        match r {
            Some(n) => number(s@) == Some(n as int),
            None => number(s@) is None,
        },
{
    let cs = chars_of(s);
    let from: usize = if cs.len() > 0 && cs[0] == '+' {
        1
    } else {
        0
    };
    let ghost digits = cs@.skip(from as int);
    proof {
        if from == 0 {
            assert(digits =~= s@);
        }
    }
    if cs.len() == from {
        return None;
    }
    let mut value: u64 = 0;
    let mut i: usize = from;
    while i < cs.len()
        invariant
            from <= i <= cs@.len(),
            cs@ == s@,
            digits == cs@.skip(from as int),
            digits == (if s@.len() > 0 && s@[0] == '+' {
                s@.skip(1)
            } else {
                s@
            }),
            forall|k: int| 0 <= k < i - from ==> '0' <= #[trigger] digits[k] <= '9',
            value == digits_value(digits.take(i - from)),
        decreases cs@.len() - i,
    {
        let c = cs[i];
        assert(digits[i - from] == c);
        if !('0' <= c && c <= '9') {
            return None;
        }
        let d: u64 = c as u64 - 48;
        proof {
            assert(digits.take(i - from + 1).drop_last() =~= digits.take(i - from));
            if all_digits(digits) {
                lemma_digits_grow(digits, i - from + 1);
            }
        }
        if value > (u64::MAX - d) / 10 {
            return None;
        }
        value = value * 10 + d;
        i += 1;
    }
    assert(digits.take(i - from) =~= digits);
    Some(value)
}

// ---------------------------------------------------------------------------
// Laws

/// A text is split at each character that satisfies `p`, and nowhere else.
pub proof fn law_split(a: Seq<char>, c: char, b: Seq<char>, p: spec_fn(char) -> bool)
    ensures
        p(c) ==> split(a + seq![c] + b, p) == split(a, p) + split(b, p),
        (forall|k: int| 0 <= k < a.len() ==> !p(#[trigger] a[k])) ==> split(a, p) == seq![a],
    decreases a.len(),
{
    let n = find(a, p);
    lemma_find(a, p);
    if p(c) {
        let s = a + seq![c] + b;
        assert forall|k: int| 0 <= k < n implies !p(#[trigger] s[k]) by {
            assert(s[k] == a[k]);
        }
        if n < a.len() {
            assert(s[n] == a[n]);
            lemma_find_is(s, p, n);
            assert(s.take(n) =~= a.take(n));
            assert(s.skip(n + 1) =~= a.skip(n + 1) + seq![c] + b);
            law_split(a.skip(n + 1), c, b, p);
            assert(seq![a.take(n)] + (split(a.skip(n + 1), p) + split(b, p)) =~= (seq![a.take(n)]
                + split(a.skip(n + 1), p)) + split(b, p));
        } else {
            assert(s[n] == c);
            lemma_find_is(s, p, n);
            assert(s.take(n) =~= a);
            assert(s.skip(n + 1) =~= b);
        }
    }
}

/// The characters that are white space.
pub proof fn law_white_space(c: char)
    ensures
        is_white(c) <==> c == ' ' || c == '\t' || c == '\n' || c == '\u{b}' || c == '\u{c}' || c
            == '\r' || c == '\u{85}' || c == '\u{a0}' || c == '\u{1680}' || ('\u{2000}' <= c && c
            <= '\u{200a}') || c == '\u{2028}' || c == '\u{2029}' || c == '\u{202f}' || c
            == '\u{205f}' || c == '\u{3000}',
{
}

/// White space separates words, and nothing else does.
pub proof fn law_words(a: Seq<char>, c: char, b: Seq<char>)
    ensures
        is_white(c) ==> words(a + seq![c] + b) == words(a) + words(b),
        a.len() > 0 && (forall|k: int| 0 <= k < a.len() ==> !is_white(#[trigger] a[k]))
            ==> words(a) == seq![a],
        words(Seq::empty()) == Seq::<Seq<char>>::empty(),
    decreases a.len(),
{
    if a.len() > 0 && (forall|k: int| 0 <= k < a.len() ==> !is_white(#[trigger] a[k])) {
        lemma_one_word(a);
    }
    if is_white(c) {
        let s = a + seq![c] + b;
        if a.len() == 0 {
            assert(s[0] == c);
            assert(s.drop_first() =~= b);
            assert(words(a) + words(b) =~= words(b));
        } else if is_white(a[0]) {
            assert(s[0] == a[0]);
            assert(s.drop_first() =~= a.drop_first() + seq![c] + b);
            law_words(a.drop_first(), c, b);
        } else {
            assert(s[0] == a[0]);
            let n = find(a, white());
            lemma_find(a, white());
            assert forall|k: int| 0 <= k < n implies !white()(#[trigger] s[k]) by {
                assert(s[k] == a[k]);
            }
            if n < a.len() {
                assert(s[n] == a[n]);
            } else {
                assert(s[n] == c);
            }
            lemma_find_is(s, white(), n);
            assert(s.take(n) =~= a.take(n));
            assert(s.skip(n) =~= a.skip(n) + seq![c] + b);
            law_words(a.skip(n), c, b);
            assert(seq![a.take(n)] + (words(a.skip(n)) + words(b)) =~= (seq![a.take(n)] + words(
                a.skip(n),
            )) + words(b));
        }
    }
}

/// What satisfies `p` at one end of a text is taken off, up to the first character that
/// does not.
pub proof fn law_trim_ends(a: Seq<char>, m: Seq<char>, p: spec_fn(char) -> bool)
    requires
        forall|k: int| 0 <= k < a.len() ==> p(#[trigger] a[k]),
    ensures
        m.len() == 0 || !p(m[0]) ==> trim_start(a + m, p) == m,
        m.len() == 0 || !p(m.last()) ==> trim_end(m + a, p) == m,
    decreases a.len(),
{
    if a.len() == 0 {
        assert(a + m =~= m);
        assert(m + a =~= m);
    } else {
        let tail = a.drop_first();
        assert forall|k: int| 0 <= k < tail.len() implies p(#[trigger] tail[k]) by {
            assert(tail[k] == a[k + 1]);
        }
        law_trim_ends(tail, m, p);
        assert((a + m)[0] == a[0]);
        assert((a + m).drop_first() =~= tail + m);
        let init = a.drop_last();
        assert forall|k: int| 0 <= k < init.len() implies p(#[trigger] init[k]) by {
            assert(init[k] == a[k]);
        }
        law_trim_ends(init, m, p);
        assert(p(a[a.len() - 1]));
        assert((m + a).last() == a.last());
        assert((m + a).drop_last() =~= m + init);
    }
}

/// White space is taken off both ends of a text, and kept inside it.
pub proof fn law_trim(a: Seq<char>, m: Seq<char>, b: Seq<char>)
    requires
        forall|k: int| 0 <= k < a.len() ==> is_white(#[trigger] a[k]),
        forall|k: int| 0 <= k < b.len() ==> is_white(#[trigger] b[k]),
        m.len() == 0 || (!is_white(m[0]) && !is_white(m.last())),
    ensures
        trim(a + m + b) == m,
{
    if m.len() == 0 {
        let all = a + b;
        assert forall|k: int| 0 <= k < all.len() implies white()(#[trigger] all[k]) by {
            if k < a.len() {
                assert(is_white(a[k]));
            } else {
                assert(is_white(b[k - a.len()]));
            }
        }
        assert(a + m + b =~= all + m);
        law_trim_ends(all, m, white());
        law_trim_ends(Seq::empty(), m, white());
        assert(trim_end(m, white()) == m);
    } else {
        assert(a + m + b =~= a + (m + b));
        assert((m + b)[0] == m[0]);
        assert forall|k: int| 0 <= k < a.len() implies white()(#[trigger] a[k]) by {}
        assert forall|k: int| 0 <= k < b.len() implies white()(#[trigger] b[k]) by {}
        law_trim_ends(a, m + b, white());
        law_trim_ends(b, m, white());
    }
}

/// Each copy of a pattern at one end of a text is taken off, and nothing else.
pub proof fn law_strip(s: Seq<char>, pat: Seq<char>)
    requires
        pat.len() > 0,
    ensures
        strip_prefixes(pat + s, pat) == strip_prefixes(s, pat),
        !pat.is_prefix_of(s) ==> strip_prefixes(s, pat) == s,
        strip_suffixes(s + pat, pat) == strip_suffixes(s, pat),
        !pat.is_suffix_of(s) ==> strip_suffixes(s, pat) == s,
{
    assert((pat + s).subrange(0, pat.len() as int) =~= pat);
    assert((pat + s).skip(pat.len() as int) =~= s);
    assert((s + pat).subrange(s.len() as int, s.len() + pat.len() as int) =~= pat);
    assert((s + pat).take(s.len() as int) =~= s);
}

/// Each of the characters is replaced, and no other.
pub proof fn law_replace_chars(s: Seq<char>, p: spec_fn(char) -> bool, with: char, i: int)
    requires
        0 <= i < s.len(),
    ensures
        replace_chars(s, p, with).len() == s.len(),
        p(s[i]) ==> replace_chars(s, p, with)[i] == with,
        !p(s[i]) ==> replace_chars(s, p, with)[i] == s[i],
{
}

/// Each copy of a pattern is replaced, and nothing else.
pub proof fn law_replace(w: Seq<char>, pat: Seq<char>, with: Seq<char>, rest: Seq<char>)
    requires
        pat.len() > 0,
        !w.contains(pat[0]),
    ensures
        replace(w + pat + rest, pat, with) == w + with + replace(rest, pat, with),
        replace(w, pat, with) == w,
    decreases w.len(),
{
    let s = w + pat + rest;
    if w.len() == 0 {
        assert(s =~= pat + rest);
        assert(s.subrange(0, pat.len() as int) =~= pat);
        assert(s.skip(pat.len() as int) =~= rest);
        assert(w + with =~= with);
        assert(replace(w, pat, with) =~= w);
    } else {
        let t = w.drop_first();
        assert(w.contains(w[0]));
        if t.contains(pat[0]) {
            let k = choose|k: int| 0 <= k < t.len() && t[k] == pat[0];
            assert(w[k + 1] == pat[0]);
        }
        law_replace(t, pat, with, rest);
        assert(s[0] == w[0]);
        assert(s.drop_first() =~= t + pat + rest);
        assert(seq![w[0]] + (t + with + replace(rest, pat, with)) =~= w + with + replace(
            rest,
            pat,
            with,
        ));
        assert(seq![w[0]] + t =~= w);
    }
}

/// Joining one list of texts behind another.
pub proof fn law_join(a: Seq<Seq<char>>, b: Seq<Seq<char>>, sep: Seq<char>)
    ensures
        a.len() > 0 && b.len() > 0 ==> join(a + b, sep) == join(a, sep) + sep + join(b, sep),
        a.len() == 1 ==> join(a, sep) == a[0],
        a.len() == 0 ==> join(a, sep) == Seq::<char>::empty(),
    decreases b.len(),
{
    if a.len() > 0 && b.len() > 0 {
        assert((a + b).last() == b.last());
        if b.len() == 1 {
            assert((a + b).drop_last() =~= a);
        } else {
            assert((a + b).drop_last() =~= a + b.drop_last());
            law_join(a, b.drop_last(), sep);
            let x = join(a, sep) + sep;
            let y = join(b.drop_last(), sep);
            assert((x + y) + sep + b.last() =~= x + (y + sep + b.last()));
        }
    }
}

/// Replacing what stands between joined texts.
pub proof fn law_replace_between(parts: Seq<Seq<char>>, pat: Seq<char>, with: Seq<char>)
    requires
        pat.len() > 0,
        forall|k: int| 0 <= k < parts.len() ==> !(#[trigger] parts[k]).contains(pat[0]),
    ensures
        replace(join(parts, pat), pat, with) == join(parts, with),
    decreases parts.len(),
{
    if parts.len() == 0 {
    } else if parts.len() == 1 {
        law_replace(parts[0], pat, with, Seq::empty());
    } else {
        let first = seq![parts[0]];
        let rest = parts.drop_first();
        assert(parts =~= first + rest);
        assert forall|k: int| 0 <= k < rest.len() implies !(#[trigger] rest[k]).contains(pat[0]) by {
            assert(rest[k] == parts[k + 1]);
        }
        law_replace_between(rest, pat, with);
        law_join(first, rest, pat);
        law_join(first, rest, with);
        law_replace(parts[0], pat, with, join(rest, pat));
    }
}

/// Replacing a character that stands between joined texts.
pub proof fn law_replace_char_between(parts: Seq<Seq<char>>, c: char, with: char)
    requires
        forall|k: int| 0 <= k < parts.len() ==> !(#[trigger] parts[k]).contains(c),
    ensures
        replace_chars(join(parts, seq![c]), among(seq![c]), with) == join(parts, seq![with]),
    decreases parts.len(),
{
    let p = among(seq![c]);
    assert forall|d: char| #[trigger] p(d) implies d == c by {}
    assert(seq![c][0] == c);
    assert(p(c));
    if parts.len() == 0 {
        assert(replace_chars(join(parts, seq![c]), p, with) =~= join(parts, seq![with]));
    } else if parts.len() == 1 {
        let s = parts[0];
        assert forall|i: int| 0 <= i < s.len() implies replace_chars(s, p, with)[i] == s[i] by {
            assert(s.contains(s[i]));
        }
        assert(replace_chars(s, p, with) =~= s);
    } else {
        let init = parts.drop_last();
        let last = parts[parts.len() - 1];
        assert forall|k: int| 0 <= k < init.len() implies !(#[trigger] init[k]).contains(c) by {
            assert(init[k] == parts[k]);
        }
        law_replace_char_between(init, c, with);
        let head = join(init, seq![c]);
        let all = head + seq![c] + last;
        let r = replace_chars(all, p, with);
        let want = replace_chars(head, p, with) + seq![with] + last;
        assert forall|i: int| 0 <= i < all.len() implies r[i] == want[i] by {
            if i < head.len() {
                assert(all[i] == head[i]);
            } else if i > head.len() {
                let k = i - head.len() - 1;
                assert(all[i] == last[k]);
                assert(last.contains(last[k]));
            }
        }
        assert(r =~= want);
    }
}

/// What stands before a pattern is the longest start of the text that no copy of the
/// pattern begins in; a copy follows it, or nothing.
pub proof fn law_before(s: Seq<char>, pat: Seq<char>)
    ensures
        before(s, pat).is_prefix_of(s),
        before(s, pat) != s ==> pat.is_prefix_of(s.skip(before(s, pat).len() as int)),
        forall|k: int|
            0 <= k < before(s, pat).len() ==> !pat.is_prefix_of(#[trigger] s.skip(k)),
    decreases s.len(),
{
    if s.len() == 0 {
        assert(before(s, pat) =~= s);
    } else if pat.is_prefix_of(s) {
        assert(s.skip(0) =~= s);
    } else {
        let t = s.drop_first();
        law_before(t, pat);
        let r = before(t, pat);
        assert(s =~= seq![s[0]] + t);
        assert(s.subrange(0, r.len() + 1int) =~= seq![s[0]] + t.subrange(0, r.len() as int));
        assert(s.skip(r.len() + 1int) =~= t.skip(r.len() as int));
        assert forall|k: int|
            0 <= k < before(s, pat).len() implies !pat.is_prefix_of(#[trigger] s.skip(k)) by {
            if k == 0 {
                assert(s.skip(0) =~= s);
            } else {
                assert(s.skip(k) =~= t.skip(k - 1));
            }
        }
    }
}

/// A line ends at a line feed, or at a carriage return and a line feed; the last one may
/// end with the text. An empty text has no line.
pub proof fn law_lines(a: Seq<char>, b: Seq<char>)
    requires
        !a.contains('\n'),
    ensures
        a.len() == 0 || a.last() != '\r' ==> lines(a + seq!['\n'] + b) == seq![a] + lines(b),
        lines(a + seq!['\r', '\n'] + b) == seq![a] + lines(b),
        a.len() > 0 ==> lines(a) == seq![a],
        a.len() == 0 ==> lines(a) == Seq::<Seq<char>>::empty(),
{
    let p = line_feed();
    assert forall|k: int| 0 <= k < a.len() implies !p(#[trigger] a[k]) by {
        assert(a.contains(a[k]));
    }
    lemma_find_is(a, p, a.len() as int);
    let s = a + seq!['\n'] + b;
    assert(s[a.len() as int] == '\n');
    assert forall|k: int| 0 <= k < a.len() implies !p(#[trigger] s[k]) by {
        assert(s[k] == a[k]);
    }
    lemma_find_is(s, p, a.len() as int);
    assert(s.take(a.len() as int) =~= a);
    assert(s.skip(a.len() + 1int) =~= b);
    let t = a + seq!['\r', '\n'] + b;
    assert(t[a.len() + 1int] == '\n');
    assert forall|k: int| 0 <= k < a.len() + 1 implies !p(#[trigger] t[k]) by {
        if k < a.len() {
            assert(t[k] == a[k]);
        }
    }
    lemma_find_is(t, p, a.len() + 1int);
    assert(t.take(a.len() + 1int) =~= a.push('\r'));
    assert(a.push('\r').drop_last() =~= a);
    assert(t.skip(a.len() + 2int) =~= b);
}

/// A text is cut no more than it must be: with one more character it would be too long.
pub proof fn law_cut_is_longest(s: Seq<char>, limit: nat)
    requires
        byte_prefix(s, limit) != s,
    ensures
        encode_utf8(s.take(byte_prefix(s, limit).len() + 1int)).len() > limit,
    decreases s.len(),
{
    let t = s.drop_last();
    let r = byte_prefix(t, limit);
    law_byte_prefix(t, limit);
    if r == t {
        assert(s.take(t.len() + 1int) =~= s);
    } else {
        law_cut_is_longest(t, limit);
        assert(r.len() < t.len()) by {
            if r.len() >= t.len() {
                assert(r =~= t);
            }
        }
        assert(s.take(r.len() + 1int) =~= t.take(r.len() + 1int));
    }
}

/// The digits of a number stand for it, and begin with no zero unless it is zero.
pub proof fn law_decimal(n: nat)
    ensures
        decimal(n).len() > 0,
        forall|i: int| 0 <= i < decimal(n).len() ==> '0' <= #[trigger] decimal(n)[i] <= '9',
        n > 0 ==> decimal(n)[0] != '0',
        digits_value(decimal(n)) == n,
        n <= u64::MAX ==> number(decimal(n)) == Some(n as int),
        n <= u64::MAX ==> number("+"@ + decimal(n)) == Some(n as int),
    decreases n,
{
    reveal_strlit("+");
    let s = decimal(n);
    if n < 10 {
        assert(s.drop_last() =~= Seq::empty());
        reveal_with_fuel(digits_value, 2);
    } else {
        law_decimal(n / 10);
        let init = decimal(n / 10);
        assert(s.drop_last() =~= init);
        assert(s[0] == init[0]);
        assert forall|i: int| 0 <= i < s.len() implies '0' <= #[trigger] s[i] <= '9' by {
            if i < init.len() {
                assert(s[i] == init[i]);
            }
        }
    }
    assert('0' <= s[0]);
    assert(("+"@ + s).skip(1) =~= s);
}

/// A digit behind a number makes it ten times as large, and adds the digit. No other
/// character stands in a number, but for a plus sign before it.
pub proof fn law_number(s: Seq<char>, c: char)
    ensures
        '0' <= c && c <= '9' ==> number(seq![c]) == Some(c as int - '0' as int),
        (number(s) matches Some(v) && '0' <= c && c <= '9' && v * 10 + (c as int - '0' as int)
            <= u64::MAX) ==> number(s.push(c)) == Some(
            number(s)->0 * 10 + (c as int - '0' as int),
        ),
        (number(s) matches Some(v) && '0' <= c && c <= '9' && v * 10 + (c as int - '0' as int)
            > u64::MAX) ==> number(s.push(c)) is None,
        !('0' <= c && c <= '9') ==> number(s.push(c)) is None,
        number(Seq::empty()) is None,
{
    let one = seq![c];
    assert(one.drop_last() =~= Seq::empty());
    assert(one.skip(0) =~= one);
    reveal_with_fuel(digits_value, 2);
    assert('0' <= c && c <= '9' ==> all_digits(one));
    let t = s.push(c);
    let plus = s.len() > 0 && s[0] == '+';
    let digits = if plus {
        s.skip(1)
    } else {
        s
    };
    if s.len() > 0 {
        assert(t[0] == s[0]);
    }
    if plus {
        assert(t.skip(1) =~= digits.push(c));
    }
    let more = digits.push(c);
    assert(more.drop_last() =~= digits);
    assert(more.last() == c);
    if '0' <= c && c <= '9' && all_digits(digits) {
        assert forall|i: int| 0 <= i < more.len() implies '0' <= #[trigger] more[i] <= '9' by {
            if i < digits.len() {
                assert(more[i] == digits[i]);
            }
        }
    }
    if !('0' <= c && c <= '9') {
        assert(!all_digits(more)) by {
            assert(more[more.len() - 1] == c);
        }
        if s.len() == 0 && c == '+' {
            assert(t.skip(1).len() == 0);
        } else if s.len() == 0 {
            assert(t =~= more);
        }
    }
}

/// Texts that are joined by a character which none of them holds come back when the
/// joined text is split there.
pub proof fn law_split_joined(parts: Seq<Seq<char>>, c: char)
    requires
        parts.len() > 0,
        forall|k: int| 0 <= k < parts.len() ==> !(#[trigger] parts[k]).contains(c),
    ensures
        split(join(parts, seq![c]), among(seq![c])) == parts,
    decreases parts.len(),
{
    let p = among(seq![c]);
    assert(seq![c][0] == c);
    assert(p(c));
    let last = parts[parts.len() - 1];
    assert(!last.contains(c));
    assert forall|k: int| 0 <= k < last.len() implies !p(#[trigger] last[k]) by {
        assert(last.contains(last[k]));
    }
    law_split(last, c, Seq::empty(), p);
    if parts.len() == 1 {
        assert(parts =~= seq![last]);
    } else {
        let init = parts.drop_last();
        assert forall|k: int| 0 <= k < init.len() implies !(#[trigger] init[k]).contains(c) by {
            assert(init[k] == parts[k]);
        }
        law_split_joined(init, c);
        law_split(join(init, seq![c]), c, last, p);
        assert(init + seq![last] =~= parts);
    }
}

/// A text is gone through from its start: where a copy of the pattern stands it is
/// replaced and passed over, elsewhere a character is kept.
pub proof fn law_replace_goes_on(s: Seq<char>, pat: Seq<char>, with: Seq<char>)
    requires
        pat.len() > 0,
    ensures
        replace(pat + s, pat, with) == with + replace(s, pat, with),
        s.len() > 0 && !pat.is_prefix_of(s) ==> replace(s, pat, with) == seq![s[0]] + replace(
            s.drop_first(),
            pat,
            with,
        ),
        replace(Seq::empty(), pat, with).len() == 0,
{
    assert((pat + s).subrange(0, pat.len() as int) =~= pat);
    assert((pat + s).skip(pat.len() as int) =~= s);
}

} // verus!
