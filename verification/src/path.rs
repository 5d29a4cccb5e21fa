//! Paths with `/` between their components, as Git writes them.
use vstd::prelude::*;

use crate::text::{
    among, chars_of, find, join, joined, law_split, lemma_find, lemma_find_is, same, slice, split,
    split_at_any, texts,
};

verus! {

/// The pieces that name something: empty ones and single dots do not.
pub open spec fn proper(pieces: Seq<Seq<char>>) -> Seq<Seq<char>>
    decreases pieces.len(),
{
    if pieces.len() == 0 {
        Seq::empty()
    } else {
        let init = proper(pieces.drop_last());
        if pieces.last() == ""@ || pieces.last() == "."@ {
            init
        } else {
            init.push(pieces.last())
        }
    }
}

/// Whether a path is absolute.
pub open spec fn is_absolute(p: Seq<char>) -> bool {
    p.len() > 0 && p[0] == '/'
}

/// The components of a path: `/` first if it is absolute, `.` first if it begins
/// with a single dot, then what stands between its slashes.
pub open spec fn components(p: Seq<char>) -> Seq<Seq<char>> {
    let pieces = split(p, among("/"@));
    if is_absolute(p) {
        seq!["/"@] + proper(pieces)
    } else if pieces[0] == "."@ {
        seq!["."@] + proper(pieces)
    } else {
        proper(pieces)
    }
}

/// The path with the given components.
pub open spec fn written(parts: Seq<Seq<char>>) -> Seq<char> {
    if parts.len() > 0 && parts[0] == "/"@ {
        "/"@ + join(parts.drop_first(), "/"@)
    } else {
        join(parts, "/"@)
    }
}

/// A path without needless slashes and dots. Two paths are the same where this
/// is.
pub open spec fn canonical(p: Seq<char>) -> Seq<char> {
    written(components(p))
}

/// The path of the directory that holds `p`; the root and the empty path have
/// none.
pub open spec fn parent(p: Seq<char>) -> Option<Seq<char>> {
    let parts = components(p);
    if parts.len() == 0 || parts.last() == "/"@ {
        None
    } else {
        Some(written(parts.drop_last()))
    }
}

/// The last component of a path, where that is a name.
pub open spec fn file_name(p: Seq<char>) -> Option<Seq<char>> {
    let parts = components(p);
    if parts.len() == 0 || parts.last() == "/"@ || parts.last() == "."@ || parts.last() == ".."@ {
        None
    } else {
        Some(parts.last())
    }
}

/// Where `c` stands last in `s`; -1 if it does not occur.
pub open spec fn last_index(s: Seq<char>, c: char) -> int
    decreases s.len(),
{
    if s.len() == 0 {
        -1
    } else if s.last() == c {
        s.len() - 1
    } else {
        last_index(s.drop_last(), c)
    }
}

/// What follows the last dot of the file name, unless that dot begins the name.
pub open spec fn extension(p: Seq<char>) -> Option<Seq<char>> {
    match file_name(p) {
        None => None,
        Some(name) => {
            let i = last_index(name, '.');
            if i <= 0 {
                None
            } else {
                Some(name.skip(i + 1))
            }
        },
    }
}

/// `tail` taken from the directory `base`.
pub open spec fn under(base: Seq<char>, tail: Seq<char>) -> Seq<char> {
    if is_absolute(tail) || base.len() == 0 {
        tail
    } else if base.last() == '/' {
        base + tail
    } else {
        base + "/"@ + tail
    }
}

fn absolute(p: &str) -> (r: bool)
    ensures
        r == is_absolute(p@),
{
    let cs = chars_of(p);
    cs.len() > 0 && cs[0] == '/'
}

/// Splits a path into its components.
pub fn split_components(p: &str) -> (r: Vec<String>)
    ensures
        texts(r@) == components(p@),
{
    let pieces = split_at_any(p, "/");
    let mut out: Vec<String> = Vec::new();
    assert(pieces@.len() > 0) by {
        assert(texts(pieces@).len() == pieces@.len());
    }
    if absolute(p) {
        out.push("/".to_owned());
    } else if same(pieces[0].as_str(), ".") {
        out.push(".".to_owned());
    }
    let ghost first = texts(out@);
    assert(first + Seq::<Seq<char>>::empty() =~= first);
    let mut i: usize = 0;
    while i < pieces.len()
        invariant
            i <= pieces@.len(),
            texts(out@) == first + proper(texts(pieces@).take(i as int)),
        decreases pieces@.len() - i,
    {
        let ghost next = texts(pieces@).take(i + 1);
        let ghost so_far = texts(out@);
        assert(next.drop_last() =~= texts(pieces@).take(i as int));
        assert(next.last() == pieces@[i as int]@);
        if !same(pieces[i].as_str(), "") && !same(pieces[i].as_str(), ".") {
            let piece = pieces[i].clone();
            out.push(piece);
            assert(texts(out@) =~= so_far.push(piece@));
            assert(so_far.push(piece@) =~= first + proper(next));
        }
        i += 1;
    }
    assert(texts(pieces@).take(i as int) =~= texts(pieces@));
    proof {
        let parts = proper(texts(pieces@));
        if is_absolute(p@) {
            assert(first =~= seq!["/"@]);
        } else if pieces@[0]@ == "."@ {
            assert(first =~= seq!["."@]);
        } else {
            assert(first + parts =~= parts);
        }
    }
    out
}

/// Writes components as a path.
pub fn write_components(parts: &Vec<String>) -> (r: String)
    ensures
        r@ == written(texts(parts@)),
{
    if parts.len() > 0 && same(parts[0].as_str(), "/") {
        let mut rest: Vec<String> = Vec::new();
        let mut i: usize = 1;
        while i < parts.len()
            invariant
                1 <= i <= parts@.len(),
                texts(rest@) =~= texts(parts@).subrange(1, i as int),
            decreases parts@.len() - i,
        {
            let ghost so_far = texts(rest@);
            let part = parts[i].clone();
            rest.push(part);
            assert(texts(rest@) =~= so_far.push(part@));
            i += 1;
        }
        assert(texts(rest@) =~= texts(parts@).drop_first());
        let mut out = "/".to_owned();
        let tail = joined(&rest, "/");
        out.append(tail.as_str());
        out
    } else {
        joined(parts, "/")
    }
}

/// The path without needless slashes and dots.
pub fn canonical_path(p: &str) -> (r: String)
    ensures
        r@ == canonical(p@),
{
    let parts = split_components(p);
    write_components(&parts)
}

/// The directory that holds a path.
pub fn parent_of(p: &str) -> (r: Option<String>)
    ensures
        match r {
            Some(d) => parent(p@) == Some(d@),
            None => parent(p@) is None,
        },
{
    let mut parts = split_components(p);
    let n: usize = parts.len();
    if n == 0 {
        return None;
    }
    assert(texts(parts@).last() == parts@[n - 1]@);
    if same(parts[n - 1].as_str(), "/") {
        return None;
    }
    let ghost all = texts(parts@);
    parts.pop();
    assert(texts(parts@) =~= all.drop_last());
    Some(write_components(&parts))
}

/// The file name of a path.
pub fn file_name_of(p: &str) -> (r: Option<String>)
    ensures
        match r {
            Some(f) => file_name(p@) == Some(f@),
            None => file_name(p@) is None,
        },
{
    let parts = split_components(p);
    let n: usize = parts.len();
    if n == 0 {
        return None;
    }
    assert(texts(parts@).last() == parts@[n - 1]@);
    let last = parts[n - 1].as_str();
    if same(last, "/") || same(last, ".") || same(last, "..") {
        None
    } else {
        Some(last.to_owned())
    }
}

/// The extension of a path.
pub fn extension_of(p: &str) -> (r: Option<String>)
    ensures
        match r {
            Some(e) => extension(p@) == Some(e@),
            None => extension(p@) is None,
        },
{
    match file_name_of(p) {
        None => None,
        Some(name) => {
            let cs = chars_of(name.as_str());
            let mut i: usize = cs.len();
            assert(cs@.take(i as int) =~= cs@);
            while i > 0 && cs[i - 1] != '.'
                invariant
                    i <= cs@.len(),
                    last_index(cs@, '.') == last_index(cs@.take(i as int), '.'),
                decreases i,
            {
                assert(cs@.take(i as int).last() == cs@[i - 1]);
                assert(cs@.take(i as int).drop_last() =~= cs@.take(i - 1));
                i -= 1;
            }
            if i > 0 {
                assert(cs@.take(i as int).last() == cs@[i - 1]);
            }
            if i <= 1 {
                None
            } else {
                let ext = slice(&cs, i, cs.len());
                assert(ext@ =~= cs@.skip(i as int));
                Some(ext)
            }
        },
    }
}

/// A path taken from a directory.
pub fn join_path(base: &str, tail: &str) -> (r: String)
    ensures
        r@ == under(base@, tail@),
{
    if absolute(tail) {
        return tail.to_owned();
    }
    let cs = chars_of(base);
    let n: usize = cs.len();
    if n == 0 {
        return tail.to_owned();
    }
    let mut out = base.to_owned();
    if cs[n - 1] != '/' {
        out.append("/");
    }
    out.append(tail);
    out
}

// ---------------------------------------------------------------------------
// Laws

/// Whether a text can be a component other than the root.
pub open spec fn is_part(c: Seq<char>) -> bool {
    c.len() > 0 && !c.contains('/') && c != "."@
}

/// Whether these can be the components of a path: the root or a single dot may
/// stand first.
pub open spec fn are_components(parts: Seq<Seq<char>>) -> bool {
    forall|k: int|
        0 <= k < parts.len() ==> is_part(#[trigger] parts[k]) || (k == 0 && (parts[k] == "/"@
            || parts[k] == "."@))
}

proof fn lemma_slash(c: char)
    ensures
        among("/"@)(c) == (c == '/'),
{
    reveal_strlit("/");
    if c == '/' {
        assert("/"@[0] == c);
    }
}

proof fn lemma_split_pieces(s: Seq<char>, k: int)
    requires
        0 <= k < split(s, among("/"@)).len(),
    ensures
        !split(s, among("/"@))[k].contains('/'),
    decreases s.len(),
{
    let p = among("/"@);
    let i = find(s, p);
    lemma_find(s, p);
    if i < s.len() {
        if k == 0 {
            let first = s.take(i);
            if first.contains('/') {
                let m = choose|m: int| 0 <= m < first.len() && first[m] == '/';
                lemma_slash('/');
                assert(s[m] == '/');
            }
        } else {
            lemma_split_pieces(s.skip(i + 1), k - 1);
        }
    } else if s.contains('/') {
        let m = choose|m: int| 0 <= m < s.len() && s[m] == '/';
        lemma_slash('/');
        assert(!p(s[m]));
    }
}

proof fn lemma_proper(pieces: Seq<Seq<char>>)
    requires
        forall|k: int| 0 <= k < pieces.len() ==> !(#[trigger] pieces[k]).contains('/'),
    ensures
        forall|k: int| 0 <= k < proper(pieces).len() ==> is_part(#[trigger] proper(pieces)[k]),
    decreases pieces.len(),
{
    reveal_strlit("");
    if pieces.len() > 0 {
        let init = pieces.drop_last();
        assert forall|k: int| 0 <= k < init.len() implies !(#[trigger] init[k]).contains('/') by {
            assert(init[k] == pieces[k]);
        }
        lemma_proper(init);
        let last = pieces[pieces.len() - 1];
        if last.len() == 0 {
            assert(last =~= ""@);
        }
        let some = proper(init);
        assert forall|k: int| 0 <= k < proper(pieces).len() implies is_part(
            #[trigger] proper(pieces)[k],
        ) by {
            if k < some.len() {
                assert(proper(pieces)[k] == some[k]);
            } else {
                assert(proper(pieces)[k] == last);
            }
        }
    }
}

/// The components of a path are components.
pub proof fn lemma_components(p: Seq<char>)
    ensures
        are_components(components(p)),
{
    let pieces = split(p, among("/"@));
    assert forall|k: int| 0 <= k < pieces.len() implies !(#[trigger] pieces[k]).contains('/') by {
        lemma_split_pieces(p, k);
    }
    lemma_proper(pieces);
    let rest = proper(pieces);
    assert forall|k: int| 0 <= k < components(p).len() implies is_part(#[trigger] components(p)[k])
        || (k == 0 && (components(p)[k] == "/"@ || components(p)[k] == "."@)) by {
        if components(p) != rest {
            if k > 0 {
                assert(components(p)[k] == rest[k - 1]);
            }
        }
    }
}

proof fn lemma_split_one(s: Seq<char>)
    requires
        !s.contains('/'),
    ensures
        split(s, among("/"@)) == seq![s],
{
    let p = among("/"@);
    lemma_find(s, p);
    let i = find(s, p);
    if i < s.len() {
        lemma_slash(s[i]);
        assert(s.contains(s[i]));
    }
}

proof fn lemma_split_appended(a: Seq<char>, b: Seq<char>)
    requires
        !b.contains('/'),
    ensures
        split(a + "/"@ + b, among("/"@)) == split(a, among("/"@)).push(b),
    decreases a.len(),
{
    reveal_strlit("/");
    let p = among("/"@);
    let s = a + "/"@ + b;
    let n = find(a, p);
    lemma_find(a, p);
    assert forall|k: int| 0 <= k < n implies !p(#[trigger] s[k]) by {
        assert(s[k] == a[k]);
    }
    lemma_slash('/');
    if n < a.len() {
        assert(s[n] == a[n]);
        lemma_find_is(s, p, n);
        assert(s.take(n) =~= a.take(n));
        assert(s.skip(n + 1) =~= a.skip(n + 1) + "/"@ + b);
        lemma_split_appended(a.skip(n + 1), b);
        assert(seq![a.take(n)] + split(a.skip(n + 1), p).push(b) =~= (seq![a.take(n)] + split(
            a.skip(n + 1),
            p,
        )).push(b));
    } else {
        assert(s[n] == '/');
        lemma_find_is(s, p, n);
        assert(s.take(n) =~= a);
        assert(s.skip(n + 1) =~= b);
        lemma_split_one(b);
        assert(seq![a] + seq![b] =~= seq![a].push(b));
    }
}

proof fn lemma_split_join(parts: Seq<Seq<char>>)
    requires
        parts.len() > 0,
        forall|k: int| 0 <= k < parts.len() ==> !(#[trigger] parts[k]).contains('/'),
    ensures
        split(join(parts, "/"@), among("/"@)) == parts,
    decreases parts.len(),
{
    if parts.len() == 1 {
        lemma_split_one(parts[0]);
        assert(seq![parts[0]] =~= parts);
    } else {
        let init = parts.drop_last();
        assert forall|k: int| 0 <= k < init.len() implies !(#[trigger] init[k]).contains('/') by {
            assert(init[k] == parts[k]);
        }
        lemma_split_join(init);
        assert(!parts[parts.len() - 1].contains('/'));
        lemma_split_appended(join(init, "/"@), parts.last());
        assert(init.push(parts.last()) =~= parts);
    }
}

proof fn lemma_proper_parts(parts: Seq<Seq<char>>)
    requires
        forall|k: int| 0 <= k < parts.len() ==> is_part(#[trigger] parts[k]),
    ensures
        proper(parts) == parts,
    decreases parts.len(),
{
    reveal_strlit("");
    if parts.len() > 0 {
        let init = parts.drop_last();
        assert forall|k: int| 0 <= k < init.len() implies is_part(#[trigger] init[k]) by {
            assert(init[k] == parts[k]);
        }
        lemma_proper_parts(init);
        assert(is_part(parts[parts.len() - 1]));
        assert(init.push(parts.last()) =~= parts);
    } else {
        assert(proper(parts) =~= parts);
    }
}

proof fn lemma_proper_first(first: Seq<char>, parts: Seq<Seq<char>>)
    requires
        first == ""@ || first == "."@,
        forall|k: int| 0 <= k < parts.len() ==> is_part(#[trigger] parts[k]),
    ensures
        proper(seq![first] + parts) == parts,
    decreases parts.len(),
{
    let all = seq![first] + parts;
    reveal_strlit("");
    if parts.len() > 0 {
        let init = parts.drop_last();
        assert forall|k: int| 0 <= k < init.len() implies is_part(#[trigger] init[k]) by {
            assert(init[k] == parts[k]);
        }
        lemma_proper_first(first, init);
        assert(all.drop_last() =~= seq![first] + init);
        assert(is_part(parts[parts.len() - 1]));
        assert(init.push(parts.last()) =~= parts);
    } else {
        assert(all.drop_last() =~= Seq::empty());
        assert(all.last() == first);
        reveal_with_fuel(proper, 2);
        assert(proper(all) =~= parts);
    }
}

/// A path that is written from components has these components.
pub proof fn law_written_components(parts: Seq<Seq<char>>)
    requires
        are_components(parts),
    ensures
        components(written(parts)) == parts,
{
    reveal_strlit("/");
    reveal_strlit(".");
    reveal_strlit("");
    let p = written(parts);
    if parts.len() == 0 {
        assert(p =~= ""@);
        lemma_split_one(p);
        assert(proper(seq![p]) =~= Seq::empty()) by {
            assert(seq![p].drop_last() =~= Seq::empty());
            assert(seq![p].last() == p);
            reveal_with_fuel(proper, 2);
        }
        assert(components(p) =~= parts);
    } else if parts[0] == "/"@ {
        let rest = parts.drop_first();
        assert forall|k: int| 0 <= k < rest.len() implies is_part(#[trigger] rest[k]) by {
            assert(rest[k] == parts[k + 1]);
        }
        assert forall|k: int| 0 <= k < rest.len() implies !(#[trigger] rest[k]).contains('/') by {
            assert(is_part(rest[k]));
        }
        assert(p[0] == '/');
        lemma_slash('/');
        lemma_find_is(p, among("/"@), 0);
        let tail = join(rest, "/"@);
        assert(p.take(0) =~= ""@);
        assert(p.skip(1) =~= tail);
        if rest.len() == 0 {
            assert(tail =~= ""@);
            lemma_split_one(tail);
            assert(proper(seq![""@] + seq![tail]) =~= Seq::empty()) by {
                let two = seq![""@] + seq![tail];
                assert(two.drop_last() =~= seq![""@]);
                assert(seq![""@].drop_last() =~= Seq::empty());
                reveal_with_fuel(proper, 3);
            }
            assert(components(p) =~= parts);
        } else {
            lemma_split_join(rest);
            lemma_proper_first(""@, rest);
            assert(seq!["/"@] + rest =~= parts);
        }
    } else {
        assert forall|k: int| 0 <= k < parts.len() implies !(#[trigger] parts[k]).contains('/') by {
            assert(is_part(parts[k]) || parts[k] == "."@);
        }
        lemma_split_join(parts);
        assert(!is_absolute(p)) by {
            if is_absolute(p) {
                lemma_slash('/');
                lemma_find_is(p, among("/"@), 0);
                assert(split(p, among("/"@))[0] =~= p.take(0));
                assert(parts[0].len() == 0);
            }
        }
        if parts[0] == "."@ {
            let rest = parts.drop_first();
            assert forall|k: int| 0 <= k < rest.len() implies is_part(#[trigger] rest[k]) by {
                assert(rest[k] == parts[k + 1]);
            }
            lemma_proper_first("."@, rest);
            assert(seq!["."@] + rest =~= parts);
        } else {
            lemma_proper_parts(parts);
        }
    }
}

/// A canonical path has the components of the path, and is canonical itself.
pub proof fn law_canonical_keeps_components(p: Seq<char>)
    ensures
        components(canonical(p)) == components(p),
        canonical(canonical(p)) == canonical(p),
{
    lemma_components(p);
    law_written_components(components(p));
}

/// Two paths have the same canonical form exactly if they have the same
/// components.
pub proof fn law_canonical_decides(p: Seq<char>, q: Seq<char>)
    ensures
        canonical(p) == canonical(q) <==> components(p) == components(q),
{
    law_canonical_keeps_components(p);
    law_canonical_keeps_components(q);
}

/// Names between slashes are the components of the path.
pub proof fn law_names_between_slashes(names: Seq<Seq<char>>)
    requires
        forall|k: int|
            0 <= k < names.len() ==> (#[trigger] names[k]).len() > 0 && !names[k].contains('/')
                && names[k] != "."@,
    ensures
        components(join(names, "/"@)) == names,
        components("/"@ + join(names, "/"@)) == seq!["/"@] + names,
{
    reveal_strlit("/");
    assert forall|k: int| 0 <= k < names.len() implies is_part(#[trigger] names[k]) by {}
    assert(names.len() > 0 ==> names[0] != "/"@) by {
        if names.len() > 0 && names[0] == "/"@ {
            assert(names[0][0] == '/');
            assert(names[0].contains('/'));
        }
    }
    law_written_components(names);
    let rooted = seq!["/"@] + names;
    assert forall|k: int| 0 <= k < rooted.len() implies is_part(#[trigger] rooted[k]) || (k == 0 && (
    rooted[k] == "/"@ || rooted[k] == "."@)) by {
        if k > 0 {
            assert(rooted[k] == names[k - 1]);
        }
    }
    law_written_components(rooted);
    assert(rooted.drop_first() =~= names);
}

proof fn lemma_proper_concat(a: Seq<Seq<char>>, b: Seq<Seq<char>>)
    ensures
        proper(a + b) == proper(a) + proper(b),
    decreases b.len(),
{
    if b.len() == 0 {
        assert(a + b =~= a);
        assert(proper(a) + proper(b) =~= proper(a));
    } else {
        assert((a + b).drop_last() =~= a + b.drop_last());
        assert((a + b).last() == b.last());
        lemma_proper_concat(a, b.drop_last());
        assert(proper(a + b) =~= proper(a) + proper(b));
    }
}

/// The components of a path below a directory are those of the directory and then those
/// of the path. A root or a single dot at the start of the lower path is none of them.
pub proof fn law_components_below(a: Seq<char>, b: Seq<char>)
    requires
        a.len() > 0,
    ensures
        components(a + "/"@ + b) == components(a) + if components(b).len() > 0 && (components(b)[0]
            == "/"@ || components(b)[0] == "."@) {
            components(b).drop_first()
        } else {
            components(b)
        },
{
    reveal_strlit("/");
    reveal_strlit(".");
    let p = among("/"@);
    let s = a + "/"@ + b;
    lemma_slash('/');
    assert("/"@ =~= seq!['/']);
    law_split(a, '/', b, p);
    lemma_proper_concat(split(a, p), split(b, p));
    assert(s[0] == a[0]);
    assert(split(s, p)[0] == split(a, p)[0]);
    let pa = proper(split(a, p));
    let pb = proper(split(b, p));
    assert forall|k: int| 0 <= k < split(b, p).len() implies !(#[trigger] split(b, p)[k]).contains(
        '/',
    ) by {
        lemma_split_pieces(b, k);
    }
    lemma_proper(split(b, p));
    if is_absolute(b) {
        assert((seq!["/"@] + pb).drop_first() =~= pb);
    } else if split(b, p)[0] == "."@ {
        assert((seq!["."@] + pb).drop_first() =~= pb);
    } else if pb.len() > 0 {
        assert(is_part(pb[0]));
        if pb[0] == "/"@ {
            assert(pb[0][0] == '/');
            assert(pb[0].contains('/'));
        }
    }
    let head = if is_absolute(a) {
        seq!["/"@]
    } else if split(a, p)[0] == "."@ {
        seq!["."@]
    } else {
        Seq::empty()
    };
    assert(components(a) =~= head + pa);
    assert(components(s) =~= head + (pa + pb));
    assert(head + (pa + pb) =~= (head + pa) + pb);
}

proof fn lemma_under_dot(base: Seq<char>, tail: Seq<char>)
    requires
        base.len() > 0,
        tail.len() == 0 || tail[0] != '/',
        components(tail).len() > 0,
        components(tail)[0] == "."@,
    ensures
        components(under(base, tail)) == components(base) + components(tail).drop_first(),
{
    reveal_strlit("/");
    reveal_strlit("");
    reveal_strlit(".");
    lemma_slash('/');
    assert("/"@ =~= seq!['/']);
    let p = among("/"@);
    if base.last() == '/' {
        let head = base.drop_last();
        let none = Seq::<char>::empty();
        assert(base + tail =~= head + "/"@ + tail);
        assert(base =~= head + "/"@ + none);
        lemma_split_one(none);
        reveal_with_fuel(proper, 2);
        assert(none =~= ""@);
        assert(seq![none].drop_last() =~= Seq::empty());
        assert(components(none) =~= Seq::empty());
        if head.len() > 0 {
            law_components_below(head, tail);
            law_components_below(head, none);
            assert(components(head) + components(none) =~= components(head));
        } else {
            law_split(none, '/', tail, p);
            law_split(none, '/', none, p);
            assert(base + tail =~= none + seq!['/'] + tail);
            assert(base =~= none + seq!['/'] + none);
            lemma_proper_concat(split(none, p), split(tail, p));
            lemma_proper_concat(split(none, p), split(none, p));
            assert(proper(split(none, p)) =~= Seq::empty());
            assert(components(base) =~= seq!["/"@]);
            let pieces = split(tail, p);
            assert forall|k: int| 0 <= k < pieces.len() implies !(
            #[trigger] pieces[k]).contains('/') by {
                lemma_split_pieces(tail, k);
            }
            lemma_proper(pieces);
            if pieces[0] != "."@ {
                assert(is_part(proper(pieces)[0]));
            }
            assert(components(tail).drop_first() =~= proper(pieces));
            assert(components(base + tail) =~= seq!["/"@] + proper(pieces));
        }
    } else {
        law_components_below(base, tail);
    }
}

/// A path taken from a directory has the components of both; an absolute one has its
/// own.
pub proof fn law_components_under(base: Seq<char>, tail: Seq<char>)
    ensures
        tail.len() > 0 && tail[0] == '/' ==> under(base, tail) == tail,
        (tail.len() == 0 || tail[0] != '/') && (components(tail).len() == 0 || components(tail)[0]
            != "."@) ==> components(under(base, tail)) == components(base) + components(tail),
        base.len() > 0 && (tail.len() == 0 || tail[0] != '/') && components(tail).len() > 0
            && components(tail)[0] == "."@ ==> components(under(base, tail)) == components(base)
            + components(tail).drop_first(),
{
    reveal_strlit("/");
    lemma_slash('/');
    if base.len() > 0 && (tail.len() == 0 || tail[0] != '/') && components(tail).len() > 0
        && components(tail)[0] == "."@ {
        lemma_under_dot(base, tail);
    }
    if (tail.len() == 0 || tail[0] != '/') && (components(tail).len() == 0 || components(tail)[0]
        != "."@) {
        lemma_components(tail);
        if components(tail).len() > 0 && components(tail)[0] == "/"@ {
            let p = among("/"@);
            let pb = proper(split(tail, p));
            assert forall|k: int| 0 <= k < split(tail, p).len() implies !(#[trigger] split(
                tail,
                p,
            )[k]).contains('/') by {
                lemma_split_pieces(tail, k);
            }
            lemma_proper(split(tail, p));
            assert(is_part(pb[0]));
            assert(pb[0][0] == '/');
            assert(pb[0].contains('/'));
        }
        if base.len() == 0 {
            reveal_strlit("");
            reveal_strlit(".");
            assert(base =~= ""@);
            lemma_split_one(base);
            reveal_with_fuel(proper, 2);
            assert(seq![base].drop_last() =~= Seq::empty());
            assert(components(base) =~= Seq::empty());
            assert(components(base) + components(tail) =~= components(tail));
        } else if base.last() == '/' {
            let head = base.drop_last();
            let none = Seq::<char>::empty();
            assert(base + tail =~= head + "/"@ + tail);
            assert(base =~= head + "/"@ + none);
            lemma_split_one(none);
            reveal_with_fuel(proper, 2);
            reveal_strlit("");
            reveal_strlit(".");
            assert(none =~= ""@);
            assert(seq![none].drop_last() =~= Seq::empty());
            assert(components(none) =~= Seq::empty());
            if head.len() > 0 {
                law_components_below(head, tail);
                law_components_below(head, none);
                assert(components(head) + components(none) =~= components(head));
            } else {
                assert("/"@ =~= seq!['/']);
                let p = among("/"@);
                law_split(none, '/', tail, p);
                law_split(none, '/', none, p);
                assert(base + tail =~= none + seq!['/'] + tail);
                assert(base =~= none + seq!['/'] + none);
                lemma_proper_concat(split(none, p), split(tail, p));
                lemma_proper_concat(split(none, p), split(none, p));
                assert(proper(split(none, p)) =~= Seq::empty());
                assert(components(base) =~= seq!["/"@]);
                assert(components(base + tail) =~= seq!["/"@] + components(tail));
            }
        } else {
            law_components_below(base, tail);
        }
    }
}

/// The directory of a path has all its components but the last; only a root and a path
/// without components are in no directory.
pub proof fn law_parent(p: Seq<char>)
    ensures
        parent(p) is None <==> components(p).len() == 0 || components(p) == seq!["/"@],
        parent(p) matches Some(d) ==> components(d) == components(p).drop_last(),
{
    reveal_strlit("/");
    let parts = components(p);
    lemma_components(p);
    if parts.len() > 0 {
        let last = parts[parts.len() - 1];
        if last == "/"@ {
            assert(last[0] == '/');
            assert(last.contains('/'));
            assert(parts.len() == 1);
            assert(parts =~= seq!["/"@]);
        }
        if parts == seq!["/"@] {
            assert(parts.last() == "/"@);
        }
        let init = parts.drop_last();
        assert forall|k: int| 0 <= k < init.len() implies is_part(#[trigger] init[k]) || (k == 0 && (
        init[k] == "/"@ || init[k] == "."@)) by {
            assert(init[k] == parts[k]);
        }
        law_written_components(init);
    }
}

/// The name of a file is what follows the last slash, and its extension what follows the
/// last dot of the name. A dot at the start of the name begins no extension.
pub proof fn law_file_name(dir: Seq<char>, name: Seq<char>, stem: Seq<char>, ext: Seq<char>)
    requires
        name.len() > 0,
        !name.contains('/'),
        name != "."@,
        name != ".."@,
    ensures
        file_name(name) == Some(name),
        dir.len() > 0 ==> file_name(dir + "/"@ + name) == Some(name),
        dir.len() > 0 ==> extension(dir + "/"@ + name) == extension(name),
        name == stem + "."@ + ext && stem.len() > 0 && !ext.contains('.') ==> extension(name)
            == Some(ext),
        !name.drop_first().contains('.') ==> extension(name) is None,
{
    reveal_strlit("/");
    reveal_strlit(".");
    let one = seq![name];
    assert(join(one, "/"@) == name);
    law_names_between_slashes(one);
    if name == "/"@ {
        assert(name[0] == '/');
        assert(name.contains('/'));
    }
    if dir.len() > 0 {
        law_components_below(dir, name);
        assert((components(dir) + one).last() == name);
    }
    if name == stem + "."@ + ext && stem.len() > 0 && !ext.contains('.') {
        lemma_last_dot(stem, ext);
        assert(name.skip(stem.len() + 1int) =~= ext);
    }
    if !name.drop_first().contains('.') {
        lemma_no_dot(name);
    }
}

proof fn lemma_last_dot(stem: Seq<char>, ext: Seq<char>)
    requires
        !ext.contains('.'),
    ensures
        last_index(stem + "."@ + ext, '.') == stem.len(),
    decreases ext.len(),
{
    reveal_strlit(".");
    let s = stem + "."@ + ext;
    if ext.len() == 0 {
        assert(s.last() == '.');
    } else {
        assert(s.last() == ext.last());
        assert(ext.contains(ext.last()));
        let init = ext.drop_last();
        if init.contains('.') {
            let k = choose|k: int| 0 <= k < init.len() && init[k] == '.';
            assert(ext[k] == '.');
        }
        lemma_last_dot(stem, init);
        assert(s.drop_last() =~= stem + "."@ + init);
    }
}

proof fn lemma_no_dot(s: Seq<char>)
    requires
        s.len() > 0,
        !s.drop_first().contains('.'),
    ensures
        last_index(s, '.') <= 0,
    decreases s.len(),
{
    if s.len() == 1 {
        reveal_with_fuel(last_index, 2);
    } else {
        let t = s.drop_first();
        assert(t[t.len() - 1] == s.last());
        assert(t.contains(s.last()));
        let init = s.drop_last();
        if init.drop_first().contains('.') {
            let k = choose|k: int| 0 <= k < init.drop_first().len() && init.drop_first()[k] == '.';
            assert(t[k] == '.');
        }
        lemma_no_dot(init);
    }
}

/// Names are written with slashes between them, and behind a root with one slash before
/// them. Such a path is canonical; one with a slash at its end has the same canonical
/// form as without.
pub proof fn law_written(names: Seq<Seq<char>>, p: Seq<char>)
    requires
        forall|k: int|
            0 <= k < names.len() ==> (#[trigger] names[k]).len() > 0 && !names[k].contains('/')
                && names[k] != "."@,
    ensures
        written(names) == join(names, "/"@),
        written(seq!["/"@] + names) == "/"@ + join(names, "/"@),
        canonical(join(names, "/"@)) == join(names, "/"@),
        canonical("/"@ + join(names, "/"@)) == "/"@ + join(names, "/"@),
        p.len() > 0 ==> canonical(p + "/"@) == canonical(p),
        parent(p) matches Some(d) ==> canonical(d) == d,
{
    reveal_strlit("/");
    reveal_strlit("");
    if names.len() > 0 && names[0] == "/"@ {
        assert(names[0][0] == '/');
        assert(names[0].contains('/'));
    }
    assert((seq!["/"@] + names).drop_first() =~= names);
    law_names_between_slashes(names);
    if p.len() > 0 {
        let none = Seq::<char>::empty();
        law_names_between_slashes(Seq::empty());
        assert(join(Seq::empty(), "/"@) =~= none);
        law_components_below(p, none);
        assert(p + "/"@ + none =~= p + "/"@);
        assert(components(p) + components(none) =~= components(p));
    }
    law_parent(p);
    if let Some(d) = parent(p) {
        assert(d == written(components(p).drop_last()));
    }
}

/// The file name of a path is its last component, unless that is a root, one dot or two.
pub proof fn law_file_name_is_last(p: Seq<char>)
    ensures
        components(p).len() == 0 ==> file_name(p) is None && extension(p) is None,
        components(p).len() > 0 && (components(p).last() == "/"@ || components(p).last() == "."@
            || components(p).last() == ".."@) ==> file_name(p) is None && extension(p) is None,
        components(p).len() > 0 && components(p).last() != "/"@ && components(p).last() != "."@
            && components(p).last() != ".."@ ==> file_name(p) == Some(components(p).last())
            && extension(p) == extension(components(p).last()),
{
    let parts = components(p);
    if parts.len() > 0 && parts.last() != "/"@ && parts.last() != "."@ && parts.last() != ".."@ {
        let name = parts[parts.len() - 1];
        lemma_components(p);
        assert(is_part(name));
        law_file_name(Seq::empty(), name, Seq::empty(), Seq::empty());
    }
}

} // verus!
