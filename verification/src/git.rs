//! What is read of a Git repository.
use vstd::prelude::*;
use vstd::utf8::*;

use crate::language::{language_of, Language};
use crate::path::{
    canonical, canonical_path, components, join_path, law_canonical_keeps_components,
    law_components_under, law_names_between_slashes, under,
};
use crate::text::{byte_prefix, cut_to_bytes, join, law_byte_prefix, law_cut_is_longest};

verus! {

/// The most bytes of a recent diff that are kept.
pub const DIFF_LIMIT: usize = 524_288;

/// A repository, by the absolute path of its working directory. Which directory that is,
/// and that its path holds no links, rests on the file system: the caller resolves the
/// path.
#[derive(Debug)]
pub struct GitRepo {
    root: String,
}

/// An entry of the tree of a commit.
#[derive(Debug)]
pub struct TreeEntry {
    /// The directory that holds it, with a slash at the end; empty at the top.
    pub dir: String,
    /// Its name, where that is readable.
    pub name: Option<String>,
    /// Whether it is a file.
    pub blob: bool,
    /// The hash of its content.
    pub sha: String,
    /// The size of its content, where that is known.
    pub size: Option<i64>,
}

/// A file of the repository.
#[derive(Debug)]
pub struct ScannedFile {
    /// The path from the root of the repository.
    pub path: String,
    pub lang: Language,
    /// The hash of its content.
    pub blob_sha: String,
    /// The size of its content.
    pub size: i64,
}

/// A file of the repository, with texts for its strings.
#[verifier::ext_equal]
pub struct ScannedView {
    pub path: Seq<char>,
    pub lang: Language,
    pub blob_sha: Seq<char>,
    pub size: i64,
}

impl View for ScannedFile {
    type V = ScannedView;

    open spec fn view(&self) -> ScannedView {
        ScannedView {
            path: self.path@,
            lang: self.lang,
            blob_sha: self.blob_sha@,
            size: self.size,
        }
    }
}

/// The files, with texts for their strings.
pub open spec fn scanned_views(files: Seq<ScannedFile>) -> Seq<ScannedView> {
    files.map_values(|f: ScannedFile| f@)
}

/// The path of an entry.
pub open spec fn entry_path(entry: TreeEntry) -> Seq<char> {
    under(
        entry.dir@,
        match entry.name {
            Some(name) => name@,
            None => ""@,
        },
    )
}

/// The file that an entry stands for.
pub open spec fn scanned_entry(entry: TreeEntry) -> ScannedView {
    ScannedView {
        path: entry_path(entry),
        lang: language_of(entry_path(entry)),
        blob_sha: entry.sha@,
        size: match entry.size {
            Some(size) => size,
            None => 0,
        },
    }
}

/// The files among the entries.
pub open spec fn scanned(entries: Seq<TreeEntry>) -> Seq<ScannedView>
    decreases entries.len(),
{
    if entries.len() == 0 {
        Seq::empty()
    } else if entries.last().blob {
        scanned(entries.drop_last()).push(scanned_entry(entries.last()))
    } else {
        scanned(entries.drop_last())
    }
}

impl GitRepo {
    /// The path of the working directory.
    pub closed spec fn spec_root(self) -> Seq<char> {
        self.root@
    }

    #[verifier::type_invariant]
    closed spec fn wf(self) -> bool {
        canonical(self.root@) == self.root@
    }

    /// The repository with the given working directory. Needless slashes and dots leave
    /// its path.
    pub fn new(root: &str) -> (r: GitRepo)
        ensures
            r.spec_root() == canonical(root@),
    {
        proof {
            law_canonical_keeps_components(root@);
        }
        GitRepo { root: canonical_path(root) }
    }

    /// The path of the working directory. A repository that is opened there has the same
    /// root.
    pub fn root(&self) -> (r: &str)
        ensures
            r@ == self.spec_root(),
            canonical(r@) == r@,
    {
        proof {
            use_type_invariant(self);
        }
        self.root.as_str()
    }

    /// The path of a file of the repository in the file system.
    pub fn file_path(&self, path: &str) -> (r: String)
        ensures
            r@ == under(self.spec_root(), path@),
    {
        join_path(self.root.as_str(), path)
    }

    /// Picks the files among the entries of a tree, in their order.
    pub fn scan(&self, entries: &Vec<TreeEntry>) -> (r: Vec<ScannedFile>)
        ensures
            scanned_views(r@) == scanned(entries@),
    {
        let mut out: Vec<ScannedFile> = Vec::new();
        let mut i: usize = 0;
        assert(scanned_views(out@) =~= Seq::empty());
        while i < entries.len()
            invariant
                i <= entries@.len(),
                scanned_views(out@) == scanned(entries@.take(i as int)),
            decreases entries@.len() - i,
        {
            let ghost next = entries@.take(i + 1);
            assert(next.drop_last() =~= entries@.take(i as int));
            let entry = &entries[i];
            assert(next.last() == entries@[i as int]);
            if entry.blob {
                let ghost so_far = scanned_views(out@);
                let path = match &entry.name {
                    Some(name) => join_path(entry.dir.as_str(), name.as_str()),
                    None => join_path(entry.dir.as_str(), ""),
                };
                let lang = Language::from_path(path.as_str());
                let size: i64 = match entry.size {
                    Some(size) => size,
                    None => 0,
                };
                let file = ScannedFile { path, lang, blob_sha: entry.sha.clone(), size };
                assert(file@ == scanned_entry(*entry));
                out.push(file);
                assert(scanned_views(out@) =~= so_far.push(file@));
            }
            i += 1;
        }
        assert(entries@.take(i as int) =~= entries@);
        out
    }
}

/// What is kept of the text of a recent diff.
pub fn cap_diff(diff: &str) -> (r: String)
    ensures
        r@ == byte_prefix(diff@, DIFF_LIMIT as nat),
{
    cut_to_bytes(diff, DIFF_LIMIT)
}

// ---------------------------------------------------------------------------
// Laws

/// The entries that are files are scanned, in their order, and no other.
pub proof fn law_scanned_are_the_files(entries: Seq<TreeEntry>)
    ensures
        scanned(entries) == entries.filter(|e: TreeEntry| e.blob).map_values(
            |e: TreeEntry| scanned_entry(e),
        ),
    decreases entries.len(),
{
    reveal(Seq::filter);
    let p = |e: TreeEntry| e.blob;
    let f = |e: TreeEntry| scanned_entry(e);
    if entries.len() == 0 {
        assert(entries.filter(p).map_values(f) =~= Seq::empty());
    } else {
        law_scanned_are_the_files(entries.drop_last());
        let before = entries.drop_last().filter(p);
        let last = entries.last();
        assert(before.push(last).map_values(f) =~= before.map_values(f).push(f(last)));
    }
}

/// A scanned file stands at its name in its directory, in the language of its extension,
/// with the hash of the entry, and with its size where that is known.
pub proof fn law_scanned_file(entry: TreeEntry, name: String)
    requires
        entry.name == Some(name),
        name@.len() > 0,
        !name@.contains('/'),
        name@ != "."@,
    ensures
        components(scanned_entry(entry).path) == components(entry.dir@).push(name@),
        scanned_entry(entry).lang == language_of(scanned_entry(entry).path),
        scanned_entry(entry).blob_sha == entry.sha@,
        entry.size matches Some(n) ==> scanned_entry(entry).size == n,
        entry.size is None ==> scanned_entry(entry).size == 0,
{
    let one = seq![name@];
    law_names_between_slashes(one);
    assert(join(one, "/"@) == name@);
    assert(name@[0] != '/') by {
        assert(name@.contains(name@[0]));
    }
    law_components_under(entry.dir@, name@);
    assert(components(entry.dir@) + one =~= components(entry.dir@).push(name@));
}

/// A diff is kept up to 512 KiB, and cut no more than it must be.
pub proof fn law_diff_is_cut_late(diff: Seq<char>)
    ensures
        byte_prefix(diff, DIFF_LIMIT as nat).is_prefix_of(diff),
        encode_utf8(byte_prefix(diff, DIFF_LIMIT as nat)).len() <= 512 * 1024,
        byte_prefix(diff, DIFF_LIMIT as nat) == diff || encode_utf8(
            diff.take(byte_prefix(diff, DIFF_LIMIT as nat).len() + 1int),
        ).len() > 512 * 1024,
{
    law_byte_prefix(diff, DIFF_LIMIT as nat);
    if byte_prefix(diff, DIFF_LIMIT as nat) != diff {
        law_cut_is_longest(diff, DIFF_LIMIT as nat);
    }
}

/// An entry without a readable name stands at its directory.
pub proof fn law_nameless_entry(entry: TreeEntry)
    requires
        entry.name is None,
    ensures
        components(scanned_entry(entry).path) == components(entry.dir@),
{
    reveal_strlit("");
    law_names_between_slashes(Seq::empty());
    assert(join(Seq::empty(), "/"@) =~= ""@);
    law_components_under(entry.dir@, ""@);
    assert(components(entry.dir@) + components(""@) =~= components(entry.dir@));
}

} // verus!
