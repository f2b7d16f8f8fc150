//! Finding the workspace around a directory, and the packages in it.
//!
//! The file system is known as far as it has been looked at: `Workspace::discover` either comes
//! to an end with what is known, or says what to look at next.

use crate::error::Error;
use crate::error::mentions;
use crate::order::lemma_increasing_unique;
use crate::order::lemma_inserted;
use crate::order::lemma_take_more;
use crate::paths::lemma_path_order;
use crate::paths::path_bytes;
use crate::paths::path_less;
use crate::paths::path_views;
use crate::paths::readable;
use crate::paths::sorted_paths;
use crate::paths::valid_parts;
use crate::paths::AbsPath;
use crate::paths::PathSet;
use crate::pyproject::PyProject;
use crate::pyproject::UvWorkspace;
use crate::text::same_text;
use crate::text::texts;
use crate::workspace::Workspace;
use vstd::prelude::*;
use vstd::utf8::encode_utf8;

verus! {

/// What stands under the name `pyproject.toml` in a directory.
#[derive(Debug)]
pub enum Manifest {
    /// No such file.
    Absent,
    /// A file that cannot be read or parsed; the text says why.
    Broken(String),
    Parsed(PyProject),
}

/// The directories that a glob below `root` matches, or why it cannot be expanded.
#[derive(Debug)]
pub struct Expanded {
    pub root: AbsPath,
    pub pattern: String,
    pub dirs: Result<Vec<AbsPath>, String>,
}

impl Expanded {
    /// The paths of the directories are well-formed.
    pub open spec fn wf(&self) -> bool {
        self.dirs matches Ok(dirs) ==> forall|i: int|
            0 <= i < dirs@.len() ==> (#[trigger] dirs@[i]).wf()
    }
}

/// What is known of the file system. Of two records on the same thing the later one counts.
#[derive(Debug)]
pub struct Snapshot {
    pub manifests: Vec<(AbsPath, Manifest)>,
    pub globs: Vec<Expanded>,
}

/// The record on a directory's manifest.
pub open spec fn manifest_at(
    manifests: Seq<(AbsPath, Manifest)>,
    dir: Seq<Seq<u8>>,
) -> Option<Manifest>
    decreases manifests.len(),
{
    if manifests.len() == 0 {
        None
    } else if manifests.last().0@ == dir {
        Some(manifests.last().1)
    } else {
        manifest_at(manifests.drop_last(), dir)
    }
}

/// The record on a glob.
pub open spec fn glob_at(
    globs: Seq<Expanded>,
    root: Seq<Seq<u8>>,
    pattern: Seq<char>,
) -> Option<Result<Vec<AbsPath>, String>>
    decreases globs.len(),
{
    if globs.len() == 0 {
        None
    } else if globs.last().root@ == root && globs.last().pattern@ == pattern {
        Some(globs.last().dirs)
    } else {
        glob_at(globs.drop_last(), root, pattern)
    }
}

/// How far the way up from a directory to the workspace root is known.
pub enum Search {
    /// The manifest in this directory decides.
    Ask(Seq<Seq<u8>>),
    Broken(Seq<char>),
    Nowhere,
    Root(Seq<Seq<u8>>),
}

/// Looks for the workspace in a directory and then in those above it.
pub open spec fn search(manifests: Seq<(AbsPath, Manifest)>, dir: Seq<Seq<u8>>) -> Search
    decreases dir.len(),
{
    let above = if dir.len() == 0 {
        Search::Nowhere
    } else {
        search(manifests, dir.drop_last())
    };
    match manifest_at(manifests, dir) {
        None => Search::Ask(dir),
        Some(Manifest::Absent) => above,
        Some(Manifest::Broken(text)) => Search::Broken(text@),
        Some(Manifest::Parsed(doc)) => if doc.tool.uv.workspace is Some {
            Search::Root(dir)
        } else {
            above
        },
    }
}

/// How far the directories that globs match are known.
pub enum Expansion {
    Ask(Seq<char>),
    Broken(Seq<char>),
    Dirs(Set<Seq<Seq<u8>>>),
}

/// The directories that the patterns match below `root`, looked at one after another.
pub open spec fn expansion(
    globs: Seq<Expanded>,
    root: Seq<Seq<u8>>,
    patterns: Seq<Seq<char>>,
) -> Expansion
    decreases patterns.len(),
{
    if patterns.len() == 0 {
        Expansion::Dirs(Set::empty())
    } else {
        match expansion(globs, root, patterns.drop_last()) {
            Expansion::Dirs(dirs) => match glob_at(globs, root, patterns.last()) {
                None => Expansion::Ask(patterns.last()),
                Some(Err(text)) => Expansion::Broken(text@),
                Some(Ok(more)) => Expansion::Dirs(dirs.union(path_views(more@).to_set())),
            },
            other => other,
        }
    }
}

/// The paths of a set in increasing order.
pub open spec fn listed(set: Set<Seq<Seq<u8>>>) -> Seq<Seq<Seq<u8>>> {
    choose|list: Seq<Seq<Seq<u8>>>| sorted_paths(list) && #[trigger] list.to_set() == set
}

proof fn lemma_listed(list: Seq<Seq<Seq<u8>>>)
    requires
        sorted_paths(list),
    ensures
        listed(list.to_set()) == list,
{
    let other = listed(list.to_set());
    assert(sorted_paths(other) && other.to_set() == list.to_set());
    lemma_path_order();
    assert forall|x: Seq<Seq<u8>>| other.contains(x) <==> list.contains(x) by {
        assert(other.to_set().contains(x) == other.contains(x));
        assert(list.to_set().contains(x) == list.contains(x));
    }
    lemma_increasing_unique(other, list, path_less());
}

/// How far the packages among directories are known.
pub enum Scan {
    Ask(Seq<Seq<u8>>),
    Broken { text: Seq<char>, skipped: Seq<Seq<Seq<u8>>> },
    /// The directories that hold a package, and those whose manifest has no `[project]`.
    Done { packages: Seq<Seq<Seq<u8>>>, skipped: Seq<Seq<Seq<u8>>> },
}

/// The packages in directories, looked at one after another.
pub open spec fn scan(manifests: Seq<(AbsPath, Manifest)>, dirs: Seq<Seq<Seq<u8>>>) -> Scan
    decreases dirs.len(),
{
    if dirs.len() == 0 {
        Scan::Done { packages: Seq::empty(), skipped: Seq::empty() }
    } else {
        match scan(manifests, dirs.drop_last()) {
            Scan::Done { packages, skipped } => match manifest_at(manifests, dirs.last()) {
                None => Scan::Ask(dirs.last()),
                Some(Manifest::Absent) => Scan::Done { packages, skipped },
                Some(Manifest::Broken(text)) => Scan::Broken { text: text@, skipped },
                Some(Manifest::Parsed(doc)) => if doc.project is Some {
                    Scan::Done { packages: packages.push(dirs.last()), skipped }
                } else {
                    Scan::Done { packages, skipped: skipped.push(dirs.last()) }
                },
            },
            other => other,
        }
    }
}

/// What follows from what is known.
pub enum Stage {
    ReadManifest(Seq<Seq<u8>>),
    ExpandGlob { root: Seq<Seq<u8>>, pattern: Seq<char> },
    NoWorkspace(Seq<Seq<u8>>),
    Broken { text: Seq<char>, skipped: Seq<Seq<Seq<u8>>> },
    Ready {
        root: Seq<Seq<u8>>,
        packages: Seq<Seq<Seq<u8>>>,
        skipped: Seq<Seq<Seq<u8>>>,
    },
}

/// The directories to look for packages in: what `members` matches, less what `exclude` matches
/// and less the root, which is never a member.
pub open spec fn member_dirs(
    root: Seq<Seq<u8>>,
    members: Set<Seq<Seq<u8>>>,
    exclude: Set<Seq<Seq<u8>>>,
) -> Seq<Seq<Seq<u8>>> {
    listed(members.difference(exclude).remove(root))
}

pub open spec fn scan_stage(
    manifests: Seq<(AbsPath, Manifest)>,
    root: Seq<Seq<u8>>,
    dirs: Seq<Seq<Seq<u8>>>,
) -> Stage {
    match scan(manifests, dirs) {
        Scan::Ask(dir) => Stage::ReadManifest(dir),
        Scan::Broken { text, skipped } => Stage::Broken { text, skipped },
        Scan::Done { packages, skipped } => Stage::Ready { root, packages, skipped },
    }
}

pub open spec fn root_stage(snapshot: Snapshot, root: Seq<Seq<u8>>, ws: UvWorkspace) -> Stage {
    match expansion(snapshot.globs@, root, texts(ws.exclude@)) {
        Expansion::Ask(pattern) => Stage::ExpandGlob { root, pattern },
        Expansion::Broken(text) => Stage::Broken { text, skipped: Seq::empty() },
        Expansion::Dirs(exclude) => match expansion(
            snapshot.globs@,
            root,
            texts(ws.members@),
        ) {
            Expansion::Ask(pattern) => Stage::ExpandGlob { root, pattern },
            Expansion::Broken(text) => Stage::Broken { text, skipped: Seq::empty() },
            Expansion::Dirs(members) => scan_stage(
                snapshot.manifests@,
                root,
                member_dirs(root, members, exclude),
            ),
        },
    }
}

/// What to do next, or the outcome, for a start in directory `start`.
pub open spec fn stage(snapshot: Snapshot, start: Seq<Seq<u8>>) -> Stage {
    match search(snapshot.manifests@, start) {
        Search::Ask(dir) => Stage::ReadManifest(dir),
        Search::Broken(text) => Stage::Broken { text, skipped: Seq::empty() },
        Search::Nowhere => Stage::NoWorkspace(start),
        Search::Root(root) => match manifest_at(snapshot.manifests@, root) {
            Some(Manifest::Parsed(doc)) => root_stage(
                snapshot,
                root,
                doc.tool.uv.workspace->0,
            ),
            _ => Stage::NoWorkspace(start),
        },
    }
}

impl Snapshot {
    /// Every document that was read is well-formed, and so are the paths of matched directories.
    pub open spec fn wf(&self) -> bool {
        &&& forall|i: int|
            0 <= i < self.manifests@.len() ==> ((#[trigger] self.manifests@[i]).1 matches
                Manifest::Parsed(doc) ==> doc.wf())
        &&& forall|i: int| 0 <= i < self.globs@.len() ==> (#[trigger] self.globs@[i]).wf()
    }

    pub fn new() -> (snapshot: Snapshot)
        ensures
            snapshot.wf(),
            snapshot.manifests@.len() == 0,
            snapshot.globs@.len() == 0,
    {
        Snapshot { manifests: Vec::new(), globs: Vec::new() }
    }

    /// What is known with one more record on a manifest.
    pub open spec fn learns_manifest(
        &self,
        dir: AbsPath,
        manifest: Manifest,
        after: Snapshot,
    ) -> bool {
        &&& after.manifests@ == self.manifests@.push((dir, manifest))
        &&& after.globs@ == self.globs@
    }

    /// What is known with one more record on a glob.
    pub open spec fn learns_glob(&self, record: Expanded, after: Snapshot) -> bool {
        &&& after.manifests@ == self.manifests@
        &&& after.globs@ == self.globs@.push(record)
    }

    /// Records what stands under `pyproject.toml` in a directory.
    pub fn record_manifest(&mut self, dir: AbsPath, manifest: Manifest)
        ensures
            old(self).learns_manifest(dir, manifest, *final(self)),
            old(self).wf() && (manifest matches Manifest::Parsed(doc) ==> doc.wf())
                ==> final(self).wf(),
    {
        self.manifests.push((dir, manifest));
    }

    /// Records what a glob below `root` matches.
    pub fn record_glob(
        &mut self,
        root: AbsPath,
        pattern: String,
        dirs: Result<Vec<AbsPath>, String>,
    )
        ensures
            old(self).learns_glob((Expanded { root, pattern, dirs }), *final(self)),
            old(self).wf() && (Expanded { root, pattern, dirs }).wf() ==> final(self).wf(),
    {
        self.globs.push(Expanded { root, pattern, dirs });
    }

    fn manifest(&self, dir: &AbsPath) -> (manifest: Option<&Manifest>)
        ensures
            match manifest {
                Some(manifest) => manifest_at(self.manifests@, dir@) == Some(*manifest),
                None => manifest_at(self.manifests@, dir@) is None,
            },
            self.wf() ==> (manifest matches Some(Manifest::Parsed(doc)) ==> doc.wf()),
    {
        let mut i: usize = self.manifests.len();
        proof {
            assert(self.manifests@.take(i as int) =~= self.manifests@);
        }
        while i > 0
            invariant
                i <= self.manifests@.len(),
                manifest_at(self.manifests@, dir@) == manifest_at(
                    self.manifests@.take(i as int),
                    dir@,
                ),
            decreases i,
        {
            proof {
                let head = self.manifests@.take(i as int);
                assert(head.drop_last() =~= self.manifests@.take(i - 1));
                assert(head.last() == self.manifests@[i - 1]);
            }
            i -= 1;
            if self.manifests[i].0.same(dir) {
                return Some(&self.manifests[i].1);
            }
        }
        None
    }

    fn glob(&self, root: &AbsPath, pattern: &str) -> (dirs: Option<&Result<Vec<AbsPath>, String>>)
        ensures
            match dirs {
                Some(dirs) => glob_at(self.globs@, root@, pattern@) == Some(*dirs),
                None => glob_at(self.globs@, root@, pattern@) is None,
            },
    {
        let mut i: usize = self.globs.len();
        proof {
            assert(self.globs@.take(i as int) =~= self.globs@);
        }
        while i > 0
            invariant
                i <= self.globs@.len(),
                glob_at(self.globs@, root@, pattern@) == glob_at(
                    self.globs@.take(i as int),
                    root@,
                    pattern@,
                ),
            decreases i,
        {
            proof {
                let head = self.globs@.take(i as int);
                assert(head.drop_last() =~= self.globs@.take(i - 1));
                assert(head.last() == self.globs@[i - 1]);
            }
            i -= 1;
            if self.globs[i].root.same(root) && same_text(self.globs[i].pattern.as_str(), pattern) {
                return Some(&self.globs[i].dirs);
            }
        }
        None
    }
}

/// The name of a manifest.
pub open spec fn manifest_name() -> Seq<char> {
    "pyproject.toml"@
}

/// The warning about a directory whose manifest has no `[project]`.
pub open spec fn warning(dir: Seq<Seq<u8>>) -> Seq<char> {
    "ut: warning: skipping "@ + readable(path_bytes(dir.push(encode_utf8(manifest_name()))))
        + " (no [project.name])"@
}

pub open spec fn warnings(dirs: Seq<Seq<Seq<u8>>>) -> Seq<Seq<char>> {
    Seq::new(dirs.len(), |i: int| warning(dirs[i]))
}

fn warning_for(dir: &AbsPath) -> (text: String)
    ensures
        text@ == warning(dir@),
{
    let manifest = dir.join("pyproject.toml").display();
    let mut text = "ut: warning: skipping ".to_owned();
    text.append(manifest.as_str());
    text.append(" (no [project.name])");
    text
}

/// A directory that holds a package, with its manifest.
#[derive(Debug)]
pub struct Package<'a> {
    pub dir: AbsPath,
    pub doc: &'a PyProject,
}

pub open spec fn package_dirs(packages: Seq<Package<'_>>) -> Seq<Seq<Seq<u8>>> {
    Seq::new(packages.len(), |i: int| packages[i].dir@)
}

/// A workspace as it was found.
#[derive(Debug)]
pub struct Layout<'a> {
    pub root: AbsPath,
    pub root_doc: &'a PyProject,
    pub packages: Vec<Package<'a>>,
    pub warnings: Vec<String>,
}

impl<'a> Layout<'a> {
    /// The paths and documents are well-formed, and each package has a `[project]`.
    pub open spec fn wf(&self) -> bool {
        &&& self.root.wf()
        &&& self.root_doc.wf()
        &&& forall|i: int|
            0 <= i < self.packages@.len() ==> {
                &&& (#[trigger] self.packages@[i]).dir.wf()
                &&& self.packages@[i].doc.wf()
                &&& self.packages@[i].doc.project is Some
            }
    }
}

/// What to look at next, or how the search ended.
#[derive(Debug)]
pub enum Discovery<'a> {
    /// Read the `pyproject.toml` in this directory and record it.
    ReadManifest(AbsPath),
    /// Expand this glob below the root and record it.
    ExpandGlob { root: AbsPath, pattern: String },
    Failed { error: Error, warnings: Vec<String> },
    Ready(Layout<'a>),
}

impl<'a> Discovery<'a> {
    /// Says what the stage says.
    pub open spec fn tells(&self, stage: Stage) -> bool {
        match self {
            Discovery::ReadManifest(dir) => stage == Stage::ReadManifest(dir@),
            Discovery::ExpandGlob { root, pattern } => stage == (Stage::ExpandGlob {
                root: root@,
                pattern: pattern@,
            }),
            Discovery::Failed { error, warnings: told } => match error {
                Error::NoWorkspace(start) => stage == Stage::NoWorkspace(start@)
                    && told@.len() == 0,
                Error::Outside(message) => stage matches Stage::Broken { text, skipped }
                    && message@ == text && texts(told@) == warnings(skipped),
                _ => false,
            },
            Discovery::Ready(layout) => stage matches Stage::Ready { root, packages, skipped }
                && layout.root@ == root && package_dirs(layout.packages@) == packages && texts(
                layout.warnings@,
            ) == warnings(skipped),
        }
    }
}

enum Found<'a> {
    Ask(AbsPath),
    Broken(&'a String),
    Nowhere,
    Root { dir: AbsPath, doc: &'a PyProject, ws: &'a UvWorkspace },
}

enum Matched<'a> {
    Ask(&'a String),
    Broken(&'a String),
    Dirs(PathSet),
}

enum Scanned<'a> {
    Ask(AbsPath),
    Broken { text: &'a String, warnings: Vec<String> },
    Done { packages: Vec<Package<'a>>, warnings: Vec<String> },
}

fn find_root<'a>(snapshot: &'a Snapshot, start: &AbsPath) -> (found: Found<'a>)
    ensures
        match found {
            Found::Ask(dir) => search(snapshot.manifests@, start@) == Search::Ask(dir@),
            Found::Broken(text) => search(snapshot.manifests@, start@) == Search::Broken(text@),
            Found::Nowhere => search(snapshot.manifests@, start@) == Search::Nowhere,
            Found::Root { dir, doc, ws } => {
                &&& search(snapshot.manifests@, start@) == Search::Root(dir@)
                &&& manifest_at(snapshot.manifests@, dir@) == Some(Manifest::Parsed(*doc))
                &&& doc.tool.uv.workspace == Some(*ws)
                &&& snapshot.wf() ==> doc.wf()
                &&& start.wf() ==> dir.wf()
            },
        },
{
    let mut n: usize = start.parts.len();
    proof {
        assert(start@.take(n as int) =~= start@);
    }
    loop
        invariant
            n <= start@.len(),
            search(snapshot.manifests@, start@) == search(
                snapshot.manifests@,
                start@.take(n as int),
            ),
        decreases n,
    {
        let dir = start.ancestor(n);
        match snapshot.manifest(&dir) {
            None => {
                return Found::Ask(dir);
            },
            Some(Manifest::Absent) => {},
            Some(Manifest::Broken(text)) => {
                return Found::Broken(text);
            },
            Some(Manifest::Parsed(doc)) => {
                if let Some(ws) = &doc.tool.uv.workspace {
                    return Found::Root { dir, doc, ws };
                }
            },
        }
        if n == 0 {
            return Found::Nowhere;
        }
        proof {
            assert(start@.take(n as int).drop_last() =~= start@.take(n - 1));
        }
        n -= 1;
    }
}

/// Adds paths to a set.
fn add_paths(set: &mut PathSet, more: &Vec<AbsPath>)
    requires
        old(set).wf(),
    ensures
        final(set).wf(),
        final(set)@ == old(set)@.union(path_views(more@).to_set()),
{
    let ghost all = path_views(more@);
    let mut i: usize = 0;
    proof {
        assert(set@ =~= set@.union(all.take(0).to_set()));
    }
    while i < more.len()
        invariant
            i <= more@.len(),
            all == path_views(more@),
            set.wf(),
            set@ == old(set)@.union(all.take(i as int).to_set()),
        decreases more.len() - i,
    {
        set.insert(more[i].clone());
        proof {
            lemma_take_more(all, i as int);
            assert(set@ =~= old(set)@.union(all.take(i + 1).to_set()));
        }
        i += 1;
    }
    proof {
        assert(all.take(i as int) =~= all);
    }
}

fn expand_globs<'a>(
    snapshot: &'a Snapshot,
    root: &AbsPath,
    patterns: &'a Vec<String>,
) -> (matched: Matched<'a>)
    ensures
        match matched {
            Matched::Ask(pattern) => expansion(snapshot.globs@, root@, texts(patterns@))
                == Expansion::Ask(pattern@),
            Matched::Broken(text) => expansion(snapshot.globs@, root@, texts(patterns@))
                == Expansion::Broken(text@),
            Matched::Dirs(dirs) => dirs.wf() && expansion(
                snapshot.globs@,
                root@,
                texts(patterns@),
            ) == Expansion::Dirs(dirs@),
        },
{
    let ghost all = texts(patterns@);
    let mut dirs = PathSet::new();
    let mut i: usize = 0;
    while i < patterns.len()
        invariant
            i <= patterns@.len(),
            all == texts(patterns@),
            dirs.wf(),
            expansion(snapshot.globs@, root@, all.take(i as int)) == Expansion::Dirs(dirs@),
        decreases patterns.len() - i,
    {
        let ghost next = all.take(i + 1);
        proof {
            assert(next.drop_last() =~= all.take(i as int));
            assert(next.last() == patterns@[i as int]@);
        }
        match snapshot.glob(root, patterns[i].as_str()) {
            None => {
                proof {
                    lemma_settled(snapshot.globs@, root@, all, i + 1);
                }
                return Matched::Ask(&patterns[i]);
            },
            Some(Err(text)) => {
                proof {
                    lemma_settled(snapshot.globs@, root@, all, i + 1);
                }
                return Matched::Broken(text);
            },
            Some(Ok(more)) => {
                add_paths(&mut dirs, more);
            },
        }
        i += 1;
    }
    proof {
        assert(all.take(i as int) =~= all);
    }
    Matched::Dirs(dirs)
}

/// What cannot be answered for the first patterns cannot be answered for all.
proof fn lemma_settled(
    globs: Seq<Expanded>,
    root: Seq<Seq<u8>>,
    patterns: Seq<Seq<char>>,
    n: int,
)
    requires
        0 <= n <= patterns.len(),
        !(expansion(globs, root, patterns.take(n)) is Dirs),
    ensures
        expansion(globs, root, patterns) == expansion(globs, root, patterns.take(n)),
    decreases patterns.len(),
{
    if n < patterns.len() {
        let head = patterns.drop_last();
        assert(head.take(n) =~= patterns.take(n));
        lemma_settled(globs, root, head, n);
    } else {
        assert(patterns.take(n) =~= patterns);
    }
}

fn scan_dirs<'a>(snapshot: &'a Snapshot, dirs: &Vec<AbsPath>) -> (scanned: Scanned<'a>)
    ensures
        match scanned {
            Scanned::Ask(dir) => scan(snapshot.manifests@, path_views(dirs@)) == Scan::Ask(dir@),
            Scanned::Broken { text: message, warnings: told } => scan(
                snapshot.manifests@,
                path_views(dirs@),
            ) matches Scan::Broken { text, skipped } && message@ == text && texts(told@)
                == warnings(skipped),
            Scanned::Done { packages: found, warnings: told } => {
                &&& scan(snapshot.manifests@, path_views(dirs@)) matches Scan::Done {
                    packages,
                    skipped,
                } && package_dirs(found@) == packages && texts(told@) == warnings(skipped)
                &&& docs_known(*snapshot, found@)
            },
        },
{
    let ghost all = path_views(dirs@);
    let mut found: Vec<Package<'a>> = Vec::new();
    let mut told: Vec<String> = Vec::new();
    let ghost mut skipped: Seq<Seq<Seq<u8>>> = Seq::empty();
    let mut i: usize = 0;
    proof {
        assert(package_dirs(found@) =~= Seq::<Seq<Seq<u8>>>::empty());
    }
    while i < dirs.len()
        invariant
            i <= dirs@.len(),
            all == path_views(dirs@),
            texts(told@) == warnings(skipped),
            docs_known(*snapshot, found@),
            scan(snapshot.manifests@, all.take(i as int)) == (Scan::Done {
                packages: package_dirs(found@),
                skipped,
            }),
        decreases dirs.len() - i,
    {
        let dir = &dirs[i];
        let ghost next = all.take(i + 1);
        proof {
            assert(next.drop_last() =~= all.take(i as int));
            assert(next.last() == dir@);
        }
        match snapshot.manifest(dir) {
            None => {
                proof {
                    lemma_scan_settled(snapshot.manifests@, all, i + 1);
                }
                return Scanned::Ask(dir.clone());
            },
            Some(Manifest::Absent) => {},
            Some(Manifest::Broken(text)) => {
                proof {
                    lemma_scan_settled(snapshot.manifests@, all, i + 1);
                }
                return Scanned::Broken { text, warnings: told };
            },
            Some(Manifest::Parsed(doc)) => {
                if doc.project.is_some() {
                    let ghost had = found@;
                    found.push(Package { dir: dir.clone(), doc });
                    proof {
                        assert(package_dirs(found@) =~= package_dirs(had).push(dir@));
                    }
                } else {
                    let ghost had = told@;
                    told.push(warning_for(dir));
                    proof {
                        assert(texts(told@) =~= texts(had).push(warning(dir@)));
                        assert(warnings(skipped.push(dir@)) =~= warnings(skipped).push(
                            warning(dir@),
                        ));
                        skipped = skipped.push(dir@);
                    }
                }
            },
        }
        i += 1;
    }
    proof {
        assert(all.take(i as int) =~= all);
    }
    Scanned::Done { packages: found, warnings: told }
}

/// Each package comes with the document that stands in its directory.
pub open spec fn docs_known(snapshot: Snapshot, packages: Seq<Package<'_>>) -> bool {
    forall|i: int|
        0 <= i < packages.len() ==> {
            &&& manifest_at(snapshot.manifests@, (#[trigger] packages[i]).dir@) == Some(
                Manifest::Parsed(*packages[i].doc),
            )
            &&& packages[i].doc.project is Some
            &&& snapshot.wf() ==> packages[i].doc.wf()
        }
}

proof fn lemma_scan_settled(
    manifests: Seq<(AbsPath, Manifest)>,
    dirs: Seq<Seq<Seq<u8>>>,
    n: int,
)
    requires
        0 <= n <= dirs.len(),
        !(scan(manifests, dirs.take(n)) is Done),
    ensures
        scan(manifests, dirs) == scan(manifests, dirs.take(n)),
    decreases dirs.len(),
{
    if n < dirs.len() {
        let head = dirs.drop_last();
        assert(head.take(n) =~= dirs.take(n));
        lemma_scan_settled(manifests, head, n);
    } else {
        assert(dirs.take(n) =~= dirs);
    }
}

/// The directories to look for packages in, in order.
fn candidates(root: &AbsPath, members: &PathSet, exclude: &PathSet) -> (dirs: Vec<AbsPath>)
    requires
        members.wf(),
        exclude.wf(),
    ensures
        path_views(dirs@) == member_dirs(root@, members@, exclude@),
{
    let ghost all = members.paths();
    let mut set = PathSet::new();
    let mut i: usize = 0;
    proof {
        assert(all.take(0).to_set() =~= Set::<Seq<Seq<u8>>>::empty());
        assert(set@ =~= all.take(0).to_set().difference(exclude@).remove(root@));
    }
    while i < members.items.len()
        invariant
            i <= members.items@.len(),
            all == members.paths(),
            exclude.wf(),
            set.wf(),
            set@ == all.take(i as int).to_set().difference(exclude@).remove(root@),
        decreases members.items.len() - i,
    {
        let dir = &members.items[i];
        let ghost had = all.take(i as int).to_set();
        proof {
            lemma_take_more(all, i as int);
            assert(all[i as int] == dir@);
        }
        if !exclude.contains(dir) && !dir.same(root) {
            set.insert(dir.clone());
        }
        proof {
            assert(set@ =~= had.insert(dir@).difference(exclude@).remove(root@));
        }
        i += 1;
    }
    proof {
        assert(all.take(i as int) =~= all);
        lemma_listed(set.paths());
    }
    set.items
}

impl Workspace {
    /// Walks up from `start` to the pyproject.toml declaring `[tool.uv.workspace]`, then looks at
    /// its members, as far as the snapshot goes.
    pub fn discover<'a>(start: &AbsPath, snapshot: &'a Snapshot) -> (discovery: Discovery<'a>)
        ensures
            discovery.tells(stage(*snapshot, start@)),
            discovery matches Discovery::Ready(layout) ==> {
                &&& manifest_at(snapshot.manifests@, layout.root@) == Some(
                    Manifest::Parsed(*layout.root_doc),
                )
                &&& docs_known(*snapshot, layout.packages@)
                &&& start.wf() && snapshot.wf() ==> layout.wf()
            },
    {
        let (root, root_doc, ws) = match find_root(snapshot, start) {
            Found::Ask(dir) => {
                return Discovery::ReadManifest(dir);
            },
            Found::Broken(text) => {
                let none: Vec<String> = Vec::new();
                proof {
                    assert(texts(none@) =~= warnings(Seq::empty()));
                }
                return Discovery::Failed { error: Error::Outside(text.clone()), warnings: none };
            },
            Found::Nowhere => {
                return Discovery::Failed {
                    error: Error::NoWorkspace(start.clone()),
                    warnings: Vec::new(),
                };
            },
            Found::Root { dir, doc, ws } => (dir, doc, ws),
        };
        let exclude = match expand_globs(snapshot, &root, &ws.exclude) {
            Matched::Ask(pattern) => {
                return Discovery::ExpandGlob { root, pattern: pattern.clone() };
            },
            Matched::Broken(text) => {
                let none: Vec<String> = Vec::new();
                proof {
                    assert(texts(none@) =~= warnings(Seq::empty()));
                }
                return Discovery::Failed { error: Error::Outside(text.clone()), warnings: none };
            },
            Matched::Dirs(dirs) => dirs,
        };
        let members = match expand_globs(snapshot, &root, &ws.members) {
            Matched::Ask(pattern) => {
                return Discovery::ExpandGlob { root, pattern: pattern.clone() };
            },
            Matched::Broken(text) => {
                let none: Vec<String> = Vec::new();
                proof {
                    assert(texts(none@) =~= warnings(Seq::empty()));
                }
                return Discovery::Failed { error: Error::Outside(text.clone()), warnings: none };
            },
            Matched::Dirs(dirs) => dirs,
        };
        let dirs = candidates(&root, &members, &exclude);
        match scan_dirs(snapshot, &dirs) {
            Scanned::Ask(dir) => Discovery::ReadManifest(dir),
            Scanned::Broken { text, warnings } => Discovery::Failed {
                error: Error::Outside(text.clone()),
                warnings,
            },
            Scanned::Done { packages, warnings } => {
                proof {
                    law_packages_are_asked_for(*snapshot, root@, *ws);
                    if snapshot.wf() {
                        lemma_expansion_valid(*snapshot, root@, texts(ws.members@));
                        assert forall|i: int| 0 <= i < packages@.len() implies (
                        #[trigger] packages@[i]).dir.wf() by {
                            assert(package_dirs(packages@)[i] == packages@[i].dir@);
                        }
                    }
                }
                Discovery::Ready(Layout { root, root_doc, packages, warnings })
            },
        }
    }
}

/// A finite set of paths can be listed.
proof fn lemma_listing_exists(set: Set<Seq<Seq<u8>>>) -> (list: Seq<Seq<Seq<u8>>>)
    requires
        set.finite(),
    ensures
        sorted_paths(list),
        list.to_set() == set,
    decreases set.len(),
{
    if set.len() == 0 {
        let list = Seq::<Seq<Seq<u8>>>::empty();
        assert(list.to_set() =~= set);
        list
    } else {
        let x = set.choose();
        let rest = lemma_listing_exists(set.remove(x));
        lemma_path_order();
        assert(!rest.contains(x)) by {
            assert(rest.to_set().contains(x) == rest.contains(x));
        }
        let i = lemma_place(rest, x, rest.len() as int);
        lemma_inserted(rest, x, i, path_less());
        assert(rest.insert(i, x).to_set() =~= set);
        rest.insert(i, x)
    }
}

/// The place of a new path among sorted ones, of which those from `n` on come after it.
proof fn lemma_place(list: Seq<Seq<Seq<u8>>>, x: Seq<Seq<u8>>, n: int) -> (i: int)
    requires
        sorted_paths(list),
        !list.contains(x),
        0 <= n <= list.len(),
        forall|k: int| n <= k < list.len() ==> path_less()(x, #[trigger] list[k]),
    ensures
        0 <= i <= list.len(),
        forall|k: int| 0 <= k < i ==> path_less()(#[trigger] list[k], x),
        forall|k: int| i <= k < list.len() ==> path_less()(x, #[trigger] list[k]),
    decreases n,
{
    lemma_path_order();
    if n == 0 {
        0
    } else if path_less()(x, list[n - 1]) {
        lemma_place(list, x, n - 1)
    } else {
        assert(list[n - 1] != x);
        assert(path_less()(list[n - 1], x));
        assert forall|k: int| 0 <= k < n implies path_less()(#[trigger] list[k], x) by {
            if k < n - 1 {
                assert(path_less()(list[k], list[n - 1]));
            }
        }
        n
    }
}

proof fn lemma_glob_valid(globs: Seq<Expanded>, root: Seq<Seq<u8>>, pattern: Seq<char>)
    ensures
        glob_at(globs, root, pattern) is Some ==> exists|i: int|
            0 <= i < globs.len() && (#[trigger] globs[i]).dirs == glob_at(globs, root, pattern)->0,
    decreases globs.len(),
{
    if globs.len() > 0 {
        let head = globs.drop_last();
        lemma_glob_valid(head, root, pattern);
        if globs.last().root@ == root && globs.last().pattern@ == pattern {
            assert(globs[globs.len() - 1] == globs.last());
        } else if glob_at(globs, root, pattern) is Some {
            let i = choose|i: int|
                0 <= i < head.len() && (#[trigger] head[i]).dirs == glob_at(
                    head,
                    root,
                    pattern,
                )->0;
            assert(globs[i] == head[i]);
        }
    }
}

proof fn lemma_expansion_valid(
    snapshot: Snapshot,
    root: Seq<Seq<u8>>,
    patterns: Seq<Seq<char>>,
)
    requires
        snapshot.wf(),
    ensures
        expansion(snapshot.globs@, root, patterns) matches Expansion::Dirs(dirs) ==> forall|
            dir: Seq<Seq<u8>>,
        | #[trigger]
            dirs.contains(dir) ==> valid_parts(dir),
    decreases patterns.len(),
{
    if patterns.len() > 0 {
        lemma_expansion_valid(snapshot, root, patterns.drop_last());
        if let Some(Ok(more)) = glob_at(snapshot.globs@, root, patterns.last()) {
            lemma_glob_valid(snapshot.globs@, root, patterns.last());
            let i = choose|i: int|
                0 <= i < snapshot.globs@.len() && (#[trigger] snapshot.globs@[i]).dirs == glob_at(
                    snapshot.globs@,
                    root,
                    patterns.last(),
                )->0;
            assert forall|dir: Seq<Seq<u8>>| path_views(more@).to_set().contains(
                dir,
            ) implies valid_parts(dir) by {
                let k = path_views(more@).index_of(dir);
                assert(path_views(more@)[k] == dir);
                assert(snapshot.globs@[i].wf());
                assert(more@[k].wf());
            }
        }
    }
}

proof fn lemma_expansion_finite(
    globs: Seq<Expanded>,
    root: Seq<Seq<u8>>,
    patterns: Seq<Seq<char>>,
)
    ensures
        expansion(globs, root, patterns) matches Expansion::Dirs(dirs) ==> dirs.finite(),
    decreases patterns.len(),
{
    if patterns.len() > 0 {
        lemma_expansion_finite(globs, root, patterns.drop_last());
        if let Some(Ok(more)) = glob_at(globs, root, patterns.last()) {
            vstd::seq_lib::seq_to_set_is_finite(path_views(more@));
        }
    }
}

proof fn lemma_scan(manifests: Seq<(AbsPath, Manifest)>, dirs: Seq<Seq<Seq<u8>>>)
    ensures
        scan(manifests, dirs) matches Scan::Done { packages, skipped } ==> forall|i: int|
            0 <= i < packages.len() ==> dirs.contains(#[trigger] packages[i]),
        scan(manifests, dirs) matches Scan::Ask(dir) ==> manifest_at(manifests, dir) is None,
    decreases dirs.len(),
{
    if dirs.len() > 0 {
        let head = dirs.drop_last();
        lemma_scan(manifests, head);
        if let Scan::Done { packages, skipped } = scan(manifests, dirs) {
            assert forall|i: int| 0 <= i < packages.len() implies dirs.contains(
                #[trigger] packages[i],
            ) by {
                let before = scan(manifests, head)->Done_packages;
                if i < before.len() {
                    assert(packages[i] == before[i]);
                    let k = head.index_of(before[i]);
                    assert(dirs[k] == before[i]);
                } else {
                    assert(dirs[dirs.len() - 1] == packages[i]);
                }
            }
        }
    }
}

/// The root is no package, nor is a directory that the workspace excludes; every package is one
/// that the workspace asks for.
pub proof fn law_packages_are_asked_for(snapshot: Snapshot, root: Seq<Seq<u8>>, ws: UvWorkspace)
    ensures
        root_stage(snapshot, root, ws) matches Stage::Ready { root: found, packages, skipped }
            ==> {
            &&& found == root
            &&& !packages.contains(root)
            &&& expansion(snapshot.globs@, root, texts(ws.exclude@)) matches Expansion::Dirs(
                exclude,
            ) && forall|i: int|
                0 <= i < packages.len() ==> !exclude.contains(#[trigger] packages[i])
            &&& expansion(snapshot.globs@, root, texts(ws.members@)) matches Expansion::Dirs(
                members,
            ) && forall|i: int|
                0 <= i < packages.len() ==> members.contains(#[trigger] packages[i])
        },
{
    if let Stage::Ready { root: found, packages, skipped } = root_stage(snapshot, root, ws) {
        let exclude = expansion(snapshot.globs@, root, texts(ws.exclude@))->Dirs_0;
        let members = expansion(snapshot.globs@, root, texts(ws.members@))->Dirs_0;
        lemma_expansion_finite(snapshot.globs@, root, texts(ws.members@));
        let set = members.difference(exclude).remove(root);
        let list = lemma_listing_exists(set);
        let dirs = listed(set);
        assert(sorted_paths(dirs) && dirs.to_set() == set);
        lemma_scan(snapshot.manifests@, dirs);
        assert forall|i: int| 0 <= i < packages.len() implies set.contains(
            #[trigger] packages[i],
        ) by {
            assert(dirs.contains(packages[i]));
            assert(dirs.to_set().contains(packages[i]));
        }
    }
}

/// Whatever is asked for is not known yet: no file is read twice and no glob expanded twice.
pub proof fn law_asks_for_the_unknown(snapshot: Snapshot, start: Seq<Seq<u8>>)
    ensures
        stage(snapshot, start) matches Stage::ReadManifest(dir) ==> manifest_at(
            snapshot.manifests@,
            dir,
        ) is None,
        stage(snapshot, start) matches Stage::ExpandGlob { root, pattern } ==> glob_at(
            snapshot.globs@,
            root,
            pattern,
        ) is None,
{
    lemma_search(snapshot.manifests@, start);
    if let Search::Root(root) = search(snapshot.manifests@, start) {
        if let Some(Manifest::Parsed(doc)) = manifest_at(snapshot.manifests@, root) {
            let ws = doc.tool.uv.workspace->0;
            lemma_expansion(snapshot.globs@, root, texts(ws.exclude@));
            lemma_expansion(snapshot.globs@, root, texts(ws.members@));
            if let Expansion::Dirs(exclude) = expansion(
                snapshot.globs@,
                root,
                texts(ws.exclude@),
            ) {
                if let Expansion::Dirs(members) = expansion(
                    snapshot.globs@,
                    root,
                    texts(ws.members@),
                ) {
                    lemma_scan(snapshot.manifests@, member_dirs(root, members, exclude));
                }
            }
        }
    }
}

proof fn lemma_search(manifests: Seq<(AbsPath, Manifest)>, dir: Seq<Seq<u8>>)
    ensures
        search(manifests, dir) matches Search::Ask(at) ==> manifest_at(manifests, at) is None,
        search(manifests, dir) matches Search::Root(root) ==> root.is_prefix_of(dir) && (
        manifest_at(manifests, root) matches Some(Manifest::Parsed(doc))
            && doc.tool.uv.workspace is Some),
    decreases dir.len(),
{
    if dir.len() > 0 {
        lemma_search(manifests, dir.drop_last());
        if let Search::Root(root) = search(manifests, dir.drop_last()) {
            assert(root =~= dir.take(root.len() as int));
        }
    }
    assert(dir.is_prefix_of(dir));
}

proof fn lemma_expansion(globs: Seq<Expanded>, root: Seq<Seq<u8>>, patterns: Seq<Seq<char>>)
    ensures
        expansion(globs, root, patterns) matches Expansion::Ask(pattern) ==> glob_at(
            globs,
            root,
            pattern,
        ) is None,
    decreases patterns.len(),
{
    if patterns.len() > 0 {
        lemma_expansion(globs, root, patterns.drop_last());
    }
}

/// The workspace root is the start or lies above it, declares a workspace, and is the nearest that
/// does.
pub proof fn law_root_is_nearest(
    manifests: Seq<(AbsPath, Manifest)>,
    start: Seq<Seq<u8>>,
    root: Seq<Seq<u8>>,
    n: int,
)
    requires
        search(manifests, start) == Search::Root(root),
        root.len() < n <= start.len(),
    ensures
        root.is_prefix_of(start),
        manifest_at(manifests, root) matches Some(Manifest::Parsed(doc))
            && doc.tool.uv.workspace is Some,
        manifest_at(manifests, start.take(n)) matches Some(Manifest::Parsed(doc)) ==>
            doc.tool.uv.workspace is None,
    decreases start.len(),
{
    lemma_search(manifests, start);
    if n < start.len() {
        assert(search(manifests, start.drop_last()) == Search::Root(root));
        law_root_is_nearest(manifests, start.drop_last(), root, n);
        assert(start.drop_last().take(n) =~= start.take(n));
    } else {
        assert(start.take(n) =~= start);
    }
}

/// A search that starts anywhere between the root and the first start finds the same: the same
/// root, and from there the same packages.
pub proof fn law_same_from_between(
    snapshot: Snapshot,
    start: Seq<Seq<u8>>,
    root: Seq<Seq<u8>>,
    n: int,
)
    requires
        search(snapshot.manifests@, start) == Search::Root(root),
        root.len() <= n <= start.len(),
    ensures
        search(snapshot.manifests@, start.take(n)) == Search::Root(root),
        stage(snapshot, start.take(n)) == stage(snapshot, start),
    decreases start.len(),
{
    lemma_search(snapshot.manifests@, start);
    if n < start.len() {
        let above = start.drop_last();
        assert(search(snapshot.manifests@, above) == Search::Root(root));
        law_same_from_between(snapshot, above, root, n);
        assert(above.take(n) =~= start.take(n));
    } else {
        assert(start.take(n) =~= start);
    }
}

/// The same packages.
pub open spec fn same_packages(a: Layout<'_>, b: Layout<'_>) -> bool {
    &&& a.packages@.len() == b.packages@.len()
    &&& forall|i: int|
        0 <= i < a.packages@.len() ==> (#[trigger] a.packages@[i]).dir@ == b.packages@[i].dir@
            && *a.packages@[i].doc == *b.packages@[i].doc
}

/// Two searches that found the same have the same root, the same packages and the same documents.
pub proof fn law_same_stage_same_layout(
    snapshot: Snapshot,
    stage: Stage,
    a: Layout<'_>,
    b: Layout<'_>,
)
    requires
        Discovery::Ready(a).tells(stage),
        Discovery::Ready(b).tells(stage),
        manifest_at(snapshot.manifests@, a.root@) == Some(Manifest::Parsed(*a.root_doc)),
        manifest_at(snapshot.manifests@, b.root@) == Some(Manifest::Parsed(*b.root_doc)),
        docs_known(snapshot, a.packages@),
        docs_known(snapshot, b.packages@),
    ensures
        a.root@ == b.root@,
        *a.root_doc == *b.root_doc,
        same_packages(a, b),
{
    assert(package_dirs(a.packages@).len() == package_dirs(b.packages@).len());
    assert forall|i: int| 0 <= i < a.packages@.len() implies (#[trigger] a.packages@[i]).dir@
        == b.packages@[i].dir@ && *a.packages@[i].doc == *b.packages@[i].doc by {
        assert(package_dirs(a.packages@)[i] == package_dirs(b.packages@)[i]);
        assert(manifest_at(snapshot.manifests@, b.packages@[i].dir@) == Some(
            Manifest::Parsed(*b.packages@[i].doc),
        ));
    }
}

/// What was recorded last on a directory counts, and what is recorded on another makes no
/// difference to it. Of a directory without a record nothing is known.
pub proof fn law_last_manifest_counts(
    manifests: Seq<(AbsPath, Manifest)>,
    path: AbsPath,
    manifest: Manifest,
    dir: Seq<Seq<u8>>,
)
    ensures
        manifest_at(Seq::empty(), dir) is None,
        path@ == dir ==> manifest_at(manifests.push((path, manifest)), dir) == Some(manifest),
        path@ != dir ==> manifest_at(manifests.push((path, manifest)), dir) == manifest_at(
            manifests,
            dir,
        ),
{
    assert(manifests.push((path, manifest)).drop_last() =~= manifests);
}

/// What was recorded last on a pattern below a root counts, and what is recorded on another pattern
/// or below another root makes no difference to it.
pub proof fn law_last_glob_counts(
    globs: Seq<Expanded>,
    record: Expanded,
    root: Seq<Seq<u8>>,
    pattern: Seq<char>,
)
    ensures
        glob_at(Seq::empty(), root, pattern) is None,
        record.root@ == root && record.pattern@ == pattern ==> glob_at(
            globs.push(record),
            root,
            pattern,
        ) == Some(record.dirs),
        record.root@ != root || record.pattern@ != pattern ==> glob_at(
            globs.push(record),
            root,
            pattern,
        ) == glob_at(globs, root, pattern),
{
    assert(globs.push(record).drop_last() =~= globs);
}

/// A directory on the way up that is known not to be the root: it has no manifest, or one that
/// declares no workspace.
pub open spec fn passed_over(manifest: Option<Manifest>) -> bool {
    ||| manifest matches Some(Manifest::Absent)
    ||| manifest matches Some(Manifest::Parsed(doc)) && doc.tool.uv.workspace is None
}

/// The first directory on the way up from the start that is not passed over decides: it is the
/// root if it declares a workspace, it is asked for if nothing is known of it, and it is what is
/// wrong if it is broken. If every directory is passed over there is no workspace.
pub proof fn law_way_up_decides(
    manifests: Seq<(AbsPath, Manifest)>,
    start: Seq<Seq<u8>>,
    n: int,
)
    requires
        0 <= n <= start.len(),
        forall|k: int|
            n < k <= start.len() ==> passed_over(manifest_at(manifests, #[trigger] start.take(k))),
    ensures
        manifest_at(manifests, start.take(n)) is None ==> search(manifests, start) == Search::Ask(
            start.take(n),
        ),
        manifest_at(manifests, start.take(n)) matches Some(Manifest::Broken(text)) ==> search(
            manifests,
            start,
        ) == Search::Broken(text@),
        manifest_at(manifests, start.take(n)) matches Some(Manifest::Parsed(doc)) ==> (
        doc.tool.uv.workspace is Some ==> search(manifests, start) == Search::Root(start.take(n))),
        n == 0 && passed_over(manifest_at(manifests, start.take(0))) ==> search(manifests, start)
            == Search::Nowhere,
    decreases start.len(),
{
    if n == start.len() {
        assert(start.take(n) =~= start);
    } else {
        let above = start.drop_last();
        assert(start.take(start.len() as int) =~= start);
        assert(passed_over(manifest_at(manifests, start)));
        assert forall|k: int| n < k <= above.len() implies passed_over(
            manifest_at(manifests, #[trigger] above.take(k)),
        ) by {
            assert(above.take(k) =~= start.take(k));
        }
        assert(above.take(n) =~= start.take(n));
        assert(above.take(0) =~= start.take(0));
        law_way_up_decides(manifests, above, n);
    }
}

/// One of the patterns is recorded to match the directory.
pub open spec fn matched(
    globs: Seq<Expanded>,
    root: Seq<Seq<u8>>,
    patterns: Seq<Seq<char>>,
    dir: Seq<Seq<u8>>,
) -> bool {
    exists|k: int|
        0 <= k < patterns.len() && (glob_at(globs, root, #[trigger] patterns[k]) matches Some(
            Ok(dirs),
        ) && exists|i: int| 0 <= i < dirs@.len() && (#[trigger] dirs@[i])@ == dir)
}

/// The patterns are asked for one after another; the first that is not known, or cannot be
/// expanded, decides. If all can, the directories are those that some pattern matches.
pub proof fn law_patterns_expand_together(
    globs: Seq<Expanded>,
    root: Seq<Seq<u8>>,
    patterns: Seq<Seq<char>>,
    n: int,
    dir: Seq<Seq<u8>>,
)
    requires
        0 <= n <= patterns.len(),
        forall|k: int|
            0 <= k < n ==> (glob_at(globs, root, #[trigger] patterns[k]) matches Some(Ok(_))),
    ensures
        n < patterns.len() && glob_at(globs, root, patterns[n]) is None ==> expansion(
            globs,
            root,
            patterns,
        ) == Expansion::Ask(patterns[n]),
        n < patterns.len() ==> (glob_at(globs, root, patterns[n]) matches Some(Err(text))
            ==> expansion(globs, root, patterns) == Expansion::Broken(text@)),
        n == patterns.len() ==> (expansion(globs, root, patterns) matches Expansion::Dirs(dirs) && (
        dirs.contains(dir) <==> matched(globs, root, patterns, dir))),
    decreases patterns.len(),
{
    if patterns.len() > 0 {
        let head = patterns.drop_last();
        let last = patterns.last();
        assert forall|k: int| 0 <= k < n && k < head.len() implies (glob_at(
            globs,
            root,
            #[trigger] head[k],
        ) matches Some(Ok(_))) by {
            assert(head[k] == patterns[k]);
        }
        if n < head.len() {
            assert(head[n] == patterns[n]);
            law_patterns_expand_together(globs, root, head, n, dir);
        } else {
            law_patterns_expand_together(globs, root, head, head.len() as int, dir);
            assert(patterns[patterns.len() - 1] == last);
            if n == patterns.len() {
                assert(glob_at(globs, root, patterns[n - 1]) matches Some(Ok(_)));
                let more = glob_at(globs, root, last)->Some_0->Ok_0@;
                let views = path_views(more);
                assert(views.to_set().contains(dir) == views.contains(dir));
                if views.contains(dir) {
                    let i = views.index_of(dir);
                    assert(more[i]@ == dir);
                    assert(matched(globs, root, patterns, dir));
                }
                if matched(globs, root, head, dir) {
                    let k = choose|k: int|
                        0 <= k < head.len() && (glob_at(globs, root, #[trigger] head[k]) matches
                            Some(Ok(dirs)) && exists|i: int|
                            0 <= i < dirs@.len() && (#[trigger] dirs@[i])@ == dir);
                    assert(patterns[k] == head[k]);
                    assert(matched(globs, root, patterns, dir));
                }
                if matched(globs, root, patterns, dir) {
                    let k = choose|k: int|
                        0 <= k < patterns.len() && (glob_at(
                            globs,
                            root,
                            #[trigger] patterns[k],
                        ) matches Some(Ok(dirs)) && exists|i: int|
                            0 <= i < dirs@.len() && (#[trigger] dirs@[i])@ == dir);
                    if k < head.len() {
                        assert(head[k] == patterns[k]);
                        assert(matched(globs, root, head, dir));
                    } else {
                        let i = choose|i: int|
                            0 <= i < more.len() && (#[trigger] more[i])@ == dir;
                        assert(views[i] == dir);
                    }
                }
            }
        }
    }
}

/// A manifest with a project.
pub open spec fn has_project(manifest: Option<Manifest>) -> bool {
    manifest matches Some(Manifest::Parsed(doc)) && doc.project is Some
}

/// A manifest without a project.
pub open spec fn lacks_project(manifest: Option<Manifest>) -> bool {
    manifest matches Some(Manifest::Parsed(doc)) && doc.project is None
}

/// Directories are looked at one after another; the first of which nothing is known, or whose
/// manifest is broken, decides. Otherwise the packages are the directories whose manifest has a
/// project, and those whose manifest has none are skipped.
pub proof fn law_scan_finds_projects(
    manifests: Seq<(AbsPath, Manifest)>,
    dirs: Seq<Seq<Seq<u8>>>,
    n: int,
    dir: Seq<Seq<u8>>,
)
    requires
        0 <= n <= dirs.len(),
        forall|k: int|
            0 <= k < n ==> manifest_at(manifests, #[trigger] dirs[k]) is Some && !(manifest_at(
                manifests,
                dirs[k],
            )->Some_0 is Broken),
    ensures
        n < dirs.len() && manifest_at(manifests, dirs[n]) is None ==> scan(manifests, dirs)
            == Scan::Ask(dirs[n]),
        n < dirs.len() ==> (manifest_at(manifests, dirs[n]) matches Some(Manifest::Broken(message))
            ==> (scan(manifests, dirs) matches Scan::Broken { text, skipped } && text == message@
            && (skipped.contains(dir) <==> dirs.take(n).contains(dir) && lacks_project(
            manifest_at(manifests, dir),
        )))),
        n == dirs.len() ==> (scan(manifests, dirs) matches Scan::Done { packages, skipped } && (
        packages.contains(dir) <==> dirs.contains(dir) && has_project(manifest_at(manifests, dir)))
            && (skipped.contains(dir) <==> dirs.contains(dir) && lacks_project(
            manifest_at(manifests, dir),
        ))),
    decreases dirs.len(),
{
    if dirs.len() > 0 {
        let head = dirs.drop_last();
        let last = dirs.last();
        assert forall|k: int| 0 <= k < n && k < head.len() implies manifest_at(
            manifests,
            #[trigger] head[k],
        ) is Some && !(manifest_at(manifests, head[k])->Some_0 is Broken) by {
            assert(head[k] == dirs[k]);
        }
        assert(dirs[dirs.len() - 1] == last);
        if n < head.len() {
            assert(head[n] == dirs[n]);
            assert(head.take(n) =~= dirs.take(n));
            law_scan_finds_projects(manifests, head, n, dir);
        } else {
            law_scan_finds_projects(manifests, head, head.len() as int, dir);
            assert(head =~= dirs.take(head.len() as int));
            lemma_grown(head, last, dir);
            assert(head.push(last) =~= dirs);
            if n == dirs.len() {
                assert(manifest_at(manifests, dirs[n - 1]) is Some);
                let packages = scan(manifests, head)->Done_packages;
                let skipped = scan(manifests, head)->Done_skipped;
                lemma_grown(packages, last, dir);
                lemma_grown(skipped, last, dir);
            }
        }
    }
}

proof fn lemma_grown(list: Seq<Seq<Seq<u8>>>, last: Seq<Seq<u8>>, dir: Seq<Seq<u8>>)
    ensures
        list.push(last).contains(dir) <==> list.contains(dir) || dir == last,
{
    let more = list.push(last);
    if more.contains(dir) {
        let k = more.index_of(dir);
        if k < list.len() {
            assert(list[k] == dir);
        }
    }
    if list.contains(dir) {
        let k = list.index_of(dir);
        assert(more[k] == dir);
    }
    assert(more[list.len() as int] == last);
}

proof fn lemma_scan_sorted(manifests: Seq<(AbsPath, Manifest)>, dirs: Seq<Seq<Seq<u8>>>)
    requires
        sorted_paths(dirs),
    ensures
        scan(manifests, dirs) matches Scan::Done { packages, skipped } ==> sorted_paths(packages)
            && sorted_paths(skipped),
    decreases dirs.len(),
{
    if dirs.len() > 0 {
        let head = dirs.drop_last();
        let last = dirs.last();
        assert forall|i: int, j: int| 0 <= i < j < head.len() implies path_less()(
            #[trigger] head[i],
            #[trigger] head[j],
        ) by {
            assert(path_less()(dirs[i], dirs[j]));
        }
        lemma_scan_sorted(manifests, head);
        if let Scan::Done { packages, skipped } = scan(manifests, head) {
            lemma_scan_within(manifests, head);
            assert forall|d: Seq<Seq<u8>>| head.contains(d) implies path_less()(d, last) by {
                let k = head.index_of(d);
                assert(path_less()(dirs[k], dirs[dirs.len() - 1]));
            }
            lemma_sorted_grown(packages, last);
            lemma_sorted_grown(skipped, last);
        }
    }
}

proof fn lemma_scan_within(manifests: Seq<(AbsPath, Manifest)>, dirs: Seq<Seq<Seq<u8>>>)
    ensures
        scan(manifests, dirs) matches Scan::Done { packages, skipped } ==> {
            &&& forall|i: int| 0 <= i < packages.len() ==> dirs.contains(#[trigger] packages[i])
            &&& forall|i: int| 0 <= i < skipped.len() ==> dirs.contains(#[trigger] skipped[i])
        },
    decreases dirs.len(),
{
    if dirs.len() > 0 {
        let head = dirs.drop_last();
        let last = dirs.last();
        lemma_scan_within(manifests, head);
        assert(head.push(last) =~= dirs);
        if let Scan::Done { packages, skipped } = scan(manifests, head) {
            assert forall|d: Seq<Seq<u8>>| head.contains(d) || d == last implies dirs.contains(
                d,
            ) by {
                lemma_grown(head, last, d);
            }
        }
    }
}

proof fn lemma_sorted_grown(list: Seq<Seq<Seq<u8>>>, last: Seq<Seq<u8>>)
    requires
        sorted_paths(list),
        forall|i: int| 0 <= i < list.len() ==> path_less()(#[trigger] list[i], last),
    ensures
        sorted_paths(list.push(last)),
{
    let more = list.push(last);
    assert forall|i: int, j: int| 0 <= i < j < more.len() implies path_less()(
        #[trigger] more[i],
        #[trigger] more[j],
    ) by {
        if j < list.len() {
            assert(path_less()(list[i], list[j]));
        } else {
            assert(path_less()(list[i], last));
        }
    }
}

/// The packages of a layout are the directories below its root that a pattern for members matches
/// and no pattern for excluded ones, whose manifest has a project, and that are not the root. They
/// come in increasing order.
pub proof fn law_layout_has_all_packages(
    snapshot: Snapshot,
    start: Seq<Seq<u8>>,
    layout: Layout<'_>,
    dir: Seq<Seq<u8>>,
)
    requires
        Discovery::Ready(layout).tells(stage(snapshot, start)),
    ensures
        search(snapshot.manifests@, start) == Search::Root(layout.root@),
        manifest_at(snapshot.manifests@, layout.root@) matches Some(Manifest::Parsed(doc)) && (
        doc.tool.uv.workspace matches Some(ws) && ((exists|i: int|
            0 <= i < layout.packages@.len() && (#[trigger] layout.packages@[i]).dir@ == dir) <==> {
            &&& dir != layout.root@
            &&& matched(snapshot.globs@, layout.root@, texts(ws.members@), dir)
            &&& !matched(snapshot.globs@, layout.root@, texts(ws.exclude@), dir)
            &&& has_project(manifest_at(snapshot.manifests@, dir))
        })),
        forall|i: int, j: int|
            0 <= i < j < layout.packages@.len() ==> path_less()(
                (#[trigger] layout.packages@[i]).dir@,
                (#[trigger] layout.packages@[j]).dir@,
            ),
{
    let manifests = snapshot.manifests@;
    let globs = snapshot.globs@;
    let root = layout.root@;
    lemma_search(manifests, start);
    let ws = manifest_at(manifests, root)->Some_0->Parsed_0.tool.uv.workspace->Some_0;
    let members = texts(ws.members@);
    let excluded = texts(ws.exclude@);
    let exclude = expansion(globs, root, excluded)->Dirs_0;
    let asked = expansion(globs, root, members)->Dirs_0;
    lemma_all_expanded(globs, root, excluded);
    lemma_all_expanded(globs, root, members);
    law_patterns_expand_together(globs, root, excluded, excluded.len() as int, dir);
    law_patterns_expand_together(globs, root, members, members.len() as int, dir);
    lemma_expansion_finite(globs, root, members);
    let set = asked.difference(exclude).remove(root);
    let list = lemma_listing_exists(set);
    let dirs = listed(set);
    assert(sorted_paths(dirs) && dirs.to_set() == set);
    assert(dirs.to_set().contains(dir) == dirs.contains(dir));
    lemma_all_known(manifests, dirs);
    law_scan_finds_projects(manifests, dirs, dirs.len() as int, dir);
    lemma_scan_sorted(manifests, dirs);
    let packages = package_dirs(layout.packages@);
    assert(packages == scan(manifests, dirs)->Done_packages);
    if packages.contains(dir) {
        let i = packages.index_of(dir);
        assert(layout.packages@[i].dir@ == dir);
    }
    if exists|i: int| 0 <= i < layout.packages@.len() && (#[trigger] layout.packages@[i]).dir@
        == dir {
        let i = choose|i: int|
            0 <= i < layout.packages@.len() && (#[trigger] layout.packages@[i]).dir@ == dir;
        assert(packages[i] == dir);
    }
    assert forall|i: int, j: int| 0 <= i < j < layout.packages@.len() implies path_less()(
        (#[trigger] layout.packages@[i]).dir@,
        (#[trigger] layout.packages@[j]).dir@,
    ) by {
        assert(path_less()(packages[i], packages[j]));
    }
}

proof fn lemma_all_expanded(globs: Seq<Expanded>, root: Seq<Seq<u8>>, patterns: Seq<Seq<char>>)
    requires
        expansion(globs, root, patterns) is Dirs,
    ensures
        forall|k: int|
            0 <= k < patterns.len() ==> (glob_at(globs, root, #[trigger] patterns[k]) matches Some(
                Ok(_),
            )),
    decreases patterns.len(),
{
    if patterns.len() > 0 {
        let head = patterns.drop_last();
        lemma_all_expanded(globs, root, head);
        assert forall|k: int| 0 <= k < patterns.len() implies (glob_at(
            globs,
            root,
            #[trigger] patterns[k],
        ) matches Some(Ok(_))) by {
            if k < head.len() {
                assert(head[k] == patterns[k]);
            }
        }
    }
}

proof fn lemma_all_known(manifests: Seq<(AbsPath, Manifest)>, dirs: Seq<Seq<Seq<u8>>>)
    requires
        scan(manifests, dirs) is Done,
    ensures
        forall|k: int|
            0 <= k < dirs.len() ==> manifest_at(manifests, #[trigger] dirs[k]) is Some && !(
            manifest_at(manifests, dirs[k])->Some_0 is Broken),
    decreases dirs.len(),
{
    if dirs.len() > 0 {
        let head = dirs.drop_last();
        lemma_all_known(manifests, head);
        assert forall|k: int| 0 <= k < dirs.len() implies manifest_at(
            manifests,
            #[trigger] dirs[k],
        ) is Some && !(manifest_at(manifests, dirs[k])->Some_0 is Broken) by {
            if k < head.len() {
                assert(head[k] == dirs[k]);
            }
        }
    }
}

/// A directory that would be a package but for the missing project is told of: there is a warning
/// that names its manifest. There are no other warnings.
pub proof fn law_skipped_packages_are_told(
    snapshot: Snapshot,
    start: Seq<Seq<u8>>,
    layout: Layout<'_>,
    i: int,
    dir: Seq<Seq<u8>>,
)
    requires
        Discovery::Ready(layout).tells(stage(snapshot, start)),
    ensures
        manifest_at(snapshot.manifests@, layout.root@) matches Some(Manifest::Parsed(doc)) && (
        doc.tool.uv.workspace matches Some(ws) && (dir != layout.root@ && matched(
            snapshot.globs@,
            layout.root@,
            texts(ws.members@),
            dir,
        ) && !matched(snapshot.globs@, layout.root@, texts(ws.exclude@), dir) && lacks_project(
            manifest_at(snapshot.manifests@, dir),
        ) ==> exists|k: int|
            0 <= k < layout.warnings@.len() && (#[trigger] layout.warnings@[k])@ == warning(dir))),
        0 <= i < layout.warnings@.len() ==> exists|from: Seq<Seq<u8>>|
            layout.warnings@[i]@ == #[trigger] warning(from) && from != layout.root@
                && lacks_project(manifest_at(snapshot.manifests@, from)),
{
    let manifests = snapshot.manifests@;
    let globs = snapshot.globs@;
    let root = layout.root@;
    lemma_search(manifests, start);
    let ws = manifest_at(manifests, root)->Some_0->Parsed_0.tool.uv.workspace->Some_0;
    let members = texts(ws.members@);
    let excluded = texts(ws.exclude@);
    let exclude = expansion(globs, root, excluded)->Dirs_0;
    let asked = expansion(globs, root, members)->Dirs_0;
    lemma_all_expanded(globs, root, excluded);
    lemma_all_expanded(globs, root, members);
    law_patterns_expand_together(globs, root, excluded, excluded.len() as int, dir);
    law_patterns_expand_together(globs, root, members, members.len() as int, dir);
    lemma_expansion_finite(globs, root, members);
    let set = asked.difference(exclude).remove(root);
    let list = lemma_listing_exists(set);
    let dirs = listed(set);
    assert(sorted_paths(dirs) && dirs.to_set() == set);
    assert(dirs.to_set().contains(dir) == dirs.contains(dir));
    lemma_all_known(manifests, dirs);
    law_scan_finds_projects(manifests, dirs, dirs.len() as int, dir);
    let skipped = scan(manifests, dirs)->Done_skipped;
    assert(texts(layout.warnings@) == warnings(skipped));
    assert(texts(layout.warnings@).len() == warnings(skipped).len());
    if skipped.contains(dir) {
        let k = skipped.index_of(dir);
        assert(texts(layout.warnings@)[k] == warning(dir));
        assert(layout.warnings@[k]@ == warning(dir));
    }
    if 0 <= i < layout.warnings@.len() {
        let from = skipped[i];
        law_scan_finds_projects(manifests, dirs, dirs.len() as int, from);
        assert(skipped.contains(from));
        assert(dirs.to_set().contains(from) == dirs.contains(from));
        assert(texts(layout.warnings@)[i] == warning(from));
        assert(layout.warnings@[i]@ == warning(from));
    }
}

/// A warning names the manifest, in its directory.
pub proof fn law_warning_names_the_manifest(dir: Seq<Seq<u8>>)
    ensures
        mentions(warning(dir), readable(path_bytes(dir.push(encode_utf8("pyproject.toml"@))))),
        warning(dir).take(13) == seq![
            'u',
            't',
            ':',
            ' ',
            'w',
            'a',
            'r',
            'n',
            'i',
            'n',
            'g',
            ':',
            ' ',
        ],
{
    let head = "ut: warning: skipping "@;
    let path = readable(path_bytes(dir.push(encode_utf8(manifest_name()))));
    reveal_strlit("ut: warning: skipping ");
    let i = head.len() as int;
    assert(warning(dir).subrange(i, i + path.len()) =~= path);
    assert(warning(dir).take(13) =~= seq![
        'u',
        't',
        ':',
        ' ',
        'w',
        'a',
        'r',
        'n',
        'i',
        'n',
        'g',
        ':',
        ' ',
    ]);
}

/// That there is no workspace is told only when every directory from the start up to the topmost is
/// known to declare none, and it names the start.
pub proof fn law_no_workspace_only_if_none(
    snapshot: Snapshot,
    start: Seq<Seq<u8>>,
    named: AbsPath,
    told: Vec<String>,
    n: int,
)
    requires
        (Discovery::Failed { error: Error::NoWorkspace(named), warnings: told }).tells(
            stage(snapshot, start),
        ),
        0 <= n <= start.len(),
    ensures
        named@ == start,
        told@.len() == 0,
        passed_over(manifest_at(snapshot.manifests@, start.take(n))),
{
    let manifests = snapshot.manifests@;
    lemma_search(manifests, start);
    if let Search::Root(root) = search(manifests, start) {
        let ws = manifest_at(manifests, root)->Some_0->Parsed_0.tool.uv.workspace->Some_0;
        assert(stage(snapshot, start) == root_stage(snapshot, root, ws));
    }
    lemma_nowhere(manifests, start, n);
}

proof fn lemma_nowhere(manifests: Seq<(AbsPath, Manifest)>, start: Seq<Seq<u8>>, n: int)
    requires
        search(manifests, start) == Search::Nowhere,
        0 <= n <= start.len(),
    ensures
        passed_over(manifest_at(manifests, start.take(n))),
    decreases start.len(),
{
    if n == start.len() {
        assert(start.take(n) =~= start);
    } else {
        let above = start.drop_last();
        lemma_nowhere(manifests, above, n);
        assert(above.take(n) =~= start.take(n));
    }
}

/// What is told to be broken has been recorded as broken: a manifest that cannot be read, or a
/// pattern that cannot be expanded.
pub proof fn law_broken_is_recorded(
    snapshot: Snapshot,
    start: Seq<Seq<u8>>,
    message: String,
    told: Vec<String>,
)
    requires
        (Discovery::Failed { error: Error::Outside(message), warnings: told }).tells(
            stage(snapshot, start),
        ),
    ensures
        (exists|dir: Seq<Seq<u8>>|
            #[trigger] manifest_at(snapshot.manifests@, dir) matches Some(Manifest::Broken(text))
                && text@ == message@) || (exists|root: Seq<Seq<u8>>, pattern: Seq<char>|
            #[trigger] glob_at(snapshot.globs@, root, pattern) matches Some(Err(text)) && text@
                == message@),
{
    let manifests = snapshot.manifests@;
    lemma_search(manifests, start);
    match search(manifests, start) {
        Search::Broken(text) => {
            let dir = lemma_search_broken(manifests, start);
            assert(manifest_at(manifests, dir)->Some_0->Broken_0@ == message@);
        },
        Search::Root(root) => {
            let ws = manifest_at(manifests, root)->Some_0->Parsed_0.tool.uv.workspace->Some_0;
            let excluded = texts(ws.exclude@);
            let members = texts(ws.members@);
            if expansion(snapshot.globs@, root, excluded) is Broken {
                let pattern = lemma_expansion_broken(snapshot.globs@, root, excluded);
                assert(glob_at(snapshot.globs@, root, pattern)->Some_0->Err_0@ == message@);
            } else if expansion(snapshot.globs@, root, members) is Broken {
                let pattern = lemma_expansion_broken(snapshot.globs@, root, members);
                assert(glob_at(snapshot.globs@, root, pattern)->Some_0->Err_0@ == message@);
            } else {
                let dirs = member_dirs(
                    root,
                    expansion(snapshot.globs@, root, members)->Dirs_0,
                    expansion(snapshot.globs@, root, excluded)->Dirs_0,
                );
                let dir = lemma_scan_broken(manifests, dirs);
                assert(manifest_at(manifests, dir)->Some_0->Broken_0@ == message@);
            }
        },
        _ => {},
    }
}

proof fn lemma_search_broken(
    manifests: Seq<(AbsPath, Manifest)>,
    dir: Seq<Seq<u8>>,
) -> (at: Seq<Seq<u8>>)
    requires
        search(manifests, dir) is Broken,
    ensures
        manifest_at(manifests, at) matches Some(Manifest::Broken(text)) && Search::Broken(text@)
            == search(manifests, dir),
    decreases dir.len(),
{
    if manifest_at(manifests, dir) matches Some(Manifest::Broken(_)) {
        dir
    } else {
        lemma_search_broken(manifests, dir.drop_last())
    }
}

proof fn lemma_expansion_broken(
    globs: Seq<Expanded>,
    root: Seq<Seq<u8>>,
    patterns: Seq<Seq<char>>,
) -> (pattern: Seq<char>)
    requires
        expansion(globs, root, patterns) is Broken,
    ensures
        glob_at(globs, root, pattern) matches Some(Err(text)) && Expansion::Broken(text@)
            == expansion(globs, root, patterns),
    decreases patterns.len(),
{
    if expansion(globs, root, patterns.drop_last()) is Dirs {
        patterns.last()
    } else {
        lemma_expansion_broken(globs, root, patterns.drop_last())
    }
}

proof fn lemma_scan_broken(
    manifests: Seq<(AbsPath, Manifest)>,
    dirs: Seq<Seq<Seq<u8>>>,
) -> (at: Seq<Seq<u8>>)
    requires
        scan(manifests, dirs) is Broken,
    ensures
        manifest_at(manifests, at) matches Some(Manifest::Broken(message)) && (scan(
            manifests,
            dirs,
        ) matches Scan::Broken { text, skipped } && text == message@),
    decreases dirs.len(),
{
    if scan(manifests, dirs.drop_last()) is Done {
        dirs.last()
    } else {
        lemma_scan_broken(manifests, dirs.drop_last())
    }
}

/// Once a manifest is recorded it is what is known of its directory, and all else stays known as it
/// was.
pub proof fn law_recorded_manifest_is_known(
    before: Snapshot,
    dir: AbsPath,
    manifest: Manifest,
    after: Snapshot,
    other: Seq<Seq<u8>>,
    pattern: Seq<char>,
)
    requires
        before.learns_manifest(dir, manifest, after),
    ensures
        manifest_at(after.manifests@, dir@) == Some(manifest),
        other != dir@ ==> manifest_at(after.manifests@, other) == manifest_at(
            before.manifests@,
            other,
        ),
        glob_at(after.globs@, other, pattern) == glob_at(before.globs@, other, pattern),
{
    law_last_manifest_counts(before.manifests@, dir, manifest, dir@);
    law_last_manifest_counts(before.manifests@, dir, manifest, other);
}

/// Once the matches of a pattern are recorded they are what is known of it below that root, and all
/// else stays known as it was.
pub proof fn law_recorded_glob_is_known(
    before: Snapshot,
    record: Expanded,
    after: Snapshot,
    other: Seq<Seq<u8>>,
    pattern: Seq<char>,
)
    requires
        before.learns_glob(record, after),
    ensures
        glob_at(after.globs@, record.root@, record.pattern@) == Some(record.dirs),
        other != record.root@ || pattern != record.pattern@ ==> glob_at(
            after.globs@,
            other,
            pattern,
        ) == glob_at(before.globs@, other, pattern),
        manifest_at(after.manifests@, other) == manifest_at(before.manifests@, other),
{
    law_last_glob_counts(before.globs@, record, record.root@, record.pattern@);
    law_last_glob_counts(before.globs@, record, other, pattern);
}

} // verus!
