//! Absolute paths, as the names passed on the way down from `/`.

use crate::order::increasing;
use crate::order::law_first_difference_decides;
use crate::order::lemma_absent;
use crate::order::lemma_inserted;
use crate::order::lemma_precedes_strict_total;
use crate::order::precedes;
use crate::order::strict_total;
use crate::text::Rank;
use vstd::prelude::*;
use vstd::utf8::decode_utf8;
use vstd::utf8::encode_utf8;
use vstd::utf8::encode_utf8_decode_utf8;
use vstd::utf8::encode_utf8_valid_utf8;
use vstd::utf8::is_ascii_chars_encode_utf8;
use vstd::utf8::valid_utf8;
use vstd::utf8::valid_utf8_concat;

verus! {

/// An absolute path. A name is a run of bytes, since a Unix file name need not be text; `..` is a
/// name like any other.
#[derive(Debug)]
pub struct AbsPath {
    pub parts: Vec<Vec<u8>>,
}

/// What each row of a table of bytes holds.
pub open spec fn rows(table: Seq<Vec<u8>>) -> Seq<Seq<u8>> {
    Seq::new(table.len(), |i: int| table[i]@)
}

impl View for AbsPath {
    type V = Seq<Seq<u8>>;

    open spec fn view(&self) -> Seq<Seq<u8>> {
        rows(self.parts@)
    }
}

/// The order of file names: byte by byte.
pub open spec fn part_less() -> spec_fn(Seq<u8>, Seq<u8>) -> bool {
    |a: Seq<u8>, b: Seq<u8>| precedes(a, b, |x: u8, y: u8| x < y)
}

/// The order of paths: name by name.
pub open spec fn path_less() -> spec_fn(Seq<Seq<u8>>, Seq<Seq<u8>>) -> bool {
    |a: Seq<Seq<u8>>, b: Seq<Seq<u8>>| precedes(a, b, part_less())
}

/// Listed in increasing order, without repetition.
pub open spec fn sorted_paths(s: Seq<Seq<Seq<u8>>>) -> bool {
    increasing(s, path_less())
}

pub proof fn lemma_path_order()
    ensures
        strict_total(part_less()),
        strict_total(path_less()),
{
    lemma_precedes_strict_total(|x: u8, y: u8| x < y);
    lemma_precedes_strict_total(part_less());
}

fn rank_parts(a: &Vec<u8>, b: &Vec<u8>) -> (rank: Rank)
    ensures
        rank == Rank::Before <==> part_less()(a@, b@),
        rank == Rank::Same <==> a@ == b@,
        rank == Rank::After <==> part_less()(b@, a@),
{
    let ghost less = |x: u8, y: u8| x < y;
    let mut i: usize = 0;
    proof {
        lemma_path_order();
        assert(a@.skip(0) =~= a@);
        assert(b@.skip(0) =~= b@);
    }
    while i < a.len() && i < b.len()
        invariant
            i <= a.len(),
            i <= b.len(),
            less == |x: u8, y: u8| x < y,
            a@.take(i as int) == b@.take(i as int),
            precedes(a@, b@, less) == precedes(a@.skip(i as int), b@.skip(i as int), less),
            precedes(b@, a@, less) == precedes(b@.skip(i as int), a@.skip(i as int), less),
            strict_total(part_less()),
        decreases a.len() - i,
    {
        let ghost s = a@.skip(i as int);
        let ghost t = b@.skip(i as int);
        proof {
            assert(s[0] == a@[i as int] && t[0] == b@[i as int]);
            assert(s.drop_first() =~= a@.skip(i + 1));
            assert(t.drop_first() =~= b@.skip(i + 1));
        }
        if a[i] < b[i] {
            proof {
                assert(precedes(s, t, less));
                assert(part_less()(a@, b@));
            }
            return Rank::Before;
        }
        if b[i] < a[i] {
            proof {
                assert(precedes(t, s, less));
                assert(part_less()(b@, a@));
            }
            return Rank::After;
        }
        proof {
            assert(a@.take(i + 1) =~= a@.take(i as int).push(a@[i as int]));
            assert(b@.take(i + 1) =~= b@.take(i as int).push(b@[i as int]));
        }
        i += 1;
    }
    if i < b.len() {
        proof {
            assert(precedes(a@.skip(i as int), b@.skip(i as int), less));
            assert(part_less()(a@, b@));
        }
        Rank::Before
    } else if i < a.len() {
        proof {
            assert(precedes(b@.skip(i as int), a@.skip(i as int), less));
            assert(part_less()(b@, a@));
        }
        Rank::After
    } else {
        proof {
            assert(a@.take(i as int) =~= a@);
            assert(b@.take(i as int) =~= b@);
        }
        Rank::Same
    }
}

/// The bytes between slashes, empty stretches left out.
pub open spec fn stretches(bytes: Seq<u8>) -> Seq<Seq<u8>>
    decreases bytes.len(),
{
    if bytes.len() == 0 {
        Seq::empty()
    } else if bytes.last() == 47 {
        stretches(bytes.drop_last())
    } else {
        let before = stretches(bytes.drop_last());
        if bytes.len() == 1 || bytes[bytes.len() - 2] == 47 {
            before.push(seq![bytes.last()])
        } else {
            before.drop_last().push(before.last().push(bytes.last()))
        }
    }
}

/// The directory itself, spelled `.`.
pub open spec fn dot() -> Seq<u8> {
    seq![46u8]
}

/// The stretches that are more than a dot.
pub open spec fn without_dots(parts: Seq<Seq<u8>>) -> Seq<Seq<u8>>
    decreases parts.len(),
{
    if parts.len() == 0 {
        Seq::empty()
    } else if parts.last() == dot() {
        without_dots(parts.drop_last())
    } else {
        without_dots(parts.drop_last()).push(parts.last())
    }
}

/// The names between slashes. A name that is empty or a dot leads nowhere and is left out.
pub open spec fn split_path(bytes: Seq<u8>) -> Seq<Seq<u8>> {
    without_dots(stretches(bytes))
}

/// A name that can stand in a path: not empty, not a dot, and without a slash.
pub open spec fn is_part(part: Seq<u8>) -> bool {
    part.len() > 0 && !part.contains(47u8) && part != dot()
}

pub open spec fn valid_parts(parts: Seq<Seq<u8>>) -> bool {
    forall|i: int| 0 <= i < parts.len() ==> is_part(#[trigger] parts[i])
}

proof fn lemma_stretches(bytes: Seq<u8>)
    ensures
        forall|i: int|
            0 <= i < stretches(bytes).len() ==> (#[trigger] stretches(bytes)[i]).len() > 0
                && !stretches(bytes)[i].contains(47u8),
        bytes.len() > 0 && bytes.last() != 47 ==> stretches(bytes).len() > 0,
    decreases bytes.len(),
{
    if bytes.len() > 0 {
        let head = bytes.drop_last();
        let before = stretches(head);
        let all = stretches(bytes);
        lemma_stretches(head);
        if bytes.last() != 47 {
            if bytes.len() > 1 && bytes[bytes.len() - 2] != 47 {
                assert(head.last() == bytes[bytes.len() - 2]);
                assert(!before[before.len() - 1].contains(47u8));
                let grown = before.last().push(bytes.last());
                assert(!grown.contains(47u8)) by {
                    if grown.contains(47u8) {
                        let k = grown.index_of(47u8);
                        assert(before.last()[k] == 47u8);
                    }
                }
            } else {
                assert(!seq![bytes.last()].contains(47u8));
            }
            assert forall|i: int| 0 <= i < all.len() implies (#[trigger] all[i]).len() > 0
                && !all[i].contains(47u8) by {
                if i < all.len() - 1 {
                    assert(all[i] == before[i]);
                }
            }
        }
    }
}

proof fn lemma_without_dots(parts: Seq<Seq<u8>>)
    requires
        forall|i: int|
            0 <= i < parts.len() ==> (#[trigger] parts[i]).len() > 0 && !parts[i].contains(47u8),
    ensures
        valid_parts(without_dots(parts)),
    decreases parts.len(),
{
    if parts.len() > 0 {
        let head = parts.drop_last();
        assert forall|i: int| 0 <= i < head.len() implies (#[trigger] head[i]).len() > 0
            && !head[i].contains(47u8) by {
            assert(parts[i] == head[i]);
        }
        lemma_without_dots(head);
        assert(parts[parts.len() - 1].len() > 0);
    }
}

pub proof fn lemma_no_dots(parts: Seq<Seq<u8>>)
    requires
        valid_parts(parts),
    ensures
        without_dots(parts) == parts,
    decreases parts.len(),
{
    if parts.len() > 0 {
        let head = parts.drop_last();
        assert forall|i: int| 0 <= i < head.len() implies is_part(#[trigger] head[i]) by {
            assert(is_part(parts[i]));
        }
        lemma_no_dots(head);
        assert(is_part(parts[parts.len() - 1]));
        assert(head.push(parts.last()) =~= parts);
    } else {
        assert(parts =~= Seq::<Seq<u8>>::empty());
    }
}

/// Each name behind a slash; a single slash for the root directory.
pub open spec fn path_bytes(parts: Seq<Seq<u8>>) -> Seq<u8> {
    if parts.len() == 0 {
        seq![47u8]
    } else {
        slashed(parts)
    }
}

pub open spec fn slashed(parts: Seq<Seq<u8>>) -> Seq<u8>
    decreases parts.len(),
{
    if parts.len() == 0 {
        Seq::empty()
    } else {
        slashed(parts.drop_last()).push(47u8) + parts.last()
    }
}

/// Bytes as text, with U+FFFD in place of what is not UTF-8.
pub uninterp spec fn lossy_text(bytes: Seq<u8>) -> Seq<char>;

/// Calls `String::from_utf8_lossy`. Trusted: the text is a function of the bytes alone, here
/// called `lossy_text`, and bytes that are valid UTF-8 come out as the text that they encode. How
/// many replacement characters stand for a stretch of other bytes is left unsaid.
#[verifier::external_body]
fn lossy(bytes: &Vec<u8>) -> (text: String)
    ensures
        text@ == lossy_text(bytes@),
        valid_utf8(bytes@) ==> text@ == decode_utf8(bytes@),
{
    String::from_utf8_lossy(bytes).into_owned()
}

/// Bytes as people read them: the text that they encode, if they are UTF-8.
pub open spec fn readable(bytes: Seq<u8>) -> Seq<char> {
    if valid_utf8(bytes) {
        decode_utf8(bytes)
    } else {
        lossy_text(bytes)
    }
}

/// The stretches between slashes.
fn split_stretches(bytes: &Vec<u8>) -> (parts: Vec<Vec<u8>>)
    ensures
        rows(parts@) == stretches(bytes@),
{
    let mut parts: Vec<Vec<u8>> = Vec::new();
    let mut open = false;
    let mut i: usize = 0;
    proof {
        assert(rows(parts@) =~= stretches(bytes@.take(0)));
    }
    while i < bytes.len()
        invariant
            i <= bytes.len(),
            open == (i > 0 && bytes@[i - 1] != 47),
            open ==> parts.len() > 0,
            rows(parts@) == stretches(bytes@.take(i as int)),
        decreases bytes.len() - i,
    {
        let b = bytes[i];
        let ghost before = bytes@.take(i as int);
        let ghost next = bytes@.take(i + 1);
        let ghost had = parts@;
        proof {
            assert(next.drop_last() =~= before);
            assert(next.last() == b);
            assert(i > 0 ==> next[next.len() - 2] == bytes@[i - 1]);
        }
        if b == 47 {
            open = false;
        } else if open {
            let mut part = match parts.pop() {
                Some(part) => part,
                None => Vec::new(),
            };
            part.push(b);
            parts.push(part);
            proof {
                assert(rows(had).drop_last() =~= rows(had.drop_last()));
                assert(rows(parts@) =~= rows(had).drop_last().push(rows(had).last().push(b)));
            }
        } else {
            let mut part: Vec<u8> = Vec::new();
            part.push(b);
            proof {
                assert(part@ =~= seq![b]);
            }
            parts.push(part);
            proof {
                assert(rows(parts@) =~= rows(had).push(seq![b]));
            }
            open = true;
        }
        i += 1;
    }
    proof {
        assert(bytes@.take(i as int) =~= bytes@);
    }
    parts
}

impl AbsPath {
    /// Every name is one that can stand in a path.
    pub open spec fn wf(&self) -> bool {
        valid_parts(self@)
    }

    /// Reads a path from its bytes, as the operating system spells it.
    pub fn parse(bytes: &Vec<u8>) -> (path: AbsPath)
        ensures
            path@ == split_path(bytes@),
            path.wf(),
    {
        let raw = split_stretches(bytes);
        let ghost all = rows(raw@);
        let mut parts: Vec<Vec<u8>> = Vec::new();
        let mut i: usize = 0;
        proof {
            assert(rows(parts@) =~= without_dots(all.take(0)));
        }
        while i < raw.len()
            invariant
                i <= raw@.len(),
                all == rows(raw@),
                rows(parts@) == without_dots(all.take(i as int)),
            decreases raw.len() - i,
        {
            let part = &raw[i];
            let ghost had = rows(parts@);
            proof {
                let next = all.take(i + 1);
                assert(next.drop_last() =~= all.take(i as int));
                assert(next.last() == part@);
            }
            if part.len() == 1 && part[0] == 46 {
                proof {
                    assert(part@ =~= dot());
                }
            } else {
                proof {
                    assert(part@ != dot());
                }
                parts.push(copy_bytes(part));
                proof {
                    assert(rows(parts@) =~= had.push(part@));
                }
            }
            i += 1;
        }
        proof {
            assert(all.take(i as int) =~= all);
            lemma_stretches(bytes@);
            lemma_without_dots(all);
        }
        AbsPath { parts }
    }

    /// Spells the path as the operating system does.
    pub fn to_bytes(&self) -> (bytes: Vec<u8>)
        ensures
            bytes@ == path_bytes(self@),
    {
        let mut bytes: Vec<u8> = Vec::new();
        if self.parts.len() == 0 {
            bytes.push(47);
            proof {
                assert(bytes@ =~= path_bytes(self@));
            }
            return bytes;
        }
        let mut i: usize = 0;
        while i < self.parts.len()
            invariant
                i <= self.parts.len(),
                bytes@ == slashed(self@.take(i as int)),
            decreases self.parts.len() - i,
        {
            bytes.push(47);
            let ghost head = bytes@;
            let mut k: usize = 0;
            while k < self.parts[i].len()
                invariant
                    i < self.parts.len(),
                    k <= self.parts@[i as int]@.len(),
                    bytes@ == head + self.parts@[i as int]@.take(k as int),
                decreases self.parts@[i as int]@.len() - k,
            {
                bytes.push(self.parts[i][k]);
                proof {
                    assert(self.parts@[i as int]@.take(k + 1) =~= self.parts@[i as int]@.take(
                        k as int,
                    ).push(self.parts@[i as int]@[k as int]));
                }
                k += 1;
            }
            proof {
                assert(self.parts@[i as int]@.take(k as int) =~= self.parts@[i as int]@);
                let next = self@.take(i + 1);
                assert(next.drop_last() =~= self@.take(i as int));
                assert(next.last() == self.parts@[i as int]@);
            }
            i += 1;
        }
        proof {
            assert(self@.take(i as int) =~= self@);
        }
        bytes
    }

    /// The path for people to read.
    pub fn display(&self) -> (text: String)
        ensures
            text@ == readable(path_bytes(self@)),
    {
        lossy(&self.to_bytes())
    }

    pub fn rank(&self, other: &AbsPath) -> (rank: Rank)
        ensures
            rank == Rank::Before <==> path_less()(self@, other@),
            rank == Rank::Same <==> self@ == other@,
            rank == Rank::After <==> path_less()(other@, self@),
    {
        let ghost a = self@;
        let ghost b = other@;
        let ghost less = part_less();
        let mut i: usize = 0;
        proof {
            lemma_path_order();
            assert(a.skip(0) =~= a);
            assert(b.skip(0) =~= b);
        }
        while i < self.parts.len() && i < other.parts.len()
            invariant
                a == self@,
                b == other@,
                i <= a.len(),
                i <= b.len(),
                less == part_less(),
                a.take(i as int) == b.take(i as int),
                precedes(a, b, less) == precedes(a.skip(i as int), b.skip(i as int), less),
                precedes(b, a, less) == precedes(b.skip(i as int), a.skip(i as int), less),
                strict_total(part_less()),
                strict_total(path_less()),
            decreases self.parts.len() - i,
        {
            let ghost s = a.skip(i as int);
            let ghost t = b.skip(i as int);
            proof {
                assert(s[0] == a[i as int] && t[0] == b[i as int]);
                assert(s.drop_first() =~= a.skip(i + 1));
                assert(t.drop_first() =~= b.skip(i + 1));
            }
            match rank_parts(&self.parts[i], &other.parts[i]) {
                Rank::Before => {
                    proof {
                        assert(a[i as int] != b[i as int]) by {
                            assert(!part_less()(b[i as int], b[i as int]));
                        }
                        assert(precedes(s, t, less));
                        assert(path_less()(a, b));
                    }
                    return Rank::Before;
                },
                Rank::After => {
                    proof {
                        assert(a[i as int] != b[i as int]) by {
                            assert(!part_less()(b[i as int], b[i as int]));
                        }
                        assert(precedes(t, s, less));
                        assert(path_less()(b, a));
                    }
                    return Rank::After;
                },
                Rank::Same => {
                    proof {
                        assert(a.take(i + 1) =~= a.take(i as int).push(a[i as int]));
                        assert(b.take(i + 1) =~= b.take(i as int).push(b[i as int]));
                    }
                },
            }
            i += 1;
        }
        if i < other.parts.len() {
            proof {
                assert(precedes(a.skip(i as int), b.skip(i as int), less));
                assert(path_less()(a, b));
            }
            Rank::Before
        } else if i < self.parts.len() {
            proof {
                assert(precedes(b.skip(i as int), a.skip(i as int), less));
                assert(path_less()(b, a));
            }
            Rank::After
        } else {
            proof {
                assert(a.take(i as int) =~= a);
                assert(b.take(i as int) =~= b);
            }
            Rank::Same
        }
    }

    pub fn same(&self, other: &AbsPath) -> (same: bool)
        ensures
            same == (self@ == other@),
    {
        matches!(self.rank(other), Rank::Same)
    }

    /// Whether `dir` is this path or one of the directories above it.
    pub fn starts_with(&self, dir: &AbsPath) -> (inside: bool)
        ensures
            inside == dir@.is_prefix_of(self@),
    {
        if dir.parts.len() > self.parts.len() {
            return false;
        }
        let mut i: usize = 0;
        while i < dir.parts.len()
            invariant
                i <= dir.parts.len() <= self.parts.len(),
                forall|k: int| 0 <= k < i ==> #[trigger] dir@[k] == self@[k],
            decreases dir.parts.len() - i,
        {
            if !matches!(rank_parts(&dir.parts[i], &self.parts[i]), Rank::Same) {
                proof {
                    assert(dir@[i as int] != self@[i as int]);
                    assert(self@.subrange(0, dir@.len() as int)[i as int] == self@[i as int]);
                }
                return false;
            }
            i += 1;
        }
        proof {
            assert(dir@ =~= self@.subrange(0, dir@.len() as int));
        }
        true
    }

    /// The first `n` names: the path itself or a directory above it.
    pub fn ancestor(&self, n: usize) -> (dir: AbsPath)
        requires
            n <= self@.len(),
        ensures
            dir@ == self@.take(n as int),
            self.wf() ==> dir.wf(),
    {
        let mut parts: Vec<Vec<u8>> = Vec::new();
        let mut i: usize = 0;
        while i < n
            invariant
                i <= n <= self.parts.len(),
                rows(parts@) == self@.take(i as int),
            decreases n - i,
        {
            let part = copy_bytes(&self.parts[i]);
            let ghost had = parts@;
            parts.push(part);
            proof {
                assert(rows(parts@) =~= rows(had).push(self@[i as int]));
                assert(self@.take(i + 1) =~= self@.take(i as int).push(self@[i as int]));
            }
            i += 1;
        }
        AbsPath { parts }
    }

    /// What is left of the path below `dir`.
    pub fn below(&self, dir: &AbsPath) -> (rest: AbsPath)
        requires
            dir@.is_prefix_of(self@),
        ensures
            rest@ == self@.skip(dir@.len() as int),
            self.wf() ==> rest.wf(),
    {
        let mut parts: Vec<Vec<u8>> = Vec::new();
        let mut i: usize = dir.parts.len();
        while i < self.parts.len()
            invariant
                dir@.len() <= i <= self.parts.len(),
                rows(parts@) == self@.subrange(dir@.len() as int, i as int),
            decreases self.parts.len() - i,
        {
            let part = copy_bytes(&self.parts[i]);
            let ghost had = parts@;
            parts.push(part);
            proof {
                assert(rows(parts@) =~= rows(had).push(self@[i as int]));
                assert(self@.subrange(dir@.len() as int, i + 1) =~= self@.subrange(
                    dir@.len() as int,
                    i as int,
                ).push(self@[i as int]));
            }
            i += 1;
        }
        proof {
            assert(self@.subrange(dir@.len() as int, i as int) =~= self@.skip(dir@.len() as int));
        }
        AbsPath { parts }
    }

    /// What is left of the path below `dir`, for people to read, without a slash in front.
    pub fn display_below(&self, dir: &AbsPath) -> (text: String)
        requires
            dir@.is_prefix_of(self@),
            dir@.len() < self@.len(),
        ensures
            text@ == readable(slashed(self@.skip(dir@.len() as int)).drop_first()),
    {
        let rest = self.below(dir);
        let mut bytes = rest.to_bytes();
        proof {
            assert(rest@.len() > 0);
            assert(slashed(rest@).len() > 0);
        }
        bytes.remove(0);
        proof {
            assert(bytes@ =~= slashed(rest@).drop_first());
        }
        lossy(&bytes)
    }

    /// The path of `name` in this directory.
    pub fn join(&self, name: &str) -> (path: AbsPath)
        ensures
            path@ == self@.push(encode_utf8(name@)),
            self.wf() && is_part(encode_utf8(name@)) ==> path.wf(),
    {
        let mut path = self.ancestor(self.parts.len());
        let part = vstd::slice::slice_to_vec(name.as_bytes());
        let ghost had = path.parts@;
        path.parts.push(part);
        proof {
            assert(self@.take(self@.len() as int) =~= self@);
            assert(path@ =~= rows(had).push(part@));
        }
        path
    }
}

impl Clone for AbsPath {
    fn clone(&self) -> (path: AbsPath)
        ensures
            path@ == self@,
    {
        proof {
            assert(self@.take(self@.len() as int) =~= self@);
        }
        self.ancestor(self.parts.len())
    }
}

/// A copy of a run of bytes.
pub fn copy_bytes(bytes: &Vec<u8>) -> (copy: Vec<u8>)
    ensures
        copy@ == bytes@,
{
    let mut copy: Vec<u8> = Vec::new();
    let mut i: usize = 0;
    while i < bytes.len()
        invariant
            i <= bytes.len(),
            copy@ == bytes@.take(i as int),
        decreases bytes.len() - i,
    {
        copy.push(bytes[i]);
        proof {
            assert(bytes@.take(i + 1) =~= bytes@.take(i as int).push(bytes@[i as int]));
        }
        i += 1;
    }
    proof {
        assert(bytes@.take(i as int) =~= bytes@);
    }
    copy
}

/// What each path of a list holds.
pub open spec fn path_views(list: Seq<AbsPath>) -> Seq<Seq<Seq<u8>>> {
    Seq::new(list.len(), |i: int| list[i]@)
}

/// A set of paths, held in increasing order.
#[derive(Debug)]
pub struct PathSet {
    pub items: Vec<AbsPath>,
}

impl View for PathSet {
    type V = Set<Seq<Seq<u8>>>;

    open spec fn view(&self) -> Set<Seq<Seq<u8>>> {
        self.paths().to_set()
    }
}

impl PathSet {
    /// The paths in increasing order.
    pub open spec fn paths(&self) -> Seq<Seq<Seq<u8>>> {
        path_views(self.items@)
    }

    pub open spec fn wf(&self) -> bool {
        sorted_paths(self.paths())
    }

    pub fn new() -> (set: PathSet)
        ensures
            set.wf(),
            set@ == Set::<Seq<Seq<u8>>>::empty(),
    {
        let set = PathSet { items: Vec::new() };
        proof {
            assert(set@ =~= Set::<Seq<Seq<u8>>>::empty());
        }
        set
    }

    /// The place of the first path that does not come before `path`, and whether it is `path`.
    fn place(&self, path: &AbsPath) -> (found: (usize, bool))
        requires
            self.wf(),
        ensures
            found.0 <= self.items.len(),
            found.1 ==> found.0 < self.items.len() && self.paths()[found.0 as int] == path@,
            !found.1 ==> !self@.contains(path@),
            forall|k: int| 0 <= k < found.0 ==> path_less()(#[trigger] self.paths()[k], path@),
            !found.1 ==> forall|k: int|
                found.0 <= k < self.items.len() ==> path_less()(path@, #[trigger] self.paths()[k]),
    {
        let mut i: usize = 0;
        proof {
            lemma_path_order();
        }
        while i < self.items.len()
            invariant
                i <= self.items.len(),
                self.wf(),
                strict_total(path_less()),
                forall|k: int| 0 <= k < i ==> path_less()(#[trigger] self.paths()[k], path@),
            decreases self.items.len() - i,
        {
            match self.items[i].rank(path) {
                Rank::Before => {
                    assert(self.paths()[i as int] == self.items@[i as int]@);
                },
                Rank::Same => {
                    assert(self.paths()[i as int] == path@);
                    return (i, true);
                },
                Rank::After => {
                    proof {
                        assert(path_less()(path@, self.paths()[i as int]));
                        assert forall|k: int| i <= k < self.items.len() implies path_less()(
                            path@,
                            #[trigger] self.paths()[k],
                        ) by {
                            if k > i {
                                assert(path_less()(self.paths()[i as int], self.paths()[k]));
                            }
                        }
                        lemma_absent(self.paths(), path@, i as int, path_less());
                    }
                    return (i, false);
                },
            }
            i += 1;
        }
        proof {
            lemma_absent(self.paths(), path@, i as int, path_less());
        }
        (i, false)
    }

    pub fn contains(&self, path: &AbsPath) -> (found: bool)
        requires
            self.wf(),
        ensures
            found == self@.contains(path@),
    {
        let (i, found) = self.place(path);
        proof {
            if found {
                assert(self.paths().contains(path@));
            }
        }
        found
    }

    /// Adds a path.
    pub fn insert(&mut self, path: AbsPath)
        requires
            old(self).wf(),
        ensures
            final(self).wf(),
            final(self)@ == old(self)@.insert(path@),
    {
        let (i, found) = self.place(&path);
        if found {
            proof {
                assert(self.paths().contains(path@));
                assert(self@ =~= self@.insert(path@));
            }
            return ;
        }
        let ghost before = self.paths();
        let ghost at = path@;
        self.items.insert(i, path);
        proof {
            lemma_path_order();
            lemma_inserted(before, at, i as int, path_less());
            assert(self.paths() =~= before.insert(i as int, at));
            assert(self@ =~= before.to_set().insert(at));
        }
    }
}

/// A name at the start or behind a slash is one more stretch.
proof fn lemma_one_more(head: Seq<u8>, part: Seq<u8>)
    requires
        head.len() == 0 || head.last() == 47,
        part.len() > 0,
        !part.contains(47u8),
    ensures
        stretches(head + part) == stretches(head).push(part),
    decreases part.len(),
{
    let all = head + part;
    assert(part.contains(part[part.len() - 1]));
    assert(all.last() == part.last());
    assert(all.drop_last() =~= head + part.drop_last());
    if part.len() == 1 {
        assert(head + part.drop_last() =~= head);
        assert(all.len() > 1 ==> all[all.len() - 2] == head.last());
        assert(part =~= seq![part[0]]);
    } else {
        let less = part.drop_last();
        assert(!less.contains(47u8)) by {
            if less.contains(47u8) {
                assert(part[less.index_of(47u8)] == 47);
            }
        }
        lemma_one_more(head, less);
        assert(all[all.len() - 2] == part[part.len() - 2]);
        assert(part.contains(part[part.len() - 2]));
        assert(stretches(head).push(less).drop_last() =~= stretches(head));
        assert(less.push(part.last()) =~= part);
    }
}

/// A path that is spelled out and read again is the same path.
pub proof fn law_path_round_trip(parts: Seq<Seq<u8>>)
    requires
        valid_parts(parts),
    ensures
        split_path(path_bytes(parts)) == parts,
{
    lemma_no_dots(parts);
    if parts.len() == 0 {
        assert(seq![47u8].drop_last() =~= Seq::<u8>::empty());
        assert(stretches(seq![47u8]) =~= parts) by {
            assert(stretches(Seq::<u8>::empty()) =~= parts);
        }
    } else {
        lemma_split_slashed(parts);
    }
}

proof fn lemma_split_slashed(parts: Seq<Seq<u8>>)
    requires
        valid_parts(parts),
    ensures
        stretches(slashed(parts)) == parts,
    decreases parts.len(),
{
    if parts.len() == 0 {
        assert(parts =~= Seq::<Seq<u8>>::empty());
    } else {
        let rest = parts.drop_last();
        assert forall|i: int| 0 <= i < rest.len() implies is_part(#[trigger] rest[i]) by {
            assert(is_part(parts[i]));
        }
        lemma_split_slashed(rest);
        let head = slashed(rest).push(47u8);
        assert(head.drop_last() =~= slashed(rest));
        assert(is_part(parts[parts.len() - 1]));
        lemma_one_more(head, parts.last());
        assert(rest.push(parts.last()) =~= parts);
    }
}

/// The names with slashes between them, read again, are the names; they are UTF-8 if the names
/// are.
pub proof fn lemma_relative(parts: Seq<Seq<u8>>)
    requires
        valid_parts(parts),
        parts.len() > 0,
    ensures
        slashed(parts).len() > 1,
        slashed(parts)[0] == 47,
        slashed(parts)[1] == parts[0][0],
        stretches(slashed(parts).drop_first()) == parts,
        (forall|i: int| 0 <= i < parts.len() ==> valid_utf8(#[trigger] parts[i])) ==> valid_utf8(
            slashed(parts).drop_first(),
        ),
    decreases parts.len(),
{
    let head = parts.drop_last();
    let last = parts.last();
    let all = slashed(parts);
    assert(is_part(parts[parts.len() - 1]));
    assert(is_part(parts[0]));
    if parts.len() == 1 {
        assert(slashed(head) =~= Seq::<u8>::empty());
        assert(all =~= seq![47u8] + last);
        assert(all.drop_first() =~= last);
        assert(Seq::<u8>::empty() + last =~= last);
        lemma_one_more(Seq::empty(), last);
        assert(Seq::<Seq<u8>>::empty().push(last) =~= parts);
    } else {
        assert forall|i: int| 0 <= i < head.len() implies is_part(#[trigger] head[i]) by {
            assert(is_part(parts[i]));
        }
        lemma_relative(head);
        let front = slashed(head).drop_first();
        assert(all.drop_first() =~= front.push(47u8) + last);
        assert(front.push(47u8).drop_last() =~= front);
        lemma_one_more(front.push(47u8), last);
        assert(head.push(last) =~= parts);
        if forall|i: int| 0 <= i < parts.len() ==> valid_utf8(#[trigger] parts[i]) {
            assert forall|i: int| 0 <= i < head.len() implies valid_utf8(#[trigger] head[i]) by {
                assert(valid_utf8(parts[i]));
            }
            lemma_slash_is_text();
            valid_utf8_concat(front, seq![47u8]);
            assert(front + seq![47u8] =~= front.push(47u8));
            assert(valid_utf8(parts[parts.len() - 1]));
            valid_utf8_concat(front.push(47u8), last);
        }
    }
}

pub proof fn lemma_slash_is_text()
    ensures
        valid_utf8(seq![47u8]),
{
    is_ascii_chars_encode_utf8(seq!['/']);
    encode_utf8_valid_utf8(seq!['/']);
    assert(encode_utf8(seq!['/']) =~= seq!['/' as u8]);
}

proof fn lemma_stretches_concat(a: Seq<u8>, b: Seq<u8>)
    requires
        a.len() == 0 || a.last() == 47 || (b.len() > 0 && b[0] == 47) || b.len() == 0,
    ensures
        stretches(a + b) == stretches(a) + stretches(b),
    decreases b.len(),
{
    if b.len() == 0 {
        assert(a + b =~= a);
        assert(stretches(a) + stretches(b) =~= stretches(a));
    } else {
        let head = b.drop_last();
        let all = a + b;
        assert(all.drop_last() =~= a + head);
        assert(all.last() == b.last());
        lemma_stretches_concat(a, head);
        lemma_stretches(head);
        if b.last() != 47 {
            if b.len() > 1 {
                assert(all[all.len() - 2] == b[b.len() - 2]);
                if b[b.len() - 2] != 47 {
                    assert(head.last() == b[b.len() - 2]);
                }
            } else if a.len() > 0 {
                assert(all[all.len() - 2] == a.last());
            }
            assert(stretches(all) =~= stretches(a) + stretches(b));
        }
    }
}

proof fn lemma_without_dots_concat(a: Seq<Seq<u8>>, b: Seq<Seq<u8>>)
    ensures
        without_dots(a + b) == without_dots(a) + without_dots(b),
    decreases b.len(),
{
    if b.len() == 0 {
        assert(a + b =~= a);
        assert(without_dots(a) + without_dots(b) =~= without_dots(a));
    } else {
        assert((a + b).drop_last() =~= a + b.drop_last());
        lemma_without_dots_concat(a, b.drop_last());
        assert(without_dots(a + b) =~= without_dots(a) + without_dots(b));
    }
}

proof fn lemma_one_stretch(part: Seq<u8>)
    requires
        part.len() > 0,
        !part.contains(47u8),
    ensures
        stretches(part) == seq![part],
    decreases part.len(),
{
    let head = part.drop_last();
    assert(part.contains(part[part.len() - 1]));
    if head.len() > 0 {
        assert forall|i: int| 0 <= i < head.len() implies head[i] != 47 by {
            assert(part.contains(part[i]));
        }
        lemma_one_stretch(head);
        assert(part[part.len() - 2] == head.last());
        assert(part.contains(part[part.len() - 2]));
        assert(head.push(part.last()) =~= part);
        assert(stretches(part) =~= seq![part]);
    } else {
        assert(stretches(head) =~= Seq::<Seq<u8>>::empty());
        assert(seq![part.last()] =~= part);
        assert(stretches(part) =~= seq![part]);
    }
}

/// A slash separates: what stands before it and what stands behind it are read one after the
/// other. What holds no slash is one name, unless it is empty or a dot, which leads nowhere.
pub proof fn law_slash_separates(a: Seq<u8>, b: Seq<u8>, part: Seq<u8>)
    requires
        part.len() > 0,
        !part.contains(47u8),
    ensures
        split_path(a + seq![47u8] + b) == split_path(a) + split_path(b),
        part != seq![46u8] ==> split_path(part) == seq![part],
        split_path(seq![46u8]) == Seq::<Seq<u8>>::empty(),
        split_path(Seq::empty()) == Seq::<Seq<u8>>::empty(),
{
    let slash = seq![47u8];
    lemma_stretches_concat(a + slash, b);
    lemma_stretches_concat(a, slash);
    assert(slash.drop_last() =~= Seq::<u8>::empty());
    assert(stretches(slash.drop_last()) =~= Seq::<Seq<u8>>::empty());
    assert(stretches(slash) =~= Seq::<Seq<u8>>::empty());
    assert(stretches(a) + stretches(slash) =~= stretches(a));
    lemma_without_dots_concat(stretches(a), stretches(b));
    lemma_one_stretch(part);
    let none = Seq::<Seq<u8>>::empty();
    assert(without_dots(none) =~= none);
    assert(seq![part].drop_last() =~= none);
    assert(none.push(part) =~= seq![part]);
    assert(!dot().contains(47u8));
    lemma_one_stretch(dot());
    assert(seq![dot()].drop_last() =~= none);
    assert(without_dots(seq![dot()]) == without_dots(seq![dot()].drop_last()));
}

/// A path is written as a slash, and below another path as that path, a slash and the name.
pub proof fn law_path_is_written_by_names(parts: Seq<Seq<u8>>, part: Seq<u8>)
    ensures
        path_bytes(Seq::empty()) == seq![47u8],
        path_bytes(seq![part]) == seq![47u8] + part,
        parts.len() > 0 ==> path_bytes(parts.push(part)) == path_bytes(parts) + seq![47u8] + part,
{
    let one = seq![part];
    assert(one.drop_last() =~= Seq::<Seq<u8>>::empty());
    assert(slashed(one.drop_last()) =~= Seq::<u8>::empty());
    assert(path_bytes(one) =~= seq![47u8] + part);
    let more = parts.push(part);
    assert(more.drop_last() =~= parts);
    assert(slashed(more) =~= slashed(parts) + seq![47u8] + part);
}

/// What is UTF-8 is shown as the text that it encodes.
pub proof fn law_text_is_readable(text: Seq<char>)
    ensures
        readable(encode_utf8(text)) == text,
{
    encode_utf8_valid_utf8(text);
    encode_utf8_decode_utf8(text);
}

/// Of two paths the one comes first that has the smaller name, byte by byte, at the first
/// difference, or that ends there: a directory comes before what is in it.
pub proof fn law_path_order_by_first_difference(
    a: Seq<Seq<u8>>,
    b: Seq<Seq<u8>>,
    i: int,
    j: int,
)
    requires
        0 <= i <= a.len(),
        i < b.len(),
        forall|k: int| 0 <= k < i ==> #[trigger] a[k] == b[k],
        i < a.len() ==> {
            &&& 0 <= j <= a[i].len()
            &&& j < b[i].len()
            &&& forall|k: int| 0 <= k < j ==> #[trigger] a[i][k] == b[i][k]
            &&& j == a[i].len() || a[i][j] < b[i][j]
        },
    ensures
        path_less()(a, b),
{
    if i < a.len() {
        law_first_difference_decides(a[i], b[i], |x: u8, y: u8| x < y, j);
        assert(part_less()(a[i], b[i]));
        assert(a[i] != b[i]) by {
            if a[i] == b[i] {
                assert(j < a[i].len());
            }
        }
    }
    law_first_difference_decides(a, b, part_less(), i);
}

} // verus!
