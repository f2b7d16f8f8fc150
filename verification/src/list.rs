//! The listing of a workspace: its members and their tasks.

use crate::names::NameMap;
use crate::paths::dot;
use crate::paths::is_part;
use crate::paths::law_path_round_trip;
use crate::paths::lemma_no_dots;
use crate::paths::lemma_relative;
use crate::paths::lemma_slash_is_text;
use crate::paths::path_bytes;
use crate::paths::readable;
use crate::paths::slashed;
use crate::paths::split_path;
use crate::paths::stretches;
use crate::paths::valid_parts;
use crate::paths::without_dots;
use crate::paths::AbsPath;
use crate::tasks::Task;
use crate::text::join;
use crate::text::joined;
use crate::text::law_bytes_cover_characters;
use crate::text::law_widest_is_the_maximum;
use crate::text::pad;
use crate::text::padded;
use crate::text::texts;
use crate::text::widest;
use crate::text::widest_of;
use crate::workspace::Workspace;
use vstd::prelude::*;
use vstd::utf8::decode_utf8_encode_utf8;
use vstd::utf8::encode_utf8;
use vstd::utf8::is_ascii_chars_encode_utf8;
use vstd::utf8::valid_utf8;
use vstd::utf8::valid_utf8_concat;

verus! {

/// A directory as seen from the root: `.` for the root itself, the way down from the root for what
/// is below it, and the full path for what is not.
pub open spec fn rel_text(dir: Seq<Seq<u8>>, root: Seq<Seq<u8>>) -> Seq<char> {
    if !root.is_prefix_of(dir) {
        readable(path_bytes(dir))
    } else if dir.len() == root.len() {
        "."@
    } else {
        readable(slashed(dir.skip(root.len() as int)).drop_first())
    }
}

/// A directory as seen from the root.
pub fn rel(dir: &AbsPath, root: &AbsPath) -> (text: String)
    ensures
        text@ == rel_text(dir@, root@),
{
    if !dir.starts_with(root) {
        dir.display()
    } else if dir.parts.len() == root.parts.len() {
        ".".to_owned()
    } else {
        dir.display_below(root)
    }
}

/// Where a text leads from a directory: a text that begins with a slash is a path of its own.
pub open spec fn led_to(root: Seq<Seq<u8>>, text: Seq<char>) -> Seq<Seq<u8>> {
    let bytes = encode_utf8(text);
    if bytes.len() > 0 && bytes[0] == 47 {
        split_path(bytes)
    } else {
        root + split_path(bytes)
    }
}

proof fn lemma_dot_text()
    ensures
        encode_utf8("."@) == dot(),
        split_path(dot()) == Seq::<Seq<u8>>::empty(),
{
    reveal_strlit(".");
    is_ascii_chars_encode_utf8("."@);
    assert(encode_utf8("."@) =~= dot());
    let none = Seq::<u8>::empty();
    assert(dot().drop_last() =~= none);
    assert(stretches(none) =~= Seq::<Seq<u8>>::empty());
    assert(stretches(dot()) =~= seq![dot()]);
    let one = seq![dot()];
    assert(one.drop_last() =~= Seq::<Seq<u8>>::empty());
    assert(one.last() == dot());
    assert(without_dots(one.drop_last()) =~= Seq::<Seq<u8>>::empty());
}

/// From the root, what is shown of a directory leads to that directory; and a dot is shown of the
/// root alone.
pub proof fn law_rel_leads_back(dir: Seq<Seq<u8>>, root: Seq<Seq<u8>>)
    requires
        valid_parts(dir),
        valid_parts(root),
        forall|i: int| 0 <= i < dir.len() ==> valid_utf8(#[trigger] dir[i]),
    ensures
        led_to(root, rel_text(dir, root)) == dir,
        rel_text(dir, root) == "."@ <==> dir == root,
{
    let text = rel_text(dir, root);
    lemma_dot_text();
    if !root.is_prefix_of(dir) {
        let bytes = path_bytes(dir);
        assert(valid_utf8(bytes) && bytes[0] == 47) by {
            lemma_slash_is_text();
            if dir.len() > 0 {
                lemma_relative(dir);
                valid_utf8_concat(seq![47u8], bytes.drop_first());
                assert(seq![47u8] + bytes.drop_first() =~= bytes);
            }
        }
        decode_utf8_encode_utf8(bytes);
        law_path_round_trip(dir);
        assert(dir.is_prefix_of(dir));
    } else if dir.len() == root.len() {
        assert(dir =~= root);
        assert(root + Seq::<Seq<u8>>::empty() =~= dir);
    } else {
        let rest = dir.skip(root.len() as int);
        assert forall|i: int| 0 <= i < rest.len() implies is_part(#[trigger] rest[i])
            && valid_utf8(rest[i]) by {
            assert(is_part(dir[root.len() + i]) && valid_utf8(dir[root.len() + i]));
        }
        let bytes = slashed(rest).drop_first();
        lemma_relative(rest);
        decode_utf8_encode_utf8(bytes);
        assert(is_part(rest[0]));
        assert(rest[0].contains(rest[0][0]));
        assert(bytes[0] != 47);
        lemma_no_dots(rest);
        assert(split_path(bytes) == rest);
        assert(root + rest =~= dir);
    }
}

/// What is listed of a package.
pub struct Row {
    pub name: Seq<char>,
    pub dir: Seq<char>,
    pub tasks: Seq<char>,
}

/// The row of the root, which is there only if it has tasks.
pub open spec fn root_rows(ws: Workspace) -> Seq<Row> {
    if ws.root_tasks.entries@.len() == 0 {
        Seq::empty()
    } else {
        seq![
            Row {
                name: match ws.root_name {
                    Some(name) => name@,
                    None => "(root)"@,
                },
                dir: rel_text(ws.root@, ws.root@),
                tasks: joined(ws.root_tasks.names(), ", "@),
            },
        ]
    }
}

/// The row of the root, if it has one, and those of the members in their order.
pub open spec fn listing(ws: Workspace) -> Seq<Row> {
    root_rows(ws) + Seq::new(
        ws.members@.len(),
        |i: int|
            Row {
                name: ws.members@[i].name@,
                dir: rel_text(ws.members@[i].dir@, ws.root@),
                tasks: joined(ws.members@[i].tasks.names(), ", "@),
            },
    )
}

pub open spec fn row_names(rows: Seq<Row>) -> Seq<Seq<char>> {
    Seq::new(rows.len(), |i: int| rows[i].name)
}

pub open spec fn row_dirs(rows: Seq<Row>) -> Seq<Seq<char>> {
    Seq::new(rows.len(), |i: int| rows[i].dir)
}

/// A row as a line: its columns as wide as the widest entry, two spaces apart.
pub open spec fn row_line(row: Row, name_width: nat, dir_width: nat) -> Seq<char> {
    padded(row.name, name_width) + "  "@ + padded(row.dir, dir_width) + "  "@ + row.tasks
}

pub open spec fn listing_lines(rows: Seq<Row>) -> Seq<Seq<char>> {
    Seq::new(
        rows.len(),
        |i: int| row_line(rows[i], widest(row_names(rows)), widest(row_dirs(rows))),
    )
}

/// The rows of a listing, column by column.
struct Columns {
    names: Vec<String>,
    dirs: Vec<String>,
    tasks: Vec<String>,
}

impl Columns {
    spec fn shows(&self, rows: Seq<Row>) -> bool {
        &&& self.names@.len() == rows.len()
        &&& self.dirs@.len() == rows.len()
        &&& self.tasks@.len() == rows.len()
        &&& forall|i: int|
            0 <= i < rows.len() ==> {
                &&& self.names@[i]@ == (#[trigger] rows[i]).name
                &&& self.dirs@[i]@ == rows[i].dir
                &&& self.tasks@[i]@ == rows[i].tasks
            }
    }

    fn add(&mut self, name: String, dir: String, tasks: &NameMap<Task>)
        ensures
            forall|rows: Seq<Row>| #[trigger]
                old(self).shows(rows) ==> final(self).shows(
                    rows.push(
                        (Row { name: name@, dir: dir@, tasks: joined(tasks.names(), ", "@) }),
                    ),
                ),
    {
        let ghost before = *self;
        let ghost row = Row { name: name@, dir: dir@, tasks: joined(tasks.names(), ", "@) };
        self.names.push(name);
        self.dirs.push(dir);
        self.tasks.push(join(&tasks.name_list(), ", "));
        proof {
            assert forall|rows: Seq<Row>| #[trigger] before.shows(rows) implies self.shows(
                rows.push(row),
            ) by {
                let more = rows.push(row);
                assert forall|i: int| 0 <= i < more.len() implies {
                    &&& self.names@[i]@ == (#[trigger] more[i]).name
                    &&& self.dirs@[i]@ == more[i].dir
                    &&& self.tasks@[i]@ == more[i].tasks
                } by {
                    if i < rows.len() {
                        assert(more[i] == rows[i]);
                    }
                }
            }
        }
    }
}

/// Lists the members of a workspace with their tasks; the root comes first if it defines tasks.
pub fn list(ws: &Workspace) -> (lines: Vec<String>)
    ensures
        texts(lines@) == listing_lines(listing(*ws)),
{
    let mut columns = Columns { names: Vec::new(), dirs: Vec::new(), tasks: Vec::new() };
    let ghost mut rows: Seq<Row> = Seq::empty();
    if ws.root_tasks.len() > 0 {
        let name = match &ws.root_name {
            Some(name) => name.clone(),
            None => "(root)".to_owned(),
        };
        let ghost before = columns;
        columns.add(name, rel(&ws.root, &ws.root), &ws.root_tasks);
        proof {
            assert(before.shows(rows));
            rows = rows.push(root_rows(*ws)[0]);
        }
    }
    proof {
        assert(rows =~= root_rows(*ws));
        assert(rows =~= listing(*ws).take(rows.len() as int));
    }
    let mut i: usize = 0;
    while i < ws.members.len()
        invariant
            i <= ws.members@.len(),
            rows.len() == root_rows(*ws).len() + i,
            rows == listing(*ws).take(rows.len() as int),
            columns.shows(rows),
        decreases ws.members.len() - i,
    {
        let m = &ws.members[i];
        let ghost before = columns;
        columns.add(m.name.clone(), rel(&m.dir, &ws.root), &m.tasks);
        proof {
            assert(before.shows(rows));
            let row = listing(*ws)[rows.len() as int];
            assert(row.name == m.name@);
            assert(listing(*ws).take(rows.len() as int + 1) =~= rows.push(row));
            rows = rows.push(row);
        }
        i += 1;
    }
    proof {
        assert(rows =~= listing(*ws));
        assert(texts(columns.names@) =~= row_names(rows));
        assert(texts(columns.dirs@) =~= row_dirs(rows));
    }
    let name_width = widest_of(&columns.names);
    let dir_width = widest_of(&columns.dirs);
    let mut lines: Vec<String> = Vec::new();
    let mut k: usize = 0;
    while k < columns.names.len()
        invariant
            k <= columns.names@.len(),
            columns.shows(rows),
            name_width == widest(row_names(rows)),
            dir_width == widest(row_dirs(rows)),
            lines@.len() == k,
            forall|i: int|
                0 <= i < k ==> #[trigger] lines@[i]@ == row_line(
                    rows[i],
                    name_width as nat,
                    dir_width as nat,
                ),
        decreases columns.names.len() - k,
    {
        let ghost row = rows[k as int];
        let mut line = pad(columns.names[k].as_str(), name_width);
        line.append("  ");
        line.append(pad(columns.dirs[k].as_str(), dir_width).as_str());
        line.append("  ");
        line.append(columns.tasks[k].as_str());
        lines.push(line);
        k += 1;
    }
    proof {
        assert(texts(lines@) =~= listing_lines(listing(*ws)));
    }
    lines
}

/// A listing has one row for each member, in their order, with its name, its directory as seen from
/// the root and its tasks. The root has a row of its own, before them, exactly if it has tasks.
pub proof fn law_listing_has_every_member(ws: Workspace, i: int)
    ensures
        ws.root_tasks.entries@.len() == 0 ==> listing(ws).len() == ws.members@.len(),
        ws.root_tasks.entries@.len() > 0 ==> {
            &&& listing(ws).len() == ws.members@.len() + 1
            &&& listing(ws)[0].dir == "."@
            &&& listing(ws)[0].tasks == joined(ws.root_tasks.names(), ", "@)
            &&& ws.root_name matches Some(name) ==> listing(ws)[0].name == name@
            &&& ws.root_name is None ==> listing(ws)[0].name == "(root)"@
        },
        0 <= i < ws.members@.len() ==> {
            let row = listing(ws)[listing(ws).len() - ws.members@.len() + i];
            &&& row.name == ws.members@[i].name@
            &&& row.dir == rel_text(ws.members@[i].dir@, ws.root@)
            &&& row.tasks == joined(ws.members@[i].tasks.names(), ", "@)
        },
{
    assert(ws.root@.is_prefix_of(ws.root@)) by {
        assert(ws.root@ =~= ws.root@.subrange(0, ws.root@.len() as int));
    }
}

/// Each row becomes one line, which begins with the name. The columns line up: in every line the
/// directory begins two places behind the widest name, and the tasks two places behind the widest
/// directory. Nothing but spaces stands between.
pub proof fn law_columns_line_up(rows: Seq<Row>, i: int, k: int)
    requires
        0 <= i < rows.len(),
    ensures
        listing_lines(rows).len() == rows.len(),
        ({
            let line = listing_lines(rows)[i];
            let second = widest(row_names(rows)) + 2;
            let third = second + widest(row_dirs(rows)) + 2;
            &&& line.take(rows[i].name.len() as int) == rows[i].name
            &&& line.subrange(second as int, (second + rows[i].dir.len()) as int) == rows[i].dir
            &&& line.skip(third as int) == rows[i].tasks
            &&& rows[i].name.len() <= k < second || second + rows[i].dir.len() <= k < third
                ==> line[k] == ' '
        }),
{
    let row = rows[i];
    let line = listing_lines(rows)[i];
    let names = widest(row_names(rows));
    let dirs = widest(row_dirs(rows));
    law_widest_is_the_maximum(row_names(rows));
    law_widest_is_the_maximum(row_dirs(rows));
    assert(row_names(rows)[i] == row.name);
    assert(row_dirs(rows)[i] == row.dir);
    law_bytes_cover_characters(row.name);
    law_bytes_cover_characters(row.dir);
    reveal_strlit("  ");
    let second = names + 2;
    let third = second + dirs + 2;
    assert(line.take(row.name.len() as int) =~= row.name);
    assert(line.subrange(second as int, (second + row.dir.len()) as int) =~= row.dir);
    assert(line.skip(third as int) =~= row.tasks);
}

} // verus!
