//! Tasks, and the command lines that they turn into.

use crate::names::NameMap;
use crate::text::chars_of;
use crate::text::copy_texts;
use crate::text::join;
use crate::text::joined;
use crate::text::texts;
use vstd::prelude::*;

verus! {

/// A task from `[tool.ut.tasks]`: either a single shell command or a sequence of commands run in
/// order, stopping at the first failure.
#[derive(Debug)]
pub enum Task {
    Command(String),
    Steps(Vec<String>),
}

impl Task {
    /// The commands of the task, in order.
    pub open spec fn commands(&self) -> Seq<Seq<char>> {
        match self {
            Task::Command(cmd) => seq![cmd@],
            Task::Steps(cmds) => texts(cmds@),
        }
    }

    /// The commands of the task, in order.
    pub fn steps(&self) -> (steps: Vec<String>)
        ensures
            texts(steps@) == self.commands(),
    {
        match self {
            Task::Command(cmd) => {
                let mut steps: Vec<String> = Vec::new();
                steps.push(cmd.clone());
                proof {
                    assert(texts(steps@) =~= seq![cmd@]);
                }
                steps
            },
            Task::Steps(cmds) => copy_texts(cmds),
        }
    }

    pub fn is_sequence(&self) -> (sequence: bool)
        ensures
            sequence == (self is Steps),
    {
        matches!(self, Task::Steps(_))
    }
}

impl Clone for Task {
    fn clone(&self) -> (task: Task)
        ensures
            task is Steps == self is Steps,
            task.commands() == self.commands(),
    {
        match self {
            Task::Command(cmd) => Task::Command(cmd.clone()),
            Task::Steps(cmds) => Task::Steps(copy_texts(cmds)),
        }
    }
}

/// A table of tasks with the same names and the same commands under each.
pub open spec fn same_tasks(a: NameMap<Task>, b: NameMap<Task>) -> bool {
    &&& a.names() == b.names()
    &&& forall|i: int|
        0 <= i < a.entries@.len() ==> {
            &&& (#[trigger] a.entries@[i]).1 is Steps == b.entries@[i].1 is Steps
            &&& a.entries@[i].1.commands() == b.entries@[i].1.commands()
        }
}

/// A copy of a table of tasks.
pub fn copy_tasks(tasks: &NameMap<Task>) -> (copy: NameMap<Task>)
    ensures
        same_tasks(*tasks, copy),
        copy.wf() == tasks.wf(),
{
    let mut entries: Vec<(String, Task)> = Vec::new();
    let mut i: usize = 0;
    while i < tasks.entries.len()
        invariant
            i <= tasks.entries.len(),
            entries.len() == i,
            forall|k: int|
                0 <= k < i ==> {
                    &&& (#[trigger] entries@[k]).0@ == tasks.entries@[k].0@
                    &&& entries@[k].1 is Steps == tasks.entries@[k].1 is Steps
                    &&& entries@[k].1.commands() == tasks.entries@[k].1.commands()
                },
        decreases tasks.entries.len() - i,
    {
        entries.push((tasks.entries[i].0.clone(), tasks.entries[i].1.clone()));
        i += 1;
    }
    let copy = NameMap { entries };
    proof {
        assert(copy.names() =~= tasks.names());
    }
    copy
}

/// A character that a shell takes literally wherever it stands in an argument.
pub open spec fn is_plain(c: char) -> bool {
    ||| 'a' <= c <= 'z'
    ||| 'A' <= c <= 'Z'
    ||| '0' <= c <= '9'
    ||| c == '-'
    ||| c == '_'
    ||| c == '.'
    ||| c == '/'
    ||| c == '='
    ||| c == ':'
    ||| c == '@'
    ||| c == '%'
    ||| c == '+'
    ||| c == ','
}

/// `'\''`: ends the quotes, gives a quote by itself, and opens them again.
pub open spec fn quote_mark() -> Seq<char> {
    seq!['\'', '\\', '\'', '\'']
}

/// The text for between single quotes.
pub open spec fn escaped(s: Seq<char>) -> Seq<char>
    decreases s.len(),
{
    if s.len() == 0 {
        Seq::empty()
    } else if s.last() == '\'' {
        escaped(s.drop_last()) + quote_mark()
    } else {
        escaped(s.drop_last()).push(s.last())
    }
}

/// Text that is not empty and all plain stays as it is; other text goes between single quotes.
pub open spec fn shell_quoted(s: Seq<char>) -> Seq<char> {
    if s.len() > 0 && forall|i: int| 0 <= i < s.len() ==> is_plain(#[trigger] s[i]) {
        s
    } else {
        seq!['\''] + escaped(s) + seq!['\'']
    }
}

fn plain(c: char) -> (yes: bool)
    ensures
        yes == is_plain(c),
{
    ('a' <= c && c <= 'z') || ('A' <= c && c <= 'Z') || ('0' <= c && c <= '9') || c == '-' || c
        == '_' || c == '.' || c == '/' || c == '=' || c == ':' || c == '@' || c == '%' || c == '+'
        || c == ','
}

/// Quotes a string for safe interpolation into an `sh -c` command line.
pub fn shell_quote(s: &str) -> (quoted: String)
    ensures
        quoted@ == shell_quoted(s@),
{
    let chars = chars_of(s);
    let mut all_plain = true;
    let mut out = String::new();
    out.push('\'');
    let mut i: usize = 0;
    proof {
        assert(out@ =~= seq!['\''] + escaped(s@.take(0)));
    }
    while i < chars.len()
        invariant
            i <= chars.len(),
            chars@ == s@,
            all_plain == (forall|k: int| 0 <= k < i ==> is_plain(#[trigger] s@[k])),
            out@ == seq!['\''] + escaped(s@.take(i as int)),
        decreases chars.len() - i,
    {
        let c = chars[i];
        proof {
            let next = s@.take(i + 1);
            assert(next.drop_last() =~= s@.take(i as int));
            assert(next.last() == c);
        }
        if !plain(c) {
            proof {
                assert(!is_plain(s@[i as int]));
            }
            all_plain = false;
        }
        if c == '\'' {
            out.push('\'');
            out.push('\\');
            out.push('\'');
            out.push('\'');
            proof {
                assert(out@ =~= seq!['\''] + (escaped(s@.take(i as int)) + quote_mark()));
            }
        } else {
            out.push(c);
            proof {
                assert(out@ =~= seq!['\''] + escaped(s@.take(i as int)).push(c));
            }
        }
        i += 1;
    }
    proof {
        assert(s@.take(i as int) =~= s@);
    }
    if all_plain && chars.len() > 0 {
        s.to_owned()
    } else {
        out.push('\'');
        proof {
            assert(out@ =~= seq!['\''] + escaped(s@) + seq!['\'']);
        }
        out
    }
}

/// The arguments quoted one by one, with a space between neighbours.
pub open spec fn quoted_args(args: Seq<Seq<char>>) -> Seq<char> {
    joined(Seq::new(args.len(), |i: int| shell_quoted(args[i])), " "@)
}

/// A command with arguments behind it.
pub open spec fn command_line(cmd: Seq<char>, args: Seq<Seq<char>>) -> Seq<char> {
    if args.len() == 0 {
        cmd
    } else {
        cmd + " "@ + quoted_args(args)
    }
}

/// Appends passthrough args to a task command, npm-script style.
pub fn with_args(cmd: &str, args: &[String]) -> (line: String)
    ensures
        line@ == command_line(cmd@, texts(args@)),
{
    if args.len() == 0 {
        return cmd.to_owned();
    }
    let mut pieces: Vec<String> = Vec::new();
    let mut i: usize = 0;
    while i < args.len()
        invariant
            i <= args.len(),
            pieces.len() == i,
            forall|k: int| 0 <= k < i ==> #[trigger] pieces@[k]@ == shell_quoted(args@[k]@),
        decreases args.len() - i,
    {
        pieces.push(shell_quote(args[i].as_str()));
        i += 1;
    }
    let tail = join(&pieces, " ");
    let mut line = cmd.to_owned();
    line.append(" ");
    line.append(tail.as_str());
    proof {
        let list = texts(args@);
        assert(texts(pieces@) =~= Seq::new(list.len(), |i: int| shell_quoted(list[i])));
    }
    line
}

proof fn lemma_escaped_no_shorter(s: Seq<char>)
    ensures
        escaped(s).len() >= s.len(),
    decreases s.len(),
{
    if s.len() > 0 {
        lemma_escaped_no_shorter(s.drop_last());
    }
}

/// Quoting leaves a text as it is exactly when it is not empty and made of ASCII letters, digits
/// and `-_./=:@%+,`.
pub proof fn law_unquoted_characters(s: Seq<char>)
    ensures
        (shell_quoted(s) == s) <==> (s.len() > 0 && forall|i: int|
            0 <= i < s.len() ==> 'a' <= #[trigger] s[i] <= 'z' || 'A' <= s[i] <= 'Z' || '0' <= s[i]
                <= '9' || s[i] == '-' || s[i] == '_' || s[i] == '.' || s[i] == '/' || s[i] == '='
                || s[i] == ':' || s[i] == '@' || s[i] == '%' || s[i] == '+' || s[i] == ','),
{
    lemma_escaped_no_shorter(s);
    assert(quote_mark().len() == 4);
}

/// Text that does not stay as it is goes between single quotes, and between the quotes nothing but
/// single quotes is changed: each becomes `'\''`.
pub proof fn law_quotes_are_all_that_changes(s: Seq<char>, a: Seq<char>, b: Seq<char>)
    requires
        shell_quoted(s) != s,
    ensures
        shell_quoted(s).first() == '\'' && shell_quoted(s).last() == '\'',
        shell_quoted(s) == seq!['\''] + escaped(s) + seq!['\''],
        !a.contains('\'') ==> escaped(a) == a,
        escaped(a + seq!['\''] + b) == escaped(a) + seq!['\'', '\\', '\'', '\''] + escaped(b),
{
    if !a.contains('\'') {
        lemma_nothing_to_escape(a);
    }
    let q = seq!['\''];
    lemma_escaped_concat(a + q, b);
    lemma_escaped_concat(a, q);
    assert(q.drop_last() =~= Seq::<char>::empty());
    assert(escaped(q.drop_last()) == Seq::<char>::empty());
    assert(escaped(q) == escaped(q.drop_last()) + quote_mark());
    assert(escaped(q) =~= seq!['\'', '\\', '\'', '\'']);
}

proof fn lemma_nothing_to_escape(s: Seq<char>)
    requires
        !s.contains('\''),
    ensures
        escaped(s) == s,
    decreases s.len(),
{
    if s.len() > 0 {
        let head = s.drop_last();
        assert(s.contains(s[s.len() - 1]));
        assert forall|i: int| 0 <= i < head.len() implies head[i] != '\'' by {
            assert(s.contains(s[i]));
        }
        lemma_nothing_to_escape(head);
        assert(head.push(s.last()) =~= s);
    } else {
        assert(s =~= Seq::<char>::empty());
    }
}

proof fn lemma_escaped_concat(a: Seq<char>, b: Seq<char>)
    ensures
        escaped(a + b) == escaped(a) + escaped(b),
    decreases b.len(),
{
    if b.len() == 0 {
        assert(a + b =~= a);
        assert(escaped(a) + escaped(b) =~= escaped(a));
    } else {
        assert((a + b).drop_last() =~= a + b.drop_last());
        lemma_escaped_concat(a, b.drop_last());
        assert(escaped(a + b) =~= escaped(a) + escaped(b));
    }
}

/// Without arguments a command stays as it is, and each argument comes behind what there was
/// before it, quoted and with a space between.
pub proof fn law_arguments_are_appended(cmd: Seq<char>, args: Seq<Seq<char>>, more: Seq<char>)
    ensures
        command_line(cmd, Seq::empty()) == cmd,
        command_line(cmd, args.push(more)) == command_line(cmd, args) + seq![' '] + shell_quoted(
            more,
        ),
{
    reveal_strlit(" ");
    assert(" "@ =~= seq![' ']);
    let all = args.push(more);
    let pieces = Seq::new(all.len(), |i: int| shell_quoted(all[i]));
    let before = Seq::new(args.len(), |i: int| shell_quoted(args[i]));
    assert(pieces.drop_last() =~= before);
    assert(pieces.last() == shell_quoted(more));
    if args.len() == 0 {
        assert(pieces =~= seq![shell_quoted(more)]);
    } else {
        assert(command_line(cmd, all) =~= command_line(cmd, args) + seq![' '] + shell_quoted(more));
    }
}

/// A task has as many commands as it lists, in that order, or its one command.
pub proof fn law_task_has_its_commands(task: Task, i: int)
    ensures
        task matches Task::Command(cmd) ==> task.commands().len() == 1 && task.commands()[0]
            == cmd@,
        task matches Task::Steps(list) ==> task.commands().len() == list@.len() && (0 <= i
            < list@.len() ==> task.commands()[i] == list@[i]@),
{
}

/// A copy of a table of tasks has the same names, and under each name a task of the same kind with
/// the same commands.
pub proof fn law_copied_tasks_are_the_same(
    tasks: NameMap<Task>,
    copy: NameMap<Task>,
    name: Seq<char>,
)
    requires
        same_tasks(tasks, copy),
    ensures
        tasks@.contains_key(name) <==> copy@.contains_key(name),
        tasks@.contains_key(name) ==> {
            &&& tasks@[name] is Steps <==> copy@[name] is Steps
            &&& tasks@[name].commands() == copy@[name].commands()
        },
{
    if tasks@.contains_key(name) {
        let i = tasks.names().index_of(name);
        assert(tasks.names().contains(name));
        assert(0 <= i < tasks.entries@.len());
        assert(tasks.entries@[i].1 is Steps == copy.entries@[i].1 is Steps);
    }
}

} // verus!
