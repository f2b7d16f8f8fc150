//! The commands of `ut`: what to run, where, and what to list.

use crate::discover::law_packages_are_asked_for;
use crate::discover::manifest_at;
use crate::discover::package_dirs;
use crate::discover::search;
use crate::discover::stage;
use crate::discover::Discovery;
use crate::discover::Layout;
use crate::discover::Manifest;
use crate::discover::Search;
use crate::discover::Snapshot;
use crate::error::Error;
use crate::error::mentions;
use crate::graph::law_dependencies_come_first;
use crate::graph::lemma_order_distinct;
use crate::graph::reaches;
use crate::load::assembled;
use crate::load::built_from;
use crate::load::law_members_are_packages;
use crate::names::NameMap;
use crate::names::NameSet;
use crate::order::lemma_take_more;
use crate::package::law_normalize_idempotent;
use crate::package::normalize;
use crate::package::normalized;
use crate::paths::AbsPath;
use crate::run::Invocation;
use crate::schedule::invocation_ids;
use crate::schedule::invocation_table;
use crate::schedule::launch_ids;
use crate::schedule::law_starts_after_dependencies;
use crate::schedule::runnable;
use crate::schedule::Launch;
use crate::schedule::Scheduler;
use crate::tasks::command_line;
use crate::tasks::law_arguments_are_appended;
use crate::tasks::with_args;
use crate::tasks::Task;
use crate::text::debug_text;
use crate::text::quoted;
use crate::text::same_text;
use crate::text::text_less;
use crate::text::texts;
use crate::workspace::deepest;
use crate::workspace::ids;
use crate::workspace::is_first_with;
use crate::workspace::is_deepest;
use crate::workspace::law_deepest;
use crate::workspace::law_deepest_by_containment;
use crate::workspace::law_deepest_if_any;
use crate::workspace::law_deepest_is_found;
use crate::workspace::Member;
use crate::workspace::Workspace;
use vstd::prelude::*;

verus! {

/// Run a task defined in `[tool.ut.tasks]`.
#[derive(Debug)]
pub struct RunCmd {
    /// Run in every workspace member that defines the task, in parallel, respecting the dependency
    /// graph.
    pub workspace: bool,
    /// With `-w`, only run in the given package(s).
    pub filter: Vec<String>,
    /// Run workspace tasks one at a time instead of in parallel.
    pub sequential: bool,
    pub task: String,
    /// Extra arguments appended to the task command.
    pub args: Vec<String>,
}

/// The shells that a completion script can be printed for.
#[derive(Clone, Copy, PartialEq, Eq, Structural, Debug)]
pub enum Shell {
    Bash,
    Zsh,
    Fish,
}

#[derive(Debug)]
pub enum Command {
    Run(RunCmd),
    List,
    Completion(Shell),
}

/// The line for a call without a task and without a subcommand.
pub open spec fn nothing_given() -> Seq<char> {
    "ut: error: no task or subcommand given (try `ut list` or `ut --help`)"@
}

/// What `pick_command` gives.
pub open spec fn command_picked(
    command: Option<Command>,
    task: Option<String>,
    args: Vec<String>,
    picked: Result<Command, String>,
) -> bool {
    match (command, task) {
        (Some(command), _) => picked == Ok::<Command, String>(command),
        (None, Some(task)) => {
            &&& picked matches Ok(Command::Run(run)) && run.task == task && run.args == args
                && !run.workspace && !run.sequential && run.filter@.len() == 0
        },
        (None, None) => picked matches Err(line) && line@ == nothing_given(),
    }
}

/// The command that is meant: a subcommand if there is one, else the task, for which `ut <task>`
/// is shorthand for `ut run <task>`, else none, and the line to tell.
pub fn pick_command(
    command: Option<Command>,
    task: Option<String>,
    args: Vec<String>,
) -> (picked: Result<Command, String>)
    ensures
        command_picked(command, task, args, picked),
{
    match (command, task) {
        (Some(command), _) => Ok(command),
        (None, Some(task)) => Ok(
            Command::Run(
                RunCmd { workspace: false, filter: Vec::new(), sequential: false, task, args },
            ),
        ),
        (None, None) => Err(
            "ut: error: no task or subcommand given (try `ut list` or `ut --help`)".to_owned(),
        ),
    }
}

/// The shell that a name stands for.
pub open spec fn shell_of(name: Seq<char>) -> Shell {
    if name == "bash"@ {
        Shell::Bash
    } else if name == "zsh"@ {
        Shell::Zsh
    } else {
        Shell::Fish
    }
}

/// The shell of a name, which is one of `bash`, `zsh` and `fish`.
pub fn shell_named(name: &str) -> (shell: Shell)
    ensures
        shell == shell_of(name@),
{
    if same_text(name, "bash") {
        Shell::Bash
    } else if same_text(name, "zsh") {
        Shell::Zsh
    } else {
        Shell::Fish
    }
}

/// The number of threads to use where so many are available.
pub open spec fn threads_for(available: Option<usize>) -> usize {
    match available {
        Some(n) => n,
        None => 4,
    }
}

/// How many invocations run at a time, unless told otherwise: as many as the machine can, or four
/// if that is not known.
pub fn thread_count(available: Option<usize>) -> (count: usize)
    ensures
        count == threads_for(available),
{
    match available {
        Some(n) => n,
        None => 4,
    }
}

/// The command lines of a task with arguments appended to each.
pub open spec fn task_lines(task: Task, args: Seq<Seq<char>>) -> Seq<Seq<char>> {
    Seq::new(task.commands().len(), |i: int| command_line(task.commands()[i], args))
}

/// What `task_steps` gives.
pub open spec fn steps_told(
    tasks: NameMap<Task>,
    label: Seq<char>,
    task: Seq<char>,
    args: Seq<Seq<char>>,
    result: Result<Vec<String>, Error>,
) -> bool {
    if !tasks@.contains_key(task) {
        result matches Err(Error::NoTask { label: whose, task: name }) && whose@ == label && name@
            == task
    } else if tasks@[task] is Steps && args.len() > 0 {
        result matches Err(Error::ArgsForSequence(name)) && name@ == task
    } else {
        result matches Ok(steps) && texts(steps@) == task_lines(tasks@[task], args)
    }
}

/// The command lines of a task in a table of tasks. Only a task that is a single command takes
/// arguments.
pub fn task_steps(
    tasks: &NameMap<Task>,
    label: &str,
    task: &str,
    args: &[String],
) -> (result: Result<Vec<String>, Error>)
    requires
        tasks.wf(),
    ensures
        steps_told(*tasks, label@, task@, texts(args@), result),
{
    match tasks.get(task) {
        None => Err(Error::NoTask { label: label.to_owned(), task: task.to_owned() }),
        Some(def) => {
            if def.is_sequence() && args.len() > 0 {
                return Err(Error::ArgsForSequence(task.to_owned()));
            }
            let commands = def.steps();
            let mut lines: Vec<String> = Vec::new();
            let mut i: usize = 0;
            while i < commands.len()
                invariant
                    i <= commands@.len(),
                    texts(commands@) == def.commands(),
                    lines@.len() == i,
                    forall|k: int|
                        0 <= k < i ==> #[trigger] lines@[k]@ == command_line(
                            def.commands()[k],
                            texts(args@),
                        ),
                decreases commands.len() - i,
            {
                proof {
                    assert(def.commands()[i as int] == commands@[i as int]@);
                }
                lines.push(with_args(commands[i].as_str(), args));
                i += 1;
            }
            proof {
                assert(texts(lines@) =~= task_lines(*def, texts(args@)));
            }
            Ok(lines)
        },
    }
}

/// How a member is called in errors.
pub open spec fn package_label(name: Seq<char>) -> Seq<char> {
    "package "@ + debug_text(name)
}

fn label_for(name: &str) -> (label: String)
    ensures
        label@ == package_label(name@),
{
    let mut label = "package ".to_owned();
    label.append(quoted(name).as_str());
    label
}

/// A run in one directory: its steps one after another.
#[derive(Debug)]
pub struct LocalRun {
    pub dir: AbsPath,
    pub steps: Vec<String>,
}

/// The steps of a local run, or the error.
pub open spec fn local_told(
    tasks: NameMap<Task>,
    label: Seq<char>,
    dir: Seq<Seq<u8>>,
    cmd: RunCmd,
    result: Result<LocalRun, Error>,
) -> bool {
    match result {
        Ok(run) => run.dir@ == dir && steps_told(
            tasks,
            label,
            cmd.task@,
            texts(cmd.args@),
            Ok(run.steps),
        ),
        Err(error) => steps_told(tasks, label, cmd.task@, texts(cmd.args@), Err(error)),
    }
}

/// What `run_in_current_package` gives: the task of the member around the current directory, else
/// that of the root if it is around the current directory.
pub open spec fn local_planned(
    ws: Workspace,
    cwd: Seq<Seq<u8>>,
    cmd: RunCmd,
    result: Result<LocalRun, Error>,
) -> bool {
    match deepest(ws.members@, cwd) {
        Some(m) => local_told(m.tasks, package_label(m.name@), m.dir@, cmd, result),
        None => if ws.root@.is_prefix_of(cwd) {
            local_told(ws.root_tasks, "workspace root"@, ws.root@, cmd, result)
        } else {
            result matches Err(Error::NotInWorkspace(root)) && root@ == ws.root@
        },
    }
}

/// Runs a task in the package around the current directory, or in the root.
pub fn run_in_current_package(ws: &Workspace, cwd: &AbsPath, cmd: &RunCmd) -> (result: Result<
    LocalRun,
    Error,
>)
    requires
        ws.wf(),
    ensures
        local_planned(*ws, cwd@, *cmd, result),
{
    let (tasks, label, dir) = match ws.member_containing(cwd) {
        Some(m) => {
            proof {
                law_deepest(ws.members@, cwd@);
                assert(m.wf());
            }
            (&m.tasks, label_for(m.name.as_str()), &m.dir)
        },
        None => {
            if !cwd.starts_with(&ws.root) {
                return Err(Error::NotInWorkspace(ws.root.clone()));
            }
            (&ws.root_tasks, "workspace root".to_owned(), &ws.root)
        },
    };
    match task_steps(tasks, label.as_str(), cmd.task.as_str(), cmd.args.as_slice()) {
        Ok(steps) => Ok(LocalRun { dir: dir.clone(), steps }),
        Err(error) => Err(error),
    }
}

/// One of the filters names this id.
pub open spec fn filtered(cmd: RunCmd, id: Seq<char>) -> bool {
    exists|i: int| 0 <= i < cmd.filter@.len() && normalized((#[trigger] cmd.filter@[i])@) == id
}

/// A filter that names no member.
pub open spec fn unknown_filter(ws: Workspace, cmd: RunCmd, id: Seq<char>) -> bool {
    filtered(cmd, id) && !ids(ws.members@).contains(id)
}

/// The member defines the task and is not filtered out.
pub open spec fn is_selected(m: Member, cmd: RunCmd) -> bool {
    m.tasks@.contains_key(cmd.task@) && (cmd.filter@.len() == 0 || filtered(cmd, m.id@))
}

/// The members to run the task in, in their order.
pub open spec fn selection(members: Seq<Member>, cmd: RunCmd) -> Seq<Member>
    decreases members.len(),
{
    if members.len() == 0 {
        Seq::empty()
    } else {
        let before = selection(members.drop_last(), cmd);
        if is_selected(members.last(), cmd) {
            before.push(members.last())
        } else {
            before
        }
    }
}

/// The invocation for a selected member: its steps, and of all that it depends on, directly or
/// through others, what is selected too.
pub open spec fn invokes(ws: Workspace, cmd: RunCmd, m: Member, invocation: Invocation) -> bool {
    &&& invocation.id@ == m.id@
    &&& invocation.dir@ == m.dir@
    &&& texts(invocation.steps@) == task_lines(m.tasks@[cmd.task@], texts(cmd.args@))
    &&& invocation.deps.wf()
    &&& forall|dep: Seq<char>| #[trigger]
        invocation.deps@.contains(dep) <==> reaches(ws.graph(), m.id@, dep) && ids(
            selection(ws.members@, cmd),
        ).contains(dep)
}

/// A run across the workspace.
#[derive(Debug)]
pub struct Plan {
    pub invocations: Vec<Invocation>,
    pub jobs: usize,
}

/// What `run_across_workspace` gives.
pub open spec fn planned(
    ws: Workspace,
    cmd: RunCmd,
    threads: usize,
    result: Result<Plan, Error>,
) -> bool {
    let selected = selection(ws.members@, cmd);
    if exists|id: Seq<char>| #[trigger] unknown_filter(ws, cmd, id) {
        &&& result matches Err(Error::UnknownFilter(id)) && unknown_filter(ws, cmd, id@)
            && forall|other: Seq<char>| #[trigger]
            unknown_filter(ws, cmd, other) && other != id@ ==> text_less()(id@, other)
    } else if selected.len() == 0 {
        result matches Err(Error::NobodyDefines(task)) && task@ == cmd.task@
    } else if cmd.args@.len() > 0 && exists|i: int|
        0 <= i < selected.len() && (#[trigger] selected[i]).tasks@[cmd.task@] is Steps {
        result matches Err(Error::ArgsForSequence(task)) && task@ == cmd.task@
    } else {
        &&& result matches Ok(plan)
        &&& plan.jobs == (if cmd.sequential {
            1
        } else {
            threads
        })
        &&& plan.invocations@.len() == selected.len()
        &&& forall|i: int|
            0 <= i < selected.len() ==> invokes(
                ws,
                cmd,
                selected[i],
                #[trigger] plan.invocations@[i],
            )
    }
}

/// The filters, normalized.
fn filter_set(cmd: &RunCmd) -> (set: NameSet)
    ensures
        set.wf(),
        forall|id: Seq<char>| #[trigger] set@.contains(id) <==> filtered(*cmd, id),
{
    let mut set = NameSet::new();
    let mut i: usize = 0;
    while i < cmd.filter.len()
        invariant
            i <= cmd.filter@.len(),
            set.wf(),
            forall|id: Seq<char>| #[trigger]
                set@.contains(id) <==> exists|k: int|
                    0 <= k < i && normalized((#[trigger] cmd.filter@[k])@) == id,
        decreases cmd.filter.len() - i,
    {
        let ghost had = set@;
        set.insert(normalize(cmd.filter[i].as_str()));
        proof {
            let new = normalized(cmd.filter@[i as int]@);
            assert forall|id: Seq<char>| #[trigger] set@.contains(id) <==> exists|k: int|
                0 <= k < i + 1 && normalized((#[trigger] cmd.filter@[k])@) == id by {
                if had.contains(id) {
                    let k = choose|k: int|
                        0 <= k < i && normalized((#[trigger] cmd.filter@[k])@) == id;
                    assert(normalized(cmd.filter@[k]@) == id);
                }
                if id == new {
                    assert(normalized(cmd.filter@[i as int]@) == id);
                }
            }
        }
        i += 1;
    }
    set
}

/// The least filter that names no member.
fn first_unknown(ws: &Workspace, cmd: &RunCmd, filter: &NameSet) -> (unknown: Option<String>)
    requires
        filter.wf(),
        forall|id: Seq<char>| #[trigger] filter@.contains(id) <==> filtered(*cmd, id),
    ensures
        match unknown {
            Some(id) => unknown_filter(*ws, *cmd, id@) && forall|other: Seq<char>| #[trigger]
                unknown_filter(*ws, *cmd, other) && other != id@ ==> text_less()(id@, other),
            None => forall|id: Seq<char>| !#[trigger] unknown_filter(*ws, *cmd, id),
        },
{
    let ghost names = filter.names();
    let mut i: usize = 0;
    while i < filter.items.len()
        invariant
            i <= filter.items@.len(),
            names == filter.names(),
            filter.wf(),
            forall|id: Seq<char>| #[trigger] filter@.contains(id) <==> filtered(*cmd, id),
            forall|k: int| 0 <= k < i ==> ids(ws.members@).contains(#[trigger] names[k]),
        decreases filter.items.len() - i,
    {
        let f = &filter.items[i];
        proof {
            assert(names[i as int] == f@);
            assert(names.contains(f@));
            assert(filter@.contains(f@));
            let k = choose|k: int|
                0 <= k < cmd.filter@.len() && normalized((#[trigger] cmd.filter@[k])@) == f@;
            law_normalize_idempotent(cmd.filter@[k]@);
        }
        match ws.member(f.as_str()) {
            None => {
                proof {
                    assert forall|other: Seq<char>| #[trigger]
                        unknown_filter(*ws, *cmd, other) && other != f@ implies text_less()(
                        f@,
                        other,
                    ) by {
                        assert(filter@.contains(other));
                        let k = names.index_of(other);
                        assert(names[k] == other);
                        if k < i {
                            assert(ids(ws.members@).contains(names[k]));
                        }
                        assert(text_less()(names[i as int], names[k]));
                    }
                }
                return Some(f.clone());
            },
            Some(m) => {
                proof {
                    let at = choose|at: int|
                        is_first_with(ws.members@, f@, at) && *m == #[trigger] ws.members@[at];
                    assert(ids(ws.members@)[at] == f@);
                }
            },
        }
        i += 1;
    }
    proof {
        assert forall|id: Seq<char>| !#[trigger] unknown_filter(*ws, *cmd, id) by {
            if filtered(*cmd, id) {
                assert(filter@.contains(id));
                let k = names.index_of(id);
                assert(names[k] == id);
            }
        }
    }
    None
}

/// The members that references lead to.
spec fn referred(list: Seq<&Member>) -> Seq<Member> {
    Seq::new(list.len(), |i: int| *list[i])
}

/// What is selected is a member and defines the task, and comes in the order of the members.
proof fn lemma_selection(members: Seq<Member>, cmd: RunCmd)
    ensures
        forall|i: int|
            0 <= i < selection(members, cmd).len() ==> is_selected(
                #[trigger] selection(members, cmd)[i],
                cmd,
            ) && members.contains(selection(members, cmd)[i]),
    decreases members.len(),
{
    if members.len() > 0 {
        let head = members.drop_last();
        lemma_selection(head, cmd);
        let before = selection(head, cmd);
        let all = selection(members, cmd);
        assert forall|i: int| 0 <= i < all.len() implies is_selected(#[trigger] all[i], cmd)
            && members.contains(all[i]) by {
            if i < before.len() {
                assert(all[i] == before[i]);
                let k = head.index_of(before[i]);
                assert(members[k] == before[i]);
            } else {
                assert(members[members.len() - 1] == all[i]);
            }
        }
    }
}

fn select<'a>(ws: &'a Workspace, cmd: &RunCmd, filter: &NameSet) -> (selected: Vec<&'a Member>)
    requires
        ws.wf(),
        filter.wf(),
        forall|id: Seq<char>| #[trigger] filter@.contains(id) <==> filtered(*cmd, id),
    ensures
        referred(selected@) == selection(ws.members@, *cmd),
{
    let mut selected: Vec<&'a Member> = Vec::new();
    let all = filter.is_empty();
    proof {
        if cmd.filter@.len() > 0 {
            let id = normalized(cmd.filter@[0]@);
            assert(filtered(*cmd, id));
            assert(filter@.contains(id));
        } else {
            assert(filter@ =~= Set::<Seq<char>>::empty());
        }
    }
    let mut i: usize = 0;
    proof {
        assert(referred(selected@) =~= selection(ws.members@.take(0), *cmd));
    }
    while i < ws.members.len()
        invariant
            i <= ws.members@.len(),
            ws.wf(),
            filter.wf(),
            all == (cmd.filter@.len() == 0),
            forall|id: Seq<char>| #[trigger] filter@.contains(id) <==> filtered(*cmd, id),
            referred(selected@) == selection(ws.members@.take(i as int), *cmd),
        decreases ws.members.len() - i,
    {
        let m = &ws.members[i];
        let ghost had = referred(selected@);
        proof {
            let next = ws.members@.take(i + 1);
            assert(next.drop_last() =~= ws.members@.take(i as int));
            assert(next.last() == *m);
            assert(m.wf());
        }
        if m.tasks.contains_key(cmd.task.as_str()) && (all || filter.contains(m.id.as_str())) {
            selected.push(m);
            proof {
                assert(referred(selected@) =~= had.push(*m));
            }
        }
        i += 1;
    }
    proof {
        assert(ws.members@.take(i as int) =~= ws.members@);
    }
    selected
}

/// The ids of the selected members.
fn selected_ids(selected: &Vec<&Member>) -> (set: NameSet)
    ensures
        set.wf(),
        set@ == ids(referred(selected@)).to_set(),
{
    let mut set = NameSet::new();
    let ghost all = ids(referred(selected@));
    let mut i: usize = 0;
    proof {
        assert(set@ =~= all.take(0).to_set());
    }
    while i < selected.len()
        invariant
            i <= selected@.len(),
            all == ids(referred(selected@)),
            set.wf(),
            set@ == all.take(i as int).to_set(),
        decreases selected.len() - i,
    {
        set.insert(selected[i].id.clone());
        proof {
            lemma_take_more(all, i as int);
        }
        i += 1;
    }
    proof {
        assert(all.take(i as int) =~= all);
    }
    set
}

/// Runs a task in every member that defines it and that the filters let through.
pub fn run_across_workspace(ws: &Workspace, cmd: &RunCmd, threads: usize) -> (result: Result<
    Plan,
    Error,
>)
    requires
        ws.wf(),
    ensures
        planned(*ws, *cmd, threads, result),
{
    let filter = filter_set(cmd);
    if let Some(id) = first_unknown(ws, cmd, &filter) {
        return Err(Error::UnknownFilter(id));
    }
    let selected = select(ws, cmd, &filter);
    let ghost picked = selection(ws.members@, *cmd);
    if selected.len() == 0 {
        proof {
            assert(referred(selected@).len() == 0);
        }
        return Err(Error::NobodyDefines(cmd.task.clone()));
    }
    let known = selected_ids(&selected);
    let mut invocations: Vec<Invocation> = Vec::new();
    let mut i: usize = 0;
    proof {
        assert(referred(selected@).len() > 0);
    }
    while i < selected.len()
        invariant
            i <= selected@.len(),
            ws.wf(),
            picked == selection(ws.members@, *cmd),
            picked == referred(selected@),
            picked.len() > 0,
            known.wf(),
            known@ == ids(picked).to_set(),
            forall|id: Seq<char>| !#[trigger] unknown_filter(*ws, *cmd, id),
            forall|k: int|
                0 <= k < i ==> !(cmd.args@.len() > 0 && (
                #[trigger] picked[k]).tasks@[cmd.task@] is Steps),
            invocations@.len() == i,
            forall|k: int|
                0 <= k < i ==> invokes(*ws, *cmd, picked[k], #[trigger] invocations@[k]),
        decreases selected.len() - i,
    {
        let m = selected[i];
        proof {
            lemma_selection(ws.members@, *cmd);
            assert(picked[i as int] == *m);
            let at = ws.members@.index_of(picked[i as int]);
            assert(ws.members@[at].wf());
        }
        let label = label_for(m.name.as_str());
        match task_steps(&m.tasks, label.as_str(), cmd.task.as_str(), cmd.args.as_slice()) {
            Err(error) => {
                return Err(error);
            },
            Ok(steps) => {
                // Order through members outside the selection still holds: transitive deps,
                // restricted to selected members.
                let deps = ws.transitive_deps(m.id.as_str()).intersection(&known);
                proof {
                    assert forall|dep: Seq<char>| #[trigger]
                        deps@.contains(dep) <==> reaches(ws.graph(), m.id@, dep) && ids(
                            picked,
                        ).contains(dep) by {
                        assert(known@.contains(dep) == ids(picked).contains(dep));
                    }
                }
                invocations.push(
                    Invocation { id: m.id.clone(), dir: m.dir.clone(), steps, deps },
                );
            },
        }
        i += 1;
    }
    let jobs: usize = if cmd.sequential {
        1
    } else {
        threads
    };
    Ok(Plan { invocations, jobs })
}

/// What a run comes to.
#[derive(Debug)]
pub enum Job {
    Local(LocalRun),
    Across(Plan),
}

/// What `run_task` gives.
pub open spec fn job_told(
    ws: Workspace,
    cwd: Seq<Seq<u8>>,
    cmd: RunCmd,
    threads: usize,
    result: Result<Job, Error>,
) -> bool {
    if cmd.workspace {
        match result {
            Ok(Job::Across(plan)) => planned(ws, cmd, threads, Ok(plan)),
            Ok(Job::Local(_)) => false,
            Err(error) => planned(ws, cmd, threads, Err(error)),
        }
    } else {
        match result {
            Ok(Job::Local(run)) => local_planned(ws, cwd, cmd, Ok(run)),
            Ok(Job::Across(_)) => false,
            Err(error) => local_planned(ws, cwd, cmd, Err(error)),
        }
    }
}

/// Runs a task: in every member with `-w`, else around the current directory.
pub fn run_task(ws: &Workspace, cwd: &AbsPath, cmd: &RunCmd, threads: usize) -> (result: Result<
    Job,
    Error,
>)
    requires
        ws.wf(),
    ensures
        job_told(*ws, cwd@, *cmd, threads, result),
{
    if cmd.workspace {
        match run_across_workspace(ws, cmd, threads) {
            Ok(plan) => Ok(Job::Across(plan)),
            Err(error) => Err(error),
        }
    } else {
        match run_in_current_package(ws, cwd, cmd) {
            Ok(run) => Ok(Job::Local(run)),
            Err(error) => Err(error),
        }
    }
}

/// Where a selected member stands among all members.
proof fn lemma_selected_place(members: Seq<Member>, cmd: RunCmd, i: int) -> (p: int)
    requires
        0 <= i < selection(members, cmd).len(),
    ensures
        0 <= p < members.len(),
        members[p] == selection(members, cmd)[i],
        selection(members.take(p), cmd) == selection(members, cmd).take(i),
    decreases members.len(),
{
    let head = members.drop_last();
    let before = selection(head, cmd);
    let all = selection(members, cmd);
    if i < before.len() {
        let p = lemma_selected_place(head, cmd, i);
        assert(members.take(p) =~= head.take(p));
        assert(all.take(i) =~= before.take(i));
        p
    } else {
        let n = members.len() - 1;
        assert(members.take(n) =~= head);
        assert(all.take(i) =~= before);
        n
    }
}

proof fn lemma_selection_holds(members: Seq<Member>, cmd: RunCmd, q: int)
    requires
        0 <= q < members.len(),
        is_selected(members[q], cmd),
    ensures
        selection(members, cmd).contains(members[q]),
    decreases members.len(),
{
    let head = members.drop_last();
    let before = selection(head, cmd);
    let all = selection(members, cmd);
    if q < members.len() - 1 {
        assert(head[q] == members[q]);
        lemma_selection_holds(head, cmd, q);
        let k = before.index_of(members[q]);
        assert(all[k] == before[k]);
    } else {
        assert(all[before.len() as int] == members[q]);
    }
}

/// Which invocations each invocation of a plan waits for.
pub open spec fn plan_graph(invocations: Seq<Invocation>) -> Map<Seq<char>, Set<Seq<char>>> {
    Map::new(
        |id: Seq<char>| invocation_table(invocations).contains_key(id),
        |id: Seq<char>| invocation_table(invocations)[id].deps@,
    )
}

proof fn lemma_invocation_table(invocations: Seq<Invocation>, i: int)
    requires
        invocation_ids(invocations).no_duplicates(),
        0 <= i < invocations.len(),
    ensures
        invocation_table(invocations).contains_key(invocations[i].id@),
        invocation_table(invocations)[invocations[i].id@] == invocations[i],
    decreases invocations.len(),
{
    let head = invocations.drop_last();
    let n = invocations.len() - 1;
    if i < n {
        assert forall|a: int, b: int|
            0 <= a < b < head.len() implies invocation_ids(head)[a] != invocation_ids(head)[b] by {
            assert(invocation_ids(invocations)[a] != invocation_ids(invocations)[b]);
        }
        lemma_invocation_table(head, i);
        assert(head[i] == invocations[i]);
        assert(invocation_ids(invocations)[i] != invocation_ids(invocations)[n]);
    }
}

proof fn lemma_invocation_table_dom(invocations: Seq<Invocation>)
    ensures
        invocation_table(invocations).dom() == invocation_ids(invocations).to_set(),
    decreases invocations.len(),
{
    let ids = invocation_ids(invocations);
    if invocations.len() > 0 {
        let head = invocations.drop_last();
        let n = invocations.len() - 1;
        lemma_invocation_table_dom(head);
        lemma_take_more(ids, n);
        assert(ids.take(n) =~= invocation_ids(head));
        assert(ids.take(n + 1) =~= ids);
    }
    assert(invocation_table(invocations).dom() =~= ids.to_set());
}

/// A plan has no circles: each of its invocations waits only for invocations that come before it.
pub proof fn law_plan_is_runnable(ws: Workspace, cmd: RunCmd, threads: usize, plan: Plan)
    requires
        ws.wf(),
        planned(ws, cmd, threads, Ok(plan)),
    ensures
        invocation_ids(plan.invocations@).no_duplicates(),
        runnable(plan_graph(plan.invocations@), invocation_ids(plan.invocations@)),
        cmd.sequential ==> plan.jobs == 1,
{
    let members = ws.members@;
    let graph = ws.graph();
    let selected = selection(members, cmd);
    let invocations = plan.invocations@;
    let order = invocation_ids(invocations);
    assert forall|i: int| 0 <= i < selected.len() implies #[trigger] order[i]
        == selected[i].id@ by {
        assert(invokes(ws, cmd, selected[i], invocations[i]));
    }
    lemma_order_distinct(graph, ids(members));
    assert forall|i: int, j: int| 0 <= i < j < order.len() implies order[i] != order[j] by {
        let p = lemma_selected_place(members, cmd, i);
        let q = lemma_selected_place(members, cmd, j);
        if p == q {
            assert(selected.take(i).len() == selected.take(j).len());
        }
        assert(ids(members)[p] == order[i] && ids(members)[q] == order[j]);
    }
    lemma_invocation_table_dom(invocations);
    assert(plan_graph(invocations).dom() =~= order.to_set());
    assert forall|i: int, dep: Seq<char>|
        0 <= i < order.len() && #[trigger] plan_graph(invocations)[order[i]].contains(
            dep,
        ) implies order.take(i).contains(dep) by {
        lemma_invocation_table(invocations, i);
        let m = selected[i];
        assert(invokes(ws, cmd, m, invocations[i]));
        assert(invocations[i].deps@.contains(dep));
        let p = lemma_selected_place(members, cmd, i);
        assert(ids(members)[p] == m.id@);
        law_dependencies_come_first(graph, ids(members), p, dep);
        let q = ids(members).take(p).index_of(dep);
        assert(ids(members)[q] == dep);
        let s = ids(selected).index_of(dep);
        assert(ids(selected)[s] == dep);
        let r = lemma_selected_place(members, cmd, s);
        assert(ids(members)[r] == dep);
        assert(r == q);
        lemma_selection(members, cmd);
        assert(members.take(p)[q] == selected[s]);
        lemma_selection_holds(members.take(p), cmd, q);
        let k = selected.take(i).index_of(selected[s]);
        assert(order.take(i)[k] == dep);
    }
}

/// A run that has just begun is one of its plan.
pub proof fn law_new_run_follows_plan(run: Scheduler, invocations: Seq<Invocation>)
    requires
        run.pending@ == invocation_table(invocations),
        run.all() == invocation_ids(invocations).to_set(),
    ensures
        run.follows(plan_graph(invocations)),
{
    lemma_invocation_table_dom(invocations);
    assert(plan_graph(invocations).dom() =~= run.all());
}

/// In a run across the workspace, an invocation starts only after those of all members that its
/// member depends on have succeeded, as far as they run the task at all, also where the dependency
/// goes through members that do not.
pub proof fn law_waits_for_all_dependencies(
    ws: Workspace,
    cmd: RunCmd,
    threads: usize,
    plan: Plan,
    run: Scheduler,
    launched: Seq<Launch>,
    after: Scheduler,
    i: int,
    dep: Seq<char>,
)
    requires
        ws.wf(),
        planned(ws, cmd, threads, Ok(plan)),
        run.wf(),
        run.follows(plan_graph(plan.invocations@)),
        run.launches(launched, after),
        0 <= i < launched.len(),
        reaches(ws.graph(), launched[i].invocation.id@, dep),
        ids(selection(ws.members@, cmd)).contains(dep),
    ensures
        run.succeeded@.contains(dep),
{
    let invocations = plan.invocations@;
    let selected = selection(ws.members@, cmd);
    let id = launched[i].invocation.id@;
    law_starts_after_dependencies(run, launched, after, i);
    law_plan_is_runnable(ws, cmd, threads, plan);
    assert(launch_ids(launched)[i] == id);
    assert(launched[i].invocation == run.pending@[id]);
    lemma_invocation_table_dom(invocations);
    assert(run.all().contains(id));
    assert(invocation_ids(invocations).to_set().contains(id));
    let k = invocation_ids(invocations).index_of(id);
    assert(invocation_ids(invocations)[k] == id);
    lemma_invocation_table(invocations, k);
    assert(invokes(ws, cmd, selected[k], invocations[k]));
    assert(invocations[k].deps@.contains(dep));
}

/// The root is never the target of a run across the workspace.
pub proof fn law_root_is_no_target(
    snapshot: Snapshot,
    start: Seq<Seq<u8>>,
    layout: Layout<'_>,
    members: Seq<Member>,
    ws: Workspace,
    cmd: RunCmd,
    threads: usize,
    plan: Plan,
    i: int,
)
    requires
        Discovery::Ready(layout).tells(stage(snapshot, start)),
        built_from(layout, members),
        assembled(members, Ok(ws)),
        planned(ws, cmd, threads, Ok(plan)),
        0 <= i < plan.invocations@.len(),
    ensures
        plan.invocations@[i].dir@ != layout.root@,
{
    let selected = selection(ws.members@, cmd);
    assert(invokes(ws, cmd, selected[i], plan.invocations@[i]));
    lemma_selection(ws.members@, cmd);
    let at = ws.members@.index_of(selected[i]);
    assert(ws.members@[at] == selected[i]);
    let k = law_members_are_packages(layout, members, ws, at);
    assert(package_dirs(layout.packages@)[k] == plan.invocations@[i].dir@);
    if let Search::Root(root) = search(snapshot.manifests@, start) {
        if let Some(Manifest::Parsed(doc)) = manifest_at(snapshot.manifests@, root) {
            law_packages_are_asked_for(snapshot, root, doc.tool.uv.workspace->0);
        }
    }
}

/// The steps of a task are its commands, as many and in the same order, each with the arguments
/// appended. A sequence is run only without arguments.
pub proof fn law_steps_are_the_commands(
    tasks: NameMap<Task>,
    label: Seq<char>,
    task: Seq<char>,
    args: Seq<Seq<char>>,
    steps: Vec<String>,
    i: int,
)
    requires
        steps_told(tasks, label, task, args, Ok(steps)),
    ensures
        tasks@.contains_key(task),
        tasks@[task] matches Task::Command(cmd) ==> steps@.len() == 1 && steps@[0]@
            == command_line(cmd@, args),
        tasks@[task] matches Task::Steps(list) ==> args.len() == 0 && steps@.len() == list@.len()
            && (0 <= i < list@.len() ==> steps@[i]@ == list@[i]@),
{
    let lines = task_lines(tasks@[task], args);
    assert(texts(steps@).len() == lines.len());
    if lines.len() > 0 {
        assert(texts(steps@)[0] == lines[0]);
    }
    if 0 <= i < lines.len() {
        assert(texts(steps@)[i] == lines[i]);
        if args.len() == 0 {
            assert(args =~= Seq::<Seq<char>>::empty());
            law_arguments_are_appended(tasks@[task].commands()[i], args, Seq::empty());
        }
    }
}

/// A task is refused exactly if there is none of that name, or if it is a sequence and arguments
/// were given; the error tells which task.
pub proof fn law_task_refused(
    tasks: NameMap<Task>,
    label: Seq<char>,
    task: Seq<char>,
    args: Seq<Seq<char>>,
    result: Result<Vec<String>, Error>,
)
    requires
        steps_told(tasks, label, task, args, result),
    ensures
        result is Err <==> !tasks@.contains_key(task) || (tasks@[task] is Steps && args.len() > 0),
        !tasks@.contains_key(task) ==> {
            &&& result matches Err(Error::NoTask { label: whose, task: name })
            &&& whose@ == label
            &&& name@ == task
        },
        tasks@.contains_key(task) && result is Err ==> {
            &&& result matches Err(Error::ArgsForSequence(name))
            &&& name@ == task
        },
{
}

/// A local run takes place in the directory of the deepest member around the current directory,
/// and runs the task of that member.
pub proof fn law_local_run_is_in_deepest_member(
    ws: Workspace,
    cwd: Seq<Seq<u8>>,
    cmd: RunCmd,
    result: Result<LocalRun, Error>,
    i: int,
)
    requires
        local_planned(ws, cwd, cmd, result),
        0 <= i < ws.members@.len(),
        ws.members@[i].dir@.is_prefix_of(cwd),
        forall|k: int|
            0 <= k < ws.members@.len() && (#[trigger] ws.members@[k]).dir@.is_prefix_of(cwd) ==> {
                &&& ws.members@[k].dir@.len() <= ws.members@[i].dir@.len()
                &&& k > i ==> ws.members@[k].dir@.len() < ws.members@[i].dir@.len()
            },
    ensures
        result matches Ok(run) ==> run.dir@ == ws.members@[i].dir@ && steps_told(
            ws.members@[i].tasks,
            package_label(ws.members@[i].name@),
            cmd.task@,
            texts(cmd.args@),
            Ok(run.steps),
        ),
        result matches Err(error) ==> steps_told(
            ws.members@[i].tasks,
            package_label(ws.members@[i].name@),
            cmd.task@,
            texts(cmd.args@),
            Err(error),
        ),
{
    law_deepest_is_found(ws.members@, cwd, i);
}

/// Outside the directories of all members a local run takes place in the root and runs the task of
/// the root; outside the root it is refused.
pub proof fn law_local_run_outside_members(
    ws: Workspace,
    cwd: Seq<Seq<u8>>,
    cmd: RunCmd,
    result: Result<LocalRun, Error>,
)
    requires
        local_planned(ws, cwd, cmd, result),
        forall|k: int|
            0 <= k < ws.members@.len() ==> !(#[trigger] ws.members@[k]).dir@.is_prefix_of(cwd),
    ensures
        ws.root@.is_prefix_of(cwd) ==> {
            &&& result matches Ok(run) ==> run.dir@ == ws.root@ && steps_told(
                ws.root_tasks,
                "workspace root"@,
                cmd.task@,
                texts(cmd.args@),
                Ok(run.steps),
            )
            &&& result matches Err(error) ==> steps_told(
                ws.root_tasks,
                "workspace root"@,
                cmd.task@,
                texts(cmd.args@),
                Err(error),
            )
        },
        !ws.root@.is_prefix_of(cwd) ==> {
            &&& result matches Err(Error::NotInWorkspace(root))
            &&& root@ == ws.root@
        },
{
    law_deepest_if_any(ws.members@, cwd);
}

/// A local run always takes place in a directory that holds the current directory: that of a
/// member with the task, deeper than any other around, or the root.
pub proof fn law_local_run_is_around_current_directory(
    ws: Workspace,
    cwd: Seq<Seq<u8>>,
    cmd: RunCmd,
    run: LocalRun,
)
    requires
        local_planned(ws, cwd, cmd, Ok(run)),
    ensures
        run.dir@.is_prefix_of(cwd),
        run.dir@ == ws.root@ || exists|i: int|
            0 <= i < ws.members@.len() && (#[trigger] ws.members@[i]).dir@ == run.dir@,
        forall|k: int|
            0 <= k < ws.members@.len() && (#[trigger] ws.members@[k]).dir@.is_prefix_of(cwd)
                ==> ws.members@[k].dir@.is_prefix_of(run.dir@),
{
    let members = ws.members@;
    law_deepest(members, cwd);
    if let Some(m) = deepest(members, cwd) {
        let i = choose|i: int| is_deepest(members, cwd, i) && m == #[trigger] members[i];
        assert(members[i].dir@ == run.dir@);
        assert forall|k: int|
            0 <= k < members.len() && (#[trigger] members[k]).dir@.is_prefix_of(cwd) implies
            members[k].dir@.is_prefix_of(run.dir@) by {
            assert(members[k].dir@ =~= run.dir@.subrange(0, members[k].dir@.len() as int));
        }
    }
}

/// A local run is the same from every directory in a member that lies in no deeper member: the
/// same directory and the same steps, or the same error.
pub proof fn law_local_run_is_the_same_from_inside(
    ws: Workspace,
    i: int,
    cwd: Seq<Seq<u8>>,
    other: Seq<Seq<u8>>,
    cmd: RunCmd,
    one: Result<LocalRun, Error>,
    two: Result<LocalRun, Error>,
)
    requires
        0 <= i < ws.members@.len(),
        ws.members@[i].dir@.is_prefix_of(cwd),
        ws.members@[i].dir@.is_prefix_of(other),
        forall|k: int|
            0 <= k < ws.members@.len() && ((#[trigger] ws.members@[k]).dir@.is_prefix_of(cwd)
                || ws.members@[k].dir@.is_prefix_of(other)) ==> ws.members@[k].dir@.len()
                <= ws.members@[i].dir@.len(),
        local_planned(ws, cwd, cmd, one),
        local_planned(ws, other, cmd, two),
    ensures
        one matches Ok(run) ==> {
            &&& run.dir@ == ws.members@[i].dir@
            &&& two matches Ok(same)
            &&& same.dir@ == run.dir@
            &&& texts(same.steps@) == texts(run.steps@)
        },
        one matches Err(error) ==> {
            &&& two matches Err(same)
            &&& same.text() == error.text()
        },
{
    let members = ws.members@;
    assert forall|k: int| 0 <= k < members.len() implies (#[trigger] members[k]).dir@.is_prefix_of(
        cwd,
    ) == members[k].dir@.is_prefix_of(other) by {
        let dir = members[k].dir@;
        let around = members[i].dir@;
        if dir.is_prefix_of(cwd) {
            assert(dir =~= around.subrange(0, dir.len() as int));
            assert(dir =~= other.subrange(0, dir.len() as int));
        }
        if dir.is_prefix_of(other) {
            assert(dir =~= around.subrange(0, dir.len() as int));
            assert(dir =~= cwd.subrange(0, dir.len() as int));
        }
    }
    law_deepest_by_containment(members, cwd, other);
    law_deepest(members, cwd);
    assert(members[i].dir@.is_prefix_of(cwd));
    let m = deepest(members, cwd)->0;
    let j = choose|j: int| is_deepest(members, cwd, j) && m == #[trigger] members[j];
    assert(members[j].dir@.len() == members[i].dir@.len());
    assert(members[j].dir@ =~= members[i].dir@);
}

/// Each invocation of a plan is that of a member that has the task and that the filters let
/// through. It runs in the directory of that member, and has as many steps as the task of that
/// member has commands, each the command with the arguments appended. It waits for the invocations
/// of all that the member depends on, and for no others.
pub proof fn law_invocation_runs_its_member(
    ws: Workspace,
    cmd: RunCmd,
    threads: usize,
    plan: Plan,
    i: int,
) -> (p: int)
    requires
        planned(ws, cmd, threads, Ok(plan)),
        0 <= i < plan.invocations@.len(),
    ensures
        0 <= p < ws.members@.len(),
        plan.invocations@[i].id@ == ws.members@[p].id@,
        plan.invocations@[i].dir@ == ws.members@[p].dir@,
        ws.members@[p].tasks@.contains_key(cmd.task@),
        cmd.filter@.len() > 0 ==> exists|f: int|
            0 <= f < cmd.filter@.len() && normalized((#[trigger] cmd.filter@[f])@)
                == ws.members@[p].id@,
        ws.members@[p].tasks@[cmd.task@] matches Task::Command(line)
            ==> plan.invocations@[i].steps@.len() == 1 && plan.invocations@[i].steps@[0]@
            == command_line(line@, texts(cmd.args@)),
        ws.members@[p].tasks@[cmd.task@] matches Task::Steps(list) ==> cmd.args@.len() == 0
            && plan.invocations@[i].steps@.len() == list@.len() && forall|k: int|
            0 <= k < list@.len() ==> (#[trigger] plan.invocations@[i].steps@[k])@ == list@[k]@,
        forall|dep: Seq<char>| #[trigger]
            plan.invocations@[i].deps@.contains(dep) <==> reaches(
                ws.graph(),
                ws.members@[p].id@,
                dep,
            ) && exists|j: int|
                0 <= j < plan.invocations@.len() && (#[trigger] plan.invocations@[j]).id@ == dep,
{
    let members = ws.members@;
    let selected = selection(members, cmd);
    let invocation = plan.invocations@[i];
    assert(invokes(ws, cmd, selected[i], invocation));
    let p = lemma_selected_place(members, cmd, i);
    lemma_selection(members, cmd);
    assert(is_selected(selected[i], cmd));
    if cmd.filter@.len() > 0 {
        assert(filtered(cmd, members[p].id@));
    }
    let task = members[p].tasks@[cmd.task@];
    let args = texts(cmd.args@);
    let lines = task_lines(task, args);
    assert(texts(invocation.steps@) == lines);
    assert(invocation.steps@.len() == lines.len());
    if let Task::Command(line) = task {
        assert(texts(invocation.steps@)[0] == lines[0]);
    }
    if let Task::Steps(list) = task {
        assert(selected[i].tasks@[cmd.task@] is Steps);
        assert(args =~= Seq::<Seq<char>>::empty());
        assert forall|k: int| 0 <= k < list@.len() implies (#[trigger] invocation.steps@[k])@
            == list@[k]@ by {
            assert(texts(invocation.steps@)[k] == lines[k]);
            law_arguments_are_appended(list@[k]@, args, Seq::empty());
        }
    }
    assert forall|dep: Seq<char>| #[trigger]
        invocation.deps@.contains(dep) <==> reaches(ws.graph(), members[p].id@, dep) && exists|
            j: int,
        |
            0 <= j < plan.invocations@.len() && (#[trigger] plan.invocations@[j]).id@ == dep by {
        lemma_planned_ids(ws, cmd, threads, plan, dep);
    }
    p
}

proof fn lemma_planned_ids(
    ws: Workspace,
    cmd: RunCmd,
    threads: usize,
    plan: Plan,
    id: Seq<char>,
)
    requires
        planned(ws, cmd, threads, Ok(plan)),
    ensures
        ids(selection(ws.members@, cmd)).contains(id) <==> exists|j: int|
            0 <= j < plan.invocations@.len() && (#[trigger] plan.invocations@[j]).id@ == id,
{
    let selected = selection(ws.members@, cmd);
    if ids(selected).contains(id) {
        let j = ids(selected).index_of(id);
        assert(ids(selected)[j] == id);
        assert(invokes(ws, cmd, selected[j], plan.invocations@[j]));
    }
    if exists|j: int| 0 <= j < plan.invocations@.len() && (#[trigger] plan.invocations@[j]).id@
        == id {
        let j = choose|j: int|
            0 <= j < plan.invocations@.len() && (#[trigger] plan.invocations@[j]).id@ == id;
        assert(invokes(ws, cmd, selected[j], plan.invocations@[j]));
        assert(ids(selected)[j] == id);
    }
}

/// Every member that has the task and that the filters let through gets an invocation.
pub proof fn law_every_selected_member_runs(
    ws: Workspace,
    cmd: RunCmd,
    threads: usize,
    plan: Plan,
    p: int,
) -> (i: int)
    requires
        planned(ws, cmd, threads, Ok(plan)),
        0 <= p < ws.members@.len(),
        ws.members@[p].tasks@.contains_key(cmd.task@),
        cmd.filter@.len() == 0 || exists|f: int|
            0 <= f < cmd.filter@.len() && normalized((#[trigger] cmd.filter@[f])@)
                == ws.members@[p].id@,
    ensures
        0 <= i < plan.invocations@.len(),
        plan.invocations@[i].id@ == ws.members@[p].id@,
        plan.invocations@[i].dir@ == ws.members@[p].dir@,
        plan.invocations@[i].steps@.len() == ws.members@[p].tasks@[cmd.task@].commands().len(),
{
    let selected = selection(ws.members@, cmd);
    assert(is_selected(ws.members@[p], cmd));
    lemma_selection_holds(ws.members@, cmd, p);
    let i = selected.index_of(ws.members@[p]);
    assert(invokes(ws, cmd, selected[i], plan.invocations@[i]));
    assert(texts(plan.invocations@[i].steps@).len() == task_lines(
        ws.members@[p].tasks@[cmd.task@],
        texts(cmd.args@),
    ).len());
    i
}

/// The invocations of a plan come in the order of the members.
pub proof fn law_plan_keeps_member_order(
    ws: Workspace,
    cmd: RunCmd,
    threads: usize,
    plan: Plan,
    i: int,
    j: int,
) -> (places: (int, int))
    requires
        planned(ws, cmd, threads, Ok(plan)),
        0 <= i < j < plan.invocations@.len(),
    ensures
        0 <= places.0 < places.1 < ws.members@.len(),
        plan.invocations@[i].id@ == ws.members@[places.0].id@,
        plan.invocations@[j].id@ == ws.members@[places.1].id@,
{
    let members = ws.members@;
    let selected = selection(members, cmd);
    assert(invokes(ws, cmd, selected[i], plan.invocations@[i]));
    assert(invokes(ws, cmd, selected[j], plan.invocations@[j]));
    let q = lemma_selected_place(members, cmd, j);
    let before = members.take(q);
    assert(selection(before, cmd)[i] == selected[i]);
    let p = lemma_selected_place(before, cmd, i);
    assert(before[p] == members[p]);
    (p, q)
}

/// A run across the workspace gives a member the same steps in the same directory as a run inside
/// that member, where no other member shares the directory.
pub proof fn law_plan_agrees_with_local_run(
    ws: Workspace,
    cmd: RunCmd,
    threads: usize,
    plan: Plan,
    i: int,
    local: Result<LocalRun, Error>,
)
    requires
        planned(ws, cmd, threads, Ok(plan)),
        0 <= i < plan.invocations@.len(),
        forall|a: int, b: int|
            0 <= a < b < ws.members@.len() ==> (#[trigger] ws.members@[a]).dir@ != (
            #[trigger] ws.members@[b]).dir@,
        local_planned(ws, plan.invocations@[i].dir@, cmd, local),
    ensures
        local matches Ok(run) && run.dir@ == plan.invocations@[i].dir@ && texts(run.steps@)
            == texts(plan.invocations@[i].steps@),
{
    let members = ws.members@;
    let selected = selection(members, cmd);
    let cwd = plan.invocations@[i].dir@;
    assert(invokes(ws, cmd, selected[i], plan.invocations@[i]));
    let p = lemma_selected_place(members, cmd, i);
    lemma_selection(members, cmd);
    assert(is_selected(selected[i], cmd));
    assert(members[p].dir@ =~= cwd.subrange(0, cwd.len() as int));
    assert forall|k: int|
        0 <= k < members.len() && (#[trigger] members[k]).dir@.is_prefix_of(cwd) implies {
        &&& members[k].dir@.len() <= members[p].dir@.len()
        &&& k > p ==> members[k].dir@.len() < members[p].dir@.len()
    } by {
        if k > p && members[k].dir@.len() == cwd.len() {
            assert(members[k].dir@ =~= cwd);
            assert(members[p].dir@ != members[k].dir@);
        }
    }
    law_deepest_is_found(members, cwd, p);
    let task = members[p].tasks@[cmd.task@];
    if task is Steps && cmd.args@.len() > 0 {
        assert(selected[i].tasks@[cmd.task@] is Steps);
    }
}

/// When a run across the workspace is refused: a filter names no member; or no member that the
/// filters let through has the task; or arguments were given and with such a member the task is a
/// sequence. The first of these that holds is told, and of several such filters the least.
pub proof fn law_plan_refused(
    ws: Workspace,
    cmd: RunCmd,
    threads: usize,
    error: Error,
)
    requires
        planned(ws, cmd, threads, Err(error)),
    ensures
        match error {
            Error::UnknownFilter(id) => {
                &&& exists|f: int|
                    0 <= f < cmd.filter@.len() && normalized((#[trigger] cmd.filter@[f])@) == id@
                &&& !names_member(ws, id@)
                &&& forall|f: int|
                    0 <= f < cmd.filter@.len() && normalized((#[trigger] cmd.filter@[f])@) != id@
                        && !names_member(ws, normalized(cmd.filter@[f]@)) ==> text_less()(
                        id@,
                        normalized(cmd.filter@[f]@),
                    )
            },
            Error::NobodyDefines(task) => {
                &&& task@ == cmd.task@
                &&& filters_known(ws, cmd)
                &&& forall|p: int|
                    0 <= p < ws.members@.len() ==> !wanted(cmd, #[trigger] ws.members@[p])
            },
            Error::ArgsForSequence(task) => {
                &&& task@ == cmd.task@
                &&& filters_known(ws, cmd)
                &&& cmd.args@.len() > 0
                &&& exists|p: int|
                    0 <= p < ws.members@.len() && wanted(cmd, #[trigger] ws.members@[p])
                        && ws.members@[p].tasks@[cmd.task@] is Steps
            },
            _ => false,
        },
{
    let members = ws.members@;
    let selected = selection(members, cmd);
    if exists|id: Seq<char>| #[trigger] unknown_filter(ws, cmd, id) {
        let id = error->UnknownFilter_0@;
        if names_member(ws, id) {
            let p = choose|p: int| 0 <= p < members.len() && (#[trigger] members[p]).id@ == id;
            assert(ids(members)[p] == id);
        }
        assert forall|f: int|
            0 <= f < cmd.filter@.len() && normalized((#[trigger] cmd.filter@[f])@) != id
                && !names_member(ws, normalized(cmd.filter@[f]@)) implies text_less()(
            id,
            normalized(cmd.filter@[f]@),
        ) by {
            let other = normalized(cmd.filter@[f]@);
            assert(filtered(cmd, other));
            if ids(members).contains(other) {
                let p = ids(members).index_of(other);
                assert(members[p].id@ == other);
            }
            assert(unknown_filter(ws, cmd, other));
        }
    } else {
        lemma_filters_known(ws, cmd);
        lemma_selection(members, cmd);
        if selected.len() == 0 {
            assert forall|p: int| 0 <= p < members.len() implies !wanted(
                cmd,
                #[trigger] members[p],
            ) by {
                if wanted(cmd, members[p]) {
                    assert(is_selected(members[p], cmd));
                    lemma_selection_holds(members, cmd, p);
                }
            }
        } else if cmd.args@.len() > 0 && exists|i: int|
            0 <= i < selected.len() && (#[trigger] selected[i]).tasks@[cmd.task@] is Steps {
            let i = choose|i: int|
                0 <= i < selected.len() && (#[trigger] selected[i]).tasks@[cmd.task@] is Steps;
            assert(is_selected(selected[i], cmd));
            let p = lemma_selected_place(members, cmd, i);
            assert(wanted(cmd, members[p]));
        }
    }
}

/// A member has this id.
pub open spec fn names_member(ws: Workspace, id: Seq<char>) -> bool {
    exists|p: int| 0 <= p < ws.members@.len() && (#[trigger] ws.members@[p]).id@ == id
}

/// Each filter names a member.
pub open spec fn filters_known(ws: Workspace, cmd: RunCmd) -> bool {
    forall|f: int|
        0 <= f < cmd.filter@.len() ==> names_member(ws, normalized((#[trigger] cmd.filter@[f])@))
}

/// The member has the task, and there are no filters or one names it.
pub open spec fn wanted(cmd: RunCmd, m: Member) -> bool {
    &&& m.tasks@.contains_key(cmd.task@)
    &&& cmd.filter@.len() > 0 ==> exists|f: int|
        0 <= f < cmd.filter@.len() && normalized((#[trigger] cmd.filter@[f])@) == m.id@
}

proof fn lemma_filters_known(ws: Workspace, cmd: RunCmd)
    ensures
        filters_known(ws, cmd) <==> !exists|id: Seq<char>| #[trigger]
            unknown_filter(ws, cmd, id),
{
    let members = ws.members@;
    if filters_known(ws, cmd) {
        assert forall|id: Seq<char>| !#[trigger] unknown_filter(ws, cmd, id) by {
            if filtered(cmd, id) {
                let f = choose|f: int|
                    0 <= f < cmd.filter@.len() && normalized((#[trigger] cmd.filter@[f])@) == id;
                assert(names_member(ws, normalized(cmd.filter@[f]@)));
                let p = choose|p: int| 0 <= p < members.len() && (#[trigger] members[p]).id@ == id;
                assert(ids(members)[p] == id);
            }
        }
    } else {
        let f = choose|f: int|
            0 <= f < cmd.filter@.len() && !names_member(
                ws,
                normalized((#[trigger] cmd.filter@[f])@),
            );
        let id = normalized(cmd.filter@[f]@);
        assert(filtered(cmd, id));
        if ids(members).contains(id) {
            let p = ids(members).index_of(id);
            assert(members[p].id@ == id);
        }
        assert(unknown_filter(ws, cmd, id));
    }
}

/// A run across the workspace is granted if every filter names a member, some member that the
/// filters let through has the task, and no arguments are given for a sequence. It runs one
/// invocation at a time if it is to be sequential, else as many as there are threads.
pub proof fn law_plan_granted(
    ws: Workspace,
    cmd: RunCmd,
    threads: usize,
    result: Result<Plan, Error>,
    p: int,
)
    requires
        planned(ws, cmd, threads, result),
        filters_known(ws, cmd),
        0 <= p < ws.members@.len(),
        wanted(cmd, ws.members@[p]),
        cmd.args@.len() == 0 || forall|q: int|
            0 <= q < ws.members@.len() && wanted(cmd, #[trigger] ws.members@[q])
                ==> ws.members@[q].tasks@[cmd.task@] is Command,
    ensures
        result matches Ok(plan) && plan.jobs == (if cmd.sequential {
            1
        } else {
            threads
        }),
{
    let members = ws.members@;
    let selected = selection(members, cmd);
    lemma_filters_known(ws, cmd);
    assert(is_selected(members[p], cmd));
    lemma_selection_holds(members, cmd, p);
    lemma_selection(members, cmd);
    assert forall|i: int| 0 <= i < selected.len() implies !(cmd.args@.len() > 0 && (
    #[trigger] selected[i]).tasks@[cmd.task@] is Steps) by {
        let q = lemma_selected_place(members, cmd, i);
        assert(is_selected(selected[i], cmd));
        assert(wanted(cmd, members[q]));
    }
}

/// With the flag a task runs across the workspace, and the current directory makes no difference;
/// without it the task runs in one directory, and the number of threads makes none.
pub proof fn law_flag_decides_where(
    ws: Workspace,
    cwd: Seq<Seq<u8>>,
    other: Seq<Seq<u8>>,
    cmd: RunCmd,
    threads: usize,
    count: usize,
    result: Result<Job, Error>,
)
    requires
        job_told(ws, cwd, cmd, threads, result),
    ensures
        cmd.workspace ==> {
            &&& result matches Ok(job) ==> job is Across && planned(
                ws,
                cmd,
                threads,
                Ok(job->Across_0),
            )
            &&& result matches Err(error) ==> planned(ws, cmd, threads, Err(error))
            &&& job_told(ws, other, cmd, threads, result)
        },
        !cmd.workspace ==> {
            &&& result matches Ok(job) ==> job is Local && local_planned(
                ws,
                cwd,
                cmd,
                Ok(job->Local_0),
            )
            &&& result matches Err(error) ==> local_planned(ws, cwd, cmd, Err(error))
            &&& job_told(ws, cwd, cmd, count, result)
        },
{
}

/// A subcommand is taken as it is, whatever else is given. A task alone is run here: in one
/// directory, without filters, and with all arguments. Nothing at all is refused.
pub proof fn law_task_alone_is_a_local_run(
    command: Option<Command>,
    task: Option<String>,
    args: Vec<String>,
    picked: Result<Command, String>,
)
    requires
        command_picked(command, task, args, picked),
    ensures
        picked is Err <==> command is None && task is None,
        command matches Some(given) ==> picked == Ok::<Command, String>(given),
        command is None && task is Some ==> {
            &&& picked matches Ok(Command::Run(run))
            &&& run.task@ == task->Some_0@
            &&& texts(run.args@) == texts(args@)
            &&& !run.workspace && !run.sequential && run.filter@.len() == 0
        },
{
}

/// The three shells have three names.
pub proof fn law_shells_by_name(name: Seq<char>)
    ensures
        name == seq!['b', 'a', 's', 'h'] <==> shell_of(name) == Shell::Bash,
        name == seq!['z', 's', 'h'] <==> shell_of(name) == Shell::Zsh,
{
    reveal_strlit("bash");
    reveal_strlit("zsh");
    assert("bash"@ =~= seq!['b', 'a', 's', 'h']);
    assert("zsh"@ =~= seq!['z', 's', 'h']);
    assert("bash"@.len() != "zsh"@.len());
}

/// All threads of the machine are used, however many; where their number is not known, four.
pub proof fn law_all_threads_are_used(available: Option<usize>)
    ensures
        available matches Some(n) ==> threads_for(available) == n,
        available is None ==> threads_for(available) == 4,
{
}

/// The label of a package names it.
pub proof fn law_label_names_the_package(name: Seq<char>)
    ensures
        mentions(package_label(name), debug_text(name)),
        "package "@.is_prefix_of(package_label(name)),
{
    let head = "package "@;
    let label = package_label(name);
    let i = head.len() as int;
    assert(label.subrange(i, i + debug_text(name).len()) =~= debug_text(name));
    assert(head =~= label.subrange(0, i));
}

} // verus!
