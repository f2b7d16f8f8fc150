//! Whole workspaces: discovery, order, listing, and runs in one package and across members.

use std::collections::BTreeMap;

use ut::command::pick_command;
use ut::command::run_task;
use ut::command::shell_named;
use ut::command::thread_count;
use ut::command::Command;
use ut::command::Job;
use ut::command::LocalRun;
use ut::command::Plan;
use ut::command::RunCmd;
use ut::command::Shell;
use ut::discover::Discovery;
use ut::discover::Manifest;
use ut::discover::Snapshot;
use ut::error::report;
use ut::error::Error;
use ut::list::list;
use ut::list::rel;
use ut::names::NameMap;
use ut::paths::AbsPath;
use ut::pyproject::GroupEntry;
use ut::pyproject::Project;
use ut::pyproject::PyProject;
use ut::pyproject::Source;
use ut::pyproject::Tool;
use ut::pyproject::Ut;
use ut::pyproject::Uv;
use ut::pyproject::UvWorkspace;
use ut::run::local_progress;
use ut::run::prefixed;
use ut::run::streamed_progress;
use ut::run::uv_args;
use ut::run::Invocation;
use ut::run::LocalProgress;
use ut::run::StepEnd;
use ut::run::StreamedProgress;
use ut::schedule::Launch;
use ut::schedule::Scheduler;
use ut::style::echo;
use ut::tasks::Task;
use ut::workspace::Workspace;

fn path(text: &str) -> AbsPath {
    AbsPath::parse(&text.as_bytes().to_vec())
}

fn strings(list: &[&str]) -> Vec<String> {
    list.iter().map(|s| s.to_string()).collect()
}

/// A manifest in the making.
#[derive(Clone, Default)]
struct Doc {
    name: Option<String>,
    dependencies: Vec<String>,
    groups: Vec<(String, Vec<Option<String>>)>,
    workspace: Option<(Vec<String>, Vec<String>)>,
    sources: Vec<(String, Option<bool>)>,
    tasks: Vec<(String, Vec<String>, bool)>,
}

impl Doc {
    fn package(name: &str) -> Doc {
        Doc {
            name: Some(name.to_string()),
            ..Doc::default()
        }
    }

    fn root(members: &[&str], exclude: &[&str]) -> Doc {
        Doc {
            workspace: Some((strings(members), strings(exclude))),
            ..Doc::default()
        }
    }

    fn named(mut self, name: &str) -> Doc {
        self.name = Some(name.to_string());
        self
    }

    fn task(mut self, name: &str, command: &str) -> Doc {
        self.tasks.retain(|t| t.0 != name);
        self.tasks
            .push((name.to_string(), vec![command.to_string()], false));
        self
    }

    fn sequence(mut self, name: &str, commands: &[&str]) -> Doc {
        self.tasks.push((name.to_string(), strings(commands), true));
        self
    }

    fn source(mut self, name: &str, workspace: Option<bool>) -> Doc {
        self.sources.push((name.to_string(), workspace));
        self
    }

    fn needs(mut self, spec: &str) -> Doc {
        self.dependencies.push(spec.to_string());
        self
    }

    fn group(mut self, name: &str, entries: &[Option<&str>]) -> Doc {
        let entries = entries.iter().map(|e| e.map(|s| s.to_string())).collect();
        self.groups.push((name.to_string(), entries));
        self
    }

    fn build(&self) -> PyProject {
        let mut dependency_groups = NameMap::new();
        for (name, entries) in &self.groups {
            let entries = entries
                .iter()
                .map(|e| match e {
                    Some(spec) => GroupEntry::Requirement(spec.clone()),
                    None => GroupEntry::Other,
                })
                .collect();
            dependency_groups.insert(name.clone(), entries);
        }
        let mut sources = NameMap::new();
        for (name, workspace) in &self.sources {
            sources.insert(
                name.clone(),
                Source {
                    workspace: *workspace,
                },
            );
        }
        let mut tasks = NameMap::new();
        for (name, commands, sequence) in &self.tasks {
            let task = if *sequence {
                Task::Steps(commands.clone())
            } else {
                Task::Command(commands[0].clone())
            };
            tasks.insert(name.clone(), task);
        }
        PyProject {
            project: self.name.clone().map(|name| Project {
                name,
                dependencies: self.dependencies.clone(),
            }),
            dependency_groups,
            tool: Tool {
                uv: Uv {
                    workspace: self.workspace.clone().map(|(members, exclude)| UvWorkspace {
                        members,
                        exclude,
                    }),
                    sources,
                },
                ut: Ut { tasks },
            },
        }
    }
}

/// A file system in memory.
#[derive(Clone, Default)]
struct World {
    docs: BTreeMap<String, Doc>,
    broken: BTreeMap<String, String>,
    globs: BTreeMap<String, Result<Vec<String>, String>>,
}

enum Question {
    Manifest(AbsPath),
    Glob(AbsPath, String),
}

/// What a search for a workspace came to: the result, the warnings, and how many questions it
/// took.
struct Outcome {
    result: Result<Workspace, Error>,
    warnings: Vec<String>,
    questions: usize,
}

impl World {
    fn put(&mut self, dir: &str, doc: Doc) {
        self.docs.insert(dir.to_string(), doc);
    }

    fn glob(&mut self, pattern: &str, dirs: &[&str]) {
        self.globs.insert(pattern.to_string(), Ok(strings(dirs)));
    }

    fn edit(&mut self, dir: &str, change: impl Fn(Doc) -> Doc) {
        let doc = self.docs[dir].clone();
        self.put(dir, change(doc));
    }

    fn search(&self, start: &str) -> Outcome {
        let start = path(start);
        let mut snapshot = Snapshot::new();
        let mut questions = 0;
        loop {
            let question = match Workspace::discover(&start, &snapshot) {
                Discovery::ReadManifest(dir) => Question::Manifest(dir),
                Discovery::ExpandGlob { root, pattern } => Question::Glob(root, pattern),
                Discovery::Failed { error, warnings } => {
                    return Outcome {
                        result: Err(error),
                        warnings,
                        questions,
                    }
                }
                Discovery::Ready(layout) => {
                    assert!(layout.packages.iter().all(|p| p.doc.can_build()));
                    let warnings = layout.warnings.clone();
                    return Outcome {
                        result: Workspace::load(layout),
                        warnings,
                        questions,
                    };
                }
            };
            questions += 1;
            match question {
                Question::Manifest(dir) => {
                    let name = dir.display();
                    let manifest = if let Some(text) = self.broken.get(&name) {
                        Manifest::Broken(text.clone())
                    } else if let Some(doc) = self.docs.get(&name) {
                        Manifest::Parsed(doc.build())
                    } else {
                        Manifest::Absent
                    };
                    snapshot.record_manifest(dir, manifest);
                }
                Question::Glob(root, pattern) => {
                    let dirs = match self.globs.get(&pattern) {
                        Some(Ok(dirs)) => Ok(dirs.iter().map(|d| path(d)).collect()),
                        Some(Err(text)) => Err(text.clone()),
                        None => Ok(vec![]),
                    };
                    snapshot.record_glob(root, pattern, dirs);
                }
            }
        }
    }

    fn load(&self, start: &str) -> Workspace {
        match self.search(start).result {
            Ok(ws) => ws,
            Err(error) => panic!("{}", error.message()),
        }
    }
}

/// root (virtual, no [project]), with
///   pkgs/zeta            no deps
///   pkgs/alpha           depends on zeta (alphabetically before it!)
///   pkgs/mid             independent
///   pkgs/skipme          excluded
///   pkgs/notapkg         matched by the glob, but without a manifest
fn fixture() -> World {
    let mut world = World::default();
    world.put("/ws", Doc::root(&["pkgs/*"], &["pkgs/skipme"]));
    world.put(
        "/ws/pkgs/zeta",
        Doc::package("zeta")
            .task("build", "echo built-zeta")
            .task("test", "echo tested-zeta"),
    );
    world.put(
        "/ws/pkgs/alpha",
        Doc::package("alpha")
            .source("zeta", Some(true))
            .task("build", "echo built-alpha"),
    );
    world.put(
        "/ws/pkgs/mid",
        Doc::package("mid").task("build", "echo built-mid"),
    );
    world.put(
        "/ws/pkgs/skipme",
        Doc::package("skipme").task("build", "echo built-skipme"),
    );
    world.glob(
        "pkgs/*",
        &[
            "/ws/pkgs/alpha",
            "/ws/pkgs/mid",
            "/ws/pkgs/notapkg",
            "/ws/pkgs/skipme",
            "/ws/pkgs/zeta",
        ],
    );
    world.glob("pkgs/skipme", &["/ws/pkgs/skipme"]);
    world
}

fn run(task: &str, args: &[&str]) -> RunCmd {
    RunCmd {
        workspace: false,
        filter: vec![],
        sequential: false,
        task: task.to_string(),
        args: strings(args),
    }
}

fn across(task: &str) -> RunCmd {
    RunCmd {
        workspace: true,
        ..run(task, &[])
    }
}

fn local(ws: &Workspace, cwd: &str, cmd: RunCmd) -> Result<LocalRun, Error> {
    match run_task(ws, &path(cwd), &cmd, 4) {
        Ok(Job::Local(run)) => Ok(run),
        Ok(Job::Across(_)) => panic!("not a local run"),
        Err(error) => Err(error),
    }
}

fn plan(ws: &Workspace, cmd: RunCmd) -> Result<Plan, Error> {
    match run_task(ws, &path("/ws"), &cmd, 4) {
        Ok(Job::Across(plan)) => Ok(plan),
        Ok(Job::Local(_)) => panic!("not a run across the workspace"),
        Err(error) => Err(error),
    }
}

fn ids(invocations: &[Invocation]) -> Vec<&str> {
    invocations.iter().map(|i| i.id.as_str()).collect()
}

fn started(launched: &[Launch]) -> Vec<&str> {
    launched.iter().map(|l| l.invocation.id.as_str()).collect()
}

fn member_ids(ws: &Workspace) -> Vec<&str> {
    ws.members.iter().map(|m| m.id.as_str()).collect()
}

/// Runs a plan with made-up results: the ids in the order in which they start, and what comes of
/// it.
fn play(plan: Plan, fails: &[&str]) -> (Vec<String>, Result<(i32, Vec<String>), Error>) {
    let mut run = Scheduler::new(plan.invocations, plan.jobs, false);
    let mut order = vec![];
    loop {
        for launch in run.launch() {
            order.push(launch.invocation.id);
        }
        assert!(run.running.len() <= plan.jobs);
        if run.is_idle() {
            return (order, run.outcome());
        }
        let id = run.running.items[0].clone();
        let ok = !fails.contains(&id.as_str());
        run.finish(id, ok);
    }
}

#[test]
fn list_shows_members_in_topo_order_and_honors_exclude() {
    let ws = fixture().load("/ws");
    let lines = list(&ws);
    let stdout = lines.join("\n");

    // mid and zeta have no deps (tie broken by name); alpha waits for zeta.
    assert!(lines[0].starts_with("mid"));
    assert!(lines[1].starts_with("zeta"));
    assert!(lines[2].starts_with("alpha"));
    assert!(!stdout.contains("skipme"));
    assert!(!stdout.contains("notapkg"));
    assert!(lines[1].contains("build, test"));
    assert_eq!(
        lines,
        [
            "mid    pkgs/mid    build",
            "zeta   pkgs/zeta   build, test",
            "alpha  pkgs/alpha  build"
        ]
    );
}

#[test]
fn runs_task_in_current_package() {
    let ws = fixture().load("/ws/pkgs/zeta");
    let run = local(&ws, "/ws/pkgs/zeta", run("build", &[])).unwrap();
    assert_eq!(run.dir.display(), "/ws/pkgs/zeta");
    assert_eq!(run.steps, ["echo built-zeta"]);
}

#[test]
fn bare_task_shorthand_without_run_subcommand() {
    let ws = fixture().load("/ws/pkgs/zeta");
    let cmd = match pick_command(None, Some("build".into()), vec![]) {
        Ok(Command::Run(cmd)) => cmd,
        _ => panic!("not a run"),
    };
    let run = local(&ws, "/ws/pkgs/zeta", cmd).unwrap();
    assert_eq!(run.steps, ["echo built-zeta"]);
}

#[test]
fn appends_passthrough_args() {
    let mut world = fixture();
    world.edit("/ws/pkgs/zeta", |d| d.task("say", "echo"));
    let ws = world.load("/ws/pkgs/zeta");
    let run = local(&ws, "/ws/pkgs/zeta", run("say", &["hello", "wor ld"])).unwrap();
    assert_eq!(run.steps, ["echo hello 'wor ld'"]);
}

#[test]
fn propagates_exit_code() {
    let mut world = fixture();
    world.edit("/ws/pkgs/zeta", |d| d.task("boom", "exit 3"));
    let ws = world.load("/ws/pkgs/zeta");
    let run = local(&ws, "/ws/pkgs/zeta", run("boom", &[])).unwrap();
    let mut ends = vec![];
    assert!(matches!(
        local_progress(run.steps.len(), &ends),
        LocalProgress::Run(0)
    ));
    ends.push(StepEnd::Exited(Some(3)));
    let code = match local_progress(run.steps.len(), &ends) {
        LocalProgress::Finished(result) => report(result).0,
        LocalProgress::Run(_) => panic!("no step is left"),
    };
    assert_eq!(code, 3);
}

#[test]
fn sequence_task_runs_steps_and_rejects_args() {
    let mut world = fixture();
    world.edit("/ws/pkgs/zeta", |d| {
        d.sequence("check", &["echo one", "echo two"])
    });
    let ws = world.load("/ws/pkgs/zeta");
    let sequence = local(&ws, "/ws/pkgs/zeta", run("check", &[])).unwrap();
    assert_eq!(sequence.steps, ["echo one", "echo two"]);
    let mut ends = vec![];
    assert!(matches!(local_progress(2, &ends), LocalProgress::Run(0)));
    ends.push(StepEnd::Exited(Some(0)));
    assert!(matches!(local_progress(2, &ends), LocalProgress::Run(1)));
    ends.push(StepEnd::Exited(Some(0)));
    assert!(matches!(
        local_progress(2, &ends),
        LocalProgress::Finished(Ok(0))
    ));

    let refused = local(&ws, "/ws/pkgs/zeta", run("check", &["extra"]));
    let (code, line) = report(refused.map(|_| 0));
    assert_eq!(code, 2);
    assert!(line.unwrap().contains("sequence"));
}

#[test]
fn workspace_run_respects_dependency_order() {
    let mut world = fixture();
    world.put("/ws/pkgs/mid", Doc::package("mid").task("other", "echo nope"));
    let ws = world.load("/ws");
    let plan = plan(&ws, across("build")).unwrap();
    assert_eq!(ids(&plan.invocations), ["zeta", "alpha"]);
    assert_eq!(plan.invocations[1].deps.items, ["zeta"]);
    let mut run = Scheduler::new(plan.invocations, plan.jobs, false);
    assert_eq!(started(&run.launch()), ["zeta"]);
    assert!(run.launch().is_empty());
    run.finish("zeta".into(), true);
    assert_eq!(started(&run.launch()), ["alpha"]);
    run.finish("alpha".into(), true);
    assert!(run.launch().is_empty());
    assert!(run.is_idle());
    assert!(matches!(run.outcome(), Ok((0, _))));
}

#[test]
fn workspace_run_is_parallel_for_independent_members() {
    let mut world = fixture();
    world.put(
        "/ws/pkgs/alpha",
        Doc::package("alpha").task("other", "echo nope"),
    );
    let ws = world.load("/ws");
    let plan = plan(&ws, across("build")).unwrap();
    let mut run = Scheduler::new(plan.invocations, plan.jobs, false);
    assert_eq!(started(&run.launch()), ["mid", "zeta"]);
}

#[test]
fn workspace_run_sequential_with_s() {
    let mut world = fixture();
    world.put(
        "/ws/pkgs/alpha",
        Doc::package("alpha").task("other", "echo nope"),
    );
    let ws = world.load("/ws");
    let cmd = RunCmd {
        sequential: true,
        ..across("build")
    };
    let plan = plan(&ws, cmd).unwrap();
    assert_eq!(plan.jobs, 1);
    let mut run = Scheduler::new(plan.invocations, plan.jobs, false);
    assert_eq!(started(&run.launch()), ["mid"]);
    assert!(run.launch().is_empty());
    run.finish("mid".into(), true);
    assert_eq!(started(&run.launch()), ["zeta"]);
    run.finish("zeta".into(), true);
    assert!(matches!(run.outcome(), Ok((0, _))));
}

#[test]
fn workspace_run_fails_fast_and_reports_skipped() {
    let mut world = fixture();
    world.edit("/ws/pkgs/zeta", |d| d.task("build", "exit 1"));
    world.edit("/ws/pkgs/alpha", |d| d.task("build", "echo alpha-ran"));
    world.put("/ws/pkgs/mid", Doc::package("mid").task("other", "echo nope"));
    let ws = world.load("/ws");
    let (order, outcome) = play(plan(&ws, across("build")).unwrap(), &["zeta"]);
    assert_eq!(order, ["zeta"]);
    let (code, lines) = outcome.unwrap();
    assert_eq!(code, 1);
    assert_eq!(lines, ["\n✗ task failed in: zeta", "  skipped: alpha"]);
}

#[test]
fn workspace_run_with_filter() {
    let ws = fixture().load("/ws");
    let cmd = RunCmd {
        filter: strings(&["mid"]),
        ..across("build")
    };
    let only = plan(&ws, cmd).unwrap();
    assert_eq!(ids(&only.invocations), ["mid"]);
    assert_eq!(only.invocations[0].steps, ["echo built-mid"]);

    let cmd = RunCmd {
        filter: strings(&["nosuch"]),
        ..across("build")
    };
    let (code, line) = report(plan(&ws, cmd).map(|_| 0));
    assert_eq!(code, 2);
    assert!(line.unwrap().contains("nosuch"));
}

#[test]
fn workspace_output_lines_are_prefixed() {
    let ws = fixture().load("/ws");
    let plan = plan(&ws, across("test")).unwrap();
    let mut run = Scheduler::new(plan.invocations, plan.jobs, false);
    let launched = run.launch();
    assert_eq!(launched.len(), 1);
    assert_eq!(
        prefixed(&launched[0].prefix, "tested-zeta"),
        "zeta | tested-zeta"
    );
}

fn root_with_tasks() -> Doc {
    Doc::root(&["pkgs/*"], &["pkgs/skipme"])
        .named("root")
        .task("test", "ut run -w test")
}

#[test]
fn root_task_fans_out_to_members() {
    let mut world = fixture();
    world.put("/ws", root_with_tasks());
    world.put(
        "/ws/pkgs/mid",
        Doc::package("mid").task("test", "echo tested-mid"),
    );
    let ws = world.load("/ws");
    let root = local(&ws, "/ws", run("test", &[])).unwrap();
    assert_eq!(root.dir.display(), "/ws");
    assert_eq!(root.steps, ["ut run -w test"]);

    let plan = plan(&ws, across("test")).unwrap();
    // The root is never a -w target, so its own `test` doesn't recurse.
    assert_eq!(ids(&plan.invocations), ["mid", "zeta"]);
    let mut run = Scheduler::new(plan.invocations, plan.jobs, false);
    let launched = run.launch();
    assert_eq!(
        prefixed(&launched[0].prefix, "tested-mid"),
        "mid  | tested-mid"
    );
    assert_eq!(
        prefixed(&launched[1].prefix, "tested-zeta"),
        "zeta | tested-zeta"
    );
}

#[test]
fn list_shows_root_separately_and_not_as_member() {
    let mut world = fixture();
    world.put("/ws", root_with_tasks());
    let lines = list(&world.load("/ws"));
    assert!(lines[0].starts_with("root"));
    assert!(lines[0].contains("  .  "));
    assert!(lines[0].ends_with("test"));
    assert!(lines[1].starts_with("mid"));
    assert_eq!(lines.len(), 4);

    // A root without tasks doesn't get a line, even if it has [project].
    world.put("/ws", Doc::root(&["pkgs/*"], &[]).named("root"));
    let lines = list(&world.load("/ws"));
    assert!(!lines.join("\n").contains("root"));
}

#[test]
fn root_task_runs_from_virtual_root() {
    let mut world = fixture();
    world.put(
        "/ws",
        Doc::root(&["pkgs/*"], &[]).task("hello", "echo hi-from-root"),
    );
    let ws = world.load("/ws");
    let hello = local(&ws, "/ws", run("hello", &[])).unwrap();
    assert_eq!(hello.steps, ["echo hi-from-root"]);

    let (code, line) = report(local(&ws, "/ws", run("nosuch", &[])).map(|_| 0));
    assert_eq!(code, 2);
    assert!(line.unwrap().contains("workspace root has no task"));
    assert_eq!(
        list(&ws)[0],
        "(root)  .            hello"
    );
}

/// acme/                       root app: `test = "ut run -w test"`
///   packages/acme-core        no deps
///   packages/acme-api         depends on acme-core
///   services/acme-worker      depends on acme-api
fn acme() -> World {
    let mut world = World::default();
    world.put(
        "/acme",
        Doc::root(&["packages/*", "services/*"], &[])
            .named("acme")
            .task("test", "ut run -w test")
            .sequence("check", &["ut run -w lint", "ut run -w test"]),
    );
    let package = |name: &str, dep: Option<&str>| {
        let mut doc = Doc::package(name)
            .group("dev", &[Some("pytest>=8")])
            .task("test", &format!("echo {name} >> ../../order.log && pytest -q"))
            .task("lint", "python -c 'import it'");
        if let Some(dep) = dep {
            doc = doc.needs(dep).source(dep, Some(true));
        }
        doc
    };
    world.put("/acme/packages/acme-core", package("acme-core", None));
    world.put(
        "/acme/packages/acme-api",
        package("acme-api", Some("acme-core")),
    );
    world.put(
        "/acme/services/acme-worker",
        package("acme-worker", Some("acme-api")),
    );
    world.glob(
        "packages/*",
        &["/acme/packages/acme-api", "/acme/packages/acme-core"],
    );
    world.glob("services/*", &["/acme/services/acme-worker"]);
    world
}

#[test]
fn root_test_task_runs_tests_in_every_package() {
    let ws = acme().load("/acme");
    let root = local(&ws, "/acme", run("test", &[])).unwrap();
    assert_eq!(echo(&root.steps[0], false), "$ ut run -w test");
    let plan_all = plan(&ws, across("test")).unwrap();
    assert_eq!(plan_all.invocations.len(), 3);
    let (order, outcome) = play(plan_all, &[]);
    // Linear dependency chain => deterministic start order.
    assert_eq!(order, ["acme-core", "acme-api", "acme-worker"]);
    assert_eq!(outcome.unwrap().0, 0);

    // A failing child propagates through the root task and skips dependents.
    let (order, outcome) = play(plan(&ws, across("test")).unwrap(), &["acme-api"]);
    assert_eq!(order, ["acme-core", "acme-api"]);
    let (code, lines) = outcome.unwrap();
    assert_eq!(code, 1);
    assert!(lines[0].contains("task failed in: acme-api"));
    assert!(lines[1].contains("skipped: acme-worker"));
}

#[test]
fn root_check_sequence_runs_lint_then_test() {
    let ws = acme().load("/acme");
    let check = local(&ws, "/acme", run("check", &[])).unwrap();
    assert_eq!(check.steps, ["ut run -w lint", "ut run -w test"]);
    let mut ends = vec![];
    let mut echoed = vec![];
    while let LocalProgress::Run(i) = local_progress(check.steps.len(), &ends) {
        echoed.push(echo(&check.steps[i], false));
        ends.push(StepEnd::Exited(Some(0)));
    }
    assert_eq!(echoed, ["$ ut run -w lint", "$ ut run -w test"]);
}

#[test]
fn list_shows_realistic_workspace() {
    let ws = acme().load("/acme/services/acme-worker");
    let lines = list(&ws);
    assert_eq!(lines.len(), 4);
    assert!(lines[0].starts_with("acme ") && lines[0].ends_with("check, test"));
    assert!(lines[0].contains("  .  "));
    assert!(lines[1].starts_with("acme-core "));
    assert!(lines[2].starts_with("acme-api "));
    assert!(lines[3].starts_with("acme-worker "));
}

#[test]
fn no_workspace_above() {
    let mut world = World::default();
    world.put("/a", Doc::package("a"));
    let outcome = world.search("/a/b");
    assert_eq!(
        outcome.result.unwrap_err().message(),
        "no uv workspace found: no pyproject.toml with [tool.uv.workspace] in /a/b or any parent"
    );
    assert_eq!(outcome.questions, 3);
}

#[test]
fn nearest_workspace_is_taken() {
    let mut world = World::default();
    world.put("/a", Doc::root(&[], &[]).named("outer"));
    world.put("/a/b", Doc::root(&[], &[]).named("inner"));
    world.put("/a/b/c", Doc::package("c"));
    let ws = world.load("/a/b/c/d");
    assert_eq!(ws.root.display(), "/a/b");
    assert_eq!(ws.root_name.as_deref(), Some("inner"));
    assert!(ws.members.is_empty());
}

#[test]
fn every_start_inside_finds_the_same_workspace() {
    let world = fixture();
    let told = |start: &str| {
        let ws = world.load(start);
        let members: Vec<String> = ws
            .members
            .iter()
            .map(|m| {
                format!(
                    "{} {} {} {:?} {:?}",
                    m.name,
                    m.id,
                    m.dir.display(),
                    m.tasks.name_list(),
                    m.deps.items
                )
            })
            .collect();
        (ws.root.display(), ws.root_name, members)
    };
    let first = told("/ws/pkgs/zeta/src/deep");
    for start in ["/ws/pkgs/zeta/src", "/ws/pkgs/zeta", "/ws/pkgs", "/ws"] {
        assert_eq!(told(start), first);
    }
}

#[test]
fn broken_manifests_end_the_search() {
    let mut world = fixture();
    world
        .broken
        .insert("/ws/pkgs/mid".into(), "cannot parse it".into());
    world.put("/ws/pkgs/alpha", Doc::default());
    let outcome = world.search("/ws");
    assert_eq!(outcome.result.unwrap_err().message(), "cannot parse it");
    assert_eq!(
        outcome.warnings,
        ["ut: warning: skipping /ws/pkgs/alpha/pyproject.toml (no [project.name])"]
    );
    let mut world = fixture();
    world.broken.insert("/ws".into(), "cannot read it".into());
    let outcome = world.search("/ws");
    assert_eq!(outcome.result.unwrap_err().message(), "cannot read it");
    assert!(outcome.warnings.is_empty());
}

#[test]
fn bad_globs_end_the_search() {
    let mut world = fixture();
    world
        .globs
        .insert("pkgs/*".into(), Err("bad glob \"pkgs/*\"".into()));
    let outcome = world.search("/ws");
    assert_eq!(outcome.result.unwrap_err().message(), "bad glob \"pkgs/*\"");
}

#[test]
fn manifests_without_a_project_are_skipped_with_a_warning() {
    let mut world = fixture();
    world.put("/ws/pkgs/mid", Doc::default().task("build", "true"));
    let outcome = world.search("/ws");
    let ws = outcome.result.unwrap();
    assert_eq!(member_ids(&ws), ["zeta", "alpha"]);
    assert_eq!(
        outcome.warnings,
        ["ut: warning: skipping /ws/pkgs/mid/pyproject.toml (no [project.name])"]
    );
}

#[test]
fn root_is_no_member_though_a_glob_matches_it() {
    let mut world = World::default();
    world.put(
        "/ws",
        Doc::root(&["*"], &[]).named("root").task("test", "true"),
    );
    world.put("/ws/a", Doc::package("a").task("test", "true"));
    world.glob("*", &["/ws", "/ws/a"]);
    let ws = world.load("/ws");
    assert_eq!(member_ids(&ws), ["a"]);
    assert_eq!(ids(&plan(&ws, across("test")).unwrap().invocations), ["a"]);
}

#[test]
fn each_question_is_asked_once() {
    // Two manifests from the start up to the root, two globs, and one manifest for each
    // directory but the excluded one and those already read.
    assert_eq!(fixture().search("/ws/pkgs").questions, 2 + 2 + 4);
}

#[test]
fn dependency_edges_come_from_sources_and_requirements() {
    let mut world = World::default();
    world.put("/ws", Doc::root(&["*"], &[]));
    world.put(
        "/ws/a",
        Doc::package("A_a")
            .source("B.b", Some(true))
            .source("C", Some(false))
            .source("d", None)
            .needs("E>=1")
            .needs("a-a")
            .needs("numpy")
            .group("dev", &[Some("F ; os_name == 'x'"), None, Some("?!")]),
    );
    for name in ["b-b", "c", "d", "e", "f"] {
        world.put(&format!("/ws/{name}"), Doc::package(name));
    }
    world.glob(
        "*",
        &["/ws/a", "/ws/b-b", "/ws/c", "/ws/d", "/ws/e", "/ws/f"],
    );
    let ws = world.load("/ws");
    let a = ws.member("a.A").unwrap();
    assert_eq!(a.name, "A_a");
    assert_eq!(a.id, "a-a");
    assert_eq!(a.deps.items, ["b-b", "e", "f"]);
    assert_eq!(member_ids(&ws), ["b-b", "c", "d", "e", "f", "a-a"]);
    assert!(ws.member("numpy").is_none());
}

#[test]
fn circles_are_refused() {
    let mut world = World::default();
    world.put("/ws", Doc::root(&["*"], &[]));
    world.put("/ws/a", Doc::package("a").needs("b"));
    world.put("/ws/b", Doc::package("b").needs("c"));
    world.put("/ws/c", Doc::package("c").needs("b"));
    world.put("/ws/d", Doc::package("d"));
    world.glob("*", &["/ws/a", "/ws/b", "/ws/c", "/ws/d"]);
    assert_eq!(
        world.search("/ws").result.unwrap_err().message(),
        "dependency cycle among workspace members: [\"a\", \"b\", \"c\"]"
    );
}

#[test]
fn transitive_deps_follow_every_edge() {
    let ws = acme().load("/acme");
    assert_eq!(
        ws.transitive_deps("acme-worker").items,
        ["acme-api", "acme-core"]
    );
    assert_eq!(ws.transitive_deps("acme-api").items, ["acme-core"]);
    assert!(ws.transitive_deps("acme-core").is_empty());
    assert!(ws.transitive_deps("nosuch").is_empty());
}

#[test]
fn order_holds_through_members_outside_the_selection() {
    let mut world = acme();
    world.edit("/acme/packages/acme-api", |mut d| {
        d.tasks.clear();
        d
    });
    let ws = world.load("/acme");
    let plan = plan(&ws, across("test")).unwrap();
    assert_eq!(ids(&plan.invocations), ["acme-core", "acme-worker"]);
    assert_eq!(plan.invocations[1].deps.items, ["acme-core"]);
}

#[test]
fn order_does_not_depend_on_the_file_system() {
    let mut world = fixture();
    let ws = world.load("/ws");
    world.glob(
        "pkgs/*",
        &[
            "/ws/pkgs/zeta",
            "/ws/pkgs/skipme",
            "/ws/pkgs/mid",
            "/ws/pkgs/zeta",
            "/ws/pkgs/alpha",
        ],
    );
    assert_eq!(member_ids(&world.load("/ws")), member_ids(&ws));
    assert_eq!(member_ids(&ws), ["mid", "zeta", "alpha"]);
}

#[test]
fn of_members_with_one_id_the_last_by_directory_counts() {
    let mut world = World::default();
    world.put("/ws", Doc::root(&["*"], &[]));
    world.put("/ws/a", Doc::package("Twin"));
    world.put("/ws/b", Doc::package("twin"));
    world.glob("*", &["/ws/a", "/ws/b"]);
    let ws = world.load("/ws");
    assert_eq!(ws.members.len(), 1);
    assert_eq!(ws.members[0].name, "twin");
}

#[test]
fn deepest_member_contains_a_directory() {
    let mut world = fixture();
    world.put("/ws/pkgs/zeta/sub", Doc::package("sub").task("build", "sub"));
    world.put("/ws", Doc::root(&["pkgs/*", "pkgs/zeta/sub"], &[]));
    world.glob("pkgs/zeta/sub", &["/ws/pkgs/zeta/sub"]);
    let ws = world.load("/ws");
    let name = |p: &str| ws.member_containing(&path(p)).map(|m| m.name.clone());
    assert_eq!(name("/ws/pkgs/zeta/sub/x"), Some("sub".into()));
    assert_eq!(name("/ws/pkgs/zeta/src"), Some("zeta".into()));
    assert_eq!(name("/ws/pkgs"), None);
    assert_eq!(name("/ws/pkgs/zetax"), None);
}

#[test]
fn current_directory_decides_what_runs() {
    let ws = fixture().load("/ws");
    let outside = local(&ws, "/elsewhere", run("build", &[]));
    assert_eq!(
        outside.unwrap_err().message(),
        "current directory is not inside workspace /ws"
    );
    let missing = local(&ws, "/ws/pkgs/mid/src", run("test", &[]));
    assert_eq!(
        missing.unwrap_err().message(),
        "package \"mid\" has no task \"test\" in [tool.ut.tasks]"
    );
}

#[test]
fn errors_of_runs_across_the_workspace() {
    let mut world = fixture();
    world.edit("/ws/pkgs/zeta", |d| d.sequence("check", &["one", "two"]));
    let ws = world.load("/ws");
    let told = |cmd: RunCmd| plan(&ws, cmd).unwrap_err().message();
    assert_eq!(
        told(across("nosuch")),
        "no workspace member defines task \"nosuch\""
    );
    assert_eq!(
        told(RunCmd {
            args: strings(&["x"]),
            ..across("check")
        }),
        "task \"check\" is a sequence; passthrough arguments are not supported"
    );
    assert_eq!(
        told(RunCmd {
            filter: strings(&["Zeta", "No.Such", "also-not"]),
            ..across("build")
        }),
        "--filter \"also-not\" does not match any workspace member"
    );
    assert_eq!(
        told(RunCmd {
            filter: strings(&["alpha"]),
            ..across("test")
        }),
        "no workspace member defines task \"test\""
    );
}

#[test]
fn filters_are_normalized_and_args_appended() {
    let ws = fixture().load("/ws");
    let cmd = RunCmd {
        filter: strings(&["ZETA", "Alpha"]),
        args: strings(&["a b"]),
        ..across("build")
    };
    let plan = plan(&ws, cmd).unwrap();
    assert_eq!(ids(&plan.invocations), ["zeta", "alpha"]);
    assert_eq!(plan.invocations[0].steps, ["echo built-zeta 'a b'"]);
    assert_eq!(plan.invocations[0].dir.display(), "/ws/pkgs/zeta");
    assert_eq!(plan.jobs, 4);
}

#[test]
fn commands_are_picked() {
    assert!(matches!(
        pick_command(Some(Command::List), Some("x".into()), vec![]),
        Ok(Command::List)
    ));
    assert_eq!(
        pick_command(None, None, vec![]).unwrap_err(),
        "ut: error: no task or subcommand given (try `ut list` or `ut --help`)"
    );
    match pick_command(None, Some("test".into()), strings(&["-k", "scope"])) {
        Ok(Command::Run(cmd)) => {
            assert!(!cmd.workspace && !cmd.sequential && cmd.filter.is_empty());
            assert_eq!(cmd.task, "test");
            assert_eq!(cmd.args, ["-k", "scope"]);
        }
        _ => panic!("not a run"),
    }
    assert_eq!(shell_named("bash"), Shell::Bash);
    assert_eq!(shell_named("zsh"), Shell::Zsh);
    assert_eq!(shell_named("fish"), Shell::Fish);
    assert_eq!(thread_count(Some(16)), 16);
    assert_eq!(thread_count(None), 4);
}

#[test]
fn directories_are_shown_from_the_root() {
    assert_eq!(rel(&path("/ws"), &path("/ws")), ".");
    assert_eq!(rel(&path("/ws/pkgs/a"), &path("/ws")), "pkgs/a");
    assert_eq!(rel(&path("/other/a"), &path("/ws")), "/other/a");
    assert_eq!(rel(&path("/wsx"), &path("/ws")), "/wsx");
    assert_eq!(rel(&path("/"), &path("/")), ".");
}

#[test]
fn what_is_shown_of_a_directory_leads_back_to_it() {
    for dir in ["/ws", "/ws/pkgs/a", "/other/é", "/", "/wsx"] {
        let text = rel(&path(dir), &path("/ws"));
        let joined = if text.starts_with('/') {
            text.clone()
        } else {
            format!("/ws/{text}")
        };
        assert_eq!(path(&joined).display(), dir);
        assert_eq!(text == ".", dir == "/ws");
    }
}

#[test]
fn paths_are_read_and_spelled() {
    assert_eq!(path("/a//b/").display(), "/a/b");
    assert_eq!(path("/").display(), "/");
    assert_eq!(path("/ws/./a/.").display(), "/ws/a");
    assert_eq!(path("/ws/.a/..").display(), "/ws/.a/..");
    assert!(path("/ws/./a").starts_with(&path("/ws/a")));
    assert_eq!(path("/a/b").to_bytes(), b"/a/b");
    let odd = AbsPath::parse(&vec![b'/', 0xff]);
    assert_eq!(odd.display(), "/\u{fffd}");
    assert_eq!(odd.to_bytes(), [b'/', 0xff]);
    assert!(path("/a/b").starts_with(&path("/a")));
    assert!(!path("/ab").starts_with(&path("/a")));
    assert_eq!(path("/a").join("pyproject.toml").display(), "/a/pyproject.toml");
}

#[test]
fn uv_runs_a_step_in_a_directory() {
    let args: Vec<String> = uv_args(&path("/ws/a"), "echo hi")
        .into_iter()
        .map(|a| String::from_utf8(a).unwrap())
        .collect();
    assert_eq!(
        args,
        ["run", "--directory", "/ws/a", "--", "sh", "-c", "echo hi"]
    );
}

#[test]
fn steps_stop_at_the_first_failure() {
    let ended = |ends: Vec<StepEnd>| match local_progress(3, &ends) {
        LocalProgress::Run(_) => panic!("a step is left"),
        LocalProgress::Finished(result) => report(result),
    };
    assert_eq!(ended(vec![StepEnd::Exited(None)]), (1, None));
    assert_eq!(
        ended(vec![StepEnd::Exited(Some(0)), StepEnd::Exited(Some(7))]),
        (7, None)
    );
    assert_eq!(
        ended(vec![StepEnd::Exited(Some(7)), StepEnd::Exited(Some(0))]),
        (7, None)
    );
    assert_eq!(
        ended(vec![StepEnd::NotSpawned("no such file".into())]),
        (
            2,
            Some("ut: error: failed to spawn uv; is it on PATH?: no such file".to_string())
        )
    );
    assert!(matches!(
        local_progress(0, &vec![]),
        LocalProgress::Finished(Ok(0))
    ));
}

#[test]
fn streamed_steps_tell_why_they_failed() {
    let told = |end: StepEnd, color: bool| match streamed_progress("a | ", 1, &vec![end], color) {
        StreamedProgress::Failed(line) => line,
        _ => panic!("it did not fail"),
    };
    assert_eq!(
        told(StepEnd::NotSpawned("gone".into()), false),
        "a | failed to spawn uv: gone"
    );
    assert_eq!(
        told(StepEnd::WaitFailed("lost".into()), false),
        "a | wait failed: lost"
    );
    assert_eq!(
        told(StepEnd::Exited(Some(-3)), false),
        "a | ✗ exited with -3"
    );
    assert_eq!(
        told(StepEnd::Exited(None), true),
        "a | \u{1b}[31m✗\u{1b}[39m exited with signal"
    );
    assert!(matches!(
        streamed_progress("a | ", 1, &vec![StepEnd::Exited(Some(0))], false),
        StreamedProgress::Succeeded
    ));
    assert!(matches!(
        streamed_progress("a | ", 2, &vec![StepEnd::Exited(Some(0))], false),
        StreamedProgress::Run(1)
    ));
}

fn invocation(id: &str, deps: &[&str]) -> Invocation {
    let mut set = ut::names::NameSet::new();
    for dep in deps {
        set.insert(dep.to_string());
    }
    Invocation {
        id: id.to_string(),
        dir: path("/ws").join(id),
        steps: vec![],
        deps: set,
    }
}

#[test]
fn prefixes_take_colors_in_turn() {
    let mut run = Scheduler::new(
        vec![invocation("long", &[]), invocation("b", &[])],
        2,
        true,
    );
    let launched = run.launch();
    assert_eq!(launched[0].prefix, "\u{1b}[35mb    | \u{1b}[39m");
    assert_eq!(launched[1].prefix, "\u{1b}[36mlong | \u{1b}[39m");
}

#[test]
fn no_more_than_the_jobs_run_at_a_time() {
    let all = vec![
        invocation("a", &[]),
        invocation("b", &[]),
        invocation("c", &[]),
    ];
    let mut run = Scheduler::new(all, 2, false);
    assert_eq!(started(&run.launch()), ["a", "b"]);
    run.finish("b".into(), true);
    assert_eq!(started(&run.launch()), ["c"]);
    run.finish("a".into(), true);
    run.finish("c".into(), true);
    assert!(run.launch().is_empty());
    assert_eq!(run.outcome().unwrap(), (0, vec![]));
    assert_eq!(run.succeeded.items, ["a", "b", "c"]);
}

#[test]
fn in_flight_invocations_finish_after_a_failure() {
    let all = vec![
        invocation("a", &[]),
        invocation("b", &[]),
        invocation("c", &["a"]),
        invocation("d", &[]),
    ];
    let mut run = Scheduler::new(all, 2, false);
    assert_eq!(started(&run.launch()), ["a", "b"]);
    run.finish("b".into(), false);
    assert!(run.launch().is_empty());
    assert!(!run.is_idle());
    run.finish("a".into(), true);
    assert!(run.launch().is_empty());
    assert!(run.is_idle());
    let (code, lines) = run.outcome().unwrap();
    assert_eq!(code, 1);
    assert_eq!(lines, ["\n✗ task failed in: b", "  skipped: c, d"]);
}

#[test]
fn what_can_never_start_is_an_error() {
    let all = vec![invocation("a", &["b"]), invocation("b", &["a"])];
    let (order, outcome) = play(
        Plan {
            invocations: all,
            jobs: 2,
        },
        &[],
    );
    assert!(order.is_empty());
    assert_eq!(
        outcome.unwrap_err().message(),
        "internal error: unrunnable invocations: [\"a\", \"b\"]"
    );
}

#[test]
fn of_invocations_with_one_id_the_last_runs() {
    let mut last = invocation("a", &[]);
    last.steps = strings(&["last"]);
    let mut run = Scheduler::new(vec![invocation("a", &[]), last], 4, false);
    let launched = run.launch();
    assert_eq!(launched.len(), 1);
    assert_eq!(launched[0].invocation.steps, ["last"]);
}
