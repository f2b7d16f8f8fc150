//! From the manifests of a workspace to its members and their order.

use crate::discover::docs_known;
use crate::discover::law_same_from_between;
use crate::discover::law_same_stage_same_layout;
use crate::discover::manifest_at;
use crate::discover::same_packages;
use crate::discover::search;
use crate::discover::stage;
use crate::discover::Discovery;
use crate::discover::Layout;
use crate::discover::Manifest;
use crate::discover::Package;
use crate::discover::Search;
use crate::discover::Snapshot;
use crate::error::Error;
use crate::graph::closed_graph;
use crate::graph::has_circle;
use crate::graph::law_dependencies_come_first;
use crate::graph::law_order_is_unique;
use crate::graph::law_order_respects_graph;
use crate::graph::law_stuck_means_circle;
use crate::graph::law_stuck_wait_for_circles;
use crate::graph::law_ties_go_by_id;
use crate::graph::lemma_by_id;
use crate::graph::lemma_order_distinct;
use crate::graph::reaches;
use crate::graph::stuck;
use crate::graph::takes_least_ready;
use crate::graph::toposort;
use crate::names::NameMap;
use crate::names::NameSet;
use crate::order::lemma_take_more;
use crate::package::is_bare_name;
use crate::package::is_requirement;
use crate::package::law_environment_enters_urls_only;
use crate::package::law_name_comes_first;
use crate::package::law_words_are_a_bare_name;
use crate::package::leading_name;
use crate::package::mentions_variable;
use crate::package::normalize;
use crate::package::normalized;
use crate::package::requirement_name;
use crate::package::safe_to_parse;
use crate::paths::AbsPath;
use crate::pyproject::PyProject;
use crate::pyproject::Source;
use crate::tasks::copy_tasks;
use crate::tasks::law_copied_tasks_are_the_same;
use crate::tasks::same_tasks;
use crate::tasks::Task;
use crate::text::same_text;
use crate::text::sorted_texts;
use crate::text::text_less;
use crate::text::texts;
use crate::workspace::by_id;
use crate::workspace::dep_graph;
use crate::workspace::ids;
use crate::workspace::Member;
use crate::workspace::Workspace;
use crate::workspace::law_last_member_has_the_id;
use vstd::prelude::*;

verus! {

/// A source marked `workspace = true` names a member that is depended on.
pub open spec fn source_names(entry: (String, Source), id: Seq<char>) -> bool {
    entry.1.workspace == Some(true) && normalized(entry.0@) == id
}

/// A requirement whose name could be read names a package that is depended on.
pub open spec fn answer_names(answer: Option<String>, id: Seq<char>) -> bool {
    answer matches Some(name) && name@ == id
}

pub open spec fn sources_name(sources: Seq<(String, Source)>, id: Seq<char>) -> bool {
    exists|i: int| 0 <= i < sources.len() && source_names(#[trigger] sources[i], id)
}

pub open spec fn answers_name(answers: Seq<Option<String>>, id: Seq<char>) -> bool {
    exists|i: int| 0 <= i < answers.len() && answer_names(#[trigger] answers[i], id)
}

/// The ids that a package depends on: those of its sources marked `workspace = true`, and the
/// names that were read out of its requirements.
pub fn collect_deps(sources: &NameMap<Source>, answers: Vec<Option<String>>) -> (deps: NameSet)
    ensures
        deps.wf(),
        forall|id: Seq<char>| #[trigger]
            deps@.contains(id) <==> sources_name(sources.entries@, id) || answers_name(
                answers@,
                id,
            ),
{
    let mut deps = NameSet::new();
    let ghost listed = sources.entries@;
    let mut i: usize = 0;
    while i < sources.entries.len()
        invariant
            i <= listed.len(),
            listed == sources.entries@,
            deps.wf(),
            forall|id: Seq<char>| #[trigger]
                deps@.contains(id) <==> sources_name(listed.take(i as int), id),
        decreases sources.entries.len() - i,
    {
        let ghost had = deps@;
        let entry = &sources.entries[i];
        if let Some(true) = entry.1.workspace {
            deps.insert(normalize(entry.0.as_str()));
        }
        proof {
            let seen = listed.take(i as int);
            let next = listed.take(i + 1);
            assert forall|id: Seq<char>| #[trigger]
                deps@.contains(id) <==> sources_name(next, id) by {
                if sources_name(seen, id) {
                    let k = choose|k: int|
                        0 <= k < seen.len() && source_names(#[trigger] seen[k], id);
                    assert(source_names(next[k], id));
                }
                if source_names(listed[i as int], id) {
                    assert(source_names(next[i as int], id));
                }
                if sources_name(next, id) {
                    let k = choose|k: int|
                        0 <= k < next.len() && source_names(#[trigger] next[k], id);
                    if k < i {
                        assert(source_names(seen[k], id));
                    }
                }
            }
        }
        i += 1;
    }
    let ghost given = answers@;
    proof {
        assert(listed.take(i as int) =~= listed);
    }
    for answer in it: answers
        invariant
            it.seq() == given,
            deps.wf(),
            forall|id: Seq<char>| #[trigger]
                deps@.contains(id) <==> sources_name(listed, id) || answers_name(
                    given.take(it.index() as int),
                    id,
                ),
    {
        let ghost had = deps@;
        let ghost at = answer;
        if let Some(name) = answer {
            deps.insert(name);
        }
        proof {
            let n = it.index() as int;
            let seen = given.take(n);
            let next = given.take(n + 1);
            assert(given[n] == at);
            assert forall|id: Seq<char>| #[trigger]
                deps@.contains(id) <==> sources_name(listed, id) || answers_name(next, id) by {
                if answers_name(seen, id) {
                    let k = choose|k: int|
                        0 <= k < seen.len() && answer_names(#[trigger] seen[k], id);
                    assert(answer_names(next[k], id));
                }
                if answer_names(at, id) {
                    assert(answer_names(next[n], id));
                }
                if answers_name(next, id) {
                    let k = choose|k: int|
                        0 <= k < next.len() && answer_names(#[trigger] next[k], id);
                    if k < n {
                        assert(answer_names(seen[k], id));
                    }
                }
            }
        }
    }
    proof {
        assert(given.take(given.len() as int) =~= given);
    }
    deps
}

/// The requirement is for this package if it is one at all.
pub open spec fn spec_is_for(spec: Seq<char>, id: Seq<char>) -> bool {
    leading_name(spec).len() > 0 && normalized(leading_name(spec)) == id
}

/// The requirement makes the package depend on `id`, whatever the environment.
pub open spec fn spec_names(spec: Seq<char>, id: Seq<char>) -> bool {
    &&& spec_is_for(spec, id)
    &&& is_bare_name(spec) || (is_requirement(spec) && !mentions_variable(spec))
}

/// The requirement may make the package depend on `id`.
pub open spec fn spec_may_name(spec: Seq<char>, id: Seq<char>) -> bool {
    spec_is_for(spec, id) && (is_requirement(spec) || mentions_variable(spec))
}

/// What the requirement parser may say of a requirement.
pub open spec fn answer_fits(spec: Seq<char>, answer: Option<String>) -> bool {
    &&& answer matches Some(name) ==> leading_name(spec).len() > 0 && name@ == normalized(
        leading_name(spec),
    )
    &&& !mentions_variable(spec) ==> answer is Some == is_requirement(spec)
    &&& is_bare_name(spec) ==> answer is Some
}

/// The names that requirements mention, as far as they can be read.
fn read_requirements(specs: &Vec<String>) -> (answers: Vec<Option<String>>)
    requires
        forall|i: int| 0 <= i < specs@.len() ==> safe_to_parse(#[trigger] texts(specs@)[i]),
    ensures
        answers@.len() == specs@.len(),
        forall|i: int|
            0 <= i < specs@.len() ==> answer_fits(texts(specs@)[i], #[trigger] answers@[i]),
{
    let mut answers: Vec<Option<String>> = Vec::new();
    let mut i: usize = 0;
    while i < specs.len()
        invariant
            i <= specs@.len(),
            answers@.len() == i,
            forall|i: int| 0 <= i < specs@.len() ==> safe_to_parse(#[trigger] texts(specs@)[i]),
            forall|k: int| 0 <= k < i ==> answer_fits(texts(specs@)[k], #[trigger] answers@[k]),
        decreases specs.len() - i,
    {
        proof {
            assert(texts(specs@)[i as int] == specs@[i as int]@);
        }
        answers.push(requirement_name(specs[i].as_str()));
        i += 1;
    }
    answers
}

/// The document makes its package depend on `id`, whatever the environment.
pub open spec fn declares(doc: PyProject, id: Seq<char>) -> bool {
    ||| sources_name(doc.tool.uv.sources.entries@, id)
    ||| exists|i: int| 0 <= i < doc.specs().len() && spec_names(#[trigger] doc.specs()[i], id)
}

/// The document may make its package depend on `id`.
pub open spec fn may_declare(doc: PyProject, id: Seq<char>) -> bool {
    ||| sources_name(doc.tool.uv.sources.entries@, id)
    ||| exists|i: int| 0 <= i < doc.specs().len() && spec_may_name(#[trigger] doc.specs()[i], id)
}

/// The member that a document describes. Of its dependencies: those that are certain are there,
/// and none is there that the document does not mention.
pub open spec fn describes(doc: PyProject, dir: Seq<Seq<u8>>, member: Member) -> bool {
    &&& doc.project matches Some(project) && member.name@ == project.name@
    &&& member.id@ == normalized(member.name@)
    &&& member.dir@ == dir
    &&& same_tasks(doc.tool.ut.tasks, member.tasks)
    &&& forall|id: Seq<char>| declares(doc, id) ==> #[trigger] member.deps@.contains(id)
    &&& forall|id: Seq<char>| #[trigger] member.deps@.contains(id) ==> may_declare(doc, id)
}

/// Builds the member in directory `dir` from its document.
pub fn build_member(dir: AbsPath, doc: &PyProject) -> (member: Member)
    requires
        dir.wf(),
        doc.project is Some,
        doc.wf(),
        doc.buildable(),
    ensures
        member.wf(),
        describes(*doc, dir@, member),
{
    let name = match &doc.project {
        Some(project) => project.name.clone(),
        None => String::new(),
    };
    let specs = doc.requirements();
    let answers = read_requirements(&specs);
    let ghost read = answers@;
    // Authoritative edges are the sources marked `workspace = true`; requirement names that
    // happen to be members come on top, and the rest is filtered out when members are put
    // together.
    let deps = collect_deps(&doc.tool.uv.sources, answers);
    proof {
        let listed = doc.tool.uv.sources.entries@;
        assert forall|id: Seq<char>| declares(*doc, id) implies #[trigger] deps@.contains(id) by {
            if !sources_name(listed, id) {
                let i = choose|i: int|
                    0 <= i < doc.specs().len() && spec_names(#[trigger] doc.specs()[i], id);
                assert(answer_fits(doc.specs()[i], read[i]));
                assert(answer_names(read[i], id));
            }
        }
        assert forall|id: Seq<char>| #[trigger] deps@.contains(id) implies may_declare(
            *doc,
            id,
        ) by {
            if !sources_name(listed, id) {
                let i = choose|i: int| 0 <= i < read.len() && answer_names(#[trigger] read[i], id);
                assert(answer_fits(doc.specs()[i], read[i]));
                assert(spec_may_name(doc.specs()[i], id));
            }
        }
    }
    Member { id: normalize(name.as_str()), name, dir, tasks: copy_tasks(&doc.tool.ut.tasks), deps }
}

/// The dependencies of a member that count: those that are members themselves, and not the member.
pub open spec fn kept_deps(members: Seq<Member>, member: Member) -> Set<Seq<char>> {
    member.deps@.intersect(ids(members).to_set()).remove(member.id@)
}

/// Which members each member depends on.
pub open spec fn member_graph(members: Seq<Member>) -> Map<Seq<char>, Set<Seq<char>>> {
    Map::new(
        |id: Seq<char>| by_id(members).contains_key(id),
        |id: Seq<char>| kept_deps(members, by_id(members)[id]),
    )
}

/// The same but for its dependencies.
pub open spec fn same_member(a: Member, b: Member) -> bool {
    a.name == b.name && a.id == b.id && a.dir == b.dir && a.tasks == b.tasks
}

/// What comes of putting members together: all of them in order, or the circle that they are in.
pub open spec fn assembled(members: Seq<Member>, result: Result<Workspace, Error>) -> bool {
    let graph = member_graph(members);
    match result {
        Ok(ws) => {
            &&& ws.ordered()
            &&& takes_least_ready(graph, ids(ws.members@))
            &&& ids(ws.members@).to_set() == graph.dom()
            &&& stuck(graph) == Set::<Seq<char>>::empty()
            &&& forall|i: int|
                0 <= i < ws.members@.len() ==> {
                    &&& (#[trigger] ws.members@[i]).wf()
                    &&& same_member(ws.members@[i], by_id(members)[ws.members@[i].id@])
                    &&& ws.members@[i].deps@ == graph[ws.members@[i].id@]
                }
        },
        Err(Error::Cycle(names)) => {
            &&& stuck(graph) != Set::<Seq<char>>::empty()
            &&& texts(names@).to_set() == stuck(graph)
            &&& sorted_texts(texts(names@))
        },
        Err(_) => false,
    }
}

/// The ids of members as a set.
fn id_set(members: &Vec<Member>) -> (set: NameSet)
    ensures
        set.wf(),
        set@ == ids(members@).to_set(),
{
    let mut set = NameSet::new();
    let ghost all = ids(members@);
    let mut i: usize = 0;
    proof {
        assert(set@ =~= all.take(0).to_set());
    }
    while i < members.len()
        invariant
            i <= members@.len(),
            all == ids(members@),
            set.wf(),
            set@ == all.take(i as int).to_set(),
        decreases members.len() - i,
    {
        set.insert(members[i].id.clone());
        proof {
            lemma_take_more(all, i as int);
        }
        i += 1;
    }
    proof {
        assert(all.take(i as int) =~= all);
    }
    set
}

/// The names that are in `known` and are not `own`.
fn keep(deps: &NameSet, known: &NameSet, own: &str) -> (kept: NameSet)
    requires
        deps.wf(),
        known.wf(),
    ensures
        kept.wf(),
        kept@ == deps@.intersect(known@).remove(own@),
{
    let mut kept = NameSet::new();
    let ghost all = deps.names();
    let mut i: usize = 0;
    proof {
        assert(all.take(0).to_set() =~= Set::<Seq<char>>::empty());
        assert(kept@ =~= all.take(0).to_set().intersect(known@).remove(own@));
    }
    while i < deps.items.len()
        invariant
            i <= deps.items@.len(),
            all == deps.names(),
            known.wf(),
            kept.wf(),
            kept@ == all.take(i as int).to_set().intersect(known@).remove(own@),
        decreases deps.items.len() - i,
    {
        let dep = &deps.items[i];
        let ghost had = all.take(i as int).to_set();
        proof {
            lemma_take_more(all, i as int);
            assert(all[i as int] == dep@);
        }
        if known.contains(dep.as_str()) && !same_text(dep.as_str(), own) {
            kept.insert(dep.clone());
        }
        proof {
            assert(kept@ =~= had.insert(dep@).intersect(known@).remove(own@));
        }
        i += 1;
    }
    proof {
        assert(all.take(i as int) =~= all);
    }
    kept
}

/// Members with their dependencies cut down lead to the same table but for the dependencies.
proof fn lemma_kept(kept: Seq<Member>, given: Seq<Member>, all: Seq<Member>)
    requires
        kept.len() == given.len(),
        forall|i: int|
            0 <= i < kept.len() ==> same_member(#[trigger] kept[i], given[i]) && kept[i].deps@
                == kept_deps(all, given[i]),
    ensures
        by_id(kept).dom() == by_id(given).dom(),
        forall|id: Seq<char>| #[trigger]
            by_id(kept).contains_key(id) ==> same_member(by_id(kept)[id], by_id(given)[id])
                && by_id(kept)[id].deps@ == kept_deps(all, by_id(given)[id]),
    decreases kept.len(),
{
    if kept.len() > 0 {
        assert(same_member(kept[kept.len() - 1], given[given.len() - 1]));
        lemma_kept(kept.drop_last(), given.drop_last(), all);
    }
    assert(by_id(kept).dom() =~= by_id(given).dom());
}

/// Members in order, each of them what the table gives for its id, make up that table.
proof fn lemma_same_table(sorted: Seq<Member>, table: Map<Seq<char>, Member>)
    requires
        ids(sorted).to_set() == table.dom(),
        forall|i: int| 0 <= i < sorted.len() ==> #[trigger] sorted[i] == table[sorted[i].id@],
    ensures
        by_id(sorted) == table,
{
    lemma_by_id(sorted);
    assert forall|id: Seq<char>| #[trigger] by_id(sorted).contains_key(id) implies by_id(sorted)[id]
        == table[id] by {
        let m = by_id(sorted)[id];
        let k = sorted.index_of(m);
        assert(sorted[k] == m);
    }
    assert(by_id(sorted) =~= table);
}

/// Puts members together: drops the dependencies that are no members, and orders what is left.
pub fn assemble(
    root: AbsPath,
    root_name: Option<String>,
    root_tasks: NameMap<Task>,
    members: Vec<Member>,
) -> (result: Result<Workspace, Error>)
    requires
        forall|i: int| 0 <= i < members@.len() ==> (#[trigger] members@[i]).wf(),
    ensures
        assembled(members@, result),
        result matches Ok(ws) ==> ws.root == root && ws.root_name == root_name && ws.root_tasks
            == root_tasks,
{
    let ghost given = members@;
    let known = id_set(&members);
    let mut kept: Vec<Member> = Vec::new();
    for m in it: members
        invariant
            it.seq() == given,
            known.wf(),
            known@ == ids(given).to_set(),
            forall|i: int| 0 <= i < given.len() ==> (#[trigger] given[i]).wf(),
            kept@.len() == it.index(),
            forall|i: int|
                0 <= i < kept@.len() ==> {
                    &&& (#[trigger] kept@[i]).wf()
                    &&& same_member(kept@[i], given[i])
                    &&& kept@[i].deps@ == kept_deps(given, given[i])
                },
    {
        proof {
            assert(m == given[it.index() as int]);
        }
        let deps = keep(&m.deps, &known, m.id.as_str());
        kept.push(Member { name: m.name, id: m.id, dir: m.dir, tasks: m.tasks, deps });
    }
    let ghost cut = kept@;
    let ghost graph = member_graph(given);
    proof {
        lemma_kept(cut, given, given);
        assert(dep_graph(by_id(cut)) =~= graph);
        assert(dep_graph(by_id(cut)).dom() =~= by_id(cut).dom());
        lemma_by_id(cut);
    }
    match toposort(kept) {
        Ok(members) => {
            let ws = Workspace { root, root_name, root_tasks, members };
            proof {
                let sorted = members@;
                lemma_same_table(sorted, by_id(cut));
                assert forall|i: int| 0 <= i < sorted.len() implies {
                    &&& (#[trigger] sorted[i]).wf()
                    &&& same_member(sorted[i], by_id(given)[sorted[i].id@])
                    &&& sorted[i].deps@ == graph[sorted[i].id@]
                } by {
                    let id = sorted[i].id@;
                    assert(ids(sorted)[i] == id);
                    assert(ids(sorted).contains(id));
                    assert(ids(sorted).to_set().contains(id));
                    assert(by_id(cut).contains_key(id));
                    let k = cut.index_of(by_id(cut)[id]);
                    assert(cut[k] == sorted[i]);
                }
            }
            Ok(ws)
        },
        Err(error) => Err(error),
    }
}

/// Members built from the packages of a layout, one for each.
pub open spec fn built_from(layout: Layout<'_>, members: Seq<Member>) -> bool {
    &&& members.len() == layout.packages@.len()
    &&& forall|i: int|
        0 <= i < members.len() ==> describes(
            *layout.packages@[i].doc,
            layout.packages@[i].dir@,
            #[trigger] members[i],
        )
}

/// The requirements of every package can be parsed.
pub open spec fn all_buildable(layout: Layout<'_>) -> bool {
    forall|i: int| 0 <= i < layout.packages@.len() ==> (#[trigger] layout.packages@[i]).doc.buildable()
}

/// The workspace has the root of the layout, with its name and tasks.
pub open spec fn root_fits(layout: Layout<'_>, ws: Workspace) -> bool {
    &&& ws.root@ == layout.root@
    &&& match layout.root_doc.project {
        Some(project) => ws.root_name matches Some(name) && name@ == project.name@,
        None => ws.root_name is None,
    }
    &&& same_tasks(layout.root_doc.tool.ut.tasks, ws.root_tasks)
}

/// What comes of loading a layout: the members that its packages describe, put together, with the
/// root of the layout.
pub open spec fn loaded(layout: Layout<'_>, result: Result<Workspace, Error>) -> bool {
    &&& exists|members: Seq<Member>| #[trigger]
        built_from(layout, members) && assembled(members, result)
    &&& result matches Ok(ws) ==> root_fits(layout, ws)
}

impl Workspace {
    /// Members in an order that takes, in each turn, the least id whose dependencies have come.
    pub open spec fn ordered(&self) -> bool {
        takes_least_ready(dep_graph(by_id(self.members@)), ids(self.members@))
    }

    /// Paths valid, tables and sets sorted, members in order.
    pub open spec fn wf(&self) -> bool {
        &&& self.root.wf()
        &&& self.root_tasks.wf()
        &&& forall|i: int| 0 <= i < self.members@.len() ==> (#[trigger] self.members@[i]).wf()
        &&& self.ordered()
    }

    /// Loads all members of a layout.
    pub fn load(layout: Layout<'_>) -> (result: Result<Workspace, Error>)
        requires
            layout.wf(),
            all_buildable(layout),
        ensures
            loaded(layout, result),
            result matches Ok(ws) ==> ws.wf(),
    {
        let mut members: Vec<Member> = Vec::new();
        let mut i: usize = 0;
        while i < layout.packages.len()
            invariant
                i <= layout.packages@.len(),
                layout.wf(),
                all_buildable(layout),
                members@.len() == i,
                forall|k: int|
                    0 <= k < i ==> {
                        &&& (#[trigger] members@[k]).wf()
                        &&& describes(
                            *layout.packages@[k].doc,
                            layout.packages@[k].dir@,
                            members@[k],
                        )
                    },
            decreases layout.packages.len() - i,
        {
            proof {
                assert(layout.packages@[i as int].doc.buildable());
            }
            members.push(build_member(layout.packages[i].dir.clone(), layout.packages[i].doc));
            i += 1;
        }
        let root_name = match &layout.root_doc.project {
            Some(project) => Some(project.name.clone()),
            None => None,
        };
        let root_tasks = copy_tasks(&layout.root_doc.tool.ut.tasks);
        let ghost built = members@;
        proof {
            assert(built_from(layout, built));
        }
        assemble(layout.root, root_name, root_tasks, members)
    }
}

/// Every dependency that counts is a member, and there are finitely many.
proof fn lemma_member_graph_closed(members: Seq<Member>)
    ensures
        closed_graph(member_graph(members)),
        member_graph(members).dom().finite(),
{
    let graph = member_graph(members);
    lemma_by_id(members);
    assert(graph.dom() =~= ids(members).to_set());
    vstd::seq_lib::seq_to_set_is_finite(ids(members));
    assert forall|id: Seq<char>| #[trigger] graph.contains_key(id) implies graph[id].subset_of(
        graph.dom(),
    ) by {}
}

/// Members are refused exactly when one of them depends on itself through others.
pub proof fn law_refused_for_circles_only(members: Seq<Member>, result: Result<Workspace, Error>)
    requires
        assembled(members, result),
    ensures
        result is Err <==> has_circle(member_graph(members)),
{
    lemma_member_graph_closed(members);
    law_stuck_means_circle(member_graph(members));
}

/// In a workspace each member comes behind the members that it depends on, directly or through
/// others.
pub proof fn law_members_behind_dependencies(ws: Workspace, i: int, dep: Seq<char>)
    requires
        ws.wf(),
        0 <= i < ws.members@.len(),
        reaches(ws.graph(), ws.members@[i].id@, dep),
    ensures
        exists|j: int| 0 <= j < i && (#[trigger] ws.members@[j]).id@ == dep,
{
    let order = ids(ws.members@);
    assert(order[i] == ws.members@[i].id@);
    law_dependencies_come_first(ws.graph(), order, i, dep);
    let j = order.take(i).index_of(dep);
    assert(order[j] == dep);
    assert(ws.members@[j].id@ == dep);
}

/// In a workspace no member depends on itself, directly or through others.
pub proof fn law_no_member_needs_itself(ws: Workspace, i: int)
    requires
        ws.wf(),
        0 <= i < ws.members@.len(),
    ensures
        !reaches(ws.graph(), ws.members@[i].id@, ws.members@[i].id@),
{
    let order = ids(ws.members@);
    let id = ws.members@[i].id@;
    assert(order[i] == id);
    if reaches(ws.graph(), id, id) {
        law_dependencies_come_first(ws.graph(), order, i, id);
        assert(order.skip(i)[0] == id);
        assert(order.skip(i).contains(id));
    }
}

/// The member is the one that a package describes. Of its dependencies: they are other members
/// that the package may declare, and every other member is among them that it declares for certain.
pub open spec fn comes_from(ws: Workspace, member: Member, package: Package<'_>) -> bool {
    &&& member.dir@ == package.dir@
    &&& package.doc.project matches Some(project) && member.name@ == project.name@
    &&& member.id@ == normalized(member.name@)
    &&& same_tasks(package.doc.tool.ut.tasks, member.tasks)
    &&& forall|id: Seq<char>| #[trigger]
        member.deps@.contains(id) ==> may_declare(*package.doc, id) && id != member.id@ && ids(
            ws.members@,
        ).contains(id)
    &&& forall|id: Seq<char>|
        declares(*package.doc, id) && id != member.id@ && ids(ws.members@).contains(id)
            ==> #[trigger] member.deps@.contains(id)
}

/// Every member of a workspace is what one of its packages describes.
pub proof fn law_members_are_packages(
    layout: Layout<'_>,
    members: Seq<Member>,
    ws: Workspace,
    i: int,
) -> (k: int)
    requires
        built_from(layout, members),
        assembled(members, Ok(ws)),
        0 <= i < ws.members@.len(),
    ensures
        0 <= k < layout.packages@.len(),
        comes_from(ws, ws.members@[i], layout.packages@[k]),
{
    let m = ws.members@[i];
    let sorted = ids(ws.members@);
    lemma_by_id(members);
    assert(sorted[i] == m.id@);
    assert(sorted.contains(m.id@));
    assert(sorted.to_set().contains(m.id@));
    assert(member_graph(members).contains_key(m.id@));
    let source = by_id(members)[m.id@];
    let k = members.index_of(source);
    assert(members[k] == source);
    assert(member_graph(members).dom() =~= ids(members).to_set());
    assert forall|id: Seq<char>| ids(members).to_set().contains(id) == sorted.contains(id) by {
        assert(sorted.to_set().contains(id) == sorted.contains(id));
    }
    k
}

/// No requirement of the document rests on the environment.
pub open spec fn is_settled(doc: PyProject) -> bool {
    forall|i: int| 0 <= i < doc.specs().len() ==> !mentions_variable(#[trigger] doc.specs()[i])
}

/// Members that are the same to every reader.
pub open spec fn alike(a: Member, b: Member) -> bool {
    &&& a.name@ == b.name@
    &&& a.id@ == b.id@
    &&& a.dir@ == b.dir@
    &&& same_tasks(a.tasks, b.tasks)
    &&& a.deps@ == b.deps@
}

proof fn lemma_described_alike(doc: PyProject, dir: Seq<Seq<u8>>, a: Member, b: Member)
    requires
        is_settled(doc),
        describes(doc, dir, a),
        describes(doc, dir, b),
    ensures
        alike(a, b),
{
    assert forall|id: Seq<char>| may_declare(doc, id) implies declares(doc, id) by {
        if !sources_name(doc.tool.uv.sources.entries@, id) {
            let i = choose|i: int|
                0 <= i < doc.specs().len() && spec_may_name(#[trigger] doc.specs()[i], id);
            assert(spec_names(doc.specs()[i], id));
        }
    }
    assert forall|id: Seq<char>| a.deps@.contains(id) == b.deps@.contains(id) by {
        if a.deps@.contains(id) {
            assert(declares(doc, id));
        }
        if b.deps@.contains(id) {
            assert(declares(doc, id));
        }
    }
    assert(a.deps@ =~= b.deps@);
    lemma_same_tasks(doc.tool.ut.tasks, a.tasks, b.tasks);
}

/// Two copies of one table of tasks are copies of each other.
proof fn lemma_same_tasks(tasks: NameMap<Task>, a: NameMap<Task>, b: NameMap<Task>)
    requires
        same_tasks(tasks, a),
        same_tasks(tasks, b),
    ensures
        same_tasks(a, b),
{
    assert(tasks.names().len() == a.names().len());
    assert(tasks.names().len() == b.names().len());
    assert forall|i: int| 0 <= i < a.entries@.len() implies {
        &&& (#[trigger] a.entries@[i]).1 is Steps == b.entries@[i].1 is Steps
        &&& a.entries@[i].1.commands() == b.entries@[i].1.commands()
    } by {
        assert(tasks.entries@[i].1 is Steps == a.entries@[i].1 is Steps);
    }
}

proof fn lemma_alike_tables(a: Seq<Member>, b: Seq<Member>)
    requires
        a.len() == b.len(),
        forall|i: int| 0 <= i < a.len() ==> alike(#[trigger] a[i], b[i]),
    ensures
        by_id(a).dom() == by_id(b).dom(),
        ids(a) == ids(b),
        forall|id: Seq<char>| #[trigger]
            by_id(a).contains_key(id) ==> alike(by_id(a)[id], by_id(b)[id]),
    decreases a.len(),
{
    assert forall|i: int| 0 <= i < a.len() implies #[trigger] ids(a)[i] == ids(b)[i] by {
        assert(alike(a[i], b[i]));
    }
    assert(ids(a) =~= ids(b));
    if a.len() > 0 {
        assert(alike(a[a.len() - 1], b[b.len() - 1]));
        lemma_alike_tables(a.drop_last(), b.drop_last());
    }
    assert(by_id(a).dom() =~= by_id(b).dom());
}

/// Loading the same packages twice comes to the same: it is refused both times, or gives the same
/// members in the same order.
pub proof fn law_loading_is_repeatable(
    a: Layout<'_>,
    b: Layout<'_>,
    built_a: Seq<Member>,
    built_b: Seq<Member>,
    result_a: Result<Workspace, Error>,
    result_b: Result<Workspace, Error>,
)
    requires
        same_packages(a, b),
        forall|i: int| 0 <= i < a.packages@.len() ==> is_settled(*(#[trigger] a.packages@[i]).doc),
        built_from(a, built_a),
        built_from(b, built_b),
        assembled(built_a, result_a),
        assembled(built_b, result_b),
    ensures
        result_a is Ok == result_b is Ok,
        result_a matches Ok(ws) ==> {
            &&& ws.members@.len() == result_b->Ok_0.members@.len()
            &&& forall|i: int|
                0 <= i < ws.members@.len() ==> alike(
                    #[trigger] ws.members@[i],
                    result_b->Ok_0.members@[i],
                )
        },
{
    assert forall|i: int| 0 <= i < built_a.len() implies alike(
        #[trigger] built_a[i],
        built_b[i],
    ) by {
        let doc = *a.packages@[i].doc;
        assert(is_settled(doc));
        assert(describes(doc, a.packages@[i].dir@, built_a[i]));
        assert(describes(doc, b.packages@[i].dir@, built_b[i]));
        lemma_described_alike(doc, a.packages@[i].dir@, built_a[i], built_b[i]);
    }
    lemma_alike_tables(built_a, built_b);
    let graph = member_graph(built_a);
    assert(graph =~= member_graph(built_b));
    if let Ok(one) = result_a {
        if let Ok(two) = result_b {
            law_order_is_unique(graph, ids(one.members@), ids(two.members@));
            assert(ids(one.members@).len() == ids(two.members@).len());
            assert forall|i: int| 0 <= i < one.members@.len() implies alike(
                #[trigger] one.members@[i],
                two.members@[i],
            ) by {
                let id = one.members@[i].id@;
                assert(ids(one.members@)[i] == id);
                assert(ids(two.members@)[i] == id);
                assert(two.members@[i].id@ == id);
                assert(ids(one.members@).contains(id));
                assert(ids(one.members@).to_set().contains(id));
                assert(graph.contains_key(id));
                assert(by_id(built_a).contains_key(id));
                assert(same_member(one.members@[i], by_id(built_a)[id]));
                assert(same_member(two.members@[i], by_id(built_b)[id]));
            }
        }
    }
}

/// A start anywhere between the root and the first start, with unchanged files, comes to the same
/// workspace: the same root with its name and tasks, and the same members in the same order.
pub proof fn law_same_workspace_from_between(
    snapshot: Snapshot,
    start: Seq<Seq<u8>>,
    root: Seq<Seq<u8>>,
    n: int,
    a: Layout<'_>,
    b: Layout<'_>,
    built_a: Seq<Member>,
    built_b: Seq<Member>,
    one: Workspace,
    result: Result<Workspace, Error>,
)
    requires
        search(snapshot.manifests@, start) == Search::Root(root),
        root.len() <= n <= start.len(),
        Discovery::Ready(a).tells(stage(snapshot, start)),
        Discovery::Ready(b).tells(stage(snapshot, start.take(n))),
        manifest_at(snapshot.manifests@, a.root@) == Some(Manifest::Parsed(*a.root_doc)),
        manifest_at(snapshot.manifests@, b.root@) == Some(Manifest::Parsed(*b.root_doc)),
        docs_known(snapshot, a.packages@),
        docs_known(snapshot, b.packages@),
        forall|i: int| 0 <= i < a.packages@.len() ==> is_settled(*(#[trigger] a.packages@[i]).doc),
        built_from(a, built_a),
        built_from(b, built_b),
        assembled(built_a, Ok(one)),
        assembled(built_b, result),
        root_fits(a, one),
        result matches Ok(ws) ==> root_fits(b, ws),
    ensures
        result matches Ok(two) && {
            &&& two.root@ == one.root@
            &&& two.root_name is Some == one.root_name is Some
            &&& one.root_name is Some ==> two.root_name->0@ == one.root_name->0@
            &&& same_tasks(one.root_tasks, two.root_tasks)
            &&& two.members@.len() == one.members@.len()
            &&& forall|i: int|
                0 <= i < one.members@.len() ==> alike(#[trigger] one.members@[i], two.members@[i])
        },
{
    law_same_from_between(snapshot, start, root, n);
    law_same_stage_same_layout(snapshot, stage(snapshot, start), a, b);
    law_loading_is_repeatable(a, b, built_a, built_b, Ok(one), result);
    lemma_same_tasks(a.root_doc.tool.ut.tasks, one.root_tasks, result->Ok_0.root_tasks);
}

/// A member has the name of the project, the normalized name as its id, and the directory and tasks
/// of the package.
pub proof fn law_member_keeps_its_package(
    doc: PyProject,
    dir: Seq<Seq<u8>>,
    member: Member,
    task: Seq<char>,
)
    requires
        describes(doc, dir, member),
    ensures
        doc.project is Some,
        member.name@ == doc.project->Some_0.name@,
        member.id@ == normalized(doc.project->Some_0.name@),
        member.dir@ == dir,
        member.tasks@.contains_key(task) <==> doc.tool.ut.tasks@.contains_key(task),
        member.tasks@.contains_key(task) ==> {
            &&& member.tasks@[task] is Steps <==> doc.tool.ut.tasks@[task] is Steps
            &&& member.tasks@[task].commands() == doc.tool.ut.tasks@[task].commands()
        },
{
    law_copied_tasks_are_the_same(doc.tool.ut.tasks, member.tasks, task);
}

/// Every source marked `workspace = true` is a dependency.
pub proof fn law_workspace_sources_are_dependencies(
    doc: PyProject,
    dir: Seq<Seq<u8>>,
    member: Member,
    i: int,
)
    requires
        describes(doc, dir, member),
        0 <= i < doc.tool.uv.sources.entries@.len(),
        doc.tool.uv.sources.entries@[i].1.workspace == Some(true),
    ensures
        member.deps@.contains(normalized(doc.tool.uv.sources.entries@[i].0@)),
{
    let id = normalized(doc.tool.uv.sources.entries@[i].0@);
    assert(source_names(doc.tool.uv.sources.entries@[i], id));
    assert(declares(doc, id));
}

/// Every requirement that the parser takes and that does not rest on the environment makes the
/// package that it is for a dependency.
pub proof fn law_requirements_are_dependencies(
    doc: PyProject,
    dir: Seq<Seq<u8>>,
    member: Member,
    spec: Seq<char>,
)
    requires
        describes(doc, dir, member),
        doc.specs().contains(spec),
        is_requirement(spec),
        !spec.contains('@') || !spec.contains('$'),
        leading_name(spec).len() > 0,
    ensures
        member.deps@.contains(normalized(leading_name(spec))),
{
    law_environment_enters_urls_only(spec);
    let id = normalized(leading_name(spec));
    let i = doc.specs().index_of(spec);
    assert(spec_names(doc.specs()[i], id));
    assert(declares(doc, id));
}

/// A requirement that is no more than a package name makes that package a dependency, in the
/// project as in every group.
pub proof fn law_named_packages_are_dependencies(
    doc: PyProject,
    dir: Seq<Seq<u8>>,
    member: Member,
    name: Seq<char>,
)
    requires
        describes(doc, dir, member),
        doc.specs().contains(name),
        name.len() > 0,
        name[0] != '-' && name[0] != '_',
        name[name.len() - 1] != '-' && name[name.len() - 1] != '_',
        forall|i: int|
            0 <= i < name.len() ==> 'a' <= #[trigger] name[i] <= 'z' || 'A' <= name[i] <= 'Z'
                || '0' <= name[i] <= '9' || name[i] == '-' || name[i] == '_',
    ensures
        member.deps@.contains(normalized(name)),
{
    let none = Seq::<char>::empty();
    law_words_are_a_bare_name(name);
    assert('a' <= name[0] <= 'z' || 'A' <= name[0] <= 'Z' || '0' <= name[0] <= '9');
    law_name_comes_first(none, name, none);
    assert(none + name + none =~= name);
    let id = normalized(name);
    let i = doc.specs().index_of(name);
    assert(spec_names(doc.specs()[i], id));
    assert(declares(doc, id));
}

/// A member has no other dependencies: each is a source marked `workspace = true`, or the package
/// that a requirement is for which the parser takes or which rests on the environment.
pub proof fn law_dependencies_are_mentioned(
    doc: PyProject,
    dir: Seq<Seq<u8>>,
    member: Member,
    id: Seq<char>,
)
    requires
        describes(doc, dir, member),
        member.deps@.contains(id),
    ensures
        (exists|i: int|
            0 <= i < doc.tool.uv.sources.entries@.len() && (
            #[trigger] doc.tool.uv.sources.entries@[i]).1.workspace == Some(true) && normalized(
                doc.tool.uv.sources.entries@[i].0@,
            ) == id) || (exists|i: int|
            0 <= i < doc.specs().len() && normalized(leading_name(#[trigger] doc.specs()[i])) == id
                && leading_name(doc.specs()[i]).len() > 0 && (is_requirement(doc.specs()[i]) || (
            doc.specs()[i].contains('@') && doc.specs()[i].contains('$')))),
{
    let sources = doc.tool.uv.sources.entries@;
    if sources_name(sources, id) {
        let i = choose|i: int| 0 <= i < sources.len() && source_names(#[trigger] sources[i], id);
        assert(sources[i].1.workspace == Some(true));
    } else {
        let i = choose|i: int|
            0 <= i < doc.specs().len() && spec_may_name(#[trigger] doc.specs()[i], id);
        if !is_requirement(doc.specs()[i]) {
            if !doc.specs()[i].contains('@') || !doc.specs()[i].contains('$') {
                law_environment_enters_urls_only(doc.specs()[i]);
            }
        }
        assert(normalized(leading_name(doc.specs()[i])) == id);
    }
}

/// The ids of a workspace are those of the members that were put together, each once.
pub proof fn law_no_member_is_lost(
    members: Seq<Member>,
    ws: Workspace,
    i: int,
) -> (j: int)
    requires
        assembled(members, Ok(ws)),
        0 <= i < members.len(),
    ensures
        0 <= j < ws.members@.len(),
        ws.members@[j].id@ == members[i].id@,
        forall|k: int|
            0 <= k < ws.members@.len() && k != j ==> (#[trigger] ws.members@[k]).id@
                != members[i].id@,
{
    let order = ids(ws.members@);
    let id = members[i].id@;
    lemma_by_id(members);
    assert(ids(members)[i] == id);
    assert(ids(members).to_set().contains(id));
    assert(member_graph(members).contains_key(id));
    assert(order.to_set().contains(id));
    let j = order.index_of(id);
    assert(order[j] == id);
    lemma_order_distinct(member_graph(members), order);
    assert forall|k: int| 0 <= k < ws.members@.len() && k != j implies (
    #[trigger] ws.members@[k]).id@ != id by {
        assert(order[k] == ws.members@[k].id@);
        if order[k] == id {
            assert(order[j] == order[k]);
        }
    }
    j
}

/// A member of a workspace is the last of the given ones with its id. It keeps its name, directory
/// and tasks. Of its dependencies it keeps those that are the ids of other members, and no others.
pub proof fn law_member_keeps_known_dependencies(
    members: Seq<Member>,
    ws: Workspace,
    j: int,
) -> (i: int)
    requires
        assembled(members, Ok(ws)),
        0 <= j < ws.members@.len(),
    ensures
        0 <= i < members.len(),
        forall|k: int|
            i < k < members.len() ==> (#[trigger] members[k]).id@ != ws.members@[j].id@,
        ws.members@[j].id@ == members[i].id@,
        ws.members@[j].name@ == members[i].name@,
        ws.members@[j].dir@ == members[i].dir@,
        ws.members@[j].tasks == members[i].tasks,
        forall|dep: Seq<char>| #[trigger]
            ws.members@[j].deps@.contains(dep) <==> members[i].deps@.contains(dep) && dep
                != members[i].id@ && exists|k: int|
                0 <= k < members.len() && (#[trigger] members[k]).id@ == dep,
{
    let graph = member_graph(members);
    let m = ws.members@[j];
    lemma_by_id(members);
    assert(ids(ws.members@)[j] == m.id@);
    assert(ids(ws.members@).contains(m.id@));
    assert(ids(ws.members@).to_set().contains(m.id@));
    assert(graph.contains_key(m.id@));
    assert(ids(members).to_set().contains(m.id@));
    let start = ids(members).index_of(m.id@);
    assert(members[start].id@ == m.id@);
    let i = last_place(members, m.id@, members.len() as int);
    lemma_last_place(members, m.id@, members.len() as int, start);
    law_last_member_has_the_id(members, i);
    assert(same_member(m, members[i]));
    assert forall|dep: Seq<char>| #[trigger]
        m.deps@.contains(dep) <==> members[i].deps@.contains(dep) && dep != members[i].id@
            && exists|k: int| 0 <= k < members.len() && (#[trigger] members[k]).id@ == dep by {
        assert(ids(members).to_set().contains(dep) == ids(members).contains(dep));
        if ids(members).contains(dep) {
            let k = ids(members).index_of(dep);
            assert(members[k].id@ == dep);
        }
        if exists|k: int| 0 <= k < members.len() && (#[trigger] members[k]).id@ == dep {
            let k = choose|k: int| 0 <= k < members.len() && (#[trigger] members[k]).id@ == dep;
            assert(ids(members)[k] == dep);
        }
    }
    i
}

/// The last place below `n` at which a member has the id.
spec fn last_place(members: Seq<Member>, id: Seq<char>, n: int) -> int
    decreases n,
{
    if n <= 0 || members[n - 1].id@ == id {
        n - 1
    } else {
        last_place(members, id, n - 1)
    }
}

proof fn lemma_last_place(members: Seq<Member>, id: Seq<char>, n: int, at: int)
    requires
        0 <= at < n <= members.len(),
        members[at].id@ == id,
    ensures
        at <= last_place(members, id, n) < n,
        members[last_place(members, id, n)].id@ == id,
        forall|k: int| last_place(members, id, n) < k < n ==> (#[trigger] members[k]).id@ != id,
    decreases n,
{
    if members[n - 1].id@ != id {
        lemma_last_place(members, id, n - 1, at);
    }
}

/// In a workspace each member comes behind the members that it lists as dependencies, and behind a
/// member with a greater id only if it depends on that one or on one between them.
pub proof fn law_members_in_order(
    members: Seq<Member>,
    ws: Workspace,
    i: int,
    j: int,
    dep: Seq<char>,
)
    requires
        assembled(members, Ok(ws)),
        0 <= i < j < ws.members@.len(),
    ensures
        ws.members@[j].deps@.contains(dep) ==> exists|k: int|
            0 <= k < j && (#[trigger] ws.members@[k]).id@ == dep,
        text_less()(ws.members@[j].id@, ws.members@[i].id@) ==> exists|k: int|
            i <= k < j && ws.members@[j].deps@.contains((#[trigger] ws.members@[k]).id@),
{
    let graph = member_graph(members);
    let order = ids(ws.members@);
    assert(order[i] == ws.members@[i].id@ && order[j] == ws.members@[j].id@);
    assert(ws.members@[j].deps@ == graph[ws.members@[j].id@]);
    law_order_respects_graph(graph, order, j, dep);
    if ws.members@[j].deps@.contains(dep) {
        let k = choose|k: int| 0 <= k < j && #[trigger] order[k] == dep;
        assert(ws.members@[k].id@ == dep);
    }
    if text_less()(order[j], order[i]) {
        law_ties_go_by_id(graph, order, i, j);
        let k = choose|k: int| i <= k < j && graph[order[j]].contains(#[trigger] order[k]);
        assert(ws.members@[j].deps@.contains(ws.members@[k].id@));
    }
}

/// Members are refused with a list, in increasing order, of those on a circle of dependencies and
/// those that depend on one of these: of all of them and of nobody else.
pub proof fn law_circles_are_named(members: Seq<Member>, error: Error, id: Seq<char>)
    requires
        assembled(members, Err(error)),
    ensures
        error matches Error::Cycle(names) && {
            &&& names@.len() > 0
            &&& forall|i: int, j: int|
                0 <= i < j < names@.len() ==> text_less()(
                    (#[trigger] names@[i])@,
                    (#[trigger] names@[j])@,
                )
            &&& (exists|i: int| 0 <= i < names@.len() && (#[trigger] names@[i])@ == id) <==> (
            exists|on: Seq<char>| #[trigger]
                reaches(member_graph(members), on, on) && (on == id || reaches(
                    member_graph(members),
                    id,
                    on,
                )))
        },
{
    let graph = member_graph(members);
    let names = error->Cycle_0@;
    lemma_member_graph_closed(members);
    law_stuck_wait_for_circles(graph, id);
    if names.len() == 0 {
        assert(texts(names).to_set() =~= Set::<Seq<char>>::empty());
    }
    assert forall|i: int, j: int| 0 <= i < j < names.len() implies text_less()(
        (#[trigger] names[i])@,
        (#[trigger] names[j])@,
    ) by {
        assert(text_less()(texts(names)[i], texts(names)[j]));
    }
    assert(texts(names).to_set().contains(id) == texts(names).contains(id));
    if texts(names).contains(id) {
        let i = texts(names).index_of(id);
        assert(names[i]@ == id);
    }
    if exists|i: int| 0 <= i < names.len() && (#[trigger] names[i])@ == id {
        let i = choose|i: int| 0 <= i < names.len() && (#[trigger] names[i])@ == id;
        assert(texts(names)[i] == id);
    }
}

/// What counts as a dependency when members are put together: what the member with the id lists, as
/// far as it is the id of another member.
pub proof fn law_member_graph_by_members(members: Seq<Member>, i: int, dep: Seq<char>)
    requires
        0 <= i < members.len(),
        forall|k: int| i < k < members.len() ==> (#[trigger] members[k]).id@ != members[i].id@,
    ensures
        member_graph(members).contains_key(members[i].id@),
        member_graph(members)[members[i].id@].contains(dep) <==> members[i].deps@.contains(dep)
            && dep != members[i].id@ && exists|k: int|
            0 <= k < members.len() && (#[trigger] members[k]).id@ == dep,
{
    law_last_member_has_the_id(members, i);
    assert(ids(members).to_set().contains(dep) == ids(members).contains(dep));
    if ids(members).contains(dep) {
        let k = ids(members).index_of(dep);
        assert(members[k].id@ == dep);
    }
    if exists|k: int| 0 <= k < members.len() && (#[trigger] members[k]).id@ == dep {
        let k = choose|k: int| 0 <= k < members.len() && (#[trigger] members[k]).id@ == dep;
        assert(ids(members)[k] == dep);
    }
}

/// A workspace keeps the directory of the root, the name of its project if it has one, and its
/// tasks.
pub proof fn law_root_is_kept(layout: Layout<'_>, ws: Workspace, task: Seq<char>)
    requires
        root_fits(layout, ws),
    ensures
        ws.root@ == layout.root@,
        layout.root_doc.project is None ==> ws.root_name is None,
        layout.root_doc.project matches Some(project) ==> ws.root_name matches Some(name) && name@
            == project.name@,
        ws.root_tasks@.contains_key(task) <==> layout.root_doc.tool.ut.tasks@.contains_key(task),
        ws.root_tasks@.contains_key(task) ==> {
            &&& ws.root_tasks@[task] is Steps <==> layout.root_doc.tool.ut.tasks@[task] is Steps
            &&& ws.root_tasks@[task].commands() == layout.root_doc.tool.ut.tasks@[task].commands()
        },
{
    law_copied_tasks_are_the_same(layout.root_doc.tool.ut.tasks, ws.root_tasks, task);
}

/// Every package of a layout becomes a member, unless a later one has the same id, and only packages
/// do.
pub proof fn law_every_package_is_a_member(
    layout: Layout<'_>,
    members: Seq<Member>,
    ws: Workspace,
    k: int,
) -> (j: int)
    requires
        built_from(layout, members),
        assembled(members, Ok(ws)),
        0 <= k < layout.packages@.len(),
        forall|l: int|
            k < l < layout.packages@.len() ==> normalized(
                (#[trigger] layout.packages@[l]).doc.project->Some_0.name@,
            ) != normalized(layout.packages@[k].doc.project->Some_0.name@),
    ensures
        0 <= j < ws.members@.len(),
        ws.members@[j].dir@ == layout.packages@[k].dir@,
        ws.members@[j].name@ == layout.packages@[k].doc.project->Some_0.name@,
        ws.members@[j].id@ == normalized(layout.packages@[k].doc.project->Some_0.name@),
        same_tasks(layout.packages@[k].doc.tool.ut.tasks, ws.members@[j].tasks),
{
    assert(describes(*layout.packages@[k].doc, layout.packages@[k].dir@, members[k]));
    let j = law_no_member_is_lost(members, ws, k);
    let i = law_member_keeps_known_dependencies(members, ws, j);
    if i > k {
        assert(describes(*layout.packages@[i].doc, layout.packages@[i].dir@, members[i]));
        assert(normalized(layout.packages@[i].doc.project->Some_0.name@) == members[i].id@);
    }
    j
}

/// A loaded workspace has a member for every package of the layout that no later one shares the id
/// with, in the directory of that package and with its tasks; and every member is such a package.
pub proof fn law_loaded_members_are_the_packages(
    layout: Layout<'_>,
    ws: Workspace,
    k: int,
    i: int,
)
    requires
        loaded(layout, Ok(ws)),
    ensures
        ws.root@ == layout.root@,
        0 <= i < ws.members@.len() ==> exists|l: int|
            0 <= l < layout.packages@.len() && (#[trigger] layout.packages@[l]).dir@
                == ws.members@[i].dir@ && ws.members@[i].name@
                == layout.packages@[l].doc.project->Some_0.name@,
        0 <= k < layout.packages@.len() && (forall|l: int|
            k < l < layout.packages@.len() ==> normalized(
                (#[trigger] layout.packages@[l]).doc.project->Some_0.name@,
            ) != normalized(layout.packages@[k].doc.project->Some_0.name@)) ==> exists|j: int|
            0 <= j < ws.members@.len() && (#[trigger] ws.members@[j]).dir@
                == layout.packages@[k].dir@ && ws.members@[j].id@ == normalized(
                layout.packages@[k].doc.project->Some_0.name@,
            ) && same_tasks(layout.packages@[k].doc.tool.ut.tasks, ws.members@[j].tasks),
{
    let members = choose|members: Seq<Member>| #[trigger]
        built_from(layout, members) && assembled(members, Ok(ws));
    if 0 <= i < ws.members@.len() {
        let l = law_members_are_packages(layout, members, ws, i);
        assert(layout.packages@[l].dir@ == ws.members@[i].dir@);
    }
    if 0 <= k < layout.packages@.len() && (forall|l: int|
        k < l < layout.packages@.len() ==> normalized(
            (#[trigger] layout.packages@[l]).doc.project->Some_0.name@,
        ) != normalized(layout.packages@[k].doc.project->Some_0.name@)) {
        let j = law_every_package_is_a_member(layout, members, ws, k);
        assert(ws.members@[j].dir@ == layout.packages@[k].dir@);
    }
}

} // verus!
