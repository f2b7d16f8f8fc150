//! What `ut` reads in a `pyproject.toml`.

use crate::names::NameMap;
use crate::package::can_parse;
use crate::package::safe_to_parse;
use crate::tasks::Task;
use crate::text::copy_texts;
use crate::text::texts;
use vstd::prelude::*;

verus! {

#[derive(Debug)]
pub struct PyProject {
    pub project: Option<Project>,
    pub dependency_groups: NameMap<Vec<GroupEntry>>,
    pub tool: Tool,
}

#[derive(Debug)]
pub struct Project {
    pub name: String,
    pub dependencies: Vec<String>,
}

/// An entry of a dependency group: a requirement, or a table such as
/// `{ include-group = "..." }`.
#[derive(Debug)]
pub enum GroupEntry {
    Requirement(String),
    Other,
}

#[derive(Debug)]
pub struct Tool {
    pub uv: Uv,
    pub ut: Ut,
}

#[derive(Debug)]
pub struct Uv {
    pub workspace: Option<UvWorkspace>,
    pub sources: NameMap<Source>,
}

/// What is said of a package under `[tool.uv.sources]`: the truth value under the key
/// `workspace`, if there is one.
#[derive(Debug)]
pub struct Source {
    pub workspace: Option<bool>,
}

#[derive(Debug)]
pub struct UvWorkspace {
    pub members: Vec<String>,
    pub exclude: Vec<String>,
}

#[derive(Debug)]
pub struct Ut {
    pub tasks: NameMap<Task>,
}

/// The requirements among the entries of a group.
pub open spec fn entry_specs(entries: Seq<GroupEntry>) -> Seq<Seq<char>>
    decreases entries.len(),
{
    if entries.len() == 0 {
        Seq::empty()
    } else {
        let before = entry_specs(entries.drop_last());
        match entries.last() {
            GroupEntry::Requirement(spec) => before.push(spec@),
            GroupEntry::Other => before,
        }
    }
}

/// The requirements of all groups.
pub open spec fn group_specs(groups: Seq<(String, Vec<GroupEntry>)>) -> Seq<Seq<char>>
    decreases groups.len(),
{
    if groups.len() == 0 {
        Seq::empty()
    } else {
        group_specs(groups.drop_last()) + entry_specs(groups.last().1@)
    }
}

impl PyProject {
    pub open spec fn wf(&self) -> bool {
        self.tool.ut.tasks.wf()
    }

    /// Every requirement that the document states: those of the project, then those of its
    /// dependency groups.
    pub open spec fn specs(&self) -> Seq<Seq<char>> {
        let own = match self.project {
            Some(project) => texts(project.dependencies@),
            None => Seq::empty(),
        };
        own + group_specs(self.dependency_groups.entries@)
    }

    /// No requirement is one on which the requirement parser gives up.
    pub open spec fn buildable(&self) -> bool {
        forall|i: int| 0 <= i < self.specs().len() ==> safe_to_parse(#[trigger] self.specs()[i])
    }

    /// Every requirement that the document states.
    pub fn requirements(&self) -> (list: Vec<String>)
        ensures
            texts(list@) == self.specs(),
    {
        let mut list = match &self.project {
            Some(project) => copy_texts(&project.dependencies),
            None => Vec::new(),
        };
        let ghost own = texts(list@);
        let groups = &self.dependency_groups.entries;
        let mut i: usize = 0;
        proof {
            assert(own =~= match self.project {
                Some(project) => texts(project.dependencies@),
                None => Seq::empty(),
            });
            assert(own =~= own + group_specs(groups@.take(0)));
        }
        while i < groups.len()
            invariant
                i <= groups@.len(),
                texts(list@) == own + group_specs(groups@.take(i as int)),
            decreases groups.len() - i,
        {
            let entries = &groups[i].1;
            let ghost before = texts(list@);
            let mut k: usize = 0;
            proof {
                assert(before =~= before + entry_specs(entries@.take(0)));
            }
            while k < entries.len()
                invariant
                    k <= entries@.len(),
                    texts(list@) == before + entry_specs(entries@.take(k as int)),
                decreases entries.len() - k,
            {
                let ghost had = texts(list@);
                proof {
                    assert(entries@.take(k + 1).drop_last() =~= entries@.take(k as int));
                }
                match &entries[k] {
                    GroupEntry::Requirement(spec) => {
                        list.push(spec.clone());
                        proof {
                            assert(texts(list@) =~= had.push(spec@));
                            assert(texts(list@) =~= before + entry_specs(
                                entries@.take(k as int),
                            ).push(spec@));
                        }
                    },
                    GroupEntry::Other => {},
                }
                k += 1;
            }
            proof {
                assert(entries@.take(k as int) =~= entries@);
                let next = groups@.take(i + 1);
                assert(next.drop_last() =~= groups@.take(i as int));
                assert(next.last() == groups@[i as int]);
                assert(texts(list@) =~= own + (group_specs(groups@.take(i as int)) + entry_specs(
                    entries@,
                )));
            }
            i += 1;
        }
        proof {
            assert(groups@.take(i as int) =~= groups@);
        }
        list
    }

    /// Whether a member can be built from the document.
    pub fn can_build(&self) -> (yes: bool)
        ensures
            yes == self.buildable(),
    {
        let list = self.requirements();
        let mut i: usize = 0;
        while i < list.len()
            invariant
                i <= list@.len(),
                texts(list@) == self.specs(),
                forall|k: int| 0 <= k < i ==> safe_to_parse(#[trigger] self.specs()[k]),
            decreases list.len() - i,
        {
            if !can_parse(list[i].as_str()) {
                proof {
                    assert(self.specs()[i as int] == list@[i as int]@);
                }
                return false;
            }
            proof {
                assert(self.specs()[i as int] == list@[i as int]@);
            }
            i += 1;
        }
        true
    }
}

proof fn lemma_entry_is_stated(entries: Seq<GroupEntry>, e: int)
    requires
        0 <= e < entries.len(),
        entries[e] is Requirement,
    ensures
        entry_specs(entries).contains(entries[e]->Requirement_0@),
    decreases entries.len(),
{
    let before = entries.drop_last();
    let spec = entries[e]->Requirement_0@;
    if e < entries.len() - 1 {
        lemma_entry_is_stated(before, e);
        let k = entry_specs(before).index_of(spec);
        assert(entry_specs(entries)[k] == spec);
    } else {
        assert(entry_specs(entries).last() == spec);
    }
}

proof fn lemma_entry_exists(entries: Seq<GroupEntry>, i: int) -> (e: int)
    requires
        0 <= i < entry_specs(entries).len(),
    ensures
        0 <= e < entries.len(),
        entries[e] is Requirement,
        entries[e]->Requirement_0@ == entry_specs(entries)[i],
    decreases entries.len(),
{
    let before = entries.drop_last();
    if i < entry_specs(before).len() {
        lemma_entry_exists(before, i)
    } else {
        entries.len() - 1
    }
}

proof fn lemma_group_is_stated(groups: Seq<(String, Vec<GroupEntry>)>, g: int, spec: Seq<char>)
    requires
        0 <= g < groups.len(),
        entry_specs(groups[g].1@).contains(spec),
    ensures
        group_specs(groups).contains(spec),
    decreases groups.len(),
{
    let before = group_specs(groups.drop_last());
    let own = entry_specs(groups.last().1@);
    if g < groups.len() - 1 {
        lemma_group_is_stated(groups.drop_last(), g, spec);
        let k = before.index_of(spec);
        assert((before + own)[k] == spec);
    } else {
        let k = own.index_of(spec);
        assert((before + own)[before.len() + k] == spec);
    }
}

proof fn lemma_group_exists(groups: Seq<(String, Vec<GroupEntry>)>, i: int) -> (at: (int, int))
    requires
        0 <= i < group_specs(groups).len(),
    ensures
        0 <= at.0 < groups.len(),
        0 <= at.1 < groups[at.0].1@.len(),
        groups[at.0].1@[at.1] is Requirement,
        groups[at.0].1@[at.1]->Requirement_0@ == group_specs(groups)[i],
    decreases groups.len(),
{
    let head = groups.drop_last();
    let before = group_specs(head);
    if i < before.len() {
        lemma_group_exists(head, i)
    } else {
        let e = lemma_entry_exists(groups.last().1@, i - before.len());
        (groups.len() - 1, e)
    }
}

/// Every dependency of the project is a requirement of the document.
pub proof fn law_dependencies_are_requirements(doc: PyProject, i: int)
    requires
        doc.project is Some,
        0 <= i < doc.project->Some_0.dependencies@.len(),
    ensures
        doc.specs().contains(doc.project->Some_0.dependencies@[i]@),
{
    assert(doc.specs()[i] == doc.project->Some_0.dependencies@[i]@);
}

/// Every requirement in every dependency group is a requirement of the document.
pub proof fn law_groups_are_requirements(doc: PyProject, g: int, e: int)
    requires
        0 <= g < doc.dependency_groups.entries@.len(),
        0 <= e < doc.dependency_groups.entries@[g].1@.len(),
        doc.dependency_groups.entries@[g].1@[e] is Requirement,
    ensures
        doc.specs().contains(doc.dependency_groups.entries@[g].1@[e]->Requirement_0@),
{
    let groups = doc.dependency_groups.entries@;
    let spec = groups[g].1@[e]->Requirement_0@;
    lemma_entry_is_stated(groups[g].1@, e);
    lemma_group_is_stated(groups, g, spec);
    let k = group_specs(groups).index_of(spec);
    let own = doc.specs().len() - group_specs(groups).len();
    assert(doc.specs()[own + k] == spec);
}

/// A document has no other requirements: each is a dependency of its project, or a requirement in
/// one of its dependency groups.
pub proof fn law_requirements_are_written_down(doc: PyProject, i: int)
    requires
        0 <= i < doc.specs().len(),
    ensures
        (doc.project is Some && exists|k: int|
            0 <= k < doc.project->Some_0.dependencies@.len() && (
            #[trigger] doc.project->Some_0.dependencies@[k])@ == doc.specs()[i]) || (exists|
            g: int,
            e: int,
        |
            0 <= g < doc.dependency_groups.entries@.len() && 0 <= e
                < doc.dependency_groups.entries@[g].1@.len() && (
            #[trigger] doc.dependency_groups.entries@[g].1@[e]) is Requirement
                && doc.dependency_groups.entries@[g].1@[e]->Requirement_0@ == doc.specs()[i]),
{
    let groups = doc.dependency_groups.entries@;
    let own = doc.specs().len() - group_specs(groups).len();
    if i < own {
        assert(doc.project->Some_0.dependencies@[i]@ == doc.specs()[i]);
    } else {
        let at = lemma_group_exists(groups, i - own);
        assert(groups[at.0].1@[at.1] is Requirement);
    }
}

/// The dependencies of the project come before those of the groups and in their order, so the
/// document starts with them whatever groups it has.
pub proof fn law_dependencies_come_first_in_document(doc: PyProject, i: int)
    requires
        doc.project is Some,
        0 <= i < doc.project->Some_0.dependencies@.len(),
    ensures
        doc.specs().len() >= doc.project->Some_0.dependencies@.len(),
        doc.specs()[i] == doc.project->Some_0.dependencies@[i]@,
{
}

/// A package can be built exactly when each requirement that is written down, in the project or in
/// a group, can be handed to the parser.
pub proof fn law_buildable_by_what_is_written(doc: PyProject)
    ensures
        doc.buildable() <==> {
            &&& doc.project is Some ==> forall|k: int|
                0 <= k < doc.project->Some_0.dependencies@.len() ==> safe_to_parse(
                    (#[trigger] doc.project->Some_0.dependencies@[k])@,
                )
            &&& forall|g: int, e: int|
                0 <= g < doc.dependency_groups.entries@.len() && 0 <= e
                    < doc.dependency_groups.entries@[g].1@.len() && (
                #[trigger] doc.dependency_groups.entries@[g].1@[e]) is Requirement
                    ==> safe_to_parse(doc.dependency_groups.entries@[g].1@[e]->Requirement_0@)
        },
{
    let specs = doc.specs();
    if doc.buildable() {
        if doc.project is Some {
            assert forall|k: int| 0 <= k < doc.project->Some_0.dependencies@.len() implies
                safe_to_parse((#[trigger] doc.project->Some_0.dependencies@[k])@) by {
                law_dependencies_are_requirements(doc, k);
                let spec = doc.project->Some_0.dependencies@[k]@;
                assert(safe_to_parse(specs[specs.index_of(spec)]));
            }
        }
        assert forall|g: int, e: int|
            0 <= g < doc.dependency_groups.entries@.len() && 0 <= e
                < doc.dependency_groups.entries@[g].1@.len() && (
            #[trigger] doc.dependency_groups.entries@[g].1@[e]) is Requirement implies
            safe_to_parse(doc.dependency_groups.entries@[g].1@[e]->Requirement_0@) by {
            law_groups_are_requirements(doc, g, e);
            let spec = doc.dependency_groups.entries@[g].1@[e]->Requirement_0@;
            assert(safe_to_parse(specs[specs.index_of(spec)]));
        }
    } else {
        let i = choose|i: int| 0 <= i < specs.len() && !safe_to_parse(#[trigger] specs[i]);
        law_requirements_are_written_down(doc, i);
    }
}

} // verus!
