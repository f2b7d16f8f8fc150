//! A workspace: its members, their tasks and how they depend on each other.

use crate::graph::depends;
use crate::graph::leads;
use crate::graph::lemma_closed_holds_reach;
use crate::graph::lemma_reaches_direct;
use crate::graph::lemma_reaches_further;
use crate::graph::reaches;
use crate::names::NameMap;
use crate::names::NameSet;
use crate::order::lemma_take_more;
use crate::package::normalize;
use crate::package::normalized;
use crate::paths::AbsPath;
use crate::tasks::Task;
use crate::text::same_text;
use crate::text::texts;
use vstd::prelude::*;

verus! {

#[derive(Debug)]
pub struct Member {
    /// Name as written in `[project.name]`.
    pub name: String,
    /// PEP 503-normalized name; the identity used for dep edges and --filter.
    pub id: String,
    pub dir: AbsPath,
    pub tasks: NameMap<Task>,
    /// Normalized ids of workspace members this member depends on.
    pub deps: NameSet,
}

#[derive(Debug)]
pub struct Workspace {
    pub root: AbsPath,
    /// Name of the root's own project, where it has one.
    pub root_name: Option<String>,
    /// Tasks of the root, which is never a member itself.
    pub root_tasks: NameMap<Task>,
    /// Members in deterministic topological order: dependencies before dependents, ties broken
    /// by id.
    pub members: Vec<Member>,
}

impl Member {
    pub open spec fn wf(&self) -> bool {
        self.dir.wf() && self.tasks.wf() && self.deps.wf()
    }
}

/// The ids of members, in order.
pub open spec fn ids(members: Seq<Member>) -> Seq<Seq<char>> {
    Seq::new(members.len(), |i: int| members[i].id@)
}

/// The member for each id; where several members have one id, the last of them.
pub open spec fn by_id(members: Seq<Member>) -> Map<Seq<char>, Member>
    decreases members.len(),
{
    if members.len() == 0 {
        Map::empty()
    } else {
        by_id(members.drop_last()).insert(members.last().id@, members.last())
    }
}

/// Which ids each id depends on.
pub open spec fn dep_graph(members: Map<Seq<char>, Member>) -> Map<Seq<char>, Set<Seq<char>>> {
    Map::new(|id: Seq<char>| members.contains_key(id), |id: Seq<char>| members[id].deps@)
}

/// The first member with this id.
pub open spec fn is_first_with(members: Seq<Member>, id: Seq<char>, i: int) -> bool {
    &&& 0 <= i < members.len()
    &&& members[i].id@ == id
    &&& forall|k: int| 0 <= k < i ==> (#[trigger] members[k]).id@ != id
}

/// A member whose directory contains `path`, such that none with a deeper directory does, and
/// none of the same depth that stands further back.
pub open spec fn is_deepest(members: Seq<Member>, path: Seq<Seq<u8>>, i: int) -> bool {
    &&& 0 <= i < members.len()
    &&& members[i].dir@.is_prefix_of(path)
    &&& forall|k: int|
        0 <= k < members.len() && (#[trigger] members[k]).dir@.is_prefix_of(path) ==> {
            &&& members[k].dir@.len() <= members[i].dir@.len()
            &&& k > i ==> members[k].dir@.len() < members[i].dir@.len()
        }
}

/// The member whose directory contains `path`; of several the one with the deepest directory, and
/// of equally deep ones the last.
pub open spec fn deepest(members: Seq<Member>, path: Seq<Seq<u8>>) -> Option<Member>
    decreases members.len(),
{
    if members.len() == 0 {
        None
    } else {
        let before = deepest(members.drop_last(), path);
        let last = members.last();
        if !last.dir@.is_prefix_of(path) {
            before
        } else {
            match before {
                Some(m) => if m.dir@.len() > last.dir@.len() {
                    before
                } else {
                    Some(last)
                },
                None => Some(last),
            }
        }
    }
}

/// The deepest match is a match, and no match is deeper.
pub proof fn law_deepest(members: Seq<Member>, path: Seq<Seq<u8>>)
    ensures
        match deepest(members, path) {
            Some(m) => exists|i: int| is_deepest(members, path, i) && m == #[trigger] members[i],
            None => forall|i: int|
                0 <= i < members.len() ==> !(#[trigger] members[i]).dir@.is_prefix_of(path),
        },
    decreases members.len(),
{
    if members.len() > 0 {
        let head = members.drop_last();
        let n = members.len() - 1;
        let before = deepest(head, path);
        law_deepest(head, path);
        assert forall|k: int| 0 <= k < n implies #[trigger] members[k] == head[k] by {}
        if deepest(members, path) is Some {
            let at = if before is None || deepest(members, path) != before {
                n
            } else {
                let i = choose|i: int|
                    is_deepest(head, path, i) && before->0 == #[trigger] head[i];
                if members[n].dir@.is_prefix_of(path) && members[n].dir@.len()
                    == head[i].dir@.len() {
                    n
                } else {
                    i
                }
            };
            assert(is_deepest(members, path, at));
            assert(deepest(members, path) == Some(members[at]));
        }
    }
}

/// The names that members depend on, one member after another.
spec fn all_deps(members: Seq<Member>) -> Seq<Seq<char>>
    decreases members.len(),
{
    if members.len() == 0 {
        Seq::empty()
    } else {
        all_deps(members.drop_last()) + members.last().deps.names()
    }
}

proof fn lemma_all_deps(members: Seq<Member>, i: int)
    requires
        0 <= i < members.len(),
    ensures
        members[i].deps@.subset_of(all_deps(members).to_set()),
    decreases members.len(),
{
    let head = all_deps(members.drop_last());
    let tail = members.last().deps.names();
    if i < members.len() - 1 {
        lemma_all_deps(members.drop_last(), i);
        assert(members.drop_last()[i] == members[i]);
        assert forall|x: Seq<char>| members[i].deps@.contains(x) implies all_deps(
            members,
        ).to_set().contains(x) by {
            assert(head.to_set().contains(x));
            assert((head + tail)[head.index_of(x)] == x);
        }
    } else {
        assert forall|x: Seq<char>| members[i].deps@.contains(x) implies all_deps(
            members,
        ).to_set().contains(x) by {
            assert(tail.contains(x));
            assert((head + tail)[head.len() + tail.index_of(x)] == x);
        }
    }
}

/// The names of a list put on a stack.
fn push_all(stack: &mut Vec<String>, names: &NameSet)
    ensures
        texts(final(stack)@).to_set() == texts(old(stack)@).to_set().union(names@),
{
    let ghost all = names.names();
    let mut i: usize = 0;
    proof {
        assert(all.take(0).to_set() =~= Set::<Seq<char>>::empty());
        assert(texts(stack@).to_set() =~= texts(stack@).to_set().union(all.take(0).to_set()));
    }
    while i < names.items.len()
        invariant
            i <= names.items@.len(),
            all == names.names(),
            texts(stack@).to_set() == texts(old(stack)@).to_set().union(
                all.take(i as int).to_set(),
            ),
        decreases names.items.len() - i,
    {
        let ghost had = texts(stack@);
        stack.push(names.items[i].clone());
        proof {
            let now = texts(stack@);
            assert(now =~= had.push(all[i as int]));
            lemma_take_more(now, had.len() as int);
            assert(now.take(had.len() as int) =~= had);
            assert(now.take(had.len() as int + 1) =~= now);
            lemma_take_more(all, i as int);
            assert(now.to_set() =~= texts(old(stack)@).to_set().union(all.take(i + 1).to_set()));
        }
        i += 1;
    }
    proof {
        assert(all.take(i as int) =~= all);
    }
}

impl Workspace {
    /// Which ids each member depends on.
    pub open spec fn graph(&self) -> Map<Seq<char>, Set<Seq<char>>> {
        dep_graph(by_id(self.members@))
    }

    /// What looking for a name comes to.
    pub open spec fn finds(&self, name: Seq<char>, found: Option<&Member>) -> bool {
        match found {
            Some(m) => exists|i: int|
                is_first_with(self.members@, normalized(name), i) && *m
                    == #[trigger] self.members@[i],
            None => !ids(self.members@).contains(normalized(name)),
        }
    }

    /// The member with this name, however it is spelled.
    pub fn member(&self, id: &str) -> (found: Option<&Member>)
        ensures
            self.finds(id@, found),
    {
        let wanted = normalize(id);
        let mut i: usize = 0;
        while i < self.members.len()
            invariant
                i <= self.members@.len(),
                wanted@ == normalized(id@),
                forall|k: int| 0 <= k < i ==> (#[trigger] self.members@[k]).id@ != wanted@,
            decreases self.members.len() - i,
        {
            if same_text(self.members[i].id.as_str(), wanted.as_str()) {
                proof {
                    assert(is_first_with(self.members@, wanted@, i as int));
                }
                return Some(&self.members[i]);
            }
            i += 1;
        }
        None
    }

    /// The member whose directory contains `path` (deepest match).
    pub fn member_containing(&self, path: &AbsPath) -> (found: Option<&Member>)
        ensures
            match found {
                Some(m) => deepest(self.members@, path@) == Some(*m),
                None => deepest(self.members@, path@) is None,
            },
    {
        let mut best: Option<usize> = None;
        let mut i: usize = 0;
        while i < self.members.len()
            invariant
                i <= self.members@.len(),
                match best {
                    Some(b) => b < i && deepest(self.members@.take(i as int), path@) == Some(
                        self.members@[b as int],
                    ),
                    None => deepest(self.members@.take(i as int), path@) is None,
                },
            decreases self.members.len() - i,
        {
            proof {
                let next = self.members@.take(i + 1);
                assert(next.drop_last() =~= self.members@.take(i as int));
                assert(next.last() == self.members@[i as int]);
            }
            if path.starts_with(&self.members[i].dir) {
                let deeper = match best {
                    Some(b) => self.members[i].dir.parts.len() >= self.members[b].dir.parts.len(),
                    None => true,
                };
                if deeper {
                    best = Some(i);
                }
            }
            i += 1;
        }
        proof {
            assert(self.members@.take(i as int) =~= self.members@);
        }
        match best {
            Some(b) => Some(&self.members[b]),
            None => None,
        }
    }

    /// The place of the member that an id stands for.
    fn last_with(&self, id: &str) -> (at: Option<usize>)
        ensures
            match at {
                Some(i) => i < self.members@.len() && by_id(self.members@).contains_key(id@)
                    && by_id(self.members@)[id@] == self.members@[i as int],
                None => !by_id(self.members@).contains_key(id@),
            },
    {
        let mut i: usize = self.members.len();
        proof {
            assert(self.members@.take(i as int) =~= self.members@);
        }
        while i > 0
            invariant
                i <= self.members@.len(),
                by_id(self.members@).contains_key(id@) == by_id(
                    self.members@.take(i as int),
                ).contains_key(id@),
                by_id(self.members@)[id@] == by_id(self.members@.take(i as int))[id@],
            decreases i,
        {
            proof {
                let head = self.members@.take(i as int);
                assert(head.drop_last() =~= self.members@.take(i - 1));
                assert(head.last() == self.members@[i - 1]);
            }
            i -= 1;
            if same_text(self.members[i].id.as_str(), id) {
                return Some(i);
            }
        }
        None
    }

    /// All direct and transitive workspace dependencies of `id`.
    pub fn transitive_deps(&self, id: &str) -> (deps: NameSet)
        ensures
            deps.wf(),
            forall|dep: Seq<char>| #[trigger]
                deps@.contains(dep) <==> reaches(self.graph(), id@, dep),
    {
        let ghost graph = self.graph();
        let ghost all = all_deps(self.members@).to_set();
        let mut seen = NameSet::new();
        let mut stack: Vec<String> = Vec::new();
        match self.last_with(id) {
            Some(i) => {
                push_all(&mut stack, &self.members[i].deps);
                proof {
                    lemma_all_deps(self.members@, i as int);
                    assert(texts(stack@).to_set() =~= graph[id@]);
                    assert forall|x: Seq<char>| texts(stack@).to_set().contains(x) implies reaches(
                        graph,
                        id@,
                        x,
                    ) by {
                        lemma_reaches_direct(graph, id@, x);
                    }
                }
            },
            None => {
                proof {
                    assert forall|dep: Seq<char>| !reaches(graph, id@, dep) by {
                        if reaches(graph, id@, dep) {
                            let walk = choose|walk: Seq<Seq<char>>| #[trigger]
                                leads(graph, walk, id@, dep);
                            assert(depends(graph, walk[0], walk[1]));
                        }
                    }
                }
                return seen;
            },
        }
        proof {
            vstd::seq_lib::seq_to_set_is_finite(all_deps(self.members@));
            assert(seen@.subset_of(all));
        }
        loop
            invariant
                graph == self.graph(),
                graph.contains_key(id@),
                all == all_deps(self.members@).to_set(),
                all.finite(),
                seen.wf(),
                seen@.subset_of(all),
                texts(stack@).to_set().subset_of(all),
                graph[id@].subset_of(seen@.union(texts(stack@).to_set())),
                forall|x: Seq<char>| #[trigger] seen@.contains(x) ==> reaches(graph, id@, x),
                forall|x: Seq<char>| #[trigger]
                    texts(stack@).to_set().contains(x) ==> reaches(graph, id@, x),
                forall|x: Seq<char>| #[trigger]
                    seen@.contains(x) && graph.contains_key(x) ==> graph[x].subset_of(
                        seen@.union(texts(stack@).to_set()),
                    ),
            ensures
                texts(stack@).to_set() == Set::<Seq<char>>::empty(),
            decreases all.len() - seen@.len(), stack@.len(),
        {
            let ghost had = texts(stack@);
            let ghost known = seen@;
            match stack.pop() {
                None => {
                    proof {
                        assert(texts(stack@).to_set() =~= Set::<Seq<char>>::empty());
                    }
                    break;
                },
                Some(dep) => {
                    let ghost left = texts(stack@);
                    let ghost name = dep@;
                    proof {
                        assert(had =~= left.push(name));
                        lemma_take_more(had, left.len() as int);
                        assert(had.take(left.len() as int) =~= left);
                        assert(had.take(left.len() as int + 1) =~= had);
                        assert(had.to_set() == left.to_set().insert(name));
                        assert(had.to_set().contains(name));
                        assert(reaches(graph, id@, name));
                        assert forall|x: Seq<char>| #[trigger]
                            left.to_set().contains(x) implies reaches(graph, id@, x) by {
                            assert(had.to_set().contains(x));
                        }
                        vstd::set_lib::lemma_len_subset(known, all);
                    }
                    let copy = dep.clone();
                    if seen.insert(dep) {
                        proof {
                            vstd::set_lib::lemma_len_subset(seen@, all);
                        }
                        if let Some(i) = self.last_with(copy.as_str()) {
                            push_all(&mut stack, &self.members[i].deps);
                            proof {
                                lemma_all_deps(self.members@, i as int);
                                assert(graph[name] == self.members@[i as int].deps@);
                                assert forall|x: Seq<char>| #[trigger]
                                    texts(stack@).to_set().contains(x) implies reaches(
                                    graph,
                                    id@,
                                    x,
                                ) by {
                                    if graph[name].contains(x) {
                                        lemma_reaches_further(graph, id@, name, x);
                                    } else {
                                        assert(had.to_set().contains(x));
                                    }
                                }
                            }
                        }
                        proof {
                            let now = texts(stack@).to_set();
                            assert forall|x: Seq<char>| #[trigger]
                                seen@.contains(x) && graph.contains_key(x) implies graph[x].subset_of(
                                seen@.union(now),
                            ) by {
                                if x != name {
                                    assert(known.contains(x));
                                    assert(graph[x].subset_of(known.union(had.to_set())));
                                }
                            }
                        }
                    } else {
                        proof {
                            assert(seen@ =~= known);
                            assert(known.union(had.to_set()) =~= known.union(left.to_set()));
                        }
                    }
                },
            }
        }
        proof {
            assert(seen@.union(texts(stack@).to_set()) =~= seen@);
            assert forall|dep: Seq<char>| reaches(graph, id@, dep) implies seen@.contains(dep) by {
                lemma_closed_holds_reach(graph, id@, seen@, dep);
            }
        }
        seen
    }
}

/// Of the members whose directories hold the path, the deepest is the one than which none is
/// deeper, and of equally deep ones the last.
pub proof fn law_deepest_is_found(members: Seq<Member>, path: Seq<Seq<u8>>, i: int)
    requires
        0 <= i < members.len(),
        members[i].dir@.is_prefix_of(path),
        forall|k: int|
            0 <= k < members.len() && (#[trigger] members[k]).dir@.is_prefix_of(path) ==> {
                &&& members[k].dir@.len() <= members[i].dir@.len()
                &&& k > i ==> members[k].dir@.len() < members[i].dir@.len()
            },
    ensures
        deepest(members, path) == Some(members[i]),
{
    law_deepest(members, path);
    assert(members[i].dir@.is_prefix_of(path));
    let j = choose|j: int|
        is_deepest(members, path, j) && deepest(members, path)->0 == #[trigger] members[j];
    assert(members[j].dir@.is_prefix_of(path));
}

/// There is a deepest member exactly if the path lies in the directory of a member.
pub proof fn law_deepest_if_any(members: Seq<Member>, path: Seq<Seq<u8>>)
    ensures
        deepest(members, path) is Some <==> exists|i: int|
            0 <= i < members.len() && (#[trigger] members[i]).dir@.is_prefix_of(path),
{
    law_deepest(members, path);
    if deepest(members, path) is Some {
        let j = choose|j: int|
            is_deepest(members, path, j) && deepest(members, path)->0 == #[trigger] members[j];
        assert(members[j].dir@.is_prefix_of(path));
    }
}

/// Two paths that lie in the directories of the same members have the same deepest member.
pub proof fn law_deepest_by_containment(
    members: Seq<Member>,
    path: Seq<Seq<u8>>,
    other: Seq<Seq<u8>>,
)
    requires
        forall|k: int|
            0 <= k < members.len() ==> (#[trigger] members[k]).dir@.is_prefix_of(path)
                == members[k].dir@.is_prefix_of(other),
    ensures
        deepest(members, path) == deepest(members, other),
    decreases members.len(),
{
    if members.len() > 0 {
        let head = members.drop_last();
        assert forall|k: int| 0 <= k < head.len() implies (#[trigger] head[k]).dir@.is_prefix_of(
            path,
        ) == head[k].dir@.is_prefix_of(other) by {
            assert(members[k] == head[k]);
        }
        law_deepest_by_containment(head, path, other);
        assert(members.last() == members[members.len() - 1]);
    }
}

/// An id stands for the last member that has it.
pub proof fn law_last_member_has_the_id(members: Seq<Member>, i: int)
    requires
        0 <= i < members.len(),
        forall|k: int| i < k < members.len() ==> (#[trigger] members[k]).id@ != members[i].id@,
    ensures
        by_id(members).contains_key(members[i].id@),
        by_id(members)[members[i].id@] == members[i],
    decreases members.len(),
{
    if i < members.len() - 1 {
        let head = members.drop_last();
        assert forall|k: int| i < k < head.len() implies (#[trigger] head[k]).id@
            != head[i].id@ by {
            assert(members[k] == head[k]);
        }
        law_last_member_has_the_id(head, i);
        assert(members[members.len() - 1].id@ != members[i].id@);
    }
}

/// An id that no member has stands for nothing.
pub proof fn law_other_ids_have_no_member(members: Seq<Member>, id: Seq<char>)
    requires
        forall|k: int| 0 <= k < members.len() ==> (#[trigger] members[k]).id@ != id,
    ensures
        !by_id(members).contains_key(id),
        !dep_graph(by_id(members)).contains_key(id),
    decreases members.len(),
{
    if members.len() > 0 {
        let head = members.drop_last();
        assert forall|k: int| 0 <= k < head.len() implies (#[trigger] head[k]).id@ != id by {
            assert(members[k] == head[k]);
        }
        law_other_ids_have_no_member(head, id);
        assert(members[members.len() - 1].id@ != id);
    }
}

/// In the graph of a workspace each member has the dependencies that it lists, if no two members
/// share an id.
pub proof fn law_graph_has_listed_dependencies(ws: Workspace, i: int, dep: Seq<char>)
    requires
        0 <= i < ws.members@.len(),
        forall|a: int, b: int|
            0 <= a < b < ws.members@.len() ==> (#[trigger] ws.members@[a]).id@ != (
            #[trigger] ws.members@[b]).id@,
    ensures
        ws.graph().contains_key(ws.members@[i].id@),
        ws.graph()[ws.members@[i].id@].contains(dep) <==> ws.members@[i].deps@.contains(dep),
{
    law_last_member_has_the_id(ws.members@, i);
}

/// The first member with an id has that id, and no member before it has.
pub proof fn law_first_member_is_first(
    members: Seq<Member>,
    id: Seq<char>,
    i: int,
    j: int,
)
    requires
        is_first_with(members, id, i),
        0 <= j < members.len(),
        members[j].id@ == id,
    ensures
        0 <= i <= j,
        members[i].id@ == id,
{
}

/// A member is found under every spelling of its name and under no other name: names that are the
/// same once normalized lead to the same member.
pub proof fn law_found_by_any_spelling(
    ws: Workspace,
    name: Seq<char>,
    other: Seq<char>,
    one: Option<&Member>,
    two: Option<&Member>,
    i: int,
)
    requires
        ws.finds(name, one),
        ws.finds(other, two),
    ensures
        normalized(name) == normalized(other) ==> one == two,
        one matches Some(m) ==> m.id@ == normalized(name) && ws.members@.contains(*m),
        0 <= i < ws.members@.len() && ws.members@[i].id@ == normalized(name) ==> one is Some,
{
    let members = ws.members@;
    if 0 <= i < members.len() {
        assert(ids(members)[i] == members[i].id@);
    }
    if one is Some {
        let a = choose|a: int|
            is_first_with(members, normalized(name), a) && *one->Some_0 == #[trigger] members[a];
        assert(members[a].id@ == normalized(name));
        assert(ids(members)[a] == normalized(name));
        if two is Some && normalized(name) == normalized(other) {
            let b = choose|b: int|
                is_first_with(members, normalized(other), b) && *two->Some_0
                    == #[trigger] members[b];
            assert(members[b].id@ == normalized(other));
            law_first_member_is_first(members, normalized(name), a, b);
            law_first_member_is_first(members, normalized(name), b, a);
        }
    } else if two is Some {
        let b = choose|b: int|
            is_first_with(members, normalized(other), b) && *two->Some_0 == #[trigger] members[b];
        assert(ids(members)[b] == normalized(other));
    }
}

} // verus!
