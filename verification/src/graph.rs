//! Topological order: dependencies before dependents, ties broken by id.

use crate::error::Error;
use crate::names::NameMap;
use crate::order::lemma_take_more;
use crate::text::lemma_text_order;
use crate::text::sorted_texts;
use crate::text::text_less;
use crate::text::texts;
use crate::workspace::by_id;
use crate::workspace::dep_graph;
use crate::workspace::ids;
use crate::workspace::Member;
use vstd::prelude::*;

verus! {

/// Not done itself, but everything that it depends on is.
pub open spec fn ready(
    graph: Map<Seq<char>, Set<Seq<char>>>,
    done: Set<Seq<char>>,
    id: Seq<char>,
) -> bool {
    graph.contains_key(id) && !done.contains(id) && graph[id].subset_of(done)
}

/// Each id in its turn is the least of those that are ready once the ones before it are done.
pub open spec fn takes_least_ready(
    graph: Map<Seq<char>, Set<Seq<char>>>,
    order: Seq<Seq<char>>,
) -> bool {
    forall|k: int|
        0 <= k < order.len() ==> is_least_ready(
            graph,
            order.take(k).to_set(),
            #[trigger] order[k],
        )
}

pub open spec fn is_least_ready(
    graph: Map<Seq<char>, Set<Seq<char>>>,
    done: Set<Seq<char>>,
    id: Seq<char>,
) -> bool {
    &&& ready(graph, done, id)
    &&& forall|other: Seq<char>| #[trigger]
        ready(graph, done, other) && other != id ==> text_less()(id, other)
}

/// Ids none of which can ever be ready, since each waits for another of them or for an id that
/// the graph does not have.
pub open spec fn blocked(graph: Map<Seq<char>, Set<Seq<char>>>, set: Set<Seq<char>>) -> bool {
    forall|id: Seq<char>| #[trigger]
        set.contains(id) ==> graph.contains_key(id) && exists|dep: Seq<char>| #[trigger]
            graph[id].contains(dep) && (set.contains(dep) || !graph.contains_key(dep))
}

/// The ids that lie on a circle of dependencies, or wait for one that does.
pub open spec fn stuck(graph: Map<Seq<char>, Set<Seq<char>>>) -> Set<Seq<char>> {
    Set::new(
        |id: Seq<char>|
            exists|set: Set<Seq<char>>| #[trigger] blocked(graph, set) && set.contains(id),
    )
}

/// How many of the listed ids are not done.
pub open spec fn missing(deps: Seq<Seq<char>>, done: Set<Seq<char>>) -> nat
    decreases deps.len(),
{
    if deps.len() == 0 {
        0
    } else if done.contains(deps.last()) {
        missing(deps.drop_last(), done)
    } else {
        missing(deps.drop_last(), done) + 1
    }
}

proof fn lemma_missing_none(deps: Seq<Seq<char>>, done: Set<Seq<char>>)
    ensures
        missing(deps, done) == 0 <==> deps.to_set().subset_of(done),
    decreases deps.len(),
{
    if deps.len() > 0 {
        let n = deps.len() - 1;
        lemma_missing_none(deps.drop_last(), done);
        lemma_take_more(deps, n);
        assert(deps.take(n) =~= deps.drop_last());
        assert(deps.take(n + 1) =~= deps);
        assert(deps.to_set() == deps.drop_last().to_set().insert(deps.last()));
        assert(deps.to_set().contains(deps.last()));
        if deps.to_set().subset_of(done) {
            assert(deps.drop_last().to_set().subset_of(done));
        }
    } else {
        assert(deps.to_set().subset_of(done));
    }
}

proof fn lemma_missing_all(deps: Seq<Seq<char>>)
    ensures
        missing(deps, Set::empty()) == deps.len(),
    decreases deps.len(),
{
    if deps.len() > 0 {
        lemma_missing_all(deps.drop_last());
    }
}

proof fn lemma_missing_other(deps: Seq<Seq<char>>, done: Set<Seq<char>>, id: Seq<char>)
    requires
        !deps.contains(id),
    ensures
        missing(deps, done.insert(id)) == missing(deps, done),
    decreases deps.len(),
{
    if deps.len() > 0 {
        assert(deps.last() == deps[deps.len() - 1]);
        assert(!deps.drop_last().contains(id)) by {
            if deps.drop_last().contains(id) {
                let k = deps.drop_last().index_of(id);
                assert(deps[k] == id);
            }
        }
        lemma_missing_other(deps.drop_last(), done, id);
    }
}

proof fn lemma_missing_one(deps: Seq<Seq<char>>, done: Set<Seq<char>>, id: Seq<char>)
    requires
        sorted_texts(deps),
        deps.contains(id),
        !done.contains(id),
    ensures
        missing(deps, done.insert(id)) == missing(deps, done) - 1,
    decreases deps.len(),
{
    lemma_text_order();
    let head = deps.drop_last();
    assert forall|i: int, j: int| 0 <= i < j < head.len() implies text_less()(
        #[trigger] head[i],
        #[trigger] head[j],
    ) by {
        assert(text_less()(deps[i], deps[j]));
    }
    if deps.last() == id {
        assert(!head.contains(id)) by {
            if head.contains(id) {
                let k = head.index_of(id);
                assert(text_less()(deps[k], deps[deps.len() - 1]));
            }
        }
        lemma_missing_other(head, done, id);
    } else {
        let k = deps.index_of(id);
        assert(head[k] == id);
        lemma_missing_one(head, done, id);
    }
}

/// What is blocked is never reached.
proof fn lemma_blocked_never_done(
    graph: Map<Seq<char>, Set<Seq<char>>>,
    order: Seq<Seq<char>>,
    set: Set<Seq<char>>,
    k: int,
)
    requires
        takes_least_ready(graph, order),
        blocked(graph, set),
        0 <= k < order.len(),
    ensures
        !set.contains(order[k]),
    decreases k,
{
    let id = order[k];
    let before = order.take(k);
    assert(ready(graph, before.to_set(), id));
    if set.contains(id) {
        let dep = choose|dep: Seq<char>| #[trigger]
            graph[id].contains(dep) && (set.contains(dep) || !graph.contains_key(dep));
        assert(before.to_set().contains(dep));
        assert(before.contains(dep));
        let j = before.index_of(dep);
        assert(order[j] == dep);
        assert(ready(graph, order.take(j).to_set(), order[j]));
        lemma_blocked_never_done(graph, order, set, j);
    }
}

/// When nothing is ready any more, what is left is exactly what is stuck.
proof fn lemma_left_is_stuck(
    graph: Map<Seq<char>, Set<Seq<char>>>,
    order: Seq<Seq<char>>,
)
    requires
        takes_least_ready(graph, order),
        forall|id: Seq<char>| !#[trigger] ready(graph, order.to_set(), id),
    ensures
        stuck(graph) == graph.dom().difference(order.to_set()),
{
    let done = order.to_set();
    let left = graph.dom().difference(done);
    assert(blocked(graph, left)) by {
        assert forall|id: Seq<char>| #[trigger] left.contains(id) implies graph.contains_key(id)
            && exists|dep: Seq<char>| #[trigger]
            graph[id].contains(dep) && (left.contains(dep) || !graph.contains_key(dep)) by {
            assert(!ready(graph, done, id));
            let dep = choose|dep: Seq<char>| #[trigger]
                graph[id].contains(dep) && !done.contains(dep);
            assert(graph[id].contains(dep));
        }
    }
    assert forall|id: Seq<char>| stuck(graph).contains(id) implies left.contains(id) by {
        let set = choose|set: Set<Seq<char>>| #[trigger] blocked(graph, set) && set.contains(id);
        if done.contains(id) {
            let k = order.index_of(id);
            assert(order[k] == id);
            lemma_blocked_never_done(graph, order, set, k);
        }
    }
    assert(stuck(graph) =~= left);
}

/// An order that takes the least ready id in each turn holds no id twice.
pub proof fn lemma_order_distinct(graph: Map<Seq<char>, Set<Seq<char>>>, order: Seq<Seq<char>>)
    requires
        takes_least_ready(graph, order),
    ensures
        order.no_duplicates(),
        order.to_set().subset_of(graph.dom()),
{
    assert forall|i: int, j: int| 0 <= i < j < order.len() implies order[i] != order[j] by {
        assert(is_least_ready(graph, order.take(j).to_set(), order[j]));
        assert(order.take(j)[i] == order[i]);
        assert(order.take(j).to_set().contains(order[i]));
    }
    assert forall|id: Seq<char>| order.to_set().contains(id) implies graph.dom().contains(id) by {
        let k = order.index_of(id);
        assert(order[k] == id);
        assert(is_least_ready(graph, order.take(k).to_set(), order[k]));
    }
}

/// What is done depends on nothing but what is done.
proof fn lemma_order_closed(graph: Map<Seq<char>, Set<Seq<char>>>, order: Seq<Seq<char>>)
    requires
        takes_least_ready(graph, order),
    ensures
        forall|id: Seq<char>| #[trigger]
            order.to_set().contains(id) ==> graph[id].subset_of(order.to_set()),
{
    assert forall|id: Seq<char>| #[trigger] order.to_set().contains(id) implies graph[id].subset_of(
        order.to_set(),
    ) by {
        let k = order.index_of(id);
        assert(order[k] == id);
        let before = order.take(k);
        assert(is_least_ready(graph, before.to_set(), order[k]));
        assert forall|dep: Seq<char>| graph[id].contains(dep) implies order.to_set().contains(
            dep,
        ) by {
            assert(before.to_set().contains(dep));
            assert(order[before.index_of(dep)] == dep);
        }
    }
}

/// Extending the order by the least id that is ready.
proof fn lemma_extend(
    graph: Map<Seq<char>, Set<Seq<char>>>,
    order: Seq<Seq<char>>,
    id: Seq<char>,
)
    requires
        takes_least_ready(graph, order),
        is_least_ready(graph, order.to_set(), id),
    ensures
        takes_least_ready(graph, order.push(id)),
        order.push(id).to_set() == order.to_set().insert(id),
{
    let next = order.push(id);
    assert forall|k: int| 0 <= k < next.len() implies is_least_ready(
        graph,
        next.take(k).to_set(),
        #[trigger] next[k],
    ) by {
        assert(next.take(k) =~= order.take(k));
        if k < order.len() {
            assert(next[k] == order[k]);
        } else {
            assert(order.take(k) =~= order);
        }
    }
    lemma_take_more(next, order.len() as int);
    assert(next.take(order.len() as int) =~= order);
    assert(next.take(order.len() as int + 1) =~= next);
}

/// Every id of the table leads to a member that has it.
pub proof fn lemma_by_id(members: Seq<Member>)
    ensures
        forall|id: Seq<char>| #[trigger]
            by_id(members).contains_key(id) ==> by_id(members)[id].id@ == id
                && members.contains(by_id(members)[id]),
        by_id(members).dom() == ids(members).to_set(),
    decreases members.len(),
{
    if members.len() == 0 {
        assert(by_id(members).dom() =~= ids(members).to_set());
    } else {
        let head = members.drop_last();
        lemma_by_id(head);
        let n = members.len() - 1;
        assert(ids(members).take(n) =~= ids(head));
        assert(ids(members).take(n + 1) =~= ids(members));
        lemma_take_more(ids(members), n);
        assert forall|id: Seq<char>| #[trigger] by_id(members).contains_key(id) implies by_id(
            members,
        )[id].id@ == id && members.contains(by_id(members)[id]) by {
            if id == members.last().id@ {
                assert(members[n] == members.last());
            } else {
                let m = by_id(head)[id];
                assert(by_id(head).contains_key(id));
                let k = head.index_of(m);
                assert(members[k] == m);
            }
        }
        assert(by_id(members).dom() =~= ids(members).to_set());
    }
}

/// The members by id; of those with one id the last is kept.
fn collect(members: Vec<Member>) -> (table: NameMap<Member>)
    ensures
        table.wf(),
        table@ == by_id(members@),
{
    let mut table: NameMap<Member> = NameMap::new();
    let ghost all = members@;
    for m in it: members
        invariant
            it.seq() == all,
            table.wf(),
            table@ == by_id(all.take(it.index() as int)),
    {
        let id = m.id.clone();
        table.insert(id, m);
        proof {
            let next = all.take(it.index() as int + 1);
            assert(next.drop_last() =~= all.take(it.index() as int));
            assert(next.last() == m);
        }
    }
    proof {
        assert(all.take(all.len() as int) =~= all);
    }
    table
}

/// For each member the number of its dependencies that are not done.
spec fn degrees_right(
    names: Seq<Seq<char>>,
    members: Map<Seq<char>, Member>,
    done: Set<Seq<char>>,
    in_degree: Seq<usize>,
) -> bool {
    &&& in_degree.len() == names.len()
    &&& forall|i: int|
        0 <= i < names.len() ==> #[trigger] in_degree[i] == missing(
            members[names[i]].deps.names(),
            done,
        )
}

/// For each member the members that depend on it.
spec fn dependents_right(
    names: Seq<Seq<char>>,
    members: Map<Seq<char>, Member>,
    dependents: Seq<Vec<usize>>,
) -> bool {
    &&& dependents.len() == names.len()
    &&& forall|v: int|
        0 <= v < names.len() ==> row_right(names, members, v, #[trigger] dependents[v]@)
}

spec fn row_right(
    names: Seq<Seq<char>>,
    members: Map<Seq<char>, Member>,
    v: int,
    row: Seq<usize>,
) -> bool {
    &&& row.no_duplicates()
    &&& forall|i: usize|
        #![trigger row.contains(i)]
        row.contains(i) <==> i < names.len() && members[names[i as int]].deps@.contains(names[v])
}

/// The members that wait for nothing but their turn.
spec fn queue_right(
    names: Seq<Seq<char>>,
    done: Set<Seq<char>>,
    in_degree: Seq<usize>,
    queue: Seq<usize>,
) -> bool {
    &&& queue.no_duplicates()
    &&& forall|i: usize|
        #![trigger queue.contains(i)]
        queue.contains(i) <==> i < names.len() && !done.contains(names[i as int])
            && in_degree[i as int] == 0
}

/// Takes the least number out of a list.
fn take_least(queue: &mut Vec<usize>) -> (least: Option<usize>)
    requires
        old(queue)@.no_duplicates(),
    ensures
        least is None ==> old(queue)@.len() == 0 && final(queue)@ == old(queue)@,
        least matches Some(v) ==> {
            &&& old(queue)@.contains(v)
            &&& forall|x: usize| old(queue)@.contains(x) ==> v <= x
            &&& final(queue)@.no_duplicates()
            &&& forall|x: usize| #[trigger]
                final(queue)@.contains(x) <==> old(queue)@.contains(x) && x != v
        },
{
    if queue.len() == 0 {
        return None;
    }
    let mut at: usize = 0;
    let mut i: usize = 1;
    while i < queue.len()
        invariant
            at < i <= queue.len(),
            queue@ == old(queue)@,
            forall|k: int| 0 <= k < i ==> queue@[at as int] <= #[trigger] queue@[k],
        decreases queue.len() - i,
    {
        if queue[i] < queue[at] {
            at = i;
        }
        i += 1;
    }
    let v = queue.remove(at);
    proof {
        let before = old(queue)@;
        let after = queue@;
        assert(before[at as int] == v);
        assert forall|x: usize| #[trigger]
            after.contains(x) <==> before.contains(x) && x != v by {
            if after.contains(x) {
                let k = after.index_of(x);
                let j = if k < at { k } else { k + 1 };
                assert(before[j] == x);
            }
            if before.contains(x) && x != v {
                let k = before.index_of(x);
                let j = if k < at { k } else { k - 1 };
                assert(after[j] == x);
            }
        }
    }
    Some(v)
}

/// For each member, by place in the table, the members that depend on it.
fn dependents_of(table: &NameMap<Member>) -> (dependents: Vec<Vec<usize>>)
    requires
        table.wf(),
        forall|i: int| 0 <= i < table.entries@.len() ==> (#[trigger] table.entries@[i]).1.wf(),
    ensures
        dependents_right(table.names(), table@, dependents@),
{
    let mut dependents: Vec<Vec<usize>> = Vec::new();
    let mut v: usize = 0;
    while v < table.entries.len()
        invariant
            v <= table.entries.len(),
            table.wf(),
            forall|i: int| 0 <= i < table.entries@.len() ==> (#[trigger] table.entries@[i]).1.wf(),
            dependents.len() == v,
            forall|k: int|
                0 <= k < v ==> row_right(table.names(), table@, k, #[trigger] dependents@[k]@),
        decreases table.entries.len() - v,
    {
        let mut row: Vec<usize> = Vec::new();
        let mut i: usize = 0;
        while i < table.entries.len()
            invariant
                v < table.entries.len(),
                i <= table.entries.len(),
                table.wf(),
                forall|i: int|
                    0 <= i < table.entries@.len() ==> (#[trigger] table.entries@[i]).1.wf(),
                row@.no_duplicates(),
                forall|k: usize|
                    #![trigger row@.contains(k)]
                    row@.contains(k) <==> k < i && table@[table.names()[k as int]].deps@.contains(
                        table.names()[v as int],
                    ),
            decreases table.entries.len() - i,
        {
            let ghost had = row@;
            proof {
                table.lemma_at(i as int);
            }
            if table.entries[i].1.deps.contains(table.entries[v].0.as_str()) {
                row.push(i);
                proof {
                    assert(row@[had.len() as int] == i);
                    assert forall|k: usize|
                        #![trigger row@.contains(k)]
                        row@.contains(k) <==> had.contains(k) || k == i by {
                        if had.contains(k) {
                            assert(row@[had.index_of(k)] == k);
                        }
                        if row@.contains(k) && k != i {
                            assert(had[row@.index_of(k)] == k);
                        }
                    }
                    assert(!had.contains(i));
                }
            }
            i += 1;
        }
        dependents.push(row);
        v += 1;
    }
    dependents
}

/// One dependency of every listed member is done: those that wait for no other join the queue.
fn release(row: &Vec<usize>, in_degree: &mut Vec<usize>, queue: &mut Vec<usize>)
    requires
        row@.no_duplicates(),
        forall|i: usize| #[trigger]
            row@.contains(i) ==> i < old(in_degree)@.len() && old(in_degree)@[i as int] > 0,
        old(queue)@.no_duplicates(),
        forall|i: usize| #[trigger] old(queue)@.contains(i) ==> !row@.contains(i),
    ensures
        final(in_degree)@.len() == old(in_degree)@.len(),
        forall|i: usize|
            #![trigger final(in_degree)@[i as int]]
            i < old(in_degree)@.len() ==> final(in_degree)@[i as int] == old(in_degree)@[i as int]
                - (if row@.contains(i) {
                1int
            } else {
                0
            }),
        final(queue)@.no_duplicates(),
        forall|i: usize|
            #![trigger final(queue)@.contains(i)]
            final(queue)@.contains(i) <==> old(queue)@.contains(i) || (row@.contains(i)
                && final(in_degree)@[i as int] == 0),
{
    let mut k: usize = 0;
    let ghost before = in_degree@;
    let ghost had = queue@;
    while k < row.len()
        invariant
            k <= row.len(),
            row@.no_duplicates(),
            before == old(in_degree)@,
            had == old(queue)@,
            forall|i: usize| #[trigger]
                row@.contains(i) ==> i < before.len() && before[i as int] > 0,
            forall|i: usize| #[trigger] had.contains(i) ==> !row@.contains(i),
            in_degree@.len() == before.len(),
            forall|i: usize|
                #![trigger in_degree@[i as int]]
                i < before.len() ==> in_degree@[i as int] == before[i as int] - (if row@.take(
                    k as int,
                ).contains(i) {
                    1int
                } else {
                    0
                }),
            queue@.no_duplicates(),
            forall|i: usize|
                #![trigger queue@.contains(i)]
                queue@.contains(i) <==> had.contains(i) || (row@.take(k as int).contains(i)
                    && in_degree@[i as int] == 0),
        decreases row.len() - k,
    {
        let i = row[k];
        let ghost seen = row@.take(k as int);
        let ghost next = row@.take(k + 1);
        let ghost queued = queue@;
        proof {
            assert(row@.contains(i));
            assert(!seen.contains(i)) by {
                if seen.contains(i) {
                    let j = seen.index_of(i);
                    assert(row@[j] == row@[k as int]);
                }
            }
            assert forall|x: usize|
                #![trigger next.contains(x)]
                next.contains(x) <==> seen.contains(x) || x == i by {
                lemma_take_more(row@, k as int);
                assert(next.to_set().contains(x) == seen.to_set().insert(i).contains(x));
            }
            assert forall|x: usize| seen.contains(x) implies row@.contains(x) by {
                assert(row@[seen.index_of(x)] == x);
            }
        }
        let left = in_degree[i] - 1;
        in_degree.set(i, left);
        if left == 0 {
            queue.push(i);
            proof {
                assert(!queued.contains(i));
                assert forall|x: usize|
                    #![trigger queue@.contains(x)]
                    queue@.contains(x) <==> queued.contains(x) || x == i by {
                    if queued.contains(x) {
                        assert(queue@[queued.index_of(x)] == x);
                    }
                    if x == i {
                        assert(queue@[queued.len() as int] == x);
                    }
                    if queue@.contains(x) && x != i {
                        assert(queued[queue@.index_of(x)] == x);
                    }
                }
            }
        }
        k += 1;
    }
    proof {
        assert(row@.take(k as int) =~= row@);
    }
}

/// The least member of the queue is the least that is ready, and all that depend on it wait.
proof fn lemma_turn(
    names: Seq<Seq<char>>,
    members: Map<Seq<char>, Member>,
    done: Set<Seq<char>>,
    in_degree: Seq<usize>,
    queue: Seq<usize>,
    row: Seq<usize>,
    v: usize,
)
    requires
        sorted_texts(names),
        names.to_set() == members.dom(),
        degrees_right(names, members, done, in_degree),
        queue_right(names, done, in_degree, queue),
        queue.contains(v),
        forall|x: usize| queue.contains(x) ==> v <= x,
        row_right(names, members, v as int, row),
        names.len() <= usize::MAX,
    ensures
        is_least_ready(dep_graph(members), done, names[v as int]),
        forall|i: usize| #[trigger] row.contains(i) ==> i < in_degree.len() && in_degree[i as int] > 0,
        forall|i: usize| #[trigger] queue.contains(i) ==> !row.contains(i),
{
    let graph = dep_graph(members);
    let id = names[v as int];
    assert(names.to_set().contains(id));
    lemma_missing_none(members[id].deps.names(), done);
    assert(ready(graph, done, id));
    assert forall|other: Seq<char>| #[trigger]
        ready(graph, done, other) && other != id implies text_less()(id, other) by {
        assert(names.to_set().contains(other));
        let k = names.index_of(other);
        assert(names[k] == other);
        lemma_missing_none(members[other].deps.names(), done);
        assert(in_degree[k] == 0);
        assert(queue.contains(k as usize));
        assert(v < k);
        assert(text_less()(names[v as int], names[k]));
    }
    assert forall|i: usize| #[trigger] row.contains(i) implies i < in_degree.len()
        && in_degree[i as int] > 0 by {
        let deps = members[names[i as int]].deps;
        assert(deps@.contains(id));
        lemma_missing_none(deps.names(), done);
        assert(!done.contains(id));
    }
}

/// Once `names[v]` is done, the numbers and the queue are right again.
proof fn lemma_after_turn(
    names: Seq<Seq<char>>,
    members: Map<Seq<char>, Member>,
    done: Set<Seq<char>>,
    in_degree: Seq<usize>,
    queue: Seq<usize>,
    row: Seq<usize>,
    v: usize,
    in_degree_after: Seq<usize>,
    queue_after: Seq<usize>,
)
    requires
        sorted_texts(names),
        names.to_set() == members.dom(),
        forall|id: Seq<char>| #[trigger] members.contains_key(id) ==> members[id].wf(),
        forall|id: Seq<char>| #[trigger] done.contains(id) ==> members[id].deps@.subset_of(done),
        degrees_right(names, members, done, in_degree),
        queue_right(names, done, in_degree, queue),
        queue.contains(v),
        row_right(names, members, v as int, row),
        names.len() <= usize::MAX,
        in_degree_after.len() == in_degree.len(),
        forall|i: usize|
            #![trigger in_degree_after[i as int]]
            i < in_degree.len() ==> in_degree_after[i as int] == in_degree[i as int] - (
            if row.contains(i) {
                1int
            } else {
                0
            }),
        queue_after.no_duplicates(),
        forall|i: usize|
            #![trigger queue_after.contains(i)]
            queue_after.contains(i) <==> (queue.contains(i) && i != v) || (row.contains(i)
                && in_degree_after[i as int] == 0),
    ensures
        degrees_right(names, members, done.insert(names[v as int]), in_degree_after),
        queue_right(names, done.insert(names[v as int]), in_degree_after, queue_after),
{
    let id = names[v as int];
    let now = done.insert(id);
    lemma_text_order();
    assert forall|i: int| 0 <= i < names.len() implies #[trigger] in_degree_after[i] == missing(
        members[names[i]].deps.names(),
        now,
    ) by {
        let u = i as usize;
        assert(in_degree_after[u as int] == in_degree[u as int] - (if row.contains(u) {
            1int
        } else {
            0
        }));
        assert(names.to_set().contains(names[i]));
        let deps = members[names[i]].deps;
        assert(deps.wf());
        if row.contains(u) {
            assert(deps@.contains(id));
            lemma_missing_one(deps.names(), done, id);
        } else {
            assert(!deps@.contains(id));
            lemma_missing_other(deps.names(), done, id);
        }
    }
    assert forall|i: usize|
        #![trigger queue_after.contains(i)]
        queue_after.contains(i) <==> i < names.len() && !now.contains(names[i as int])
            && in_degree_after[i as int] == 0 by {
        if i < names.len() {
            if i < v {
                assert(text_less()(names[i as int], names[v as int]));
            }
            if v < i {
                assert(text_less()(names[v as int], names[i as int]));
            }
            assert(names[i as int] == id <==> i == v);
            assert(in_degree_after[i as int] == in_degree[i as int] - (if row.contains(i) {
                1int
            } else {
                0
            }));
            if row.contains(i) {
                let deps = members[names[i as int]].deps;
                assert(deps@.contains(id));
                lemma_missing_none(deps.names(), done);
                assert(in_degree[i as int] > 0);
                assert(!done.contains(id));
                assert(!done.contains(names[i as int]));
            }
        }
    }
}

/// An order without `id` is shorter than the list of all.
proof fn lemma_short(order: Seq<Seq<char>>, names: Seq<Seq<char>>, id: Seq<char>)
    requires
        order.no_duplicates(),
        order.to_set().subset_of(names.to_set()),
        names.contains(id),
        !order.contains(id),
    ensures
        order.len() < names.len(),
{
    let more = order.push(id);
    assert(more.no_duplicates());
    more.unique_seq_to_set();
    names.lemma_cardinality_of_set();
    lemma_take_more(more, order.len() as int);
    assert(more.take(order.len() as int) =~= order);
    assert(more.take(order.len() as int + 1) =~= more);
    assert(names.to_set().contains(id));
    vstd::seq_lib::seq_to_set_is_finite(names);
    vstd::set_lib::lemma_len_subset(more.to_set(), names.to_set());
}

/// Orders members so that dependencies come before dependents and ties go by id (Kahn's
/// algorithm). Of members with one id the last is kept.
pub fn toposort(members: Vec<Member>) -> (sorted: Result<Vec<Member>, Error>)
    requires
        forall|i: int| 0 <= i < members@.len() ==> (#[trigger] members@[i]).wf(),
    ensures
        match sorted {
            Ok(sorted) => {
                let graph = dep_graph(by_id(members@));
                &&& takes_least_ready(graph, ids(sorted@))
                &&& ids(sorted@).to_set() == graph.dom()
                &&& stuck(graph) == Set::<Seq<char>>::empty()
                &&& forall|i: int|
                    0 <= i < sorted@.len() ==> #[trigger] sorted@[i] == by_id(
                        members@,
                    )[sorted@[i].id@]
            },
            Err(Error::Cycle(names)) => {
                let graph = dep_graph(by_id(members@));
                &&& stuck(graph) != Set::<Seq<char>>::empty()
                &&& texts(names@).to_set() == stuck(graph)
                &&& sorted_texts(texts(names@))
            },
            Err(_) => false,
        },
{
    let ghost full = by_id(members@);
    let ghost graph = dep_graph(full);
    let ghost given = members@;
    let mut table = collect(members);
    let ghost names = table.names();
    proof {
        lemma_by_id(given);
        assert forall|i: int| 0 <= i < table.entries@.len() implies (
        #[trigger] table.entries@[i]).1.wf() by {
            table.lemma_at(i);
            let m = full[names[i]];
            assert(given.contains(m));
            let k = given.index_of(m);
            assert(given[k].wf());
        }
    }
    let list = table.name_list();
    let dependents = dependents_of(&table);
    let n = table.entries.len();
    let mut in_degree: Vec<usize> = Vec::new();
    let mut queue: Vec<usize> = Vec::new();
    let mut i: usize = 0;
    while i < n
        invariant
            i <= n == table.entries@.len(),
            table.wf(),
            table@ == full,
            names == table.names(),
            in_degree.len() == i,
            forall|k: int|
                0 <= k < i ==> #[trigger] in_degree@[k] == full[names[k]].deps.names().len(),
            queue@.no_duplicates(),
            forall|k: usize|
                #![trigger queue@.contains(k)]
                queue@.contains(k) <==> k < i && in_degree@[k as int] == 0,
        decreases n - i,
    {
        let d = table.entries[i].1.deps.len();
        proof {
            table.lemma_at(i as int);
        }
        let ghost degrees = in_degree@;
        in_degree.push(d);
        if d == 0 {
            let ghost had = queue@;
            queue.push(i);
            proof {
                assert forall|x: usize|
                    #![trigger queue@.contains(x)]
                    queue@.contains(x) <==> had.contains(x) || x == i by {
                    if had.contains(x) {
                        assert(queue@[had.index_of(x)] == x);
                    }
                    if x == i {
                        assert(queue@[had.len() as int] == x);
                    }
                    if queue@.contains(x) && x != i {
                        assert(had[queue@.index_of(x)] == x);
                    }
                }
                assert(!had.contains(i));
            }
        }
        proof {
            assert forall|k: usize|
                #![trigger queue@.contains(k)]
                queue@.contains(k) <==> k < i + 1 && in_degree@[k as int] == 0 by {
                if k < i {
                    assert(in_degree@[k as int] == degrees[k as int]);
                }
            }
        }
        i += 1;
    }
    let mut sorted: Vec<Member> = Vec::new();
    let ghost mut order: Seq<Seq<char>> = Seq::empty();
    proof {
        assert forall|k: int| 0 <= k < names.len() implies #[trigger] in_degree@[k] == missing(
            full[names[k]].deps.names(),
            order.to_set(),
        ) by {
            lemma_missing_all(full[names[k]].deps.names());
            assert(order.to_set() =~= Set::<Seq<char>>::empty());
        }
        assert(ids(sorted@) =~= order);
        assert(table@ =~= full.remove_keys(order.to_set()));
    }
    loop
        invariant
            n == names.len() == list@.len(),
            texts(list@) == names,
            sorted_texts(names),
            names.to_set() == full.dom(),
            graph == dep_graph(full),
            forall|id: Seq<char>| #[trigger]
                full.contains_key(id) ==> full[id].id@ == id && full[id].wf(),
            dependents_right(names, full, dependents@),
            degrees_right(names, full, order.to_set(), in_degree@),
            queue_right(names, order.to_set(), in_degree@, queue@),
            takes_least_ready(graph, order),
            order == ids(sorted@),
            forall|k: int| 0 <= k < sorted@.len() ==> #[trigger] sorted@[k] == full[sorted@[k].id@],
            table.wf(),
            table@ == full.remove_keys(order.to_set()),
        ensures
            forall|id: Seq<char>| !#[trigger] ready(graph, order.to_set(), id),
        decreases n - order.len(),
    {
        let ghost done = order.to_set();
        let ghost queued = queue@;
        let ghost degrees = in_degree@;
        match take_least(&mut queue) {
            None => {
                proof {
                    assert forall|id: Seq<char>| !#[trigger] ready(graph, done, id) by {
                        if ready(graph, done, id) {
                            assert(names.to_set().contains(id));
                            let k = names.index_of(id);
                            assert(names[k] == id);
                            lemma_missing_none(full[id].deps.names(), done);
                            assert(queue@.contains(k as usize));
                        }
                    }
                }
                break;
            },
            Some(v) => {
                let ghost id = names[v as int];
                proof {
                    lemma_turn(names, full, done, degrees, queued, dependents@[v as int]@, v);
                    lemma_order_distinct(graph, order);
                    lemma_order_closed(graph, order);
                    assert forall|id: Seq<char>| #[trigger] done.contains(id) implies full[id].deps@.subset_of(
                        done,
                    ) by {
                        assert(graph.contains_key(id));
                        assert(graph[id].subset_of(done));
                    }
                    lemma_short(order, names, id);
                }
                release(&dependents[v], &mut in_degree, &mut queue);
                proof {
                    lemma_after_turn(
                        names,
                        full,
                        done,
                        degrees,
                        queued,
                        dependents@[v as int]@,
                        v,
                        in_degree@,
                        queue@,
                    );
                }
                let name = &list[v];
                let at = table.find(name.as_str());
                match at {
                    Some(at) => {
                        let (_, m) = table.remove_at(at);
                        sorted.push(m);
                    },
                    None => {
                        proof {
                            assert(false);
                        }
                    },
                }
                proof {
                    lemma_extend(graph, order, id);
                }
                proof {
                    order = order.push(id);
                }
            },
        }
    }
    proof {
        lemma_left_is_stuck(graph, order);
        lemma_order_distinct(graph, order);
    }
    if table.entries.len() > 0 {
        let left = table.name_list();
        proof {
            assert(texts(left@).to_set() =~= table@.dom());
            assert(table@.dom() =~= stuck(graph));
            assert(stuck(graph).contains(table.names()[0]));
        }
        Err(Error::Cycle(left))
    } else {
        proof {
            assert(table@.dom() =~= Set::<Seq<char>>::empty());
            assert(table@.dom() =~= stuck(graph));
            assert forall|id: Seq<char>| graph.dom().contains(id) implies order.to_set().contains(
                id,
            ) by {
                if !order.to_set().contains(id) {
                    assert(stuck(graph).contains(id));
                }
            }
            assert(order.to_set() =~= graph.dom());
        }
        Ok(sorted)
    }
}

/// `from` depends on `to` directly.
pub open spec fn depends(
    graph: Map<Seq<char>, Set<Seq<char>>>,
    from: Seq<char>,
    to: Seq<char>,
) -> bool {
    graph.contains_key(from) && graph[from].contains(to)
}

/// Ids each of which depends on the next.
pub open spec fn is_walk(graph: Map<Seq<char>, Set<Seq<char>>>, walk: Seq<Seq<char>>) -> bool {
    forall|i: int, j: int|
        0 <= i && j == i + 1 && j < walk.len() ==> depends(
            graph,
            #[trigger] walk[i],
            #[trigger] walk[j],
        )
}

/// A walk of one or more steps.
pub open spec fn leads(
    graph: Map<Seq<char>, Set<Seq<char>>>,
    walk: Seq<Seq<char>>,
    from: Seq<char>,
    to: Seq<char>,
) -> bool {
    is_walk(graph, walk) && walk.len() >= 2 && walk[0] == from && walk.last() == to
}

/// `from` depends on `to`, directly or through others.
pub open spec fn reaches(
    graph: Map<Seq<char>, Set<Seq<char>>>,
    from: Seq<char>,
    to: Seq<char>,
) -> bool {
    exists|walk: Seq<Seq<char>>| #[trigger] leads(graph, walk, from, to)
}

pub proof fn lemma_reaches_direct(
    graph: Map<Seq<char>, Set<Seq<char>>>,
    from: Seq<char>,
    to: Seq<char>,
)
    requires
        graph.contains_key(from),
        graph[from].contains(to),
    ensures
        reaches(graph, from, to),
{
    let walk = seq![from, to];
    assert(is_walk(graph, walk));
    assert(leads(graph, walk, from, to));
}

pub proof fn lemma_reaches_further(
    graph: Map<Seq<char>, Set<Seq<char>>>,
    from: Seq<char>,
    mid: Seq<char>,
    to: Seq<char>,
)
    requires
        reaches(graph, from, mid),
        graph.contains_key(mid),
        graph[mid].contains(to),
    ensures
        reaches(graph, from, to),
{
    let walk = choose|walk: Seq<Seq<char>>| #[trigger] leads(graph, walk, from, mid);
    let more = walk.push(to);
    assert forall|i: int, j: int| 0 <= i && j == i + 1 && j < more.len() implies depends(
        graph,
        #[trigger] more[i],
        #[trigger] more[j],
    ) by {
        if j < walk.len() {
            assert(depends(graph, walk[i], walk[j]));
        }
    }
    assert(leads(graph, more, from, to));
}

/// A set that holds the dependencies of `from` and, with each id, its dependencies, holds all that
/// `from` reaches.
pub proof fn lemma_closed_holds_reach(
    graph: Map<Seq<char>, Set<Seq<char>>>,
    from: Seq<char>,
    set: Set<Seq<char>>,
    to: Seq<char>,
)
    requires
        reaches(graph, from, to),
        graph[from].subset_of(set),
        forall|id: Seq<char>| #[trigger]
            set.contains(id) && graph.contains_key(id) ==> graph[id].subset_of(set),
    ensures
        set.contains(to),
{
    let walk = choose|walk: Seq<Seq<char>>| #[trigger] leads(graph, walk, from, to);
    lemma_closed_holds_walk(graph, set, walk, walk.len() - 1);
}

proof fn lemma_closed_holds_walk(
    graph: Map<Seq<char>, Set<Seq<char>>>,
    set: Set<Seq<char>>,
    walk: Seq<Seq<char>>,
    k: int,
)
    requires
        is_walk(graph, walk),
        1 <= k < walk.len(),
        graph[walk[0]].subset_of(set),
        forall|id: Seq<char>| #[trigger]
            set.contains(id) && graph.contains_key(id) ==> graph[id].subset_of(set),
    ensures
        set.contains(walk[k]),
    decreases k,
{
    assert(depends(graph, walk[k - 1], walk[k]));
    if k > 1 {
        lemma_closed_holds_walk(graph, set, walk, k - 1);
    }
}

/// What depends on something depends on all that it depends on.
pub proof fn law_reach_is_transitive(
    graph: Map<Seq<char>, Set<Seq<char>>>,
    from: Seq<char>,
    mid: Seq<char>,
    to: Seq<char>,
)
    requires
        reaches(graph, from, mid),
        reaches(graph, mid, to),
    ensures
        reaches(graph, from, to),
{
    let a = choose|walk: Seq<Seq<char>>| #[trigger] leads(graph, walk, from, mid);
    let b = choose|walk: Seq<Seq<char>>| #[trigger] leads(graph, walk, mid, to);
    let n = a.len() - 1;
    let all = a + b.drop_first();
    assert forall|i: int, j: int| 0 <= i && j == i + 1 && j < all.len() implies depends(
        graph,
        #[trigger] all[i],
        #[trigger] all[j],
    ) by {
        if j <= n {
            assert(depends(graph, a[i], a[j]));
        } else {
            assert(all[i] == b[i - n] && all[j] == b[j - n]);
            assert(depends(graph, b[i - n], b[j - n]));
        }
    }
    assert(leads(graph, all, from, to));
}

/// Dependencies come before dependents.
pub proof fn law_dependencies_come_first(
    graph: Map<Seq<char>, Set<Seq<char>>>,
    order: Seq<Seq<char>>,
    i: int,
    dep: Seq<char>,
)
    requires
        takes_least_ready(graph, order),
        0 <= i < order.len(),
        reaches(graph, order[i], dep),
    ensures
        order.take(i).contains(dep),
        !order.skip(i).contains(dep),
{
    let before = order.take(i);
    assert(is_least_ready(graph, before.to_set(), order[i]));
    assert(takes_least_ready(graph, before)) by {
        assert forall|k: int| 0 <= k < before.len() implies is_least_ready(
            graph,
            before.take(k).to_set(),
            #[trigger] before[k],
        ) by {
            assert(before.take(k) =~= order.take(k));
            assert(before[k] == order[k]);
        }
    }
    lemma_order_closed(graph, before);
    lemma_closed_holds_reach(graph, order[i], before.to_set(), dep);
    lemma_order_distinct(graph, order);
    if order.skip(i).contains(dep) {
        let k = order.skip(i).index_of(dep);
        let j = before.index_of(dep);
        assert(order[i + k] == order.skip(i)[k]);
        assert(order[j] == before[j]);
    }
}

/// There is only one order: two that hold the same ids are the same.
pub proof fn law_order_is_unique(
    graph: Map<Seq<char>, Set<Seq<char>>>,
    a: Seq<Seq<char>>,
    b: Seq<Seq<char>>,
)
    requires
        takes_least_ready(graph, a),
        takes_least_ready(graph, b),
        a.to_set() == b.to_set(),
    ensures
        a == b,
{
    lemma_order_distinct(graph, a);
    lemma_order_distinct(graph, b);
    a.unique_seq_to_set();
    b.unique_seq_to_set();
    lemma_same_start(graph, a, b, a.len() as int);
    assert(a.take(a.len() as int) =~= a);
    assert(b.take(a.len() as int) =~= b);
}

proof fn lemma_same_start(
    graph: Map<Seq<char>, Set<Seq<char>>>,
    a: Seq<Seq<char>>,
    b: Seq<Seq<char>>,
    k: int,
)
    requires
        takes_least_ready(graph, a),
        takes_least_ready(graph, b),
        0 <= k <= a.len(),
        k <= b.len(),
    ensures
        a.take(k) == b.take(k),
    decreases k,
{
    if k > 0 {
        lemma_same_start(graph, a, b, k - 1);
        let done = a.take(k - 1).to_set();
        let x = a[k - 1];
        let y = b[k - 1];
        assert(is_least_ready(graph, done, x));
        assert(is_least_ready(graph, done, y));
        lemma_text_order();
        if x != y {
            assert(text_less()(x, y) && text_less()(y, x));
            assert(text_less()(x, x));
        }
        assert(a.take(k) =~= a.take(k - 1).push(x));
        assert(b.take(k) =~= b.take(k - 1).push(y));
    } else {
        assert(a.take(0) =~= b.take(0));
    }
}

/// Every dependency is itself an id of the graph.
pub open spec fn closed_graph(graph: Map<Seq<char>, Set<Seq<char>>>) -> bool {
    forall|id: Seq<char>| #[trigger] graph.contains_key(id) ==> graph[id].subset_of(graph.dom())
}

/// An id that depends on itself, directly or through others.
pub open spec fn has_circle(graph: Map<Seq<char>, Set<Seq<char>>>) -> bool {
    exists|id: Seq<char>| #[trigger] reaches(graph, id, id)
}

/// An id that lies on a circle of dependencies, or that depends on one that does.
pub open spec fn waits_for_circle(graph: Map<Seq<char>, Set<Seq<char>>>, id: Seq<char>) -> bool {
    exists|on: Seq<char>| #[trigger]
        reaches(graph, on, on) && (on == id || reaches(graph, id, on))
}

/// The start of a walk that stays inside a blocked set.
spec fn wander(
    graph: Map<Seq<char>, Set<Seq<char>>>,
    set: Set<Seq<char>>,
    start: Seq<char>,
    n: nat,
) -> Seq<Seq<char>>
    decreases n,
{
    if n == 0 {
        seq![start]
    } else {
        let walk = wander(graph, set, start, (n - 1) as nat);
        walk.push(choose|dep: Seq<char>| #[trigger]
            graph[walk.last()].contains(dep) && set.contains(dep))
    }
}

proof fn lemma_wander(
    graph: Map<Seq<char>, Set<Seq<char>>>,
    set: Set<Seq<char>>,
    start: Seq<char>,
    n: nat,
)
    requires
        closed_graph(graph),
        blocked(graph, set),
        set.contains(start),
    ensures
        wander(graph, set, start, n).len() == n + 1,
        wander(graph, set, start, n)[0] == start,
        is_walk(graph, wander(graph, set, start, n)),
        forall|i: int| 0 <= i <= n ==> set.contains(#[trigger] wander(graph, set, start, n)[i]),
    decreases n,
{
    if n > 0 {
        let walk = wander(graph, set, start, (n - 1) as nat);
        lemma_wander(graph, set, start, (n - 1) as nat);
        let last = walk.last();
        assert(set.contains(walk[n - 1]));
        assert(graph.contains_key(last));
        let dep = choose|dep: Seq<char>| #[trigger]
            graph[last].contains(dep) && (set.contains(dep) || !graph.contains_key(dep));
        assert(graph[last].subset_of(graph.dom()));
        assert(graph[last].contains(dep) && set.contains(dep));
        let more = wander(graph, set, start, n);
        assert forall|i: int, j: int| 0 <= i && j == i + 1 && j < more.len() implies depends(
            graph,
            #[trigger] more[i],
            #[trigger] more[j],
        ) by {
            if j < walk.len() {
                assert(depends(graph, walk[i], walk[j]));
            }
        }
        assert forall|i: int| 0 <= i <= n implies set.contains(#[trigger] more[i]) by {
            if i < n {
                assert(more[i] == walk[i]);
            }
        }
    }
}

proof fn lemma_circle_if_stuck(
    graph: Map<Seq<char>, Set<Seq<char>>>,
    set: Set<Seq<char>>,
    id: Seq<char>,
)
    requires
        closed_graph(graph),
        graph.dom().finite(),
        blocked(graph, set),
        set.contains(id),
    ensures
        has_circle(graph),
        waits_for_circle(graph, id),
{
    let n = graph.dom().len();
    let walk = wander(graph, set, id, n);
    lemma_wander(graph, set, id, n);
    assert(!walk.no_duplicates()) by {
        if walk.no_duplicates() {
            walk.unique_seq_to_set();
            assert forall|x: Seq<char>| walk.to_set().contains(x) implies graph.dom().contains(
                x,
            ) by {
                let k = walk.index_of(x);
                assert(set.contains(walk[k]));
            }
            vstd::set_lib::lemma_len_subset(walk.to_set(), graph.dom());
        }
    }
    let (i, j) = choose|i: int, j: int|
        0 <= i < walk.len() && 0 <= j < walk.len() && i != j && walk[i] == walk[j];
    let a = if i < j {
        i
    } else {
        j
    };
    let b = if i < j {
        j
    } else {
        i
    };
    let round = walk.subrange(a, b + 1);
    assert forall|i: int, j: int| 0 <= i && j == i + 1 && j < round.len() implies depends(
        graph,
        #[trigger] round[i],
        #[trigger] round[j],
    ) by {
        assert(depends(graph, walk[a + i], walk[a + j]));
    }
    assert(leads(graph, round, walk[a], walk[a]));
    assert(reaches(graph, walk[a], walk[a]));
    if a > 0 {
        let way = walk.take(a + 1);
        assert forall|i: int, j: int| 0 <= i && j == i + 1 && j < way.len() implies depends(
            graph,
            #[trigger] way[i],
            #[trigger] way[j],
        ) by {
            assert(depends(graph, walk[i], walk[j]));
        }
        assert(leads(graph, way, id, walk[a]));
    }
}

proof fn lemma_stuck_if_circle(graph: Map<Seq<char>, Set<Seq<char>>>, id: Seq<char>)
    requires
        reaches(graph, id, id),
    ensures
        stuck(graph).contains(id),
{
    let walk = choose|walk: Seq<Seq<char>>| #[trigger] leads(graph, walk, id, id);
    let set = walk.to_set();
    assert forall|x: Seq<char>| #[trigger] set.contains(x) implies graph.contains_key(x) && exists|
        dep: Seq<char>,
    | #[trigger]
        graph[x].contains(dep) && (set.contains(dep) || !graph.contains_key(dep)) by {
        let k = walk.index_of(x);
        let at = if k == walk.len() - 1 {
            0
        } else {
            k
        };
        let next = walk[at + 1];
        assert(depends(graph, walk[at], next));
        assert(walk.contains(next));
        assert(graph[x].contains(next) && set.contains(next));
    }
    assert(blocked(graph, set));
    assert(walk.contains(walk[0]));
    assert(set.contains(id));
}

/// Where every dependency is a member, members are stuck exactly when some member depends on
/// itself, directly or through others.
pub proof fn law_stuck_means_circle(graph: Map<Seq<char>, Set<Seq<char>>>)
    requires
        closed_graph(graph),
        graph.dom().finite(),
    ensures
        stuck(graph) != Set::<Seq<char>>::empty() <==> has_circle(graph),
{
    if stuck(graph) != Set::<Seq<char>>::empty() {
        assert(exists|id: Seq<char>| stuck(graph).contains(id)) by {
            if forall|id: Seq<char>| !stuck(graph).contains(id) {
                assert(stuck(graph) =~= Set::<Seq<char>>::empty());
            }
        }
        let id = choose|id: Seq<char>| stuck(graph).contains(id);
        let set = choose|set: Set<Seq<char>>| #[trigger] blocked(graph, set) && set.contains(id);
        lemma_circle_if_stuck(graph, set, id);
    }
    if has_circle(graph) {
        let id = choose|id: Seq<char>| #[trigger] reaches(graph, id, id);
        lemma_stuck_if_circle(graph, id);
    }
}

/// An id reaches what it depends on, and what those reach, and nothing else.
pub proof fn law_reach_by_first_step(
    graph: Map<Seq<char>, Set<Seq<char>>>,
    from: Seq<char>,
    to: Seq<char>,
)
    ensures
        reaches(graph, from, to) <==> graph.contains_key(from) && (graph[from].contains(to)
            || exists|mid: Seq<char>| #[trigger]
            graph[from].contains(mid) && reaches(graph, mid, to)),
{
    if reaches(graph, from, to) {
        let walk = choose|walk: Seq<Seq<char>>| #[trigger] leads(graph, walk, from, to);
        assert(depends(graph, walk[0], walk[1]));
        if walk.len() > 2 {
            let rest = walk.drop_first();
            assert forall|i: int, j: int| 0 <= i && j == i + 1 && j < rest.len() implies depends(
                graph,
                #[trigger] rest[i],
                #[trigger] rest[j],
            ) by {
                assert(depends(graph, walk[i + 1], walk[j + 1]));
            }
            assert(leads(graph, rest, walk[1], to));
            assert(graph[from].contains(walk[1]) && reaches(graph, walk[1], to));
        }
    }
    if graph.contains_key(from) {
        if graph[from].contains(to) {
            lemma_reaches_direct(graph, from, to);
        }
        if exists|mid: Seq<char>| #[trigger] graph[from].contains(mid) && reaches(graph, mid, to) {
            let mid = choose|mid: Seq<char>| #[trigger]
                graph[from].contains(mid) && reaches(graph, mid, to);
            lemma_reaches_direct(graph, from, mid);
            law_reach_is_transitive(graph, from, mid, to);
        }
    }
}

/// What a set does not hold that holds the dependencies of `from` and, with each id, those of that
/// id, `from` does not reach.
pub proof fn law_reach_stays_in_closed_sets(
    graph: Map<Seq<char>, Set<Seq<char>>>,
    from: Seq<char>,
    set: Set<Seq<char>>,
    to: Seq<char>,
)
    requires
        graph[from].subset_of(set),
        forall|id: Seq<char>| #[trigger]
            set.contains(id) && graph.contains_key(id) ==> graph[id].subset_of(set),
        !set.contains(to),
    ensures
        !reaches(graph, from, to),
{
    if reaches(graph, from, to) {
        lemma_closed_holds_reach(graph, from, set, to);
    }
}

/// In an order every id is one of the graph, none comes twice, and each comes behind all that it
/// depends on.
pub proof fn law_order_respects_graph(
    graph: Map<Seq<char>, Set<Seq<char>>>,
    order: Seq<Seq<char>>,
    j: int,
    dep: Seq<char>,
)
    requires
        takes_least_ready(graph, order),
        0 <= j < order.len(),
    ensures
        graph.contains_key(order[j]),
        forall|i: int| 0 <= i < j ==> #[trigger] order[i] != order[j],
        graph[order[j]].contains(dep) ==> exists|i: int| 0 <= i < j && #[trigger] order[i] == dep,
{
    lemma_order_distinct(graph, order);
    let before = order.take(j);
    assert(is_least_ready(graph, before.to_set(), order[j]));
    if graph[order[j]].contains(dep) {
        assert(before.to_set().contains(dep));
        let i = before.index_of(dep);
        assert(order[i] == dep);
    }
}

/// An id comes behind a greater one only where it has to: because it depends on that one or on one
/// between them.
pub proof fn law_ties_go_by_id(
    graph: Map<Seq<char>, Set<Seq<char>>>,
    order: Seq<Seq<char>>,
    i: int,
    j: int,
)
    requires
        takes_least_ready(graph, order),
        0 <= i < j < order.len(),
        text_less()(order[j], order[i]),
    ensures
        exists|k: int| i <= k < j && graph[order[j]].contains(#[trigger] order[k]),
{
    lemma_order_distinct(graph, order);
    lemma_text_order();
    let done = order.take(i).to_set();
    let before = order.take(j).to_set();
    let id = order[j];
    assert(is_least_ready(graph, done, order[i]));
    assert(is_least_ready(graph, before, id));
    if done.contains(id) {
        let k = order.take(i).index_of(id);
        assert(order[k] == order[j]);
    }
    if ready(graph, done, id) {
        let less = text_less();
        assert(less(order[i], id) && less(id, order[i]));
        assert(less(id, id));
    }
    assert(!graph[id].subset_of(done));
    let dep = choose|dep: Seq<char>| graph[id].contains(dep) && !done.contains(dep);
    assert(before.contains(dep));
    let k = order.take(j).index_of(dep);
    assert(order[k] == dep);
    if k < i {
        assert(order.take(i)[k] == dep);
        assert(order.take(i).contains(dep));
    }
}

/// An id is stuck exactly if it depends on one that is stuck, or on one that the graph does not
/// have.
pub proof fn law_stuck_by_dependencies(graph: Map<Seq<char>, Set<Seq<char>>>, id: Seq<char>)
    ensures
        stuck(graph).contains(id) <==> graph.contains_key(id) && exists|dep: Seq<char>| #[trigger]
            graph[id].contains(dep) && (stuck(graph).contains(dep) || !graph.contains_key(dep)),
{
    if stuck(graph).contains(id) {
        let set = choose|set: Set<Seq<char>>| #[trigger] blocked(graph, set) && set.contains(id);
        let dep = choose|dep: Seq<char>| #[trigger]
            graph[id].contains(dep) && (set.contains(dep) || !graph.contains_key(dep));
        assert(graph[id].contains(dep) && (stuck(graph).contains(dep) || !graph.contains_key(dep)));
    }
    if graph.contains_key(id) && exists|dep: Seq<char>| #[trigger]
        graph[id].contains(dep) && (stuck(graph).contains(dep) || !graph.contains_key(dep)) {
        let dep = choose|dep: Seq<char>| #[trigger]
            graph[id].contains(dep) && (stuck(graph).contains(dep) || !graph.contains_key(dep));
        let had = if stuck(graph).contains(dep) {
            choose|set: Set<Seq<char>>| #[trigger] blocked(graph, set) && set.contains(dep)
        } else {
            Set::<Seq<char>>::empty()
        };
        let set = had.insert(id);
        assert forall|x: Seq<char>| #[trigger] set.contains(x) implies graph.contains_key(x)
            && exists|y: Seq<char>| #[trigger]
            graph[x].contains(y) && (set.contains(y) || !graph.contains_key(y)) by {
            if x == id {
                assert(graph[x].contains(dep) && (set.contains(dep) || !graph.contains_key(dep)));
            } else {
                assert(had.contains(x));
                let y = choose|y: Seq<char>| #[trigger]
                    graph[x].contains(y) && (had.contains(y) || !graph.contains_key(y));
                assert(graph[x].contains(y) && (set.contains(y) || !graph.contains_key(y)));
            }
        }
        assert(blocked(graph, set));
        assert(set.contains(id));
    }
}

/// Where every dependency is an id of the graph, the stuck ids are those on a circle of
/// dependencies and those that depend on one of these.
pub proof fn law_stuck_wait_for_circles(graph: Map<Seq<char>, Set<Seq<char>>>, id: Seq<char>)
    requires
        closed_graph(graph),
        graph.dom().finite(),
    ensures
        stuck(graph).contains(id) <==> exists|on: Seq<char>| #[trigger]
            reaches(graph, on, on) && (on == id || reaches(graph, id, on)),
{
    if stuck(graph).contains(id) {
        let set = choose|set: Set<Seq<char>>| #[trigger] blocked(graph, set) && set.contains(id);
        lemma_circle_if_stuck(graph, set, id);
    }
    if exists|on: Seq<char>| #[trigger] reaches(graph, on, on) && (on == id || reaches(
        graph,
        id,
        on,
    )) {
        let on = choose|on: Seq<char>| #[trigger]
            reaches(graph, on, on) && (on == id || reaches(graph, id, on));
        lemma_stuck_if_circle(graph, on);
        if on != id {
            let walk = choose|walk: Seq<Seq<char>>| #[trigger] leads(graph, walk, id, on);
            lemma_stuck_backwards(graph, walk, 0);
        }
    }
}

proof fn lemma_stuck_backwards(
    graph: Map<Seq<char>, Set<Seq<char>>>,
    walk: Seq<Seq<char>>,
    i: int,
)
    requires
        is_walk(graph, walk),
        0 <= i < walk.len(),
        stuck(graph).contains(walk.last()),
    ensures
        stuck(graph).contains(walk[i]),
    decreases walk.len() - i,
{
    if i < walk.len() - 1 {
        lemma_stuck_backwards(graph, walk, i + 1);
        assert(depends(graph, walk[i], walk[i + 1]));
        law_stuck_by_dependencies(graph, walk[i]);
    }
}

} // verus!
