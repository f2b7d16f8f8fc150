//! Running invocations in parallel, as far as their dependencies allow.

use crate::error::Error;
use crate::names::NameMap;
use crate::names::NameSet;
use crate::order::lemma_take_more;
use crate::run::Invocation;
use crate::run::ends_with;
use crate::style::law_color_keeps_text;
use crate::style::paint;
use crate::style::painted;
use crate::style::palette;
use crate::style::pick_color;
use crate::style::Color;
use crate::text::join;
use crate::text::joined;
use crate::text::law_bytes_cover_characters;
use crate::text::law_padding_adds_spaces;
use crate::text::law_widest_is_the_maximum;
use crate::text::lemma_text_order;
use crate::text::pad;
use crate::text::padded;
use crate::text::sorted_texts;
use crate::text::text_less;
use crate::text::texts;
use crate::text::widest;
use crate::text::widest_of;
use vstd::prelude::*;

verus! {

/// The state of a workspace run. Each invocation is pending, running, succeeded or failed.
#[derive(Debug)]
pub struct Scheduler {
    pub pending: NameMap<Invocation>,
    pub running: NameSet,
    pub succeeded: NameSet,
    /// In the order of failure.
    pub failed: Vec<String>,
    /// How many invocations may run at a time.
    pub jobs: usize,
    /// The size in bytes of the longest id.
    pub width: usize,
    pub colors: NameMap<Color>,
    /// Whether output is colored.
    pub color: bool,
}

/// An invocation to start, and the prefix for its output.
#[derive(Debug)]
pub struct Launch {
    pub invocation: Invocation,
    pub prefix: String,
}

pub open spec fn invocation_ids(invocations: Seq<Invocation>) -> Seq<Seq<char>> {
    Seq::new(invocations.len(), |i: int| invocations[i].id@)
}

pub open spec fn launch_ids(launched: Seq<Launch>) -> Seq<Seq<char>> {
    Seq::new(launched.len(), |i: int| launched[i].invocation.id@)
}

/// The invocation for each id; where several have one id, the last of them.
pub open spec fn invocation_table(invocations: Seq<Invocation>) -> Map<Seq<char>, Invocation>
    decreases invocations.len(),
{
    if invocations.len() == 0 {
        Map::empty()
    } else {
        invocation_table(invocations.drop_last()).insert(
            invocations.last().id@,
            invocations.last(),
        )
    }
}

/// The color for each id: the colors of the palette in turn.
pub open spec fn color_table(ids: Seq<Seq<char>>) -> Map<Seq<char>, Color>
    decreases ids.len(),
{
    if ids.len() == 0 {
        Map::empty()
    } else {
        color_table(ids.drop_last()).insert(ids.last(), palette(ids.len() - 1))
    }
}

/// The names, in order, of the invocations all of whose dependencies are done.
pub open spec fn ready_names(
    entries: Seq<(String, Invocation)>,
    done: Set<Seq<char>>,
) -> Seq<Seq<char>>
    decreases entries.len(),
{
    if entries.len() == 0 {
        Seq::empty()
    } else {
        let before = ready_names(entries.drop_last(), done);
        if entries.last().1.deps@.subset_of(done) {
            before.push(entries.last().0@)
        } else {
            before
        }
    }
}

/// The first `n` items, or all if there are fewer.
pub open spec fn at_most<T>(s: Seq<T>, n: nat) -> Seq<T> {
    if s.len() <= n {
        s
    } else {
        s.take(n as int)
    }
}

/// One of the entries has this name, and all its dependencies are done.
spec fn ready_entry(
    entries: Seq<(String, Invocation)>,
    done: Set<Seq<char>>,
    name: Seq<char>,
) -> bool {
    exists|i: int|
        0 <= i < entries.len() && (#[trigger] entries[i]).0@ == name
            && entries[i].1.deps@.subset_of(done)
}

/// Ready names come out of the table in its order, and all of them do.
proof fn lemma_ready_names(entries: Seq<(String, Invocation)>, done: Set<Seq<char>>)
    requires
        forall|i: int, j: int|
            0 <= i < j < entries.len() ==> text_less()(
                (#[trigger] entries[i]).0@,
                (#[trigger] entries[j]).0@,
            ),
    ensures
        sorted_texts(ready_names(entries, done)),
        forall|k: int|
            0 <= k < ready_names(entries, done).len() ==> ready_entry(
                entries,
                done,
                #[trigger] ready_names(entries, done)[k],
            ),
        forall|i: int|
            0 <= i < entries.len() && (#[trigger] entries[i]).1.deps@.subset_of(done)
                ==> ready_names(entries, done).contains(entries[i].0@),
    decreases entries.len(),
{
    if entries.len() > 0 {
        let head = entries.drop_last();
        let n = entries.len() - 1;
        assert forall|i: int, j: int| 0 <= i < j < head.len() implies text_less()(
            (#[trigger] head[i]).0@,
            (#[trigger] head[j]).0@,
        ) by {
            assert(text_less()(entries[i].0@, entries[j].0@));
        }
        lemma_ready_names(head, done);
        let before = ready_names(head, done);
        let all = ready_names(entries, done);
        assert forall|k: int| 0 <= k < all.len() implies ready_entry(
            entries,
            done,
            #[trigger] all[k],
        ) by {
            if k < before.len() {
                assert(all[k] == before[k]);
                assert(ready_entry(head, done, before[k]));
                let i = choose|i: int|
                    0 <= i < head.len() && (#[trigger] head[i]).0@ == before[k]
                        && head[i].1.deps@.subset_of(done);
                assert(entries[i] == head[i]);
            } else {
                assert(entries[n].0@ == all[k]);
            }
        }
        assert forall|a: int, b: int| 0 <= a < b < all.len() implies text_less()(
            #[trigger] all[a],
            #[trigger] all[b],
        ) by {
            assert(all[a] == before[a]);
            if b < before.len() {
                assert(all[b] == before[b]);
            } else {
                assert(ready_entry(head, done, before[a]));
                let i = choose|i: int|
                    0 <= i < head.len() && (#[trigger] head[i]).0@ == before[a]
                        && head[i].1.deps@.subset_of(done);
                assert(text_less()(entries[i].0@, entries[n].0@));
            }
        }
        assert forall|i: int|
            0 <= i < entries.len() && (
            #[trigger] entries[i]).1.deps@.subset_of(done) implies all.contains(
            entries[i].0@,
        ) by {
            if i < n {
                assert(head[i] == entries[i]);
                let k = before.index_of(entries[i].0@);
                assert(all[k] == before[k]);
            } else {
                assert(all[before.len() as int] == entries[n].0@);
            }
        }
    }
}

/// Whether every name of one set is in the other.
fn all_in(names: &NameSet, set: &NameSet) -> (yes: bool)
    requires
        set.wf(),
    ensures
        yes == names@.subset_of(set@),
{
    let mut i: usize = 0;
    while i < names.items.len()
        invariant
            i <= names.items@.len(),
            set.wf(),
            forall|k: int| 0 <= k < i ==> set@.contains(#[trigger] names.names()[k]),
        decreases names.items.len() - i,
    {
        if !set.contains(names.items[i].as_str()) {
            proof {
                assert(names.names()[i as int] == names.items@[i as int]@);
                assert(names.names().contains(names.names()[i as int]));
                assert(names@.contains(names.names()[i as int]));
            }
            return false;
        }
        proof {
            assert(names.names()[i as int] == names.items@[i as int]@);
        }
        i += 1;
    }
    proof {
        assert forall|x: Seq<char>| names@.contains(x) implies set@.contains(x) by {
            let k = names.names().index_of(x);
            assert(set@.contains(names.names()[k]));
        }
    }
    true
}

/// No name is in both sets.
pub open spec fn apart(a: Set<Seq<char>>, b: Set<Seq<char>>) -> bool {
    forall|x: Seq<char>| !(#[trigger] a.contains(x) && #[trigger] b.contains(x))
}

impl Scheduler {
    pub open spec fn failures(&self) -> Set<Seq<char>> {
        texts(self.failed@).to_set()
    }

    /// All invocations of the run.
    pub open spec fn all(&self) -> Set<Seq<char>> {
        self.pending@.dom().union(self.running@).union(self.succeeded@).union(self.failures())
    }

    pub open spec fn wf(&self) -> bool {
        &&& self.pending.wf()
        &&& self.running.wf()
        &&& self.succeeded.wf()
        &&& self.colors.wf()
        &&& forall|id: Seq<char>| #[trigger]
            self.pending@.contains_key(id) ==> self.pending@[id].id@ == id
                && self.colors@.contains_key(id)
        &&& self.running.names().len() <= self.jobs
        &&& apart(self.pending@.dom(), self.running@)
        &&& apart(self.pending@.dom(), self.succeeded@)
        &&& apart(self.pending@.dom(), self.failures())
        &&& apart(self.running@, self.succeeded@)
        &&& apart(self.running@, self.failures())
        &&& apart(self.succeeded@, self.failures())
        &&& texts(self.failed@).no_duplicates()
    }

    /// How many more invocations may start.
    pub open spec fn room(&self) -> nat {
        if self.running.names().len() < self.jobs {
            (self.jobs - self.running.names().len()) as nat
        } else {
            0
        }
    }

    /// The invocations that start next: none after a failure; else those whose dependencies all
    /// succeeded, by id, as far as there is room.
    pub open spec fn chosen(&self) -> Seq<Seq<char>> {
        if self.failed@.len() > 0 {
            Seq::empty()
        } else {
            at_most(ready_names(self.pending.entries@, self.succeeded@), self.room())
        }
    }

    /// The prefix for the output of an invocation.
    pub open spec fn prefix(&self, id: Seq<char>) -> Seq<char> {
        painted(padded(id, self.width as nat) + " | "@, self.colors@[id], self.color)
    }

    /// What does not change in a run.
    pub open spec fn same_settings(&self, other: Scheduler) -> bool {
        &&& self.jobs == other.jobs
        &&& self.width == other.width
        &&& self.colors == other.colors
        &&& self.color == other.color
    }

    /// The state of a run of these invocations in which nothing has happened yet.
    pub open spec fn begins(&self, invocations: Seq<Invocation>, jobs: usize, color: bool) -> bool {
        &&& self.pending@ == invocation_table(invocations)
        &&& self.running@ == Set::<Seq<char>>::empty()
        &&& self.succeeded@ == Set::<Seq<char>>::empty()
        &&& self.failed@.len() == 0
        &&& self.jobs == jobs
        &&& self.width == widest(invocation_ids(invocations))
        &&& self.colors@ == color_table(invocation_ids(invocations))
        &&& self.color == color
    }

    pub fn new(invocations: Vec<Invocation>, jobs: usize, color: bool) -> (run: Scheduler)
        ensures
            run.wf(),
            run.begins(invocations@, jobs, color),
            run.all() == invocation_ids(invocations@).to_set(),
    {
        let ghost given = invocations@;
        let ghost ids = invocation_ids(given);
        let mut list: Vec<String> = Vec::new();
        let mut colors: NameMap<Color> = NameMap::new();
        let mut pending: NameMap<Invocation> = NameMap::new();
        let mut n: usize = 0;
        let total = invocations.len();
        proof {
            assert(pending@.dom() =~= ids.take(0).to_set());
        }
        for invocation in it: invocations
            invariant
                it.seq() == given,
                given.len() == total,
                ids == invocation_ids(given),
                n == it.index(),
                colors.wf(),
                pending.wf(),
                list@.len() == n,
                forall|k: int| 0 <= k < n ==> #[trigger] list@[k]@ == ids[k],
                colors@ == color_table(ids.take(n as int)),
                pending@ == invocation_table(given.take(n as int)),
                pending@.dom() == ids.take(n as int).to_set(),
                pending@.dom() == colors@.dom(),
                forall|id: Seq<char>| #[trigger]
                    pending@.contains_key(id) ==> pending@[id].id@ == id,
        {
            proof {
                assert(invocation == given[n as int]);
                assert(given.take(n + 1).drop_last() =~= given.take(n as int));
                assert(ids.take(n + 1).drop_last() =~= ids.take(n as int));
                lemma_take_more(ids, n as int);
            }
            list.push(invocation.id.clone());
            colors.insert(invocation.id.clone(), pick_color(n));
            let id = invocation.id.clone();
            pending.insert(id, invocation);
            proof {
                assert(pending@.dom() =~= ids.take(n + 1).to_set());
                assert(colors@.dom() =~= pending@.dom());
            }
            n += 1;
        }
        let width = widest_of(&list);
        let run = Scheduler {
            pending,
            running: NameSet::new(),
            succeeded: NameSet::new(),
            failed: Vec::new(),
            jobs,
            width,
            colors,
            color,
        };
        proof {
            assert(given.take(n as int) =~= given);
            assert(ids.take(n as int) =~= ids);
            assert(texts(list@) =~= ids);
            assert(run.failures() =~= Set::<Seq<char>>::empty());
            assert(run.all() =~= ids.to_set());
        }
        run
    }

    fn label(&self, id: &str) -> (prefix: String)
        requires
            self.wf(),
            self.colors@.contains_key(id@),
        ensures
            prefix@ == self.prefix(id@),
    {
        let mut text = pad(id, self.width);
        text.append(" | ");
        match self.colors.get(id) {
            Some(color) => paint(text.as_str(), *color, self.color),
            None => text,
        }
    }

    /// The names of the invocations that start next.
    fn choose_ready(&self) -> (ready: Vec<String>)
        requires
            self.wf(),
        ensures
            texts(ready@) == self.chosen(),
    {
        let mut ready: Vec<String> = Vec::new();
        if self.failed.len() > 0 {
            proof {
                assert(texts(ready@) =~= self.chosen());
            }
            return ready;
        }
        let entries = &self.pending.entries;
        let running = self.running.len();
        let room: usize = if running < self.jobs {
            self.jobs - running
        } else {
            0
        };
        let mut i: usize = 0;
        proof {
            assert(texts(ready@) =~= at_most(
                ready_names(entries@.take(0), self.succeeded@),
                room as nat,
            ));
        }
        while i < entries.len()
            invariant
                i <= entries@.len(),
                *entries == self.pending.entries,
                self.wf(),
                texts(ready@) == at_most(
                    ready_names(entries@.take(i as int), self.succeeded@),
                    room as nat,
                ),
            decreases entries.len() - i,
        {
            let ghost before = ready_names(entries@.take(i as int), self.succeeded@);
            let ghost had = texts(ready@);
            proof {
                let next = entries@.take(i + 1);
                assert(next.drop_last() =~= entries@.take(i as int));
                assert(next.last() == entries@[i as int]);
            }
            if all_in(&entries[i].1.deps, &self.succeeded) {
                if ready.len() < room {
                    ready.push(entries[i].0.clone());
                    proof {
                        assert(texts(ready@) =~= had.push(entries@[i as int].0@));
                    }
                } else {
                    proof {
                        assert(had =~= at_most(before.push(entries@[i as int].0@), room as nat));
                    }
                }
            }
            i += 1;
        }
        proof {
            assert(entries@.take(i as int) =~= entries@);
        }
        ready
    }

    /// The names chosen to start are pending, ready and different.
    proof fn lemma_chosen(&self)
        requires
            self.wf(),
        ensures
            self.chosen().len() <= self.room(),
            sorted_texts(self.chosen()),
            forall|k: int|
                0 <= k < self.chosen().len() ==> {
                    &&& self.pending@.contains_key(#[trigger] self.chosen()[k])
                    &&& self.pending@[self.chosen()[k]].deps@.subset_of(self.succeeded@)
                },
    {
        if self.failed@.len() == 0 {
            let entries = self.pending.entries@;
            let all = ready_names(entries, self.succeeded@);
            let some = self.chosen();
            assert forall|i: int, j: int| 0 <= i < j < entries.len() implies text_less()(
                (#[trigger] entries[i]).0@,
                (#[trigger] entries[j]).0@,
            ) by {
                assert(text_less()(self.pending.names()[i], self.pending.names()[j]));
            }
            lemma_ready_names(entries, self.succeeded@);
            assert forall|a: int, b: int| 0 <= a < b < some.len() implies text_less()(
                #[trigger] some[a],
                #[trigger] some[b],
            ) by {
                assert(some[a] == all[a] && some[b] == all[b]);
            }
            assert forall|k: int| 0 <= k < some.len() implies {
                &&& self.pending@.contains_key(#[trigger] some[k])
                &&& self.pending@[some[k]].deps@.subset_of(self.succeeded@)
            } by {
                assert(some[k] == all[k]);
                assert(ready_entry(entries, self.succeeded@, all[k]));
                let i = choose|i: int|
                    0 <= i < entries.len() && (#[trigger] entries[i]).0@ == all[k]
                        && entries[i].1.deps@.subset_of(self.succeeded@);
                assert(self.pending.names()[i] == entries[i].0@);
                self.pending.lemma_at(i);
            }
        }
    }

    /// What was launched, and the state after it.
    pub open spec fn launches(&self, launched: Seq<Launch>, after: Scheduler) -> bool {
        &&& launch_ids(launched) == self.chosen()
        &&& forall|i: int|
            0 <= i < launched.len() ==> {
                &&& (#[trigger] launched[i]).invocation == self.pending@[self.chosen()[i]]
                &&& launched[i].prefix@ == self.prefix(self.chosen()[i])
            }
        &&& after.pending@ == self.pending@.remove_keys(self.chosen().to_set())
        &&& after.pending.entries@.len() == self.pending.entries@.len() - self.chosen().len()
        &&& after.running@ == self.running@.union(self.chosen().to_set())
        &&& after.running.names().len() == self.running.names().len() + self.chosen().len()
        &&& after.succeeded == self.succeeded
        &&& after.failed == self.failed
        &&& after.same_settings(*self)
    }

    /// Starts what can start. After the first failure nothing does.
    pub fn launch(&mut self) -> (launched: Vec<Launch>)
        requires
            old(self).wf(),
        ensures
            final(self).wf(),
            old(self).launches(launched@, *final(self)),
    {
        let ghost before = *self;
        let ghost chosen = before.chosen();
        let ready = self.choose_ready();
        let mut launched: Vec<Launch> = Vec::new();
        let mut k: usize = 0;
        proof {
            before.lemma_chosen();
            lemma_text_order();
            assert(chosen.take(0).to_set() =~= Set::<Seq<char>>::empty());
            assert(self.pending@ =~= before.pending@.remove_keys(chosen.take(0).to_set()));
            assert(self.running@ =~= before.running@.union(chosen.take(0).to_set()));
        }
        while k < ready.len()
            invariant
                k <= ready@.len(),
                texts(ready@) == chosen,
                chosen == before.chosen(),
                before.wf(),
                chosen.len() <= before.room(),
                sorted_texts(chosen),
                crate::order::strict_total(text_less()),
                forall|i: int|
                    0 <= i < chosen.len() ==> before.pending@.contains_key(#[trigger] chosen[i]),
                launched@.len() == k,
                forall|i: int|
                    0 <= i < k ==> {
                        &&& (#[trigger] launched@[i]).invocation == before.pending@[chosen[i]]
                        &&& launched@[i].prefix@ == before.prefix(chosen[i])
                    },
                self.pending@ == before.pending@.remove_keys(chosen.take(k as int).to_set()),
                self.pending.entries@.len() == before.pending.entries@.len() - k,
                self.running@ == before.running@.union(chosen.take(k as int).to_set()),
                self.running.names().len() == before.running.names().len() + k,
                self.succeeded == before.succeeded,
                self.failed == before.failed,
                self.same_settings(before),
                self.wf(),
            decreases ready.len() - k,
        {
            let id = &ready[k];
            let ghost taken = chosen.take(k as int);
            proof {
                assert(chosen[k as int] == id@);
                assert(!taken.contains(id@)) by {
                    if taken.contains(id@) {
                        let j = taken.index_of(id@);
                        assert(text_less()(chosen[j], chosen[k as int]));
                    }
                }
                assert(!taken.to_set().contains(id@));
                assert(self.pending@.contains_key(id@));
                lemma_take_more(chosen, k as int);
            }
            let prefix = self.label(id.as_str());
            match self.pending.find(id.as_str()) {
                Some(at) => {
                    let (_, invocation) = self.pending.remove_at(at);
                    launched.push(Launch { invocation, prefix });
                },
                None => {
                    proof {
                        assert(false);
                    }
                },
            }
            proof {
                assert(!self.running@.contains(id@));
            }
            self.running.insert(id.clone());
            proof {
                let now = chosen.take(k + 1).to_set();
                assert(self.pending@ =~= before.pending@.remove_keys(now));
                assert(self.running@ =~= before.running@.union(now));
            }
            k += 1;
        }
        proof {
            assert(chosen.take(k as int) =~= chosen);
            assert forall|i: int| 0 <= i < launched@.len() implies #[trigger] launch_ids(
                launched@,
            )[i] == chosen[i] by {
                assert(before.pending@.contains_key(chosen[i]));
                assert(launched@[i].invocation == before.pending@[chosen[i]]);
            }
            assert(launch_ids(launched@) =~= chosen);
        }
        launched
    }

    /// The state after the end of an invocation.
    pub open spec fn finishes(&self, id: Seq<char>, ok: bool, after: Scheduler) -> bool {
        &&& after.pending == self.pending
        &&& after.running@ == self.running@.remove(id)
        &&& after.running.names().len() == self.running.names().len() - 1
        &&& after.same_settings(*self)
        &&& if ok {
            after.succeeded@ == self.succeeded@.insert(id) && after.failed == self.failed
        } else {
            after.succeeded == self.succeeded && texts(after.failed@) == texts(self.failed@).push(id)
        }
    }

    /// Takes note of the end of an invocation.
    pub fn finish(&mut self, id: String, ok: bool)
        requires
            old(self).wf(),
            old(self).running@.contains(id@),
        ensures
            final(self).wf(),
            old(self).finishes(id@, ok, *final(self)),
    {
        let ghost before = *self;
        let ghost name = id@;
        self.running.remove(id.as_str());
        if ok {
            self.succeeded.insert(id);
        } else {
            self.failed.push(id);
            proof {
                let had = texts(before.failed@);
                let now = texts(self.failed@);
                assert(now =~= had.push(name));
                lemma_take_more(now, had.len() as int);
                assert(now.take(had.len() as int) =~= had);
                assert(now.take(had.len() as int + 1) =~= now);
                assert(!had.to_set().contains(name));
                assert(now.no_duplicates());
            }
        }
    }

    /// Nothing runs.
    pub open spec fn idle(&self) -> bool {
        self.running@ == Set::<Seq<char>>::empty()
    }

    /// Whether nothing runs. After a launch that means that the run is over.
    pub fn is_idle(&self) -> (idle: bool)
        ensures
            idle == self.idle(),
    {
        self.running.is_empty()
    }

    /// The lines that tell what failed and what was not started.
    pub open spec fn failure_lines(&self) -> Seq<Seq<char>> {
        let failed = "\n"@ + painted("✗"@, Color::Red, self.color) + " task failed in: "@ + joined(
            texts(self.failed@),
            ", "@,
        );
        if self.pending.entries@.len() == 0 {
            seq![failed]
        } else {
            seq![failed, "  skipped: "@ + joined(self.pending.names(), ", "@)]
        }
    }

    /// What `outcome` gives.
    pub open spec fn comes_to(&self, outcome: Result<(i32, Vec<String>), Error>) -> bool {
        match outcome {
            Ok((code, lines)) => if self.failed@.len() > 0 {
                code == 1 && texts(lines@) == self.failure_lines()
            } else {
                self.pending.entries@.len() == 0 && code == 0 && lines@.len() == 0
            },
            Err(Error::Unrunnable(ids)) => {
                &&& self.failed@.len() == 0
                &&& self.pending.entries@.len() > 0
                &&& texts(ids@) == self.pending.names()
            },
            Err(_) => false,
        }
    }

    /// The outcome of a run that is over: exit code 1, and lines that tell what failed and what
    /// was skipped, after a failure; 0 if everything succeeded. What is left without a failure
    /// could never start.
    pub fn outcome(&self) -> (outcome: Result<(i32, Vec<String>), Error>)
        ensures
            self.comes_to(outcome),
    {
        let mut lines: Vec<String> = Vec::new();
        if self.failed.len() > 0 {
            let mut line = "\n".to_owned();
            line.append(paint("✗", Color::Red, self.color).as_str());
            line.append(" task failed in: ");
            line.append(join(&self.failed, ", ").as_str());
            lines.push(line);
            if self.pending.len() > 0 {
                let mut skipped = "  skipped: ".to_owned();
                skipped.append(join(&self.pending.name_list(), ", ").as_str());
                lines.push(skipped);
            }
            proof {
                assert(texts(lines@) =~= self.failure_lines());
            }
            Ok((1, lines))
        } else if self.pending.len() > 0 {
            Err(Error::Unrunnable(self.pending.name_list()))
        } else {
            Ok((0, lines))
        }
    }
}

/// An invocation starts only after everything that it depends on has succeeded.
pub proof fn law_starts_after_dependencies(
    before: Scheduler,
    launched: Seq<Launch>,
    after: Scheduler,
    i: int,
)
    requires
        before.wf(),
        before.launches(launched, after),
        0 <= i < launched.len(),
    ensures
        launched[i].invocation.deps@.subset_of(before.succeeded@),
        before.pending@.contains_key(launched[i].invocation.id@),
        after.running@.contains(launched[i].invocation.id@),
{
    before.lemma_chosen();
    let id = before.chosen()[i];
    assert(before.pending@.contains_key(id));
    assert(before.chosen().contains(id));
    assert(launched[i].invocation == before.pending@[id]);
}

/// After a failure nothing starts any more.
pub proof fn law_fails_fast(before: Scheduler, launched: Seq<Launch>, after: Scheduler)
    requires
        before.launches(launched, after),
        before.failed@.len() > 0,
    ensures
        launched.len() == 0,
{
    assert(launch_ids(launched).len() == 0);
}

/// Never do more invocations run than there are jobs.
pub proof fn law_never_more_than_jobs(run: Scheduler)
    requires
        run.wf(),
    ensures
        run.running@.len() <= run.jobs,
{
    run.running.names().lemma_cardinality_of_set();
}

/// No invocation is lost, and none is in two places, whatever starts and ends.
pub proof fn law_launch_loses_nothing(before: Scheduler, launched: Seq<Launch>, after: Scheduler)
    requires
        before.wf(),
        before.launches(launched, after),
    ensures
        after.all() == before.all(),
{
    before.lemma_chosen();
    let chosen = before.chosen().to_set();
    assert forall|x: Seq<char>| chosen.contains(x) implies before.pending@.contains_key(x) by {
        let k = before.chosen().index_of(x);
        assert(before.pending@.contains_key(before.chosen()[k]));
    }
    assert(after.all() =~= before.all());
}

/// No invocation is lost when one ends, and one that ended does not start again.
pub proof fn law_finish_loses_nothing(before: Scheduler, id: Seq<char>, ok: bool, after: Scheduler)
    requires
        before.wf(),
        before.running@.contains(id),
        before.finishes(id, ok, after),
    ensures
        after.all() == before.all(),
        !after.pending@.contains_key(id),
        ok ==> after.succeeded@.contains(id),
        !ok ==> after.failures().contains(id),
{
    if !ok {
        let had = texts(before.failed@);
        let now = texts(after.failed@);
        lemma_take_more(now, had.len() as int);
        assert(now.take(had.len() as int) =~= had);
        assert(now.take(had.len() as int + 1) =~= now);
        assert(after.failures() =~= before.failures().insert(id));
    }
    assert(after.all() =~= before.all());
}

/// When a run is over without a failure and with nothing left, everything succeeded.
pub proof fn law_success_means_all(run: Scheduler)
    requires
        run.wf(),
        run.running@ == Set::<Seq<char>>::empty(),
        run.failed@.len() == 0,
        run.pending.entries@.len() == 0,
    ensures
        run.succeeded@ == run.all(),
{
    assert(run.failures() =~= Set::<Seq<char>>::empty());
    assert(run.pending@.dom() =~= Set::<Seq<char>>::empty());
    assert(run.all() =~= run.succeeded@);
}

/// The dependencies of each invocation come before it in `order`.
pub open spec fn runnable(plan: Map<Seq<char>, Set<Seq<char>>>, order: Seq<Seq<char>>) -> bool {
    &&& order.to_set() == plan.dom()
    &&& forall|i: int, dep: Seq<char>|
        0 <= i < order.len() && #[trigger] plan[order[i]].contains(dep) ==> order.take(i).contains(
            dep,
        )
}

impl Scheduler {
    /// The run is one of this plan.
    pub open spec fn follows(&self, plan: Map<Seq<char>, Set<Seq<char>>>) -> bool {
        &&& self.all() == plan.dom()
        &&& forall|id: Seq<char>| #[trigger]
            self.pending@.contains_key(id) ==> plan[id] == self.pending@[id].deps@
    }
}

/// A run of a plan without circles does not come to a halt: as long as nothing failed and nothing
/// runs, something that is left can start.
pub proof fn law_never_stuck(
    run: Scheduler,
    plan: Map<Seq<char>, Set<Seq<char>>>,
    order: Seq<Seq<char>>,
)
    requires
        run.wf(),
        run.follows(plan),
        runnable(plan, order),
        run.jobs > 0,
        run.failed@.len() == 0,
        run.running@ == Set::<Seq<char>>::empty(),
        run.pending.entries@.len() > 0,
    ensures
        run.chosen().len() > 0,
{
    let id = run.pending.names()[0];
    run.pending.lemma_at(0);
    assert(run.all().contains(id));
    assert(order.to_set().contains(id));
    let k = order.index_of(id);
    assert(order[k] == id);
    lemma_some_ready(run, plan, order, k);
    let entries = run.pending.entries@;
    let i = choose|i: int|
        0 <= i < entries.len() && (#[trigger] entries[i]).1.deps@.subset_of(run.succeeded@);
    assert forall|i: int, j: int| 0 <= i < j < entries.len() implies text_less()(
        (#[trigger] entries[i]).0@,
        (#[trigger] entries[j]).0@,
    ) by {
        assert(text_less()(run.pending.names()[i], run.pending.names()[j]));
    }
    lemma_ready_names(entries, run.succeeded@);
    assert(ready_names(entries, run.succeeded@).contains(entries[i].0@));
    assert(run.running.names().len() == 0) by {
        if run.running.names().len() > 0 {
            assert(run.running@.contains(run.running.names()[0]));
        }
    }
}

proof fn lemma_some_ready(
    run: Scheduler,
    plan: Map<Seq<char>, Set<Seq<char>>>,
    order: Seq<Seq<char>>,
    k: int,
)
    requires
        run.wf(),
        run.follows(plan),
        runnable(plan, order),
        run.failed@.len() == 0,
        run.running@ == Set::<Seq<char>>::empty(),
        0 <= k < order.len(),
        run.pending@.contains_key(order[k]),
    ensures
        exists|i: int|
            0 <= i < run.pending.entries@.len() && (
            #[trigger] run.pending.entries@[i]).1.deps@.subset_of(run.succeeded@),
    decreases k,
{
    let id = order[k];
    let at = run.pending.names().index_of(id);
    assert(run.pending.names()[at] == id);
    run.pending.lemma_at(at);
    if !run.pending.entries@[at].1.deps@.subset_of(run.succeeded@) {
        let dep = choose|dep: Seq<char>|
            plan[id].contains(dep) && !run.succeeded@.contains(dep);
        assert(plan[order[k]].contains(dep));
        assert(order.take(k).contains(dep));
        let j = order.take(k).index_of(dep);
        assert(order[j] == dep);
        assert(order.contains(dep));
        assert(order.to_set().contains(dep));
        assert(run.all().contains(dep));
        assert(run.failures() =~= Set::<Seq<char>>::empty());
        lemma_some_ready(run, plan, order, j);
    }
}

/// A run stays one of its plan.
pub proof fn law_run_follows_plan(
    before: Scheduler,
    plan: Map<Seq<char>, Set<Seq<char>>>,
    launched: Seq<Launch>,
    mid: Scheduler,
    id: Seq<char>,
    ok: bool,
    after: Scheduler,
)
    requires
        before.wf(),
        before.follows(plan),
        before.launches(launched, mid),
        mid.wf(),
        mid.running@.contains(id),
        mid.finishes(id, ok, after),
    ensures
        mid.follows(plan),
        after.follows(plan),
{
    law_launch_loses_nothing(before, launched, mid);
    law_finish_loses_nothing(mid, id, ok, after);
    assert forall|id: Seq<char>| #[trigger] mid.pending@.contains_key(id) implies plan[id]
        == mid.pending@[id].deps@ by {
        assert(before.pending@.contains_key(id));
    }
}

impl Scheduler {
    /// What is left to do: each invocation has to start and to end.
    pub open spec fn work(&self) -> nat {
        2 * self.pending.entries@.len() + self.running.names().len()
    }
}

/// A run comes to an end: whatever starts or ends, there is less left to do.
pub proof fn law_run_ends(
    before: Scheduler,
    launched: Seq<Launch>,
    mid: Scheduler,
    id: Seq<char>,
    ok: bool,
    after: Scheduler,
)
    requires
        before.launches(launched, mid),
        mid.finishes(id, ok, after),
    ensures
        mid.work() == before.work() - launched.len(),
        after.work() == mid.work() - 1,
{
    assert(launch_ids(launched).len() == launched.len());
}

proof fn lemma_table_order(run: Scheduler)
    requires
        run.wf(),
    ensures
        forall|i: int, j: int|
            0 <= i < j < run.pending.entries@.len() ==> text_less()(
                (#[trigger] run.pending.entries@[i]).0@,
                (#[trigger] run.pending.entries@[j]).0@,
            ),
{
    let entries = run.pending.entries@;
    assert forall|i: int, j: int| 0 <= i < j < entries.len() implies text_less()(
        (#[trigger] entries[i]).0@,
        (#[trigger] entries[j]).0@,
    ) by {
        assert(text_less()(run.pending.names()[i], run.pending.names()[j]));
    }
}

/// Pending invocations that are ready are among the ready names.
proof fn lemma_ready_is_listed(run: Scheduler, id: Seq<char>)
    requires
        run.wf(),
        run.pending@.contains_key(id),
        run.pending@[id].deps@.subset_of(run.succeeded@),
    ensures
        ready_names(run.pending.entries@, run.succeeded@).contains(id),
{
    let entries = run.pending.entries@;
    let at = run.pending.names().index_of(id);
    assert(run.pending.names().contains(id));
    assert(run.pending.names()[at] == entries[at].0@);
    run.pending.lemma_at(at);
    lemma_table_order(run);
    lemma_ready_names(entries, run.succeeded@);
    assert(entries[at].1.deps@.subset_of(run.succeeded@));
}

/// No job stays idle without need: if after a launch fewer invocations run than there are jobs,
/// and nothing failed, then each one left waits for something that has not succeeded yet.
pub proof fn law_no_job_stays_idle(
    before: Scheduler,
    launched: Seq<Launch>,
    after: Scheduler,
    id: Seq<char>,
)
    requires
        before.wf(),
        before.launches(launched, after),
        before.failed@.len() == 0,
        after.running.names().len() < after.jobs,
        after.pending@.contains_key(id),
    ensures
        exists|dep: Seq<char>| #[trigger]
            after.pending@[id].deps@.contains(dep) && !after.succeeded@.contains(dep),
{
    assert(before.pending@.contains_key(id));
    assert(after.pending@[id] == before.pending@[id]);
    if before.pending@[id].deps@.subset_of(before.succeeded@) {
        lemma_ready_is_listed(before, id);
        let all = ready_names(before.pending.entries@, before.succeeded@);
        assert(before.chosen() == all);
        assert(before.chosen().to_set().contains(id));
    }
    let dep = choose|dep: Seq<char>|
        before.pending@[id].deps@.contains(dep) && !before.succeeded@.contains(dep);
    assert(after.pending@[id].deps@.contains(dep) && !after.succeeded@.contains(dep));
}

/// Invocations start by id: those that start come in increasing order, and one that could have
/// started but has not comes after all that have.
pub proof fn law_least_ids_start_first(
    before: Scheduler,
    launched: Seq<Launch>,
    after: Scheduler,
    i: int,
    j: int,
    other: Seq<char>,
)
    requires
        before.wf(),
        before.launches(launched, after),
        0 <= i < launched.len(),
    ensures
        i < j < launched.len() ==> text_less()(
            launched[i].invocation.id@,
            launched[j].invocation.id@,
        ),
        after.pending@.contains_key(other) && after.pending@[other].deps@.subset_of(
            before.succeeded@,
        ) ==> text_less()(launched[i].invocation.id@, other),
{
    before.lemma_chosen();
    let some = before.chosen();
    assert(launch_ids(launched)[i] == launched[i].invocation.id@);
    if i < j < launched.len() {
        assert(launch_ids(launched)[j] == launched[j].invocation.id@);
        assert(text_less()(some[i], some[j]));
    }
    if after.pending@.contains_key(other) && after.pending@[other].deps@.subset_of(
        before.succeeded@,
    ) {
        lemma_ready_is_listed(before, other);
        lemma_table_order(before);
        let all = ready_names(before.pending.entries@, before.succeeded@);
        lemma_ready_names(before.pending.entries@, before.succeeded@);
        let k = all.index_of(other);
        assert(all[k] == other);
        if k < some.len() {
            assert(some[k] == other);
            assert(some.contains(other));
            assert(some.to_set().contains(other));
        }
        assert(some[i] == all[i]);
        assert(text_less()(all[i], all[k]));
    }
}

/// A launch moves invocations from pending to running, as they were planned, and changes nothing
/// else.
pub proof fn law_launch_moves_invocations(
    before: Scheduler,
    launched: Seq<Launch>,
    after: Scheduler,
    id: Seq<char>,
    i: int,
)
    requires
        before.wf(),
        before.launches(launched, after),
    ensures
        after.pending@.contains_key(id) <==> before.pending@.contains_key(id) && forall|k: int|
            0 <= k < launched.len() ==> (#[trigger] launched[k]).invocation.id@ != id,
        after.pending@.contains_key(id) ==> after.pending@[id] == before.pending@[id],
        after.running@.contains(id) <==> before.running@.contains(id) || exists|k: int|
            0 <= k < launched.len() && (#[trigger] launched[k]).invocation.id@ == id,
        0 <= i < launched.len() ==> {
            &&& before.pending@.contains_key(launched[i].invocation.id@)
            &&& launched[i].invocation == before.pending@[launched[i].invocation.id@]
            &&& launched[i].prefix@ == before.prefix(launched[i].invocation.id@)
        },
        after.succeeded@ == before.succeeded@,
        after.failed@ == before.failed@,
        after.jobs == before.jobs && after.width == before.width && after.color == before.color,
        after.colors@ == before.colors@,
        after.running.names().len() <= before.jobs,
{
    let chosen = before.chosen();
    before.lemma_chosen();
    assert(launch_ids(launched) == chosen);
    assert(chosen.to_set().contains(id) == chosen.contains(id));
    if chosen.contains(id) {
        let k = chosen.index_of(id);
        assert(launch_ids(launched)[k] == id);
        assert(launched[k].invocation.id@ == id);
    }
    if exists|k: int| 0 <= k < launched.len() && (#[trigger] launched[k]).invocation.id@ == id {
        let k = choose|k: int|
            0 <= k < launched.len() && (#[trigger] launched[k]).invocation.id@ == id;
        assert(launch_ids(launched)[k] == id);
    }
    if 0 <= i < launched.len() {
        assert(launch_ids(launched)[i] == launched[i].invocation.id@);
        assert(before.pending@.contains_key(chosen[i]));
    }
}

/// The end of an invocation moves that one from running to succeeded or behind the others that
/// failed, and changes nothing else.
pub proof fn law_finish_moves_one(
    before: Scheduler,
    id: Seq<char>,
    ok: bool,
    after: Scheduler,
    other: Seq<char>,
    i: int,
)
    requires
        before.wf(),
        before.running@.contains(id),
        before.finishes(id, ok, after),
    ensures
        after.running@.contains(other) <==> before.running@.contains(other) && other != id,
        after.pending@ == before.pending@,
        ok ==> {
            &&& after.succeeded@.contains(other) <==> before.succeeded@.contains(other) || other
                == id
            &&& after.failed@ == before.failed@
        },
        !ok ==> {
            &&& after.succeeded@ == before.succeeded@
            &&& after.failed@.len() == before.failed@.len() + 1
            &&& after.failed@.last()@ == id
            &&& 0 <= i < before.failed@.len() ==> after.failed@[i]@ == before.failed@[i]@
        },
        after.jobs == before.jobs && after.width == before.width && after.color == before.color,
        after.colors@ == before.colors@,
{
    if !ok {
        let had = texts(before.failed@);
        let now = texts(after.failed@);
        assert(now.len() == had.len() + 1);
        assert(now[had.len() as int] == id);
        if 0 <= i < had.len() {
            assert(now[i] == had[i]);
        }
    }
}

/// A run succeeds, with exit code 0 and nothing to tell, exactly if nothing failed and nothing is
/// left. It fails with exit code 1 exactly if something failed: then the first line ends with what
/// failed, in the order of failure, and if anything is left a second line ends with that. What is
/// left without a failure is an error that names it.
pub proof fn law_outcome_tells_what_happened(
    run: Scheduler,
    outcome: Result<(i32, Vec<String>), Error>,
)
    requires
        run.comes_to(outcome),
    ensures
        run.failed@.len() == 0 && run.pending.entries@.len() == 0 ==> {
            &&& outcome matches Ok((code, told))
            &&& code == 0
            &&& told@.len() == 0
        },
        run.failed@.len() == 0 && run.pending.entries@.len() > 0 ==> {
            &&& outcome matches Err(Error::Unrunnable(left))
            &&& texts(left@) == run.pending.names()
        },
        run.failed@.len() > 0 ==> {
            &&& outcome matches Ok((code, told))
            &&& code == 1
            &&& told@.len() == if run.pending.entries@.len() == 0 {
                1nat
            } else {
                2nat
            }
            &&& ends_with(told@[0]@, " task failed in: "@ + joined(texts(run.failed@), ", "@))
            &&& run.pending.entries@.len() > 0 ==> ends_with(
                told@[1]@,
                "skipped: "@ + joined(run.pending.names(), ", "@),
            )
        },
{
    if run.failed@.len() > 0 {
        let lines = outcome->Ok_0.1@;
        let told = run.failure_lines();
        assert(texts(lines) == told);
        assert(texts(lines).len() == told.len());
        assert(texts(lines)[0] == told[0]);
        let names = " task failed in: "@ + joined(texts(run.failed@), ", "@);
        assert(told[0].skip(told[0].len() - names.len()) =~= names);
        if run.pending.entries@.len() > 0 {
            assert(texts(lines)[1] == told[1]);
            let left = "skipped: "@ + joined(run.pending.names(), ", "@);
            reveal_strlit("skipped: ");
            reveal_strlit("  skipped: ");
            assert(told[1].skip(told[1].len() - left.len()) =~= left);
        }
    }
}

/// An id stands for the last invocation that has it, and has the color whose turn it was then.
pub proof fn law_last_invocation_has_the_id(invocations: Seq<Invocation>, i: int)
    requires
        0 <= i < invocations.len(),
        forall|k: int|
            i < k < invocations.len() ==> (#[trigger] invocations[k]).id@ != invocations[i].id@,
    ensures
        invocation_table(invocations).contains_key(invocations[i].id@),
        invocation_table(invocations)[invocations[i].id@] == invocations[i],
        color_table(invocation_ids(invocations)).contains_key(invocations[i].id@),
        color_table(invocation_ids(invocations))[invocations[i].id@] == palette(i),
    decreases invocations.len(),
{
    let ids = invocation_ids(invocations);
    let head = invocations.drop_last();
    assert(ids.drop_last() =~= invocation_ids(head));
    if i < invocations.len() - 1 {
        assert forall|k: int| i < k < head.len() implies (#[trigger] head[k]).id@
            != head[i].id@ by {
            assert(invocations[k] == head[k]);
        }
        law_last_invocation_has_the_id(head, i);
        assert(invocations[invocations.len() - 1].id@ != invocations[i].id@);
    }
}

/// An id that no invocation has stands for nothing.
pub proof fn law_other_ids_have_no_invocation(invocations: Seq<Invocation>, id: Seq<char>)
    requires
        forall|k: int| 0 <= k < invocations.len() ==> (#[trigger] invocations[k]).id@ != id,
    ensures
        !invocation_table(invocations).contains_key(id),
        !color_table(invocation_ids(invocations)).contains_key(id),
    decreases invocations.len(),
{
    if invocations.len() > 0 {
        let head = invocations.drop_last();
        assert(invocation_ids(invocations).drop_last() =~= invocation_ids(head));
        assert forall|k: int| 0 <= k < head.len() implies (#[trigger] head[k]).id@ != id by {
            assert(invocations[k] == head[k]);
        }
        law_other_ids_have_no_invocation(head, id);
        assert(invocations[invocations.len() - 1].id@ != id);
    }
}

/// In a run that has just begun every invocation is pending and nothing else has happened. Prefixes
/// are as wide as the longest id, and colors are given out in turn.
pub proof fn law_new_run_has_all_pending(
    run: Scheduler,
    invocations: Seq<Invocation>,
    jobs: usize,
    color: bool,
    i: int,
)
    requires
        run.begins(invocations, jobs, color),
        0 <= i < invocations.len(),
        forall|a: int, b: int|
            0 <= a < b < invocations.len() ==> (#[trigger] invocations[a]).id@ != (
            #[trigger] invocations[b]).id@,
    ensures
        run.pending@.contains_key(invocations[i].id@),
        run.pending@[invocations[i].id@] == invocations[i],
        run.colors@[invocations[i].id@] == palette(i),
        invocations[i].id@.len() <= run.width,
        forall|id: Seq<char>| !#[trigger] run.running@.contains(id),
        forall|id: Seq<char>| !#[trigger] run.succeeded@.contains(id),
        run.failed@.len() == 0,
        run.jobs == jobs,
        run.color == color,
{
    law_last_invocation_has_the_id(invocations, i);
    let ids = invocation_ids(invocations);
    law_widest_is_the_maximum(ids);
    assert(ids[i] == invocations[i].id@);
    law_bytes_cover_characters(ids[i]);
}

/// Without colors, the prefix of an invocation begins with its id and ends with a bar between
/// spaces. Spaces fill it up, so that the prefixes of ids that are not too long are equally wide.
pub proof fn law_prefix_shows_the_id(run: Scheduler, id: Seq<char>, i: int)
    requires
        !run.color,
    ensures
        run.prefix(id).len() == (if id.len() < run.width {
            run.width as nat
        } else {
            id.len()
        }) + 3,
        run.prefix(id).take(id.len() as int) == id,
        id.len() <= i < run.prefix(id).len() - 2 ==> run.prefix(id)[i] == ' ',
        run.prefix(id)[run.prefix(id).len() - 2] == '|',
        run.prefix(id)[run.prefix(id).len() - 1] == ' ',
{
    reveal_strlit(" | ");
    let text = padded(id, run.width as nat);
    law_padding_adds_spaces(id, run.width as nat, i);
    assert(run.prefix(id) == text + " | "@);
    assert(run.prefix(id).take(id.len() as int) =~= id);
}

/// Colors put the prefix of an invocation, as it is without them, between escape sequences: those of
/// the color that the invocation was given.
pub proof fn law_colors_surround_the_prefix(run: Scheduler, other: Scheduler, id: Seq<char>)
    requires
        !run.color,
        other.color,
        other.width == run.width,
    ensures
        other.prefix(id).len() == run.prefix(id).len() + 10,
        other.prefix(id).subrange(5, 5 + run.prefix(id).len() as int) == run.prefix(id),
        other.prefix(id).take(5) == painted(Seq::empty(), other.colors@[id], true).take(5),
{
    let text = run.prefix(id);
    law_color_keeps_text(text, Seq::empty(), other.colors@[id]);
    assert(other.prefix(id) == painted(text, other.colors@[id], true));
}

/// A run is idle exactly as long as no invocation is running, whatever is pending.
pub proof fn law_idle_means_nothing_runs(run: Scheduler)
    ensures
        run.idle() <==> forall|id: Seq<char>| !#[trigger] run.running@.contains(id),
{
    if forall|id: Seq<char>| !#[trigger] run.running@.contains(id) {
        assert(run.running@ =~= Set::<Seq<char>>::empty());
    }
}

} // verus!
