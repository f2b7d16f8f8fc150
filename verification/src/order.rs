//! Lexicographic order on sequences, and what makes it a strict total order.

use vstd::prelude::*;

verus! {

/// `a` comes before `b` when, at the first place where they differ, `a` has ended or holds the
/// smaller item.
pub open spec fn precedes<T>(a: Seq<T>, b: Seq<T>, less: spec_fn(T, T) -> bool) -> bool
    decreases a.len(),
{
    if b.len() == 0 {
        false
    } else if a.len() == 0 {
        true
    } else if a[0] != b[0] {
        less(a[0], b[0])
    } else {
        precedes(a.drop_first(), b.drop_first(), less)
    }
}

/// A relation under which of two different values exactly one is the smaller.
pub open spec fn strict_total<T>(less: spec_fn(T, T) -> bool) -> bool {
    &&& forall|x: T| !#[trigger] less(x, x)
    &&& forall|x: T, y: T| x != y ==> #[trigger] less(x, y) || less(y, x)
    &&& forall|x: T, y: T, z: T| #[trigger] less(x, y) && #[trigger] less(y, z) ==> less(x, z)
}

/// No two neighbours, and so no two items at all, are out of order or equal.
pub open spec fn increasing<T>(s: Seq<T>, less: spec_fn(T, T) -> bool) -> bool {
    forall|i: int, j: int| 0 <= i < j < s.len() ==> less(#[trigger] s[i], #[trigger] s[j])
}

pub proof fn lemma_precedes_irreflexive<T>(a: Seq<T>, less: spec_fn(T, T) -> bool)
    ensures
        !precedes(a, a, less),
    decreases a.len(),
{
    if a.len() > 0 {
        lemma_precedes_irreflexive(a.drop_first(), less);
    }
}

pub proof fn lemma_precedes_total<T>(a: Seq<T>, b: Seq<T>, less: spec_fn(T, T) -> bool)
    requires
        strict_total(less),
        a != b,
    ensures
        precedes(a, b, less) || precedes(b, a, less),
    decreases a.len(),
{
    if a.len() == 0 || b.len() == 0 {
        assert(a.len() == 0 && b.len() == 0 ==> a =~= b);
    } else if a[0] == b[0] {
        if a.drop_first() == b.drop_first() {
            assert(a =~= seq![a[0]] + a.drop_first());
            assert(b =~= seq![b[0]] + b.drop_first());
        }
        lemma_precedes_total(a.drop_first(), b.drop_first(), less);
    } else {
        assert(less(a[0], b[0]) || less(b[0], a[0]));
    }
}

pub proof fn lemma_precedes_transitive<T>(
    a: Seq<T>,
    b: Seq<T>,
    c: Seq<T>,
    less: spec_fn(T, T) -> bool,
)
    requires
        strict_total(less),
        precedes(a, b, less),
        precedes(b, c, less),
    ensures
        precedes(a, c, less),
    decreases a.len(),
{
    if a.len() > 0 {
        if a[0] == b[0] && b[0] == c[0] {
            lemma_precedes_transitive(a.drop_first(), b.drop_first(), c.drop_first(), less);
        } else if a[0] != b[0] && b[0] != c[0] {
            assert(less(a[0], b[0]) && less(b[0], c[0]));
            assert(less(a[0], c[0]));
            if a[0] == c[0] {
                assert(!less(a[0], a[0]));
            }
        }
    }
}

/// Lexicographic order over a strict total order is one itself.
pub proof fn lemma_precedes_strict_total<T>(less: spec_fn(T, T) -> bool)
    requires
        strict_total(less),
    ensures
        strict_total(|a: Seq<T>, b: Seq<T>| precedes(a, b, less)),
{
    let over = |a: Seq<T>, b: Seq<T>| precedes(a, b, less);
    assert forall|x: Seq<T>| !#[trigger] over(x, x) by {
        lemma_precedes_irreflexive(x, less);
    }
    assert forall|x: Seq<T>, y: Seq<T>| x != y implies #[trigger] over(x, y) || over(y, x) by {
        lemma_precedes_total(x, y, less);
    }
    assert forall|x: Seq<T>, y: Seq<T>, z: Seq<T>| #[trigger]
        over(x, y) && #[trigger] over(y, z) implies over(x, z) by {
        lemma_precedes_transitive(x, y, z, less);
    }
}

/// Sequences in increasing order that hold the same items are the same sequence.
pub proof fn lemma_increasing_unique<T>(a: Seq<T>, b: Seq<T>, less: spec_fn(T, T) -> bool)
    requires
        strict_total(less),
        increasing(a, less),
        increasing(b, less),
        forall|x: T| a.contains(x) <==> b.contains(x),
    ensures
        a == b,
    decreases a.len(),
{
    if a.len() == 0 {
        if b.len() > 0 {
            assert(b.contains(b[0]));
        }
        assert(a =~= b);
    } else {
        assert(a.contains(a[0]));
        assert(b.contains(a[0]));
        assert(b.contains(b[0]));
        assert(a.contains(b[0]));
        let i = choose|i: int| 0 <= i < b.len() && b[i] == a[0];
        let j = choose|j: int| 0 <= j < a.len() && a[j] == b[0];
        if a[0] != b[0] {
            assert(less(b[0], b[i]));
            assert(less(a[0], a[j]));
            assert(less(a[0], a[0]));
        }
        let at = a.drop_first();
        let bt = b.drop_first();
        assert forall|i: int, j: int| 0 <= i < j < at.len() implies less(
            #[trigger] at[i],
            #[trigger] at[j],
        ) by {
            assert(less(a[i + 1], a[j + 1]));
        }
        assert forall|i: int, j: int| 0 <= i < j < bt.len() implies less(
            #[trigger] bt[i],
            #[trigger] bt[j],
        ) by {
            assert(less(b[i + 1], b[j + 1]));
        }
        assert forall|x: T| at.contains(x) <==> bt.contains(x) by {
            lemma_tail_contains(a, x, less);
            lemma_tail_contains(b, x, less);
        }
        lemma_increasing_unique(at, bt, less);
        assert(a =~= seq![a[0]] + at);
        assert(b =~= seq![b[0]] + bt);
    }
}

proof fn lemma_tail_contains<T>(s: Seq<T>, x: T, less: spec_fn(T, T) -> bool)
    requires
        strict_total(less),
        increasing(s, less),
        s.len() > 0,
    ensures
        s.drop_first().contains(x) <==> s.contains(x) && x != s[0],
{
    let t = s.drop_first();
    if t.contains(x) {
        let i = choose|i: int| 0 <= i < t.len() && t[i] == x;
        assert(s[i + 1] == x);
        assert(less(s[0], s[i + 1]));
    }
    if s.contains(x) && x != s[0] {
        let i = choose|i: int| 0 <= i < s.len() && s[i] == x;
        assert(t[i - 1] == x);
    }
}

/// Below place `i` all items come before `x`, from there on all come after it.
pub proof fn lemma_absent<T>(s: Seq<T>, x: T, i: int, less: spec_fn(T, T) -> bool)
    requires
        strict_total(less),
        0 <= i <= s.len(),
        forall|k: int| 0 <= k < i ==> less(#[trigger] s[k], x),
        forall|k: int| i <= k < s.len() ==> less(x, #[trigger] s[k]),
    ensures
        !s.contains(x),
        !s.to_set().contains(x),
{
    if s.contains(x) {
        let k = s.index_of(x);
        assert(s[k] == x);
    }
}

/// Put in its place, an item leaves the order as it is.
pub proof fn lemma_inserted<T>(s: Seq<T>, x: T, i: int, less: spec_fn(T, T) -> bool)
    requires
        strict_total(less),
        increasing(s, less),
        0 <= i <= s.len(),
        forall|k: int| 0 <= k < i ==> less(#[trigger] s[k], x),
        forall|k: int| i <= k < s.len() ==> less(x, #[trigger] s[k]),
    ensures
        increasing(s.insert(i, x), less),
        s.insert(i, x).to_set() == s.to_set().insert(x),
{
    let after = s.insert(i, x);
    assert forall|a: int, b: int| 0 <= a < b < after.len() implies less(
        #[trigger] after[a],
        #[trigger] after[b],
    ) by {
        if a < i {
            assert(after[a] == s[a]);
        }
        if a > i {
            assert(after[a] == s[a - 1]);
        }
        if b < i {
            assert(after[b] == s[b]);
        }
        if b > i {
            assert(after[b] == s[b - 1]);
        }
    }
    assert forall|y: T|
        #![trigger after.contains(y)]
        after.contains(y) <==> s.contains(y) || y == x by {
        if after.contains(y) && y != x {
            let k = after.index_of(y);
            if k < i {
                assert(s[k] == y);
            } else {
                assert(s[k - 1] == y);
            }
        }
        if s.contains(y) {
            let k = s.index_of(y);
            if k < i {
                assert(after[k] == y);
            } else {
                assert(after[k + 1] == y);
            }
        }
        if y == x {
            assert(after[i] == y);
        }
    }
    assert(after.to_set() =~= s.to_set().insert(x));
}

pub proof fn lemma_take_more<T>(s: Seq<T>, i: int)
    requires
        0 <= i < s.len(),
    ensures
        s.take(i + 1) == s.take(i).push(s[i]),
        s.take(i + 1).to_set() == s.take(i).to_set().insert(s[i]),
{
    let a = s.take(i);
    let b = s.take(i + 1);
    assert(b =~= a.push(s[i]));
    assert forall|x: T| #![trigger b.contains(x)] b.contains(x) <==> a.contains(x) || x == s[i] by {
        if b.contains(x) {
            let k = b.index_of(x);
            if k < i {
                assert(a[k] == x);
            }
        }
        if a.contains(x) {
            let k = a.index_of(x);
            assert(b[k] == x);
        }
        if x == s[i] {
            assert(b[i] == x);
        }
    }
    assert(b.to_set() =~= a.to_set().insert(s[i]));
}

/// At the first place where two sequences differ the smaller item decides, and a sequence that has
/// ended there comes first.
pub proof fn law_first_difference_decides<T>(
    a: Seq<T>,
    b: Seq<T>,
    less: spec_fn(T, T) -> bool,
    i: int,
)
    requires
        0 <= i <= a.len(),
        i < b.len(),
        forall|k: int| 0 <= k < i ==> #[trigger] a[k] == b[k],
        i == a.len() || a[i] != b[i],
    ensures
        precedes(a, b, less) <==> i == a.len() || less(a[i], b[i]),
    decreases a.len(),
{
    if i > 0 {
        assert(a[0] == b[0]);
        let s = a.drop_first();
        let t = b.drop_first();
        assert forall|k: int| 0 <= k < i - 1 implies #[trigger] s[k] == t[k] by {
            assert(a[k + 1] == b[k + 1]);
        }
        law_first_difference_decides(s, t, less, i - 1);
    }
}

} // verus!
