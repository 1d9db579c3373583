use vstd::prelude::*;
use vstd::std_specs::cmp::OrdSpec;
use std::cmp::Ordering;
use std::collections::{HashSet, VecDeque};
use std::hash::Hash;
use vstd::pervasive::strictly_cloned;
use vstd::laws_cmp::obeys_cmp;
use vstd::set_lib::{lemma_int_range, lemma_len_subset, set_int_range};

verus! {

broadcast use vstd::std_specs::hash::group_hash_axioms;

/// Whether some element of `v` compares equal to `key`.
pub open spec fn contains_equal<T: Ord>(v: Seq<T>, key: T) -> bool {
    exists|i: int| 0 <= i < v.len() && (#[trigger] v[i]).cmp_spec(&key) == Ordering::Equal
}

/// Scans `v` from the front for an element that compares equal to `key`.
pub fn linear_contains<T: Ord>(v: &[T], key: &T) -> (r: bool)
    requires
        T::obeys_cmp_spec(),
    ensures
        r == contains_equal(v@, *key),
{
    let mut i: usize = 0;
    while i < v.len()
        invariant
            T::obeys_cmp_spec(),
            0 <= i <= v@.len(),
            forall|j: int| 0 <= j < i ==> (#[trigger] v@[j]).cmp_spec(key) != Ordering::Equal,
        decreases v@.len() - i,
    {
        match v[i].cmp(key) {
            Ordering::Equal => {
                return true;
            },
            _ => {},
        }
        i = i + 1;
    }
    false
}

/// `s` is in ascending order: no element compares greater than one after it.
pub open spec fn is_sorted<T: Ord>(s: Seq<T>) -> bool {
    forall|i: int, j: int|
        #![trigger s[i], s[j]]
        0 <= i < j < s.len() ==> s[i].cmp_spec(&s[j]) != Ordering::Greater
}

/// Relies on `slice::sort_unstable`: for an `Ord` that is a total order it
/// rearranges the elements into ascending order.
#[verifier::external_body]
fn sort_in_place<T: Ord>(v: &mut Vec<T>)
    requires
        obeys_cmp::<T>(),
    ensures
        final(v)@.to_multiset() == old(v)@.to_multiset(),
        is_sorted(final(v)@),
{
    v.sort_unstable();
}

/// Relies on `slice::binary_search`: on a sorted slice it returns `Ok` exactly
/// when some element compares equal to the key.
#[verifier::external_body]
fn sorted_contains<T: Ord>(v: &Vec<T>, key: &T) -> (r: bool)
    requires
        obeys_cmp::<T>(),
        is_sorted(v@),
    ensures
        r == contains_equal(v@, *key),
{
    v.binary_search(key).is_ok()
}

/// Sorts a copy of `v` and looks for `key` in it by bisection.
pub fn binary_contains<T: Ord + Clone>(v: &[T], key: &T) -> (r: bool)
    requires
        obeys_cmp::<T>(),
        clone_is_exact::<T>(),
    ensures
        r == contains_equal(v@, *key),
{
    let mut s: Vec<T> = Vec::new();
    let mut i: usize = 0;
    while i < v.len()
        invariant
            clone_is_exact::<T>(),
            0 <= i <= v@.len(),
            s@ == v@.subrange(0, i as int),
        decreases v@.len() - i,
    {
        let e = v[i].clone();
        assert(strictly_cloned(v@[i as int], e));
        s.push(e);
        assert(s@ =~= v@.subrange(0, i + 1));
        i = i + 1;
    }
    assert(s@ =~= v@);
    let ghost unsorted = s@;
    sort_in_place(&mut s);
    let r = sorted_contains(&s, key);
    proof {
        broadcast use vstd::seq_lib::to_multiset_contains;

        if contains_equal(unsorted, *key) {
            let i = choose|i: int| 0 <= i < unsorted.len() && (#[trigger] unsorted[i]).cmp_spec(key) == Ordering::Equal;
            assert(unsorted.contains(unsorted[i]));
            assert(unsorted.to_multiset().count(unsorted[i]) > 0);
            assert(s@.to_multiset().count(unsorted[i]) > 0);
            assert(s@.contains(unsorted[i]));
            let j = choose|j: int| 0 <= j < s@.len() && s@[j] == unsorted[i];
            assert(s@[j].cmp_spec(key) == Ordering::Equal);
        }
        if contains_equal(s@, *key) {
            let j = choose|j: int| 0 <= j < s@.len() && (#[trigger] s@[j]).cmp_spec(key) == Ordering::Equal;
            assert(s@.contains(s@[j]));
            assert(s@.to_multiset().count(s@[j]) > 0);
            assert(unsorted.to_multiset().count(s@[j]) > 0);
            assert(unsorted.contains(s@[j]));
            let i = choose|i: int| 0 <= i < unsorted.len() && unsorted[i] == s@[j];
            assert(unsorted[i].cmp_spec(key) == Ordering::Equal);
        }
    }
    r
}

/// Cloning a state yields the very same state.
pub open spec fn clone_is_exact<State: Clone>() -> bool {
    forall|a: State, b: State| #[trigger] strictly_cloned(a, b) ==> a == b
}

/// `w` is a walk through the state space of `p` that starts at its initial state:
/// each state after the first is a successor of the one before it.
pub open spec fn is_walk<State: Clone + Hash + Eq, P: Searchable<State> + ?Sized>(
    p: &P,
    w: Seq<State>,
) -> bool {
    &&& w.len() > 0
    &&& w[0] == p.initial_spec()
    &&& forall|i: int| 0 <= i < w.len() - 1 ==> p.successors_spec(#[trigger] w[i]).contains(w[i + 1])
}

/// `s` can be reached from the initial state of `p` by a finite number of steps.
pub open spec fn reachable<State: Clone + Hash + Eq, P: Searchable<State> + ?Sized>(
    p: &P,
    s: State,
) -> bool {
    exists|w: Seq<State>| is_walk(p, w) && w.last() == s
}

/// All states that can be reached from the initial state of `p`.
pub open spec fn reachable_states<State: Clone + Hash + Eq, P: Searchable<State> + ?Sized>(
    p: &P,
) -> Set<State> {
    Set::new(|s: State| reachable(p, s))
}

/// Some reachable state satisfies the goal of `p`.
pub open spec fn goal_reachable<State: Clone + Hash + Eq, P: Searchable<State> + ?Sized>(
    p: &P,
) -> bool {
    exists|s: State| reachable(p, s) && p.is_goal_spec(s)
}

/// What the search operations ask of a problem: distinct reachable states have
/// distinct keys, and a clone of a state is that very state.
pub open spec fn searchable_space<State: Clone + Hash + Eq, P: Searchable<State> + ?Sized>(
    p: &P,
) -> bool {
    &&& forall|a: State, b: State|
        reachable(p, a) && reachable(p, b) && #[trigger] p.key_spec(a) == #[trigger] p.key_spec(b)
            ==> a == b
    &&& clone_is_exact::<State>()
}

/// The keys of the states in `vs`.
pub open spec fn keys_of<State: Clone + Hash + Eq, P: Searchable<State> + ?Sized>(
    p: &P,
    vs: Set<State>,
) -> Set<u128> {
    vs.map(|x: State| p.key_spec(x))
}

/// `s` can be reached from the initial state of `p` in exactly `n` steps.
pub open spec fn steps_to<State: Clone + Hash + Eq, P: Searchable<State> + ?Sized>(
    p: &P,
    s: State,
    n: nat,
) -> bool {
    exists|w: Seq<State>| #[trigger] is_walk(p, w) && w.len() == n + 1 && w.last() == s
}

/// `s` satisfies the goal of `p`, and no goal state can be reached in fewer steps
/// than `s` can.
pub open spec fn fewest_steps_goal<State: Clone + Hash + Eq, P: Searchable<State> + ?Sized>(
    p: &P,
    s: State,
) -> bool {
    &&& p.is_goal_spec(s)
    &&& exists|n: nat|
        #![trigger steps_to(p, s, n)]
        steps_to(p, s, n) && forall|g: State, m: nat|
            m < n && p.is_goal_spec(g) ==> !#[trigger] steps_to(p, g, m)
}

/// Every state that can be reached in fewer steps than the last state of `h` lies
/// in `h`.
pub open spec fn nearer_states_first<State: Clone + Hash + Eq, P: Searchable<State> + ?Sized>(
    p: &P,
    h: Seq<State>,
) -> bool {
    exists|n: nat|
        #![trigger steps_to(p, h.last(), n)]
        steps_to(p, h.last(), n) && forall|s: State, m: nat|
            m < n && #[trigger] steps_to(p, s, m) ==> h.contains(s)
}

/// Some state among the first `b` of `h` has `x` as a successor.
pub open spec fn follows_one_of<State: Clone + Hash + Eq, P: Searchable<State> + ?Sized>(
    p: &P,
    h: Seq<State>,
    x: State,
    b: int,
) -> bool {
    exists|j: int| 0 <= j < b && #[trigger] p.successors_spec(h[j]).contains(x)
}

/// Each state of `h` after the first is a successor of a state before it.
pub open spec fn grows_by_successors<State: Clone + Hash + Eq, P: Searchable<State> + ?Sized>(
    p: &P,
    h: Seq<State>,
) -> bool {
    forall|i: int| 0 < i < h.len() ==> follows_one_of(p, h, #[trigger] h[i], i)
}

proof fn lemma_follows_push<State: Clone + Hash + Eq, P: Searchable<State> + ?Sized>(
    p: &P,
    h: Seq<State>,
    y: State,
    x: State,
    b: int,
)
    requires
        follows_one_of(p, h, x, b),
        0 <= b <= h.len(),
    ensures
        follows_one_of(p, h.push(y), x, b),
        follows_one_of(p, h.push(y), x, h.len() + 1int),
{
    let j = choose|j: int| 0 <= j < b && #[trigger] p.successors_spec(h[j]).contains(x);
    assert(h.push(y)[j] == h[j]);
}

proof fn lemma_grows_push<State: Clone + Hash + Eq, P: Searchable<State> + ?Sized>(
    p: &P,
    h: Seq<State>,
    y: State,
)
    requires
        grows_by_successors(p, h),
        h.len() > 0 ==> follows_one_of(p, h, y, h.len() as int),
    ensures
        grows_by_successors(p, h.push(y)),
{
    assert forall|i: int| 0 < i < h.push(y).len() implies follows_one_of(p, h.push(y), #[trigger] h.push(y)[i], i) by {
        if i < h.len() {
            assert(h.push(y)[i] == h[i]);
            lemma_follows_push(p, h, y, h[i], i);
        } else {
            lemma_follows_push(p, h, y, y, h.len() as int);
        }
    }
}

/// Moving the front of a queue whose states each follow one of `h` onto the end of
/// `h` keeps both facts.
proof fn lemma_take_front<State: Clone + Hash + Eq, P: Searchable<State> + ?Sized>(
    p: &P,
    h: Seq<State>,
    q: Seq<State>,
)
    requires
        q.len() > 0,
        grows_by_successors(p, h),
        h.len() > 0 ==> forall|c: int| 0 <= c < q.len() ==> follows_one_of(p, h, #[trigger] q[c], h.len() as int),
        h.len() == 0 ==> q.len() == 1,
    ensures
        grows_by_successors(p, h.push(q[0])),
        forall|c: int|
            0 <= c < q.drop_first().len() ==> follows_one_of(p, h.push(q[0]), #[trigger] q.drop_first()[c], h.len() + 1int),
{
    if h.len() > 0 {
        assert(follows_one_of(p, h, q[0], h.len() as int));
    }
    lemma_grows_push(p, h, q[0]);
    assert forall|c: int| 0 <= c < q.drop_first().len() implies follows_one_of(p, h.push(q[0]), #[trigger] q.drop_first()[c], h.len() + 1int) by {
        assert(q.drop_first()[c] == q[c + 1]);
        lemma_follows_push(p, h, q[0], q[c + 1], h.len() as int);
    }
}

/// The shape of every successful search result: `h` starts at the initial state,
/// holds reachable states only, none of them twice, and its last state, and no
/// other, satisfies the goal. The order in between is fixed by `search_outcome`.
pub open spec fn is_search_history<State: Clone + Hash + Eq, P: Searchable<State> + ?Sized>(
    p: &P,
    h: Seq<State>,
) -> bool {
    &&& h.len() > 0
    &&& h[0] == p.initial_spec()
    &&& p.is_goal_spec(h.last())
    &&& forall|i: int| 0 <= i < h.len() - 1 ==> !p.is_goal_spec(#[trigger] h[i])
    &&& forall|i: int| 0 <= i < h.len() ==> reachable(p, #[trigger] h[i])
    &&& h.no_duplicates()
}

/// The initial state is reachable.
pub proof fn lemma_initial_reachable<State: Clone + Hash + Eq, P: Searchable<State> + ?Sized>(
    p: &P,
)
    ensures
        reachable(p, p.initial_spec()),
{
    let w = seq![p.initial_spec()];
    assert(w[0] == p.initial_spec());
    assert(is_walk(p, w) && w.last() == p.initial_spec());
}

/// A successor of a reachable state is reachable.
pub proof fn lemma_successor_reachable<State: Clone + Hash + Eq, P: Searchable<State> + ?Sized>(
    p: &P,
    s: State,
    t: State,
)
    requires
        reachable(p, s),
        p.successors_spec(s).contains(t),
    ensures
        reachable(p, t),
{
    let w = choose|w: Seq<State>| is_walk(p, w) && w.last() == s;
    let w2 = w.push(t);
    assert forall|i: int| 0 <= i < w2.len() - 1 implies p.successors_spec(#[trigger] w2[i]).contains(
        w2[i + 1],
    ) by {
        if i < w.len() - 1 {
            assert(w2[i] == w[i] && w2[i + 1] == w[i + 1]);
        } else {
            assert(w2[i] == s && w2[i + 1] == t);
        }
    }
    assert(is_walk(p, w2) && w2.last() == t);
}

proof fn lemma_walk_within<State: Clone + Hash + Eq, P: Searchable<State> + ?Sized>(
    p: &P,
    v: Set<State>,
    w: Seq<State>,
    k: int,
)
    requires
        is_walk(p, w),
        0 <= k < w.len(),
        v.contains(p.initial_spec()),
        forall|x: State, y: State|
            v.contains(x) && #[trigger] p.successors_spec(x).contains(y) ==> v.contains(y),
    ensures
        v.contains(w[k]),
    decreases k,
{
    if k > 0 {
        lemma_walk_within(p, v, w, k - 1);
        assert(p.successors_spec(w[k - 1]).contains(w[k]));
    }
}

/// A set that holds the initial state and is closed under successors holds every
/// reachable state.
pub proof fn lemma_closed_holds_reachable<State: Clone + Hash + Eq, P: Searchable<State> + ?Sized>(
    p: &P,
    v: Set<State>,
    s: State,
)
    requires
        v.contains(p.initial_spec()),
        forall|x: State, y: State|
            v.contains(x) && #[trigger] p.successors_spec(x).contains(y) ==> v.contains(y),
        reachable(p, s),
    ensures
        v.contains(s),
{
    let w = choose|w: Seq<State>| is_walk(p, w) && w.last() == s;
    lemma_walk_within(p, v, w, w.len() - 1);
}

proof fn lemma_push_contains<A>(s: Seq<A>, t: A)
    ensures
        forall|x: A| #[trigger] s.push(t).contains(x) <==> s.contains(x) || x == t,
{
    assert forall|x: A| #[trigger] s.push(t).contains(x) <==> s.contains(x) || x == t by {
        if s.contains(x) {
            let i = choose|i: int| 0 <= i < s.len() && s[i] == x;
            assert(s.push(t)[i] == x);
        }
        if x == t {
            assert(s.push(t)[s.len() as int] == x);
        }
        if s.push(t).contains(x) {
            let i = choose|i: int| 0 <= i < s.len() + 1 && s.push(t)[i] == x;
            if i < s.len() {
                assert(s[i] == x);
            }
        }
    }
}

proof fn lemma_subrange_contains<A>(s: Seq<A>, lo: int, hi: int)
    requires
        0 <= lo <= hi <= s.len(),
    ensures
        forall|x: A| #[trigger] s.subrange(lo, hi).contains(x) ==> s.contains(x),
{
    assert forall|x: A| #[trigger] s.subrange(lo, hi).contains(x) implies s.contains(x) by {
        let i = choose|i: int| 0 <= i < hi - lo && s.subrange(lo, hi)[i] == x;
        assert(s[lo + i] == x);
    }
}

proof fn lemma_history_fits<State: Clone + Hash + Eq, P: Searchable<State> + ?Sized>(
    p: &P,
    h: Seq<State>,
)
    requires
        reachable_states(p).finite(),
        h.no_duplicates(),
        forall|i: int| 0 <= i < h.len() ==> reachable(p, #[trigger] h[i]),
    ensures
        h.len() <= reachable_states(p).len(),
{
    h.unique_seq_to_set();
    assert(h.to_set().subset_of(reachable_states(p)));
    vstd::set_lib::lemma_len_subset(h.to_set(), reachable_states(p));
}

proof fn lemma_initial_steps<State: Clone + Hash + Eq, P: Searchable<State> + ?Sized>(p: &P)
    ensures
        steps_to(p, p.initial_spec(), 0),
{
    let w = seq![p.initial_spec()];
    assert(w[0] == p.initial_spec());
    assert(is_walk(p, w) && w.len() == 1 && w.last() == p.initial_spec());
}

proof fn lemma_successor_steps<State: Clone + Hash + Eq, P: Searchable<State> + ?Sized>(
    p: &P,
    s: State,
    t: State,
    n: nat,
)
    requires
        steps_to(p, s, n),
        p.successors_spec(s).contains(t),
    ensures
        steps_to(p, t, n + 1),
{
    let w = choose|w: Seq<State>| #[trigger] is_walk(p, w) && w.len() == n + 1 && w.last() == s;
    let w2 = w.push(t);
    assert forall|i: int| 0 <= i < w2.len() - 1 implies p.successors_spec(#[trigger] w2[i]).contains(
        w2[i + 1],
    ) by {
        if i < w.len() - 1 {
            assert(w2[i] == w[i] && w2[i + 1] == w[i + 1]);
        } else {
            assert(w2[i] == s && w2[i + 1] == t);
        }
    }
    assert(is_walk(p, w2) && w2.len() == n + 2 && w2.last() == t);
}

/// Breadth-first layers: when every visited state nearer than `bound` has been
/// expanded, and expanding a state visits its successors one step further, every
/// state that can be reached in at most `bound` steps is visited, no further away.
proof fn lemma_layers<State: Clone + Hash + Eq, P: Searchable<State> + ?Sized>(
    p: &P,
    visited: Set<State>,
    expanded: Seq<State>,
    dist: Map<State, nat>,
    bound: nat,
    y: State,
    m: nat,
)
    requires
        visited.contains(p.initial_spec()),
        dist[p.initial_spec()] == 0,
        forall|x: State| visited.contains(x) && dist[x] < bound ==> #[trigger] expanded.contains(x),
        forall|x: State, z: State|
            expanded.contains(x) && #[trigger] p.successors_spec(x).contains(z) ==> visited.contains(z)
                && dist[z] <= dist[x] + 1,
        steps_to(p, y, m),
        m <= bound,
    ensures
        visited.contains(y),
        dist[y] <= m,
    decreases m,
{
    let w = choose|w: Seq<State>| #[trigger] is_walk(p, w) && w.len() == m + 1 && w.last() == y;
    if m == 0 {
        assert(y == w[0]);
    } else {
        let pre = w.take(m as int);
        assert forall|i: int| 0 <= i < pre.len() - 1 implies p.successors_spec(#[trigger] pre[i]).contains(
            pre[i + 1],
        ) by {
            assert(pre[i] == w[i] && pre[i + 1] == w[i + 1]);
        }
        assert(is_walk(p, pre) && pre.len() == m && pre.last() == w[m - 1]);
        lemma_layers(p, visited, expanded, dist, bound, w[m - 1], (m - 1) as nat);
        assert(expanded.contains(w[m - 1]));
        assert(p.successors_spec(w[m - 1]).contains(w[m as int]));
    }
}

/// Distinct keys on the reachable states make the reachable state space finite.
pub proof fn lemma_reachable_finite<State: Clone + Hash + Eq, P: Searchable<State> + ?Sized>(p: &P)
    requires
        searchable_space(p),
    ensures
        reachable_states(p).finite(),
{
    let reach = reachable_states(p);
    let ints = set_int_range(0, u128::MAX as int + 1);
    lemma_int_range(0, u128::MAX as int + 1);
    let to_key = |i: int| i as u128;
    ints.lemma_map_finite(to_key);
    let keys = keys_of(p, reach);
    assert forall|k: u128| keys.contains(k) implies #[trigger] ints.map(to_key).contains(k) by {
        assert(ints.contains(k as int));
        assert(to_key(k as int) == k);
    }
    lemma_len_subset(keys, ints.map(to_key));
    let back = |k: u128| choose|x: State| reach.contains(x) && p.key_spec(x) == k;
    keys.lemma_map_finite(back);
    assert forall|x: State| reach.contains(x) implies #[trigger] keys.map(back).contains(x) by {
        assert(keys.contains(p.key_spec(x)));
        let y = back(p.key_spec(x));
        assert(reach.contains(y) && p.key_spec(y) == p.key_spec(x));
    }
    lemma_len_subset(reach, keys.map(back));
}

/// Among reachable states, a key is recorded exactly when its state is.
proof fn lemma_key_insert<State: Clone + Hash + Eq, P: Searchable<State> + ?Sized>(
    p: &P,
    visited: Set<State>,
    t: State,
)
    requires
        searchable_space(p),
        forall|x: State| #[trigger] visited.contains(x) ==> reachable(p, x),
        reachable(p, t),
    ensures
        keys_of(p, visited).contains(p.key_spec(t)) <==> visited.contains(t),
        keys_of(p, visited.insert(t)) == keys_of(p, visited).insert(p.key_spec(t)),
{
    if keys_of(p, visited).contains(p.key_spec(t)) {
        let y = choose|y: State| visited.contains(y) && p.key_spec(y) == p.key_spec(t);
        assert(reachable(p, y));
    }
    if visited.contains(t) {
        assert(keys_of(p, visited).contains(p.key_spec(t)));
    }
    assert forall|k: u128|
        keys_of(p, visited.insert(t)).contains(k) <==> #[trigger] keys_of(p, visited).insert(
            p.key_spec(t),
        ).contains(k) by {
        if keys_of(p, visited.insert(t)).contains(k) {
            let x = choose|x: State| visited.insert(t).contains(x) && p.key_spec(x) == k;
            if x != t {
                assert(visited.contains(x));
                assert(keys_of(p, visited).contains(p.key_spec(x)));
            }
        }
        if keys_of(p, visited).contains(k) {
            let x = choose|x: State| visited.contains(x) && p.key_spec(x) == k;
            assert(visited.insert(t).contains(x));
        }
        if k == p.key_spec(t) {
            assert(visited.insert(t).contains(t));
        }
    }
    assert(keys_of(p, visited.insert(t)) =~= keys_of(p, visited).insert(p.key_spec(t)));
}

/// The state of a search between two steps: the states waiting to be explored,
/// the states seen so far, and the states explored so far, in order.
#[verifier::reject_recursive_types(State)]
pub struct SearchState<State> {
    pub frontier: Seq<State>,
    pub visited: Set<State>,
    pub history: Seq<State>,
}

/// Appends to `f` each state of `succ` not yet in `v`, first to last, recording
/// each as visited.
pub open spec fn add_unvisited<State>(f: Seq<State>, v: Set<State>, succ: Seq<State>) -> (Seq<State>, Set<State>)
    decreases succ.len(),
{
    if succ.len() == 0 {
        (f, v)
    } else {
        let before = add_unvisited(f, v, succ.drop_last());
        let x = succ.last();
        if before.1.contains(x) {
            before
        } else {
            (before.0.push(x), before.1.insert(x))
        }
    }
}

/// Appends to `f` each state of `succ` not yet in `v`, last to first, recording
/// each as visited.
pub open spec fn add_unvisited_reversed<State>(f: Seq<State>, v: Set<State>, succ: Seq<State>) -> (Seq<State>, Set<State>)
    decreases succ.len(),
{
    if succ.len() == 0 {
        (f, v)
    } else {
        let x = succ.last();
        if v.contains(x) {
            add_unvisited_reversed(f, v, succ.drop_last())
        } else {
            add_unvisited_reversed(f.push(x), v.insert(x), succ.drop_last())
        }
    }
}

/// The state explored next: the last of the frontier for depth-first search (a
/// stack), the first for breadth-first search (a queue).
pub open spec fn next_state<State>(depth_first: bool, f: Seq<State>) -> State {
    if depth_first {
        f.last()
    } else {
        f.first()
    }
}

/// The frontier without the state explored next.
pub open spec fn rest_frontier<State>(depth_first: bool, f: Seq<State>) -> Seq<State> {
    if depth_first {
        f.drop_last()
    } else {
        f.drop_first()
    }
}

/// The search is over: nothing is left to explore, or the state explored next
/// satisfies the goal.
pub open spec fn search_stopped<State: Clone + Hash + Eq, P: Searchable<State> + ?Sized>(
    p: &P,
    depth_first: bool,
    st: SearchState<State>,
) -> bool {
    st.frontier.len() == 0 || p.is_goal_spec(next_state(depth_first, st.frontier))
}

/// One step of the search: take the next state off the frontier, append it to the
/// history and add its unvisited successors to the frontier (last to first for
/// depth-first search, so that the first successor is explored first).
pub open spec fn search_step<State: Clone + Hash + Eq, P: Searchable<State> + ?Sized>(
    p: &P,
    depth_first: bool,
    st: SearchState<State>,
) -> SearchState<State> {
    if search_stopped(p, depth_first, st) {
        st
    } else {
        let x = next_state(depth_first, st.frontier);
        let rest = rest_frontier(depth_first, st.frontier);
        let added = if depth_first {
            add_unvisited_reversed(rest, st.visited, p.successors_spec(x))
        } else {
            add_unvisited(rest, st.visited, p.successors_spec(x))
        };
        SearchState { frontier: added.0, visited: added.1, history: st.history.push(x) }
    }
}

/// The search after `n` steps from the initial state, which is both on the
/// frontier and visited.
pub open spec fn search_run<State: Clone + Hash + Eq, P: Searchable<State> + ?Sized>(
    p: &P,
    depth_first: bool,
    n: nat,
) -> SearchState<State>
    decreases n,
{
    if n == 0 {
        SearchState {
            frontier: seq![p.initial_spec()],
            visited: Set::empty().insert(p.initial_spec()),
            history: Seq::empty(),
        }
    } else {
        search_step(p, depth_first, search_run(p, depth_first, (n - 1) as nat))
    }
}

/// What a search returns once it stops: nothing if the frontier ran empty,
/// otherwise the history followed by the goal state.
pub open spec fn stopped_result<State>(depth_first: bool, st: SearchState<State>) -> Option<Seq<State>> {
    if st.frontier.len() == 0 {
        None
    } else {
        Some(st.history.push(next_state(depth_first, st.frontier)))
    }
}

/// The result of the search: the result of the run where it stops.
pub open spec fn search_outcome<State: Clone + Hash + Eq, P: Searchable<State> + ?Sized>(
    p: &P,
    depth_first: bool,
) -> Option<Seq<State>> {
    if exists|n: nat| search_stopped(p, depth_first, #[trigger] search_run(p, depth_first, n)) {
        stopped_result(
            depth_first,
            search_run(
                p,
                depth_first,
                choose|n: nat| search_stopped(p, depth_first, #[trigger] search_run(p, depth_first, n)),
            ),
        )
    } else {
        None
    }
}

/// Once stopped, the run stays where it is.
pub proof fn lemma_run_settles<State: Clone + Hash + Eq, P: Searchable<State> + ?Sized>(
    p: &P,
    depth_first: bool,
    a: nat,
    b: nat,
)
    requires
        search_stopped(p, depth_first, search_run(p, depth_first, a)),
        a <= b,
    ensures
        search_run(p, depth_first, b) == search_run(p, depth_first, a),
    decreases b,
{
    if b > a {
        lemma_run_settles(p, depth_first, a, (b - 1) as nat);
    }
}

/// The outcome is the result at any step where the run has stopped.
pub proof fn lemma_outcome_at<State: Clone + Hash + Eq, P: Searchable<State> + ?Sized>(
    p: &P,
    depth_first: bool,
    n: nat,
)
    requires
        search_stopped(p, depth_first, search_run(p, depth_first, n)),
    ensures
        search_outcome(p, depth_first) == stopped_result(depth_first, search_run(p, depth_first, n)),
{
    let m = choose|m: nat| search_stopped(p, depth_first, #[trigger] search_run(p, depth_first, m));
    if m <= n {
        lemma_run_settles(p, depth_first, m, n);
    } else {
        lemma_run_settles(p, depth_first, n, m);
    }
}

/// When breadth-first search stops at a goal `current`, `d` steps away, after
/// expanding every visited state nearer than that, no goal is nearer and every
/// nearer state has been expanded.
proof fn lemma_goal_nearest<State: Clone + Hash + Eq, P: Searchable<State> + ?Sized>(
    p: &P,
    visited: Set<State>,
    expanded: Seq<State>,
    dist: Map<State, nat>,
    current: State,
    d: nat,
)
    requires
        visited.contains(p.initial_spec()),
        dist[p.initial_spec()] == 0,
        forall|x: State| visited.contains(x) && dist[x] < d ==> #[trigger] expanded.contains(x),
        forall|x: State, z: State|
            expanded.contains(x) && #[trigger] p.successors_spec(x).contains(z) ==> visited.contains(z)
                && dist[z] <= dist[x] + 1,
        forall|i: int| 0 <= i < expanded.len() ==> !p.is_goal_spec(#[trigger] expanded[i]),
        steps_to(p, current, d),
        p.is_goal_spec(current),
    ensures
        fewest_steps_goal(p, expanded.push(current).last()),
        nearer_states_first(p, expanded.push(current)),
{
    let h = expanded.push(current);
    assert(h.last() == current);
    assert forall|g: State, m: nat| m < d && #[trigger] steps_to(p, g, m) implies h.contains(g) && !p.is_goal_spec(g) by {
        lemma_layers(p, visited, expanded, dist, d, g, m);
        assert(visited.contains(g) && dist[g] < d);
        assert(expanded.contains(g));
        let i = choose|i: int| 0 <= i < expanded.len() && expanded[i] == g;
        assert(h[i] == expanded[i]);
        assert(h.contains(g));
    }
    assert(steps_to(p, current, d));
}

/// A search problem: an initial state, a goal test and the successors of each state.
pub trait Searchable<State: Clone + Hash + Eq> {
    /// The state the search starts from.
    spec fn initial_spec(&self) -> State;

    /// Whether a state satisfies the goal.
    spec fn is_goal_spec(&self, s: State) -> bool;

    /// The states reachable in one step from `s`, in the order they are enumerated.
    spec fn successors_spec(&self, s: State) -> Seq<State>;

    /// The key under which `s` is recorded as visited.
    spec fn key_spec(&self, s: State) -> u128;

    /// The state the search starts from.
    fn initial(&self) -> (r: State)
        ensures
            r == self.initial_spec(),
    ;

    /// Whether `s` satisfies the goal.
    fn is_goal(&self, s: &State) -> (r: bool)
        ensures
            r == self.is_goal_spec(*s),
    ;

    /// The states reachable in one step from `s`.
    fn successors(&self, s: &State) -> (r: Vec<State>)
        ensures
            r@ == self.successors_spec(*s),
    ;

    /// The key under which `s` is recorded as visited.
    fn key(&self, s: &State) -> (r: u128)
        ensures
            r == self.key_spec(*s),
    ;
}

/// Depth-first and breadth-first search over any [`Searchable`] problem.
pub trait Search<State: Clone + Hash + Eq>: Searchable<State> {
    /// Depth-first search with an explicit stack. The successors of a state are
    /// pushed last to first, so the first one enumerated is explored first.
    /// Returns the states in the order they were visited, up to and including the
    /// first goal state, or `None` when no reachable state satisfies the goal: the
    /// outcome of `search_step` run with a stack.
    fn dfs(&self) -> (r: Option<Vec<State>>)
        requires
            searchable_space(self),
        ensures
            r matches Some(h) ==> search_outcome(self, true) == Some(h@),
            r matches Some(h) ==> grows_by_successors(self, h@),
            r is None ==> search_outcome(self, true) is None,
            r is Some <==> goal_reachable(self),
            r matches Some(h) ==> is_search_history(self, h@),
            self.is_goal_spec(self.initial_spec()) ==> (r matches Some(h) && h@ == seq![
                self.initial_spec(),
            ]),
    ;

    /// Breadth-first search with a first-in first-out queue. The successors of a
    /// state are queued in the order they are enumerated.
    /// Returns the states in the order they were visited, up to and including the
    /// first goal state, or `None` when no reachable state satisfies the goal: the
    /// outcome of `search_step` run with a queue.
    fn bfs(&self) -> (r: Option<Vec<State>>)
        requires
            searchable_space(self),
        ensures
            r matches Some(h) ==> search_outcome(self, false) == Some(h@),
            r matches Some(h) ==> grows_by_successors(self, h@),
            r is None ==> search_outcome(self, false) is None,
            r is Some <==> goal_reachable(self),
            r matches Some(h) ==> is_search_history(self, h@),
            r matches Some(h) ==> fewest_steps_goal(self, h@.last()),
            r matches Some(h) ==> nearer_states_first(self, h@),
            self.is_goal_spec(self.initial_spec()) ==> (r matches Some(h) && h@ == seq![
                self.initial_spec(),
            ]),
    ;
}

impl<State: Clone + Hash + Eq, P: Searchable<State> + ?Sized> Search<State> for P {
    fn dfs(&self) -> (r: Option<Vec<State>>)
    {
        let ghost reach = reachable_states(self);
        let mut history: Vec<State> = Vec::new();
        let mut stack: VecDeque<State> = VecDeque::new();
        let mut seen: HashSet<u128> = HashSet::new();
        let ghost mut visited: Set<State> = Set::empty();
        let start = self.initial();
        proof {
            lemma_initial_reachable(self);
        }
        let start_key = self.key(&start);
        seen.insert(start_key);
        proof {
            lemma_reachable_finite(self);
            assert(keys_of(self, visited) =~= Set::<u128>::empty());
            lemma_key_insert(self, visited, start);
            visited = visited.insert(start);
            assert(seen@ =~= keys_of(self, visited));
        }
        stack.push_back(start);
        assert(stack@ == seq![self.initial_spec()]);
        let ghost mut n: nat = 0;
        assert(visited =~= Set::empty().insert(self.initial_spec()));
        assert forall|x: State| #[trigger]
            visited.contains(x) <==> history@.contains(x) || stack@.contains(x) by {
            if x == self.initial_spec() {
                assert(stack@[0] == x);
            }
        }
        while stack.len() > 0
            invariant
                searchable_space(self),
                reach == reachable_states(self),
                reach.finite(),
                seen@ == keys_of(self, visited),
                search_run(self, true, n) == (SearchState { frontier: stack@, visited: visited, history: history@ }),
                visited.contains(self.initial_spec()),
                forall|x: State| #[trigger]
                    visited.contains(x) <==> history@.contains(x) || stack@.contains(x),
                forall|x: State| #[trigger] visited.contains(x) ==> reachable(self, x),
                history@.no_duplicates(),
                stack@.no_duplicates(),
                forall|i: int, j: int|
                    0 <= i < history@.len() && 0 <= j < stack@.len() ==> history@[i] != stack@[j],
                forall|i: int| 0 <= i < history@.len() ==> !self.is_goal_spec(#[trigger] history@[i]),
                forall|x: State, y: State|
                    history@.contains(x) && #[trigger] self.successors_spec(x).contains(y)
                        ==> visited.contains(y),
                history@.len() == 0 ==> stack@ == seq![self.initial_spec()],
                history@.len() > 0 ==> history@[0] == self.initial_spec(),
                history@.len() <= reach.len(),
                grows_by_successors(self, history@),
                history@.len() > 0 ==> forall|c: int|
                    0 <= c < stack@.len() ==> follows_one_of(self, history@, #[trigger] stack@[c], history@.len() as int),
            decreases reach.len() - history@.len(),
        {
            let ghost before = stack@;
            let current = match stack.pop_back() {
                Some(c) => c,
                None => {
                    return None;
                },
            };
            proof {
                assert(current == before.last());
                lemma_subrange_contains(before, 0, before.len() - 1);
                assert forall|x: State| #[trigger]
                    visited.contains(x) <==> history@.push(current).contains(x)
                        || stack@.contains(x) by {
                    lemma_push_contains(history@, current);
                    if before.contains(x) && x != current {
                        let j = choose|j: int| 0 <= j < before.len() && before[j] == x;
                        assert(stack@[j] == x);
                    }
                }
                assert(visited.contains(current));
                if history@.len() == 0 {
                    assert(current == self.initial_spec());
                } else {
                    assert(follows_one_of(self, history@, before[before.len() - 1], history@.len() as int));
                }
                lemma_grows_push(self, history@, current);
                if history@.len() > 0 {
                    assert forall|c: int| 0 <= c < stack@.len() implies follows_one_of(self, history@.push(current), #[trigger] stack@[c], history@.len() + 1int) by {
                        assert(stack@[c] == before[c]);
                        lemma_follows_push(self, history@, current, before[c], history@.len() as int);
                    }
                }
            }
            let found = self.is_goal(&current);
            if found {
                proof {
                    assert(search_stopped(self, true, search_run(self, true, n)));
                    lemma_outcome_at(self, true, n);
                }
                history.push(current);
                proof {
                    assert(history@.last() == current);
                    assert forall|i: int| 0 <= i < history@.len() implies reachable(
                        self,
                        #[trigger] history@[i],
                    ) by {
                        assert(history@.contains(history@[i]));
                        assert(visited.contains(history@[i]));
                    }
                    assert(history@[0] == self.initial_spec());
                    if self.is_goal_spec(self.initial_spec()) {
                        assert(history@ =~= seq![self.initial_spec()]);
                    }
                }
                return Some(history);
            }
            let succs = self.successors(&current);
            let ghost cur = current;
            let ghost old_history = history@;
            history.push(current);
            proof {
                lemma_push_contains(old_history, cur);
                assert(history@[history@.len() - 1] == cur);
                assert forall|i: int, j: int| 0 <= i < history@.len() && 0 <= j < stack@.len() implies
                    history@[i] != stack@[j] by {
                    if i == history@.len() - 1 {
                        assert(before[j] == stack@[j]);
                        assert(before[before.len() - 1] == cur);
                    } else {
                        assert(before[j] == stack@[j]);
                    }
                }
                assert(history@[0] == self.initial_spec());
                assert forall|i: int| 0 <= i < history@.len() implies reachable(
                    self,
                    #[trigger] history@[i],
                ) by {
                    assert(history@.contains(history@[i]));
                    assert(visited.contains(history@[i]));
                }
                lemma_history_fits(self, history@);
            }
            let ghost target = search_run(self, true, n + 1);
            proof {
                assert(stack@ =~= before.drop_last());
                assert(!search_stopped(self, true, search_run(self, true, n)));
            }
            let mut k: usize = succs.len();
            assert(succs@.take(k as int) =~= succs@);
            while k > 0
                invariant
                    add_unvisited_reversed(stack@, visited, succs@.take(k as int)) == (target.frontier, target.visited),
                    history@ == target.history,
                    target == search_run(self, true, n + 1),
                    grows_by_successors(self, history@),
                    history@.len() > 0,
                    history@[history@.len() - 1] == cur,
                    forall|c: int|
                        0 <= c < stack@.len() ==> follows_one_of(self, history@, #[trigger] stack@[c], history@.len() as int),
                    searchable_space(self),
                    reach == reachable_states(self),
                    reach.finite(),
                    seen@ == keys_of(self, visited),
                    succs@ == self.successors_spec(cur),
                    0 <= k <= succs@.len(),
                    forall|j: int| k <= j < succs@.len() ==> visited.contains(#[trigger] succs@[j]),
                    visited.contains(self.initial_spec()),
                    forall|x: State| #[trigger]
                        visited.contains(x) <==> history@.contains(x) || stack@.contains(x),
                    forall|x: State| #[trigger] visited.contains(x) ==> reachable(self, x),
                    reachable(self, cur),
                    history@.no_duplicates(),
                    stack@.no_duplicates(),
                    forall|i: int, j: int|
                        0 <= i < history@.len() && 0 <= j < stack@.len() ==> history@[i]
                            != stack@[j],
                    forall|i: int| 0 <= i < history@.len() ==> !self.is_goal_spec(#[trigger] history@[i]),
                    history@ == old_history.push(cur),
                    forall|x: State, y: State|
                        old_history.contains(x) && #[trigger] self.successors_spec(x).contains(y)
                            ==> visited.contains(y),
                    history@[0] == self.initial_spec(),
                    history@.len() <= reach.len(),
                decreases k,
            {
                k = k - 1;
                let t = succs[k].clone();
                assert(succs@.take(k + 1).drop_last() =~= succs@.take(k as int));
                assert(strictly_cloned(succs@[k as int], t));
                let ghost stack_before = stack@;
                proof {
                    assert(self.successors_spec(cur).contains(t));
                    lemma_successor_reachable(self, cur, t);
                }
                let tk = self.key(&t);
                proof {
                    lemma_key_insert(self, visited, t);
                }
                if seen.insert(tk) {
                    proof {
                        visited = visited.insert(t);
                    }
                    stack.push_back(t);
                    proof {
                        assert(self.successors_spec(history@[history@.len() - 1]).contains(t));
                        assert forall|c: int| 0 <= c < stack@.len() implies follows_one_of(self, history@, #[trigger] stack@[c], history@.len() as int) by {
                            if c < stack_before.len() {
                                assert(stack@[c] == stack_before[c]);
                            } else {
                                assert(stack@[c] == t);
                                assert(self.successors_spec(history@[history@.len() - 1]).contains(stack@[c]));
                            }
                        }
                        lemma_push_contains(stack_before, t);
                        assert(stack@[stack@.len() - 1] == t);
                        assert forall|i: int, j: int|
                            0 <= i < history@.len() && 0 <= j < stack@.len() implies history@[i]
                            != stack@[j] by {
                            if j < stack_before.len() {
                                assert(stack@[j] == stack_before[j]);
                            } else {
                                assert(history@.contains(history@[i]));
                            }
                        }
                        assert forall|a: int, b: int|
                            0 <= a < b < stack@.len() implies stack@[a] != stack@[b] by {
                            if b == stack_before.len() {
                                assert(stack_before.contains(stack@[a]));
                            } else {
                                assert(stack@[a] == stack_before[a]);
                                assert(stack@[b] == stack_before[b]);
                            }
                        }
                    }
                }
            }
            proof {
                assert(succs@.take(0) =~= Seq::<State>::empty());
                n = n + 1;
                assert forall|x: State, y: State|
                    history@.contains(x) && #[trigger] self.successors_spec(x).contains(
                        y,
                    ) implies visited.contains(y) by {
                    lemma_push_contains(old_history, cur);
                    if x == cur {
                        let j = choose|j: int| 0 <= j < succs@.len() && succs@[j] == y;
                        assert(visited.contains(succs@[j]));
                    }
                }
            }
        }
        proof {
            assert forall|x: State, y: State|
                visited.contains(x) && #[trigger] self.successors_spec(x).contains(y)
                    implies visited.contains(y) by {
                assert(!stack@.contains(x));
            }
            assert forall|s: State| reachable(self, s) implies !self.is_goal_spec(s) by {
                lemma_closed_holds_reachable(self, visited, s);
                assert(history@.contains(s));
                let i = choose|i: int| 0 <= i < history@.len() && history@[i] == s;
            }
            lemma_outcome_at(self, true, n);
        }
        None
    }

    #[verifier::rlimit(100)]
    #[verifier::spinoff_prover]
    fn bfs(&self) -> (r: Option<Vec<State>>)
    {
        let ghost reach = reachable_states(self);
        let mut history: Vec<State> = Vec::new();
        let mut queue: VecDeque<State> = VecDeque::new();
        let mut seen: HashSet<u128> = HashSet::new();
        let ghost mut visited: Set<State> = Set::empty();
        let start = self.initial();
        proof {
            lemma_initial_reachable(self);
        }
        let start_key = self.key(&start);
        seen.insert(start_key);
        proof {
            lemma_reachable_finite(self);
            assert(keys_of(self, visited) =~= Set::<u128>::empty());
            lemma_key_insert(self, visited, start);
            visited = visited.insert(start);
            assert(seen@ =~= keys_of(self, visited));
        }
        queue.push_back(start);
        assert(queue@ == seq![self.initial_spec()]);
        let ghost mut n: nat = 0;
        assert(visited =~= Set::empty().insert(self.initial_spec()));
        let ghost mut dist: Map<State, nat> = map![self.initial_spec() => 0nat];
        proof {
            lemma_initial_steps(self);
        }
        assert forall|x: State| #[trigger]
            visited.contains(x) <==> history@.contains(x) || queue@.contains(x) by {
            if x == self.initial_spec() {
                assert(queue@[0] == x);
            }
        }
        while queue.len() > 0
            invariant
                searchable_space(self),
                reach == reachable_states(self),
                reach.finite(),
                seen@ == keys_of(self, visited),
                search_run(self, false, n) == (SearchState { frontier: queue@, visited: visited, history: history@ }),
                visited.contains(self.initial_spec()),
                forall|x: State| #[trigger]
                    visited.contains(x) <==> history@.contains(x) || queue@.contains(x),
                forall|x: State| #[trigger] visited.contains(x) ==> reachable(self, x),
                history@.no_duplicates(),
                queue@.no_duplicates(),
                forall|i: int, j: int|
                    0 <= i < history@.len() && 0 <= j < queue@.len() ==> history@[i] != queue@[j],
                forall|i: int| 0 <= i < history@.len() ==> !self.is_goal_spec(#[trigger] history@[i]),
                forall|x: State, y: State|
                    history@.contains(x) && #[trigger] self.successors_spec(x).contains(y)
                        ==> visited.contains(y) && dist[y] <= dist[x] + 1,
                forall|x: State| #[trigger]
                    visited.contains(x) ==> dist.contains_key(x) && steps_to(self, x, dist[x]),
                dist.contains_key(self.initial_spec()),
                dist[self.initial_spec()] == 0,
                forall|a: int, c: int|
                    0 <= a < c < queue@.len() ==> dist[#[trigger] queue@[a]] <= dist[#[trigger] queue@[c]],
                forall|c: int| 0 <= c < queue@.len() ==> dist[#[trigger] queue@[c]] <= dist[queue@[0]] + 1,
                forall|i: int|
                    0 <= i < history@.len() && queue@.len() > 0 ==> dist[#[trigger] history@[i]]
                        <= dist[queue@[0]],
                history@.len() == 0 ==> queue@ == seq![self.initial_spec()],
                history@.len() > 0 ==> history@[0] == self.initial_spec(),
                history@.len() <= reach.len(),
                grows_by_successors(self, history@),
                history@.len() > 0 ==> forall|c: int|
                    0 <= c < queue@.len() ==> follows_one_of(self, history@, #[trigger] queue@[c], history@.len() as int),
            decreases reach.len() - history@.len(),
        {
            let ghost before = queue@;
            let current = match queue.pop_front() {
                Some(c) => c,
                None => {
                    return None;
                },
            };
            proof {
                assert(current == before[0]);
                lemma_subrange_contains(before, 1, before.len() as int);
                assert forall|x: State| #[trigger]
                    visited.contains(x) <==> history@.push(current).contains(x)
                        || queue@.contains(x) by {
                    lemma_push_contains(history@, current);
                    if before.contains(x) && x != current {
                        let j = choose|j: int| 0 <= j < before.len() && before[j] == x;
                        assert(queue@[j - 1] == x);
                    }
                }
                assert(visited.contains(current));
                if history@.len() == 0 {
                    assert(current == self.initial_spec());
                }
                lemma_take_front(self, history@, before);
                assert(queue@ =~= before.drop_first());
            }
            let ghost d = dist[current];
            let found = self.is_goal(&current);
            if found {
                proof {
                    assert(search_stopped(self, false, search_run(self, false, n)));
                    lemma_outcome_at(self, false, n);
                }
                proof {
                    assert(visited.contains(current));
                    assert forall|x: State| visited.contains(x) && dist[x] < d implies #[trigger] history@.contains(
                        x,
                    ) by {
                        if !history@.contains(x) {
                            assert(before.contains(x));
                            let j = choose|j: int| 0 <= j < before.len() && before[j] == x;
                            if j > 0 {
                                assert(dist[before[0]] <= dist[before[j]]);
                            }
                        }
                    }
                    lemma_goal_nearest(self, visited, history@, dist, current, d);
                }
                history.push(current);
                proof {
                    assert(history@.last() == current);
                    assert forall|i: int| 0 <= i < history@.len() implies reachable(
                        self,
                        #[trigger] history@[i],
                    ) by {
                        assert(history@.contains(history@[i]));
                        assert(visited.contains(history@[i]));
                    }
                    assert(history@[0] == self.initial_spec());
                    if self.is_goal_spec(self.initial_spec()) {
                        assert(history@ =~= seq![self.initial_spec()]);
                    }
                }
                return Some(history);
            }
            let succs = self.successors(&current);
            let ghost cur = current;
            let ghost old_history = history@;
            history.push(current);
            proof {
                lemma_push_contains(old_history, cur);
                assert(history@[history@.len() - 1] == cur);
                assert forall|i: int, j: int| 0 <= i < history@.len() && 0 <= j < queue@.len() implies
                    history@[i] != queue@[j] by {
                    if i == history@.len() - 1 {
                        assert(before[j + 1] == queue@[j]);
                        assert(before[0] == cur);
                    } else {
                        assert(before[j + 1] == queue@[j]);
                    }
                }
                assert(history@[0] == self.initial_spec());
                assert forall|i: int| 0 <= i < history@.len() implies reachable(
                    self,
                    #[trigger] history@[i],
                ) by {
                    assert(history@.contains(history@[i]));
                    assert(visited.contains(history@[i]));
                }
                lemma_history_fits(self, history@);
                assert forall|c: int| 0 <= c < queue@.len() implies d <= dist[#[trigger] queue@[c]] <= d
                    + 1 by {
                    assert(queue@[c] == before[c + 1]);
                    assert(dist[before[0]] <= dist[before[c + 1]]);
                }
                assert forall|a: int, c: int|
                    0 <= a < c < queue@.len() implies dist[#[trigger] queue@[a]] <= dist[#[trigger] queue@[c]] by {
                    assert(queue@[a] == before[a + 1]);
                    assert(queue@[c] == before[c + 1]);
                }
                assert forall|i: int| 0 <= i < history@.len() implies dist[#[trigger] history@[i]] <= d by {
                    if i < old_history.len() {
                        assert(history@[i] == old_history[i]);
                    }
                }
            }
            let ghost target = search_run(self, false, n + 1);
            let ghost q0 = queue@;
            let ghost v0 = visited;
            proof {
                assert(queue@ =~= before.drop_first());
                assert(!search_stopped(self, false, search_run(self, false, n)));
            }
            let mut k: usize = 0;
            assert(succs@.take(0) =~= Seq::<State>::empty());
            while k < succs.len()
                invariant
                    add_unvisited(q0, v0, succs@.take(k as int)) == (queue@, visited),
                    add_unvisited(q0, v0, succs@) == (target.frontier, target.visited),
                    history@ == target.history,
                    target == search_run(self, false, n + 1),
                    grows_by_successors(self, history@),
                    history@.len() > 0,
                    history@[history@.len() - 1] == cur,
                    forall|c: int|
                        0 <= c < queue@.len() ==> follows_one_of(self, history@, #[trigger] queue@[c], history@.len() as int),
                    searchable_space(self),
                    reach == reachable_states(self),
                    reach.finite(),
                    seen@ == keys_of(self, visited),
                    succs@ == self.successors_spec(cur),
                    0 <= k <= succs@.len(),
                    forall|j: int|
                        0 <= j < k ==> visited.contains(#[trigger] succs@[j]) && dist[succs@[j]] <= d
                            + 1,
                    d == dist[cur],
                    forall|x: State| #[trigger]
                        visited.contains(x) ==> dist.contains_key(x) && steps_to(self, x, dist[x]),
                    dist.contains_key(self.initial_spec()),
                    dist[self.initial_spec()] == 0,
                    forall|a: int, c: int|
                        0 <= a < c < queue@.len() ==> dist[#[trigger] queue@[a]] <= dist[#[trigger] queue@[c]],
                    forall|c: int| 0 <= c < queue@.len() ==> d <= dist[#[trigger] queue@[c]] <= d + 1,
                    forall|i: int| 0 <= i < history@.len() ==> dist[#[trigger] history@[i]] <= d,
                    visited.contains(self.initial_spec()),
                    forall|x: State| #[trigger]
                        visited.contains(x) <==> history@.contains(x) || queue@.contains(x),
                    forall|x: State| #[trigger] visited.contains(x) ==> reachable(self, x),
                    reachable(self, cur),
                    history@.no_duplicates(),
                    queue@.no_duplicates(),
                    forall|i: int, j: int|
                        0 <= i < history@.len() && 0 <= j < queue@.len() ==> history@[i]
                            != queue@[j],
                    forall|i: int| 0 <= i < history@.len() ==> !self.is_goal_spec(#[trigger] history@[i]),
                    history@ == old_history.push(cur),
                    forall|x: State, y: State|
                        old_history.contains(x) && #[trigger] self.successors_spec(x).contains(y)
                            ==> visited.contains(y) && dist[y] <= dist[x] + 1,
                    history@[0] == self.initial_spec(),
                    history@.len() <= reach.len(),
                decreases succs@.len() - k,
            {
                let t = succs[k].clone();
                assert(succs@.take(k + 1).drop_last() =~= succs@.take(k as int));
                assert(strictly_cloned(succs@[k as int], t));
                let ghost queue_before = queue@;
                let ghost visited_before = visited;
                let ghost dist_before = dist;
                proof {
                    assert(self.successors_spec(cur).contains(t));
                    lemma_successor_reachable(self, cur, t);
                    assert(history@[history@.len() - 1] == cur);
                    assert(history@.contains(cur));
                    assert(visited.contains(cur));
                    lemma_successor_steps(self, cur, t, d);
                }
                let tk = self.key(&t);
                proof {
                    lemma_key_insert(self, visited, t);
                }
                if seen.insert(tk) {
                    proof {
                        visited = visited.insert(t);
                    }
                    queue.push_back(t);
                    proof {
                        assert(self.successors_spec(history@[history@.len() - 1]).contains(t));
                        assert forall|c: int| 0 <= c < queue@.len() implies follows_one_of(self, history@, #[trigger] queue@[c], history@.len() as int) by {
                            if c < queue_before.len() {
                                assert(queue@[c] == queue_before[c]);
                            } else {
                                assert(queue@[c] == t);
                                assert(self.successors_spec(history@[history@.len() - 1]).contains(queue@[c]));
                            }
                        }
                        dist = dist.insert(t, d + 1);
                        assert forall|x: State| #[trigger] visited.contains(x) implies dist.contains_key(x)
                            && steps_to(self, x, dist[x]) by {
                            if x != t {
                                assert(visited_before.contains(x));
                            }
                        }
                        assert(t != self.initial_spec());
                        assert forall|a: int, c: int|
                            0 <= a < c < queue@.len() implies dist[#[trigger] queue@[a]] <= dist[#[trigger] queue@[c]] by {
                            assert(queue@[a] == queue_before[a]);
                            assert(visited_before.contains(queue@[a]));
                            if c < queue_before.len() {
                                assert(queue@[c] == queue_before[c]);
                                assert(visited_before.contains(queue@[c]));
                            }
                        }
                        assert forall|c: int| 0 <= c < queue@.len() implies d <= dist[#[trigger] queue@[c]] <= d + 1 by {
                            if c < queue_before.len() {
                                assert(queue@[c] == queue_before[c]);
                                assert(visited_before.contains(queue@[c]));
                            }
                        }
                        assert forall|i: int| 0 <= i < history@.len() implies dist[#[trigger] history@[i]] <= d by {
                            assert(history@.contains(history@[i]));
                            assert(visited_before.contains(history@[i]));
                        }
                        assert forall|j: int| 0 <= j < k + 1 implies visited.contains(#[trigger] succs@[j]) && dist[succs@[j]] <= d + 1 by {
                            if j < k {
                                assert(visited_before.contains(succs@[j]));
                            }
                        }
                        assert forall|x: State, y: State|
                            old_history.contains(x) && #[trigger] self.successors_spec(x).contains(y)
                                implies visited.contains(y) && dist[y] <= dist[x] + 1 by {
                            lemma_push_contains(old_history, cur);
                            assert(history@.contains(x));
                            assert(visited_before.contains(x));
                            assert(visited_before.contains(y));
                        }
                        lemma_push_contains(queue_before, t);
                        assert(queue@[queue@.len() - 1] == t);
                        assert forall|i: int, j: int|
                            0 <= i < history@.len() && 0 <= j < queue@.len() implies history@[i]
                            != queue@[j] by {
                            if j < queue_before.len() {
                                assert(queue@[j] == queue_before[j]);
                            } else {
                                assert(history@.contains(history@[i]));
                            }
                        }
                        assert forall|a: int, b: int|
                            0 <= a < b < queue@.len() implies queue@[a] != queue@[b] by {
                            if b == queue_before.len() {
                                assert(queue_before.contains(queue@[a]));
                            } else {
                                assert(queue@[a] == queue_before[a]);
                                assert(queue@[b] == queue_before[b]);
                            }
                        }
                    }
                } else {
                    proof {
                        assert(visited.contains(t));
                        if history@.contains(t) {
                            let i = choose|i: int| 0 <= i < history@.len() && history@[i] == t;
                        } else {
                            let c = choose|c: int| 0 <= c < queue@.len() && queue@[c] == t;
                        }
                    }
                }
                k = k + 1;
            }
            proof {
                assert(succs@.take(succs@.len() as int) =~= succs@);
                n = n + 1;
                assert forall|x: State, y: State|
                    history@.contains(x) && #[trigger] self.successors_spec(x).contains(
                        y,
                    ) implies visited.contains(y) && dist[y] <= dist[x] + 1 by {
                    lemma_push_contains(old_history, cur);
                    if x == cur {
                        let j = choose|j: int| 0 <= j < succs@.len() && succs@[j] == y;
                        assert(visited.contains(succs@[j]));
                    }
                }
                if queue@.len() > 0 {
                    assert forall|c: int| 0 <= c < queue@.len() implies dist[#[trigger] queue@[c]] <= dist[queue@[0]] + 1 by {
                        assert(d <= dist[queue@[0]]);
                    }
                    assert forall|i: int|
                        0 <= i < history@.len() implies dist[#[trigger] history@[i]] <= dist[queue@[0]] by {
                        assert(d <= dist[queue@[0]]);
                    }
                }
            }
        }
        proof {
            assert forall|x: State, y: State|
                visited.contains(x) && #[trigger] self.successors_spec(x).contains(y)
                    implies visited.contains(y) by {
                assert(!queue@.contains(x));
            }
            assert forall|s: State| reachable(self, s) implies !self.is_goal_spec(s) by {
                lemma_closed_holds_reachable(self, visited, s);
                assert(history@.contains(s));
                let i = choose|i: int| 0 <= i < history@.len() && history@[i] == s;
            }
            lemma_outcome_at(self, false, n);
        }
        None
    }
}

} // verus!
