//! Topological sorting of numbered nodes (Kahn's algorithm).

use vstd::prelude::*;

verus! {

/// What a list of lists holds.
pub open spec fn lists(of: Seq<Vec<usize>>) -> Seq<Seq<usize>> {
    of.map_values(|list: Vec<usize>| list@)
}

/// All entries are numbers of nodes.
pub open spec fn in_range(needs: Seq<Seq<usize>>) -> bool {
    forall|x: int, k: int|
        0 <= x < needs.len() && 0 <= k < needs[x].len() ==> #[trigger] needs[x][k] < needs.len()
}

/// How often `v` occurs in `list`.
pub open spec fn times(list: Seq<usize>, v: usize) -> nat
    decreases list.len(),
{
    if list.len() == 0 {
        0
    } else {
        times(list.drop_last(), v) + if list.last() == v {
            1nat
        } else {
            0
        }
    }
}

/// How many entries of `list` are not in `done`.
pub open spec fn open_entries(list: Seq<usize>, done: Seq<usize>) -> nat
    decreases list.len(),
{
    if list.len() == 0 {
        0
    } else {
        open_entries(list.drop_last(), done) + if done.contains(list.last()) {
            0nat
        } else {
            1
        }
    }
}

proof fn lemma_times_contains(list: Seq<usize>, v: usize)
    ensures
        times(list, v) > 0 <==> list.contains(v),
    decreases list.len(),
{
    if list.len() > 0 {
        let rest = list.drop_last();
        lemma_times_contains(rest, v);
        if rest.contains(v) {
            let i = choose|i: int| 0 <= i < rest.len() && rest[i] == v;
            assert(list[i] == v);
        }
        if list.contains(v) && list.last() != v {
            let i = choose|i: int| 0 <= i < list.len() && list[i] == v;
            assert(rest[i] == v);
        }
    }
}

proof fn lemma_times_prefix(list: Seq<usize>, v: usize, j: int)
    requires
        0 <= j <= list.len(),
    ensures
        times(list.take(j), v) <= times(list, v),
    decreases list.len(),
{
    if j == list.len() {
        assert(list.take(j) =~= list);
    } else {
        lemma_times_prefix(list.drop_last(), v, j);
        assert(list.drop_last().take(j) =~= list.take(j));
    }
}

proof fn lemma_times_step(list: Seq<usize>, v: usize, j: int)
    requires
        0 <= j < list.len(),
    ensures
        times(list.take(j + 1), v) == times(list.take(j), v) + if list[j] == v {
            1nat
        } else {
            0
        },
{
    assert(list.take(j + 1).drop_last() =~= list.take(j));
}

proof fn lemma_open_all(list: Seq<usize>)
    ensures
        open_entries(list, Seq::empty()) == list.len(),
    decreases list.len(),
{
    if list.len() > 0 {
        lemma_open_all(list.drop_last());
    }
}

proof fn lemma_open_none(list: Seq<usize>, done: Seq<usize>)
    ensures
        open_entries(list, done) == 0 <==> (forall|k: int|
            0 <= k < list.len() ==> done.contains(#[trigger] list[k])),
    decreases list.len(),
{
    if list.len() > 0 {
        let rest = list.drop_last();
        lemma_open_none(rest, done);
        if forall|k: int| 0 <= k < list.len() ==> done.contains(#[trigger] list[k]) {
            assert forall|k: int| 0 <= k < rest.len() implies done.contains(#[trigger] rest[k]) by {
                assert(rest[k] == list[k]);
            }
            assert(done.contains(list[list.len() - 1]));
        }
        if open_entries(list, done) == 0 {
            assert forall|k: int| 0 <= k < list.len() implies done.contains(#[trigger] list[k]) by {
                if k < rest.len() {
                    assert(done.contains(rest[k]));
                }
            }
        }
    }
}

proof fn lemma_open_step(list: Seq<usize>, done: Seq<usize>, v: usize)
    requires
        !done.contains(v),
    ensures
        open_entries(list, done.push(v)) + times(list, v) == open_entries(list, done),
    decreases list.len(),
{
    if list.len() > 0 {
        lemma_open_step(list.drop_last(), done, v);
        let w = list.last();
        if w == v {
            assert(done.push(v)[done.len() as int] == v);
        } else if done.contains(w) {
            let i = choose|i: int| 0 <= i < done.len() && done[i] == w;
            assert(done.push(v)[i] == w);
        }
    }
}

/// `rounds` explains `order`. The node at `q` needs only nodes among the first
/// `rounds[q]`, and the last of these it does need. The order goes by rounds, and
/// within a round by number.
pub open spec fn explains(needs: Seq<Seq<usize>>, order: Seq<usize>, rounds: Seq<int>) -> bool {
    &&& order.no_duplicates()
    &&& rounds.len() == order.len()
    &&& forall|q: int| 0 <= q < order.len() ==> #[trigger] order[q] < needs.len()
    &&& forall|q: int| 0 <= q < order.len() ==> settled(needs, order, #[trigger] rounds[q], q)
    &&& forall|i: int, j: int|
        0 <= i < j < order.len() ==> rounds[i] < rounds[j] || (#[trigger] rounds[i]
            == #[trigger] rounds[j] && order[i] < order[j])
}

/// The node at `q` gets ready with the node before position `round`.
pub open spec fn settled(needs: Seq<Seq<usize>>, order: Seq<usize>, round: int, q: int) -> bool {
    &&& 0 <= round <= q
    &&& forall|k: int|
        0 <= k < needs[order[q] as int].len() ==> order.take(round).contains(
            #[trigger] needs[order[q] as int][k],
        )
    &&& round > 0 ==> needs[order[q] as int].contains(order[round - 1])
}

/// A sorting that went as far as it could. Every node that is not in the order
/// needs one that is not.
pub open spec fn is_sorting(needs: Seq<Seq<usize>>, order: Seq<usize>, rounds: Seq<int>) -> bool {
    &&& explains(needs, order, rounds)
    &&& forall|x: usize|
        x < needs.len() && !(#[trigger] order.contains(x)) ==> exists|k: int|
            0 <= k < needs[x as int].len() && !order.contains(#[trigger] needs[x as int][k])
}

/// `order` comes out of such a sorting.
pub open spec fn sorts(needs: Seq<Seq<usize>>, order: Seq<usize>) -> bool {
    exists|rounds: Seq<int>| is_sorting(needs, order, rounds)
}

/// `dependents` is `needs` the other way round, with ascending entries.
pub open spec fn is_reverse(needs: Seq<Seq<usize>>, dependents: Seq<Seq<usize>>) -> bool {
    &&& dependents.len() == needs.len()
    &&& forall|p: int, j: int|
        0 <= p < dependents.len() && 0 <= j < dependents[p].len() ==> #[trigger] dependents[p][j]
            < needs.len()
    &&& forall|p: int, i: int, j: int|
        0 <= p < dependents.len() && 0 <= i < j < dependents[p].len()
            ==> #[trigger] dependents[p][i] <= #[trigger] dependents[p][j]
    &&& forall|p: usize, x: usize|
        p < needs.len() && x < needs.len() ==> #[trigger] times(dependents[p as int], x) == times(
            needs[x as int],
            p,
        )
}

/// Turns `needs` round: for each node, the nodes that need it.
fn reverse(needs: &Vec<Vec<usize>>) -> (dependents: Vec<Vec<usize>>)
    requires
        in_range(lists(needs@)),
    ensures
        is_reverse(lists(needs@), lists(dependents@)),
{
    let mut dependents: Vec<Vec<usize>> = Vec::new();
    let n: usize = needs.len();
    let mut i: usize = 0;
    while i < n
        invariant
            i <= n,
            dependents.len() == i,
            forall|p: int| 0 <= p < i ==> (#[trigger] dependents[p])@.len() == 0,
        decreases n - i,
    {
        dependents.push(Vec::new());
        i += 1;
    }
    let ghost all = lists(needs@);
    let mut x: usize = 0;
    while x < n
        invariant
            x <= n,
            n == needs.len(),
            all == lists(needs@),
            in_range(all),
            dependents.len() == n,
            forall|p: int, j: int|
                0 <= p < n && 0 <= j < dependents[p]@.len() ==> #[trigger] dependents[p]@[j] < x,
            forall|p: int, a: int, b: int|
                0 <= p < n && 0 <= a < b < dependents[p]@.len() ==> #[trigger] dependents[p]@[a]
                    <= #[trigger] dependents[p]@[b],
            forall|p: usize, y: usize|
                p < n && y < x ==> #[trigger] times(dependents[p as int]@, y) == times(
                    all[y as int],
                    p,
                ),
        decreases n - x,
    {
        let mut k: usize = 0;
        proof {
            assert forall|p: usize| p < n implies #[trigger] times(dependents[p as int]@, x) == times(
                all[x as int].take(0),
                p,
            ) by {
                lemma_times_contains(dependents[p as int]@, x);
                assert(all[x as int].take(0).len() == 0);
            }
        }
        while k < needs[x].len()
            invariant
                x < n,
                n == needs.len(),
                k <= needs[x as int].len(),
                all == lists(needs@),
                in_range(all),
                dependents.len() == n,
                forall|p: int, j: int|
                    0 <= p < n && 0 <= j < dependents[p]@.len() ==> #[trigger] dependents[p]@[j]
                        <= x,
                forall|p: int, a: int, b: int|
                    0 <= p < n && 0 <= a < b < dependents[p]@.len() ==> #[trigger] dependents[p]@[a]
                        <= #[trigger] dependents[p]@[b],
                forall|p: usize, y: usize|
                    p < n && y < x ==> #[trigger] times(dependents[p as int]@, y) == times(
                        all[y as int],
                        p,
                    ),
                forall|p: usize|
                    p < n ==> #[trigger] times(dependents[p as int]@, x) == times(
                        all[x as int].take(k as int),
                        p,
                    ),
            decreases needs[x as int].len() - k,
        {
            let d: usize = needs[x][k];
            assert(all[x as int][k as int] == d);
            let ghost before = dependents@;
            dependents[d].push(x);
            proof {
                assert(dependents[d as int]@ == before[d as int]@.push(x));
                assert(dependents[d as int]@.drop_last() =~= before[d as int]@);
                assert forall|p: usize, y: usize| p < n && y < x implies #[trigger] times(
                    dependents[p as int]@,
                    y,
                ) == times(all[y as int], p) by {
                    assert(times(before[p as int]@, y) == times(all[y as int], p));
                }
                assert forall|p: usize| p < n implies #[trigger] times(dependents[p as int]@, x)
                    == times(all[x as int].take(k + 1), p) by {
                    assert(times(before[p as int]@, x) == times(all[x as int].take(k as int), p));
                    lemma_times_step(all[x as int], p, k as int);
                }
            }
            k += 1;
        }
        assert(all[x as int].take(k as int) =~= all[x as int]);
        x += 1;
    }
    proof {
        let turned = lists(dependents@);
        assert forall|p: int, j: int| 0 <= p < turned.len() && 0 <= j < turned[p].len() implies
            #[trigger] turned[p][j] < all.len() by {
            assert(dependents[p]@[j] < n);
        }
        assert forall|p: int, i: int, j: int|
            0 <= p < turned.len() && 0 <= i < j < turned[p].len() implies #[trigger] turned[p][i]
            <= #[trigger] turned[p][j] by {
            assert(dependents[p]@[i] <= dependents[p]@[j]);
        }
        assert forall|p: usize, y: usize| p < all.len() && y < all.len() implies #[trigger] times(
            turned[p as int],
            y,
        ) == times(all[y as int], p) by {
            assert(times(dependents[p as int]@, y) == times(all[y as int], p));
        }
    }
    dependents
}

/// The state between two rounds. The first `head` nodes of the order have been
/// worked off; `degree` counts what each node still needs; a node is in the order
/// as soon as it needs nothing more.
spec fn between_rounds(
    needs: Seq<Seq<usize>>,
    order: Seq<usize>,
    rounds: Seq<int>,
    degree: Seq<usize>,
    head: int,
) -> bool {
    &&& degree.len() == needs.len()
    &&& 0 <= head <= order.len()
    &&& explains(needs, order, rounds)
    &&& forall|q: int| 0 <= q < rounds.len() ==> #[trigger] rounds[q] <= head
    &&& forall|x: usize|
        x < needs.len() ==> #[trigger] degree[x as int] == open_entries(
            needs[x as int],
            order.take(head),
        )
    &&& forall|x: usize| x < needs.len() ==> (#[trigger] order.contains(x) <==> degree[x as int] == 0)
}

/// The state within the round of the node `p` at `head`, after `j` of its
/// dependents. The nodes that got ready in this round stand behind `start`.
spec fn within_round(
    needs: Seq<Seq<usize>>,
    released: Seq<usize>,
    order: Seq<usize>,
    rounds: Seq<int>,
    degree: Seq<usize>,
    head: int,
    j: int,
) -> bool {
    &&& degree.len() == needs.len()
    &&& 0 <= head < order.len()
    &&& 0 <= j <= released.len()
    &&& explains(needs, order, rounds)
    &&& forall|q: int| 0 <= q < rounds.len() ==> #[trigger] rounds[q] <= head + 1
    &&& forall|q: int|
        0 <= q < order.len() && #[trigger] rounds[q] == head + 1 ==> released.take(j).contains(
            order[q],
        )
    &&& forall|x: usize|
        x < needs.len() ==> #[trigger] degree[x as int] + times(released.take(j), x)
            == open_entries(needs[x as int], order.take(head))
    &&& forall|x: usize| x < needs.len() ==> (#[trigger] order.contains(x) <==> degree[x as int] == 0)
}

/// A node that gets ready joins the end of the order.
proof fn lemma_explains_pushed(
    needs: Seq<Seq<usize>>,
    order: Seq<usize>,
    rounds: Seq<int>,
    x: usize,
    round: int,
)
    requires
        explains(needs, order, rounds),
        x < needs.len(),
        !order.contains(x),
        0 <= round <= order.len(),
        forall|k: int|
            0 <= k < needs[x as int].len() ==> order.take(round).contains(
                #[trigger] needs[x as int][k],
            ),
        round > 0 ==> needs[x as int].contains(order[round - 1]),
        forall|q: int|
            0 <= q < order.len() ==> #[trigger] rounds[q] < round || (rounds[q] == round && order[q]
                < x),
    ensures
        explains(needs, order.push(x), rounds.push(round)),
{
    let longer = order.push(x);
    let explained = rounds.push(round);
    assert forall|q: int| 0 <= q < longer.len() implies settled(
        needs,
        longer,
        #[trigger] explained[q],
        q,
    ) by {
        let r = explained[q];
        assert(longer.take(r) =~= order.take(r));
        if q < order.len() {
            assert(settled(needs, order, rounds[q], q));
        }
    }
    assert forall|i: int, j: int| 0 <= i < j < longer.len() implies explained[i] < explained[j] || (
    #[trigger] explained[i] == #[trigger] explained[j] && longer[i] < longer[j]) by {
        if j < order.len() {
            assert(rounds[i] < rounds[j] || (rounds[i] == rounds[j] && order[i] < order[j]));
        } else {
            assert(rounds[i] < round || (rounds[i] == round && order[i] < x));
        }
    }
    assert forall|i: int, j: int|
        0 <= i < longer.len() && 0 <= j < longer.len() && i != j implies longer[i] != longer[j] by {
        if i == order.len() {
            assert(order.contains(order[j]));
        } else if j == order.len() {
            assert(order.contains(order[i]));
        }
    }
}

/// Numbers below `n` that are all different are at most `n` many.
proof fn lemma_bounded(order: Seq<usize>, n: usize)
    requires
        order.no_duplicates(),
        forall|q: int| 0 <= q < order.len() ==> #[trigger] order[q] < n,
    ensures
        order.len() <= n,
    decreases n,
{
    if order.len() > 0 {
        assert(order[0] < n);
        if order.contains((n - 1) as usize) {
            let at = choose|at: int| 0 <= at < order.len() && order[at] == n - 1;
            let rest = order.remove(at);
            assert forall|q: int| 0 <= q < rest.len() implies #[trigger] rest[q] < n - 1 by {
                let r = if q < at { q } else { q + 1 };
                assert(rest[q] == order[r]);
            }
            lemma_bounded(rest, (n - 1) as usize);
        } else {
            assert forall|q: int| 0 <= q < order.len() implies #[trigger] order[q] < n - 1 by {
                assert(order.contains(order[q]));
            }
            lemma_bounded(order, (n - 1) as usize);
        }
    }
}

/// The next dependent of `p` still waits for something, and `p` is part of that.
proof fn lemma_round_step(
    needs: Seq<Seq<usize>>,
    released: Seq<usize>,
    order: Seq<usize>,
    degree: Seq<usize>,
    head: int,
    j: int,
)
    requires
        0 <= head < order.len(),
        order.no_duplicates(),
        order[head] < needs.len(),
        degree.len() == needs.len(),
        0 <= j < released.len(),
        forall|i: int| 0 <= i < released.len() ==> #[trigger] released[i] < needs.len(),
        forall|x: usize|
            x < needs.len() ==> #[trigger] times(released, x) == times(
                needs[x as int],
                order[head],
            ),
        forall|x: usize|
            x < needs.len() ==> #[trigger] degree[x as int] + times(released.take(j), x)
                == open_entries(needs[x as int], order.take(head)),
    ensures
        degree[released[j] as int] > 0,
        needs[released[j] as int].contains(order[head]),
        degree[released[j] as int] == 1 ==> (forall|k: int|
            0 <= k < needs[released[j] as int].len() ==> order.take(head + 1).contains(
                #[trigger] needs[released[j] as int][k],
            )),
{
    let x = released[j];
    let p = order[head];
    let done = order.take(head);
    let list = needs[x as int];
    assert(!done.contains(p));
    assert(order.take(head + 1) =~= done.push(p));
    lemma_open_step(list, done, p);
    lemma_times_step(released, x, j);
    lemma_times_prefix(released, x, j + 1);
    lemma_times_contains(list, p);
    assert(times(released, x) == times(list, p));
    assert(degree[x as int] + times(released.take(j), x) == open_entries(list, done));
    lemma_open_none(list, done.push(p));
}

/// One more dependent of the node at `head` is counted down, and joins the order
/// if it waits for nothing more.
proof fn lemma_round_advanced(
    needs: Seq<Seq<usize>>,
    released: Seq<usize>,
    order: Seq<usize>,
    rounds: Seq<int>,
    degree: Seq<usize>,
    head: int,
    j: int,
)
    requires
        within_round(needs, released, order, rounds, degree, head, j),
        j < released.len(),
        forall|i: int| 0 <= i < released.len() ==> #[trigger] released[i] < needs.len(),
        forall|a: int, b: int|
            0 <= a < b < released.len() ==> #[trigger] released[a] <= #[trigger] released[b],
        forall|x: usize|
            x < needs.len() ==> #[trigger] times(released, x) == times(
                needs[x as int],
                order[head],
            ),
    ensures
        degree[released[j] as int] > 0,
        ({
            let x = released[j];
            let ready = degree[x as int] == 1;
            within_round(
                needs,
                released,
                if ready { order.push(x) } else { order },
                if ready { rounds.push(head + 1) } else { rounds },
                degree.update(x as int, (degree[x as int] - 1) as usize),
                head,
                j + 1,
            )
        }),
{
    let x = released[j];
    let ready = degree[x as int] == 1;
    lemma_round_step(needs, released, order, degree, head, j);
    let counted = degree.update(x as int, (degree[x as int] - 1) as usize);
    let order2 = if ready { order.push(x) } else { order };
    let rounds2 = if ready { rounds.push(head + 1) } else { rounds };
    assert(!order.contains(x));
    assert(released.take(j + 1) =~= released.take(j).push(x));
    assert(released.take(j + 1)[j] == x);
    assert forall|y: usize| released.take(j).contains(y) implies released.take(j + 1).contains(
        y,
    ) by {
        let i = choose|i: int| 0 <= i < j && released.take(j)[i] == y;
        assert(released.take(j + 1)[i] == y);
    }
    if ready {
        assert forall|q: int| 0 <= q < order.len() implies #[trigger] rounds[q] < head + 1 || (
        rounds[q] == head + 1 && order[q] < x) by {
            if rounds[q] == head + 1 {
                let i = choose|i: int| 0 <= i < j && released.take(j)[i] == order[q];
                assert(released[i] <= released[j]);
                assert(order.contains(order[q]));
            }
        }
        lemma_explains_pushed(needs, order, rounds, x, head + 1);
    }
    assert(order2.take(head) =~= order.take(head));
    assert forall|y: usize| y < needs.len() implies #[trigger] counted[y as int] + times(
        released.take(j + 1),
        y,
    ) == open_entries(needs[y as int], order2.take(head)) by {
        lemma_times_step(released, y, j);
        assert(degree[y as int] + times(released.take(j), y) == open_entries(
            needs[y as int],
            order.take(head),
        ));
    }
    assert forall|y: usize| y < needs.len() implies (#[trigger] order2.contains(y)
        <==> counted[y as int] == 0) by {
        if ready {
            assert(order2[order.len() as int] == x);
            if order.contains(y) {
                let q = choose|q: int| 0 <= q < order.len() && order[q] == y;
                assert(order2[q] == y);
            }
            if order2.contains(y) && y != x {
                let q = choose|q: int| 0 <= q < order2.len() && order2[q] == y;
                assert(order[q] == y);
            }
        }
    }
}

/// Sorts the nodes so that each comes after all that it needs: whichever is ready
/// first comes first, and nodes that get ready together come by number. Nodes that
/// never get ready are left over, and are handed out too, by number.
pub fn sort(needs: &Vec<Vec<usize>>) -> (sorted: (Vec<usize>, Vec<usize>))
    requires
        in_range(lists(needs@)),
    ensures
        sorts(lists(needs@), sorted.0@),
        forall|i: int, j: int| 0 <= i < j < sorted.1.len() ==> sorted.1[i] < sorted.1[j],
        forall|x: usize|
            #[trigger] sorted.1@.contains(x) <==> x < needs.len() && !sorted.0@.contains(x),
{
    let n: usize = needs.len();
    let dependents = reverse(needs);
    let ghost all = lists(needs@);
    let mut degree: Vec<usize> = Vec::new();
    let mut order: Vec<usize> = Vec::new();
    let ghost mut rounds: Seq<int> = Seq::empty();
    let mut i: usize = 0;
    while i < n
        invariant
            i <= n,
            n == needs.len(),
            all == lists(needs@),
            degree.len() == i,
            explains(all, order@, rounds),
            forall|q: int| 0 <= q < rounds.len() ==> #[trigger] rounds[q] == 0,
            forall|q: int| 0 <= q < order.len() ==> #[trigger] order[q] < i,
            forall|x: usize| x < i ==> #[trigger] degree[x as int] == all[x as int].len(),
            forall|x: usize|
                x < i ==> (#[trigger] order@.contains(x) <==> degree[x as int] == 0),
        decreases n - i,
    {
        let count: usize = needs[i].len();
        let ghost before = order@;
        degree.push(count);
        assert(!before.contains(i));
        if count == 0 {
            proof {
                assert forall|q: int| 0 <= q < before.len() implies #[trigger] rounds[q] == 0
                    && before[q] < i by {
                    assert(order[q] < i);
                }
                lemma_explains_pushed(all, before, rounds, i, 0);
                rounds = rounds.push(0);
            }
            order.push(i);
        }
        proof {
            assert forall|x: usize| x < i + 1 implies (#[trigger] order@.contains(x)
                <==> degree[x as int] == 0) by {
                if count == 0 {
                    assert(order@[before.len() as int] == i);
                    if x < i && before.contains(x) {
                        let q = choose|q: int| 0 <= q < before.len() && before[q] == x;
                        assert(order@[q] == x);
                    }
                }
            }
        }
        i += 1;
    }
    let mut head: usize = 0;
    proof {
        assert forall|x: usize| x < n implies #[trigger] degree[x as int] == open_entries(
            all[x as int],
            order@.take(0),
        ) by {
            assert(order@.take(0) =~= Seq::empty());
            lemma_open_all(all[x as int]);
        }
    }
    while head < order.len()
        invariant
            n == needs.len(),
            all == lists(needs@),
            in_range(all),
            is_reverse(all, lists(dependents@)),
            between_rounds(all, order@, rounds, degree@, head as int),
        decreases n - head,
    {
        proof {
            lemma_bounded(order@, n);
        }
        let p: usize = order[head];
        let ghost released = lists(dependents@)[p as int];
        let mut j: usize = 0;
        assert(released.take(0) =~= Seq::empty());
        while j < dependents[p].len()
            invariant
                n == needs.len(),
                all == lists(needs@),
                in_range(all),
                is_reverse(all, lists(dependents@)),
                p < n,
                head < order.len(),
                p == order[head as int],
                released == lists(dependents@)[p as int],
                released == dependents[p as int]@,
                within_round(all, released, order@, rounds, degree@, head as int, j as int),
            decreases dependents[p as int].len() - j,
        {
            let x: usize = dependents[p][j];
            proof {
                assert forall|i: int| 0 <= i < released.len() implies #[trigger] released[i] < n by {
                    assert(lists(dependents@)[p as int][i] < all.len());
                }
                assert forall|a: int, b: int| 0 <= a < b < released.len() implies
                    #[trigger] released[a] <= #[trigger] released[b] by {
                    assert(lists(dependents@)[p as int][a] <= lists(dependents@)[p as int][b]);
                }
                assert(released[j as int] == x);
                lemma_round_advanced(
                    all,
                    released,
                    order@,
                    rounds,
                    degree@,
                    head as int,
                    j as int,
                );
            }
            let waits_for: usize = degree[x] - 1;
            degree.set(x, waits_for);
            if waits_for == 0 {
                order.push(x);
                proof {
                    rounds = rounds.push(head + 1);
                }
            }
            j += 1;
        }
        proof {
            assert(released.take(j as int) =~= released);
            assert forall|x: usize| x < n implies #[trigger] degree[x as int] == open_entries(
                all[x as int],
                order@.take(head + 1),
            ) by {
                assert(order@.take(head + 1) =~= order@.take(head as int).push(p));
                assert(!order@.take(head as int).contains(p));
                lemma_open_step(all[x as int], order@.take(head as int), p);
                assert(times(released, x) == times(all[x as int], p));
            }
        }
        head += 1;
    }
    let mut left_over: Vec<usize> = Vec::new();
    let mut x: usize = 0;
    while x < n
        invariant
            x <= n,
            n == degree.len(),
            forall|a: int, b: int| 0 <= a < b < left_over.len() ==> left_over[a] < left_over[b],
            forall|a: int| 0 <= a < left_over.len() ==> #[trigger] left_over[a] < x,
            forall|y: usize|
                #[trigger] left_over@.contains(y) <==> y < x && degree[y as int] > 0,
        decreases n - x,
    {
        let ghost before = left_over@;
        if degree[x] > 0 {
            left_over.push(x);
            proof {
                assert forall|y: usize| #[trigger] left_over@.contains(y) <==> y < x + 1
                    && degree[y as int] > 0 by {
                    assert(left_over@[before.len() as int] == x);
                    if before.contains(y) {
                        let q = choose|q: int| 0 <= q < before.len() && before[q] == y;
                        assert(left_over@[q] == y);
                    }
                    if left_over@.contains(y) && y != x {
                        let q = choose|q: int| 0 <= q < left_over.len() && left_over@[q] == y;
                        assert(before[q] == y);
                    }
                }
            }
        }
        x += 1;
    }
    proof {
        assert forall|y: usize| y < n && !(#[trigger] order@.contains(y)) implies exists|k: int|
            0 <= k < all[y as int].len() && !order@.contains(#[trigger] all[y as int][k]) by {
            assert(order@.take(head as int) =~= order@);
            assert(degree[y as int] == open_entries(all[y as int], order@));
            lemma_open_none(all[y as int], order@);
        }
        assert(is_sorting(all, order@, rounds));
        assert(sorts(all, order@));
    }
    (order, left_over)
}

} // verus!
