//! The dependency graph of a set of plugins, and its load order.

use vstd::prelude::*;

use crate::plugin::PluginModel;
use crate::text;

verus! {

/// A dependency graph: for each plugin that takes part, the names it depends on,
/// as they are written down.
pub type Graph = Map<Seq<char>, Seq<Seq<char>>>;

/// The graph of a list of specifications. Disabled ones take no part; of several
/// enabled ones with the same name the last one counts.
pub open spec fn graph(specs: Seq<PluginModel>) -> Graph
    decreases specs.len(),
{
    if specs.len() == 0 {
        Map::empty()
    } else {
        let before = graph(specs.drop_last());
        let last = specs.last();
        if last.enabled {
            before.insert(last.name, last.dependencies)
        } else {
            before
        }
    }
}

/// All that `name` depends on takes part.
pub open spec fn has_all(g: Graph, name: Seq<char>) -> bool {
    forall|k: int| 0 <= k < g[name].len() ==> g.contains_key(#[trigger] g[name][k])
}

/// All that any plugin depends on takes part.
pub open spec fn is_complete(g: Graph) -> bool {
    forall|name: Seq<char>| #[trigger] g.contains_key(name) ==> has_all(g, name)
}

/// `dep` is the first dependency of `name` that takes no part.
pub open spec fn first_missing(g: Graph, name: Seq<char>, dep: Seq<char>) -> bool {
    exists|k: int|
        {
            &&& 0 <= k < g[name].len()
            &&& #[trigger] g[name][k] == dep
            &&& !g.contains_key(dep)
            &&& forall|j: int| 0 <= j < k ==> g.contains_key(#[trigger] g[name][j])
        }
}

/// A missing dependency that is worth reporting: the first one of the first plugin,
/// in the order of names, that misses any.
pub open spec fn reports_missing(g: Graph, from: Seq<char>, dep: Seq<char>) -> bool {
    &&& g.contains_key(from)
    &&& first_missing(g, from, dep)
    &&& forall|name: Seq<char>| #[trigger]
        g.contains_key(name) && text::name_lt(name, from) ==> has_all(g, name)
}

/// A chain of dependencies: each plugin depends on the next.
pub open spec fn is_chain(g: Graph, chain: Seq<Seq<char>>) -> bool {
    &&& chain.len() > 0
    &&& forall|i: int| 0 <= i < chain.len() ==> g.contains_key(#[trigger] chain[i])
    &&& forall|i: int, j: int|
        0 <= i && j == i + 1 && j < chain.len() ==> g[#[trigger] chain[i]].contains(
            #[trigger] chain[j],
        )
}

/// The last plugin of the chain has occurred in it before.
pub open spec fn comes_back(chain: Seq<Seq<char>>) -> bool {
    exists|i: int| 0 <= i < chain.len() - 1 && #[trigger] chain[i] == chain.last()
}

/// `name` is part of a dependency cycle, or depends, directly or not, on a plugin
/// that is.
pub open spec fn leads_to_cycle(g: Graph, name: Seq<char>) -> bool {
    exists|chain: Seq<Seq<char>>| #[trigger]
        is_chain(g, chain) && chain[0] == name && comes_back(chain)
}

/// The plugins that no order can load, for a cycle holds them up.
pub open spec fn held_up(g: Graph) -> Set<Seq<char>> {
    Set::new(|name: Seq<char>| leads_to_cycle(g, name))
}

/// How many plugins of `order` are loaded when the last of `deps` is.
pub open spec fn ready_after(deps: Seq<Seq<char>>, order: Seq<Seq<char>>) -> int
    decreases deps.len(),
{
    if deps.len() == 0 {
        0
    } else {
        let before = ready_after(deps.drop_last(), order);
        let here = order.index_of(deps.last()) + 1;
        if here > before {
            here
        } else {
            before
        }
    }
}

/// Each plugin of `order` comes after all that it depends on.
pub open spec fn deps_come_first(g: Graph, order: Seq<Seq<char>>) -> bool {
    forall|i: int, k: int|
        0 <= i < order.len() && 0 <= k < g[order[i]].len() ==> order.take(i).contains(
            #[trigger] g[order[i]][k],
        )
}

/// A plugin that is ready sooner comes sooner, and plugins that get ready together
/// come in the order of their names.
pub open spec fn goes_by_turns(g: Graph, order: Seq<Seq<char>>) -> bool {
    forall|i: int, j: int|
        0 <= i < j < order.len() ==> loads_before(g, order, #[trigger] order[i], #[trigger] order[j])
}

/// `order` is the load order of `g`. It holds every plugin once, each after all
/// that it depends on. A plugin that is ready sooner loads sooner, and plugins
/// that get ready together load in the order of their names.
pub open spec fn is_load_order(g: Graph, order: Seq<Seq<char>>) -> bool {
    &&& order.no_duplicates()
    &&& forall|name: Seq<char>| #[trigger] order.contains(name) <==> g.contains_key(name)
    &&& deps_come_first(g, order)
    &&& goes_by_turns(g, order)
}

/// By when they are ready, and then by their names, `a` loads before `b`.
pub open spec fn loads_before(
    g: Graph,
    order: Seq<Seq<char>>,
    a: Seq<char>,
    b: Seq<char>,
) -> bool {
    let (x, y) = (ready_after(g[a], order), ready_after(g[b], order));
    x < y || (x == y && text::name_lt(a, b))
}

proof fn lemma_index_of(order: Seq<Seq<char>>, i: int)
    requires
        order.no_duplicates(),
        0 <= i < order.len(),
    ensures
        order.index_of(order[i]) == i,
{
    let j = order.index_of(order[i]);
    assert(0 <= j < order.len() && order[j] == order[i]);
}

proof fn lemma_ready_within(deps: Seq<Seq<char>>, order: Seq<Seq<char>>, r: int)
    requires
        order.no_duplicates(),
        0 <= r <= order.len(),
        forall|k: int| 0 <= k < deps.len() ==> order.take(r).contains(#[trigger] deps[k]),
    ensures
        0 <= ready_after(deps, order) <= r,
        forall|k: int|
            0 <= k < deps.len() ==> order.index_of(#[trigger] deps[k]) < ready_after(deps, order),
    decreases deps.len(),
{
    if deps.len() > 0 {
        let rest = deps.drop_last();
        assert forall|k: int| 0 <= k < rest.len() implies order.take(r).contains(
            #[trigger] rest[k],
        ) by {
            assert(rest[k] == deps[k]);
        }
        lemma_ready_within(rest, order, r);
        let last = deps[deps.len() - 1];
        assert(order.take(r).contains(last));
        let i = choose|i: int| 0 <= i < r && order.take(r)[i] == last;
        lemma_index_of(order, i);
        assert forall|k: int| 0 <= k < deps.len() implies order.index_of(#[trigger] deps[k])
            < ready_after(deps, order) by {
            if k < rest.len() {
                assert(order.index_of(rest[k]) < ready_after(rest, order));
            }
        }
    }
}

/// A plugin gets ready with the plugin before position `r` if it needs that one and
/// none behind it.
pub(crate) proof fn lemma_ready_exactly(deps: Seq<Seq<char>>, order: Seq<Seq<char>>, r: int)
    requires
        order.no_duplicates(),
        0 <= r <= order.len(),
        forall|k: int| 0 <= k < deps.len() ==> order.take(r).contains(#[trigger] deps[k]),
        r > 0 ==> deps.contains(order[r - 1]),
    ensures
        ready_after(deps, order) == r,
{
    lemma_ready_within(deps, order, r);
    if r > 0 {
        let k = choose|k: int| 0 <= k < deps.len() && deps[k] == order[r - 1];
        assert(order.index_of(deps[k]) < ready_after(deps, order));
        lemma_index_of(order, r - 1);
    }
}

/// Whoever is not in `order` depends on somebody who is not.
pub(crate) open spec fn leaves_out_the_rest(g: Graph, order: Seq<Seq<char>>) -> bool {
    forall|name: Seq<char>| #[trigger]
        g.contains_key(name) && !order.contains(name) ==> exists|k: int|
            0 <= k < g[name].len() && !order.contains(#[trigger] g[name][k])
}

/// Along a chain the plugins stand ever earlier in a load order.
proof fn lemma_chain_descends(g: Graph, order: Seq<Seq<char>>, chain: Seq<Seq<char>>, i: int, j: int)
    requires
        order.no_duplicates(),
        deps_come_first(g, order),
        is_chain(g, chain),
        0 <= i < j < chain.len(),
        order.contains(chain[i]),
    ensures
        order.contains(chain[j]),
        order.index_of(chain[j]) < order.index_of(chain[i]),
    decreases j - i,
{
    if j > i + 1 {
        lemma_chain_descends(g, order, chain, i, j - 1);
    }
    let a = chain[j - 1];
    let b = chain[j];
    let q = order.index_of(a);
    assert(order[q] == a);
    assert(g[chain[j - 1]].contains(chain[j]));
    let k = choose|k: int| 0 <= k < g[a].len() && g[a][k] == b;
    assert(order.take(q).contains(g[order[q]][k]));
    let t = choose|t: int| 0 <= t < q && order.take(q)[t] == b;
    assert(order[t] == b);
    lemma_index_of(order, t);
}

/// `name` takes part, and depends on one of `stuck`.
pub open spec fn waits_for_one(g: Graph, stuck: Set<Seq<char>>, name: Seq<char>) -> bool {
    g.contains_key(name) && exists|k: int|
        0 <= k < g[name].len() && stuck.contains(#[trigger] g[name][k])
}

/// Each of `stuck` takes part, and depends on one of `stuck`.
pub open spec fn wait_for_each_other(g: Graph, stuck: Set<Seq<char>>) -> bool {
    forall|name: Seq<char>| stuck.contains(name) ==> #[trigger] waits_for_one(g, stuck, name)
}

/// From a plugin that waits for others that wait, a chain of any length leads on through
/// such plugins.
proof fn lemma_chain_on(g: Graph, stuck: Set<Seq<char>>, name: Seq<char>, more: nat) -> (chain: Seq<
    Seq<char>,
>)
    requires
        wait_for_each_other(g, stuck),
        stuck.contains(name),
    ensures
        is_chain(g, chain),
        chain.len() == more + 1,
        chain[0] == name,
        stuck.contains(chain.last()),
    decreases more,
{
    if more == 0 {
        assert(waits_for_one(g, stuck, name));
        seq![name]
    } else {
        let before = lemma_chain_on(g, stuck, name, (more - 1) as nat);
        let last = before[before.len() - 1];
        assert(waits_for_one(g, stuck, last));
        let k = choose|k: int| 0 <= k < g[last].len() && stuck.contains(#[trigger] g[last][k]);
        let next = g[last][k];
        assert(waits_for_one(g, stuck, next));
        let chain = before.push(next);
        assert forall|i: int, j: int|
            0 <= i && j == i + 1 && j < chain.len() implies g[#[trigger] chain[i]].contains(
            #[trigger] chain[j],
        ) by {
            if j < before.len() {
                assert(g[before[i]].contains(before[j]));
            }
        }
        chain
    }
}

/// The graph of finitely many specifications is finite.
pub(crate) proof fn lemma_graph_finite(specs: Seq<PluginModel>)
    ensures
        graph(specs).dom().finite(),
    decreases specs.len(),
{
    if specs.len() > 0 {
        lemma_graph_finite(specs.drop_last());
    }
}

/// Those that are left out wait for each other.
proof fn lemma_rest_waits(g: Graph, order: Seq<Seq<char>>) -> (rest: Set<Seq<char>>)
    requires
        is_complete(g),
        leaves_out_the_rest(g, order),
    ensures
        forall|n: Seq<char>| #[trigger]
            rest.contains(n) <==> g.contains_key(n) && !order.contains(n),
        wait_for_each_other(g, rest),
{
    let rest = Set::new(|n: Seq<char>| g.contains_key(n) && !order.contains(n));
    assert(wait_for_each_other(g, rest)) by {
        assert forall|n: Seq<char>| rest.contains(n) implies #[trigger] waits_for_one(
            g,
            rest,
            n,
        ) by {
            let k = lemma_left_out_dep(g, order, n);
            assert(rest.contains(g[n][k]));
        }
    }
    rest
}

/// Whoever is left out depends on somebody who takes part and is left out.
proof fn lemma_left_out_dep(g: Graph, order: Seq<Seq<char>>, name: Seq<char>) -> (k: int)
    requires
        is_complete(g),
        leaves_out_the_rest(g, order),
        g.contains_key(name),
        !order.contains(name),
    ensures
        0 <= k < g[name].len(),
        g.contains_key(g[name][k]),
        !order.contains(g[name][k]),
{
    assert(has_all(g, name));
    choose|k: int| 0 <= k < g[name].len() && !order.contains(#[trigger] g[name][k])
}

/// What the load order leaves out is what a cycle holds up.
pub(crate) proof fn lemma_left_out_is_held_up(g: Graph, order: Seq<Seq<char>>)
    requires
        g.dom().finite(),
        is_complete(g),
        order.no_duplicates(),
        deps_come_first(g, order),
        leaves_out_the_rest(g, order),
    ensures
        forall|name: Seq<char>| #[trigger]
            held_up(g).contains(name) <==> g.contains_key(name) && !order.contains(name),
{
    assert forall|name: Seq<char>| #[trigger] held_up(g).contains(name) <==> g.contains_key(name)
        && !order.contains(name) by {
        if leads_to_cycle(g, name) {
            let chain = choose|chain: Seq<Seq<char>>| #[trigger]
                is_chain(g, chain) && chain[0] == name && comes_back(chain);
            assert(g.contains_key(chain[0]));
            if order.contains(name) {
                let i = choose|i: int| 0 <= i < chain.len() - 1 && #[trigger] chain[i]
                    == chain.last();
                if i > 0 {
                    lemma_chain_descends(g, order, chain, 0, i);
                }
                lemma_chain_descends(g, order, chain, i, chain.len() - 1);
            }
        }
        if g.contains_key(name) && !order.contains(name) {
            let rest = lemma_rest_waits(g, order);
            assert(rest.contains(name));
            lemma_held_up(g, rest, name);
        }
    }
}

proof fn lemma_held_up(g: Graph, stuck: Set<Seq<char>>, name: Seq<char>)
    requires
        g.dom().finite(),
        wait_for_each_other(g, stuck),
        stuck.contains(name),
    ensures
        leads_to_cycle(g, name),
{
    let chain = lemma_chain_on(g, stuck, name, g.dom().len());
    if chain.no_duplicates() {
        chain.unique_seq_to_set();
        assert forall|n: Seq<char>| #[trigger] chain.to_set().contains(n) implies g.dom().contains(
            n,
        ) by {
            let i = choose|i: int| 0 <= i < chain.len() && chain[i] == n;
            assert(g.contains_key(chain[i]));
        }
        vstd::set_lib::lemma_len_subset(chain.to_set(), g.dom());
    }
    let (a, b) = choose|a: int, b: int|
        0 <= a < chain.len() && 0 <= b < chain.len() && a != b && chain[a] == chain[b];
    let (i, j) = if a < b { (a, b) } else { (b, a) };
    let loop_chain = chain.take(j + 1);
    assert(is_chain(g, loop_chain)) by {
        assert forall|p: int| 0 <= p < loop_chain.len() implies g.contains_key(
            #[trigger] loop_chain[p],
        ) by {
            assert(g.contains_key(chain[p]));
        }
        assert forall|p: int, q: int|
            0 <= p && q == p + 1 && q < loop_chain.len() implies g[#[trigger] loop_chain[p]].contains(
            #[trigger] loop_chain[q],
        ) by {
            assert(g[chain[p]].contains(chain[q]));
        }
    }
    assert(loop_chain[i] == loop_chain.last());
    assert(comes_back(loop_chain));
}

/// A plugin is in the graph if and only if some enabled specification has its name.
proof fn lemma_graph_members(specs: Seq<PluginModel>, name: Seq<char>)
    ensures
        graph(specs).contains_key(name) <==> exists|i: int|
            0 <= i < specs.len() && (#[trigger] specs[i]).enabled && specs[i].name == name,
    decreases specs.len(),
{
    if specs.len() > 0 {
        let rest = specs.drop_last();
        lemma_graph_members(rest, name);
        if graph(rest).contains_key(name) {
            let i = choose|i: int|
                0 <= i < rest.len() && (#[trigger] rest[i]).enabled && rest[i].name == name;
            assert(specs[i] == rest[i]);
        }
        if graph(specs).contains_key(name) && !graph(rest).contains_key(name) {
            assert(specs[specs.len() - 1].enabled);
        }
        if exists|i: int|
            0 <= i < specs.len() && (#[trigger] specs[i]).enabled && specs[i].name == name {
            let i = choose|i: int|
                0 <= i < specs.len() && (#[trigger] specs[i]).enabled && specs[i].name == name;
            if i < rest.len() {
                assert(rest[i] == specs[i]);
            }
        }
    }
}

/// No two enabled specifications have the same name.
pub open spec fn names_are_unique(specs: Seq<PluginModel>) -> bool {
    forall|i: int, j: int|
        0 <= i < j < specs.len() && (#[trigger] specs[i]).enabled && (#[trigger] specs[j]).enabled
            ==> specs[i].name != specs[j].name
}

proof fn lemma_graph_value(specs: Seq<PluginModel>, i: int)
    requires
        names_are_unique(specs),
        0 <= i < specs.len(),
        specs[i].enabled,
    ensures
        graph(specs).contains_key(specs[i].name),
        graph(specs)[specs[i].name] == specs[i].dependencies,
    decreases specs.len(),
{
    let last = specs.len() - 1;
    if i < last {
        let rest = specs.drop_last();
        assert forall|a: int, b: int|
            0 <= a < b < rest.len() && (#[trigger] rest[a]).enabled && (
            #[trigger] rest[b]).enabled implies rest[a].name != rest[b].name by {
            assert(rest[a] == specs[a] && rest[b] == specs[b]);
        }
        assert(rest[i] == specs[i]);
        lemma_graph_value(rest, i);
        if specs[last].enabled {
            assert(specs[i].name != specs[last].name);
        }
    }
}

/// Resolution looks at the enabled specifications alone: without the disabled ones
/// the graph is the same.
pub proof fn law_disabled_take_no_part(specs: Seq<PluginModel>)
    ensures
        graph(specs.filter(|s: PluginModel| s.enabled)) == graph(specs),
    decreases specs.len(),
{
    reveal(Seq::filter);
    let enabled = |s: PluginModel| s.enabled;
    if specs.len() > 0 {
        let rest = specs.drop_last();
        law_disabled_take_no_part(rest);
        if specs.last().enabled {
            assert(specs.filter(enabled) =~= rest.filter(enabled).push(specs.last()));
            assert(rest.filter(enabled).push(specs.last()).drop_last() =~= rest.filter(enabled));
        } else {
            assert(specs.filter(enabled) =~= rest.filter(enabled));
        }
    } else {
        assert(specs.filter(enabled) =~= specs);
    }
}

/// As long as names are unique, it does not matter in which order, or how often,
/// the specifications are listed.
pub proof fn law_listing_does_not_matter(a: Seq<PluginModel>, b: Seq<PluginModel>)
    requires
        names_are_unique(a),
        names_are_unique(b),
        forall|s: PluginModel| a.contains(s) <==> b.contains(s),
    ensures
        graph(a) == graph(b),
{
    assert forall|name: Seq<char>| #[trigger] graph(a).contains_key(name) <==> graph(
        b,
    ).contains_key(name) by {
        lemma_graph_members(a, name);
        lemma_graph_members(b, name);
        if graph(a).contains_key(name) {
            let i = choose|i: int|
                0 <= i < a.len() && (#[trigger] a[i]).enabled && a[i].name == name;
            assert(a.contains(a[i]));
            let j = choose|j: int| 0 <= j < b.len() && b[j] == a[i];
            assert(b[j].enabled);
        }
        if graph(b).contains_key(name) {
            let i = choose|i: int|
                0 <= i < b.len() && (#[trigger] b[i]).enabled && b[i].name == name;
            assert(b.contains(b[i]));
            let j = choose|j: int| 0 <= j < a.len() && a[j] == b[i];
            assert(a[j].enabled);
        }
    }
    assert forall|name: Seq<char>| #[trigger] graph(a).contains_key(name) implies graph(a)[name]
        == graph(b)[name] by {
        lemma_graph_members(a, name);
        let i = choose|i: int| 0 <= i < a.len() && (#[trigger] a[i]).enabled && a[i].name == name;
        assert(a.contains(a[i]));
        let j = choose|j: int| 0 <= j < b.len() && b[j] == a[i];
        lemma_graph_value(a, i);
        lemma_graph_value(b, j);
    }
    assert(graph(a) =~= graph(b));
}

/// In a load order, every dependency is loaded before the plugin that declares it.
pub proof fn law_dependencies_load_first(
    g: Graph,
    order: Seq<Seq<char>>,
    name: Seq<char>,
    dep: Seq<char>,
)
    requires
        is_load_order(g, order),
        g.contains_key(name),
        g[name].contains(dep),
    ensures
        order.contains(name),
        order.contains(dep),
        order.index_of(dep) < order.index_of(name),
{
    assert(order.contains(name));
    let q = order.index_of(name);
    assert(order[q] == name);
    let k = choose|k: int| 0 <= k < g[name].len() && g[name][k] == dep;
    assert(order.take(q).contains(g[order[q]][k]));
    let t = choose|t: int| 0 <= t < q && order.take(q)[t] == dep;
    assert(order[t] == dep);
    lemma_index_of(order, t);
}

/// Only a graph in which nothing is missing and nothing is held up by a cycle has a
/// load order.
pub proof fn law_order_needs_complete_and_acyclic(g: Graph, order: Seq<Seq<char>>)
    requires
        is_load_order(g, order),
    ensures
        is_complete(g),
        forall|name: Seq<char>| !held_up(g).contains(name),
{
    assert forall|name: Seq<char>| #[trigger] g.contains_key(name) implies has_all(g, name) by {
        assert forall|k: int| 0 <= k < g[name].len() implies g.contains_key(
            #[trigger] g[name][k],
        ) by {
            law_dependencies_load_first(g, order, name, g[name][k]);
        }
    }
    assert forall|name: Seq<char>| !held_up(g).contains(name) by {
        if leads_to_cycle(g, name) {
            let chain = choose|chain: Seq<Seq<char>>| #[trigger]
                is_chain(g, chain) && chain[0] == name && comes_back(chain);
            let i = choose|i: int| 0 <= i < chain.len() - 1 && #[trigger] chain[i] == chain.last();
            assert(g.contains_key(chain[i]));
            lemma_chain_descends(g, order, chain, i, chain.len() - 1);
        }
    }
}

proof fn lemma_ready_same(
    deps: Seq<Seq<char>>,
    a: Seq<Seq<char>>,
    b: Seq<Seq<char>>,
    i: int,
)
    requires
        a.no_duplicates(),
        b.no_duplicates(),
        0 <= i <= a.len(),
        i <= b.len(),
        a.take(i) == b.take(i),
        forall|k: int| 0 <= k < deps.len() ==> a.take(i).contains(#[trigger] deps[k]),
    ensures
        ready_after(deps, a) == ready_after(deps, b),
    decreases deps.len(),
{
    if deps.len() > 0 {
        let rest = deps.drop_last();
        assert forall|k: int| 0 <= k < rest.len() implies a.take(i).contains(#[trigger] rest[k]) by {
            assert(rest[k] == deps[k]);
        }
        lemma_ready_same(rest, a, b, i);
        let last = deps[deps.len() - 1];
        let t = choose|t: int| 0 <= t < i && a.take(i)[t] == last;
        assert(b.take(i)[t] == last);
        lemma_index_of(a, t);
        lemma_index_of(b, t);
    }
}

proof fn lemma_orders_agree(g: Graph, a: Seq<Seq<char>>, b: Seq<Seq<char>>, i: int)
    requires
        is_load_order(g, a),
        is_load_order(g, b),
        0 <= i <= a.len(),
        i <= b.len(),
    ensures
        a.take(i) == b.take(i),
    decreases i,
{
    if i == 0 {
        assert(a.take(0) =~= b.take(0));
    } else {
        let p = i - 1;
        lemma_orders_agree(g, a, b, p);
        let (x, y) = (a[p], b[p]);
        if x != y {
            assert(a.contains(x));
            assert(b.contains(y));
            assert(b.contains(x));
            assert(a.contains(y));
            let j = b.index_of(x);
            let k = a.index_of(y);
            assert(b[j] == x && a[k] == y);
            if j < p {
                assert(b.take(p)[j] == a.take(p)[j]);
            }
            if k < p {
                assert(a.take(p)[k] == b.take(p)[k]);
            }
            assert forall|m: int| 0 <= m < g[x].len() implies a.take(p).contains(
                #[trigger] g[x][m],
            ) by {
                assert(a.take(p).contains(g[a[p]][m]));
            }
            assert forall|m: int| 0 <= m < g[y].len() implies a.take(p).contains(
                #[trigger] g[y][m],
            ) by {
                assert(b.take(p).contains(g[b[p]][m]));
            }
            lemma_ready_same(g[x], a, b, p);
            lemma_ready_same(g[y], a, b, p);
            assert(loads_before(g, a, a[p], a[k]));
            assert(loads_before(g, b, b[p], b[j]));
            if text::name_lt(x, y) && text::name_lt(y, x) {
                text::lemma_name_lt_transitive(x, y, x);
                text::lemma_name_lt_irreflexive(x);
            }
        }
        assert(a.take(i) =~= a.take(p).push(x));
        assert(b.take(i) =~= b.take(p).push(y));
    }
}

/// A graph has at most one load order: resolution is deterministic.
pub proof fn law_load_order_is_unique(g: Graph, a: Seq<Seq<char>>, b: Seq<Seq<char>>)
    requires
        is_load_order(g, a),
        is_load_order(g, b),
    ensures
        a == b,
{
    a.unique_seq_to_set();
    b.unique_seq_to_set();
    assert(a.to_set() =~= b.to_set()) by {
        assert forall|name: Seq<char>| a.to_set().contains(name) <==> b.to_set().contains(name) by {
            assert(a.contains(name) <==> g.contains_key(name));
            assert(b.contains(name) <==> g.contains_key(name));
        }
    }
    lemma_orders_agree(g, a, b, a.len() as int);
    assert(a.take(a.len() as int) =~= a);
    assert(b.take(b.len() as int) =~= b);
}

/// Plugins that depend on nothing load in the order of their names.
pub proof fn law_independent_plugins_load_by_name(g: Graph, order: Seq<Seq<char>>)
    requires
        is_load_order(g, order),
        forall|name: Seq<char>| #[trigger] g.contains_key(name) ==> g[name].len() == 0,
    ensures
        text::lists_in_order(order, g.dom()),
{
    assert forall|i: int, j: int| 0 <= i < j < order.len() implies #[trigger] text::name_lt(
        order[i],
        order[j],
    ) by {
        assert(order.contains(order[i]));
        assert(order.contains(order[j]));
        assert(loads_before(g, order, order[i], order[j]));
    }
}

/// `deps` are done when the last of them is, in whatever order they are written.
proof fn lemma_ready_is_last(deps: Seq<Seq<char>>, order: Seq<Seq<char>>)
    ensures
        ready_after(deps, order) >= 0,
        forall|d: Seq<char>| #[trigger]
            deps.contains(d) ==> order.index_of(d) < ready_after(deps, order),
        ready_after(deps, order) > 0 ==> exists|d: Seq<char>| #[trigger]
            deps.contains(d) && order.index_of(d) + 1 == ready_after(deps, order),
    decreases deps.len(),
{
    if deps.len() > 0 {
        let rest = deps.drop_last();
        lemma_ready_is_last(rest, order);
        let last = deps[deps.len() - 1];
        assert(deps.contains(last));
        assert forall|d: Seq<char>| #[trigger] deps.contains(d) implies order.index_of(d)
            < ready_after(deps, order) by {
            let k = choose|k: int| 0 <= k < deps.len() && deps[k] == d;
            if k < rest.len() {
                assert(rest[k] == d);
                assert(rest.contains(d));
            }
        }
        if ready_after(deps, order) > 0 {
            if order.index_of(last) + 1 != ready_after(deps, order) {
                let d = choose|d: Seq<char>| #[trigger]
                    rest.contains(d) && order.index_of(d) + 1 == ready_after(rest, order);
                let k = choose|k: int| 0 <= k < rest.len() && rest[k] == d;
                assert(deps[k] == d);
                assert(deps.contains(d));
            }
        }
    }
}

proof fn lemma_ready_by_members(
    a: Seq<Seq<char>>,
    b: Seq<Seq<char>>,
    order: Seq<Seq<char>>,
)
    requires
        forall|d: Seq<char>| #[trigger] a.contains(d) ==> b.contains(d),
    ensures
        ready_after(a, order) <= ready_after(b, order),
{
    lemma_ready_is_last(a, order);
    lemma_ready_is_last(b, order);
}

/// It does not matter how often, or in which order, a plugin declares its
/// dependencies: a duplicate is harmless.
pub proof fn law_duplicate_dependencies_are_harmless(g: Graph, h: Graph, order: Seq<Seq<char>>)
    requires
        is_load_order(g, order),
        g.dom() == h.dom(),
        forall|name: Seq<char>, dep: Seq<char>|
            #![trigger g[name].contains(dep)]
            #![trigger h[name].contains(dep)]
            g.contains_key(name) ==> (g[name].contains(dep) <==> h[name].contains(dep)),
    ensures
        is_load_order(h, order),
{
    assert forall|name: Seq<char>| #[trigger] order.contains(name) <==> h.contains_key(name) by {
        assert(g.dom().contains(name) <==> h.dom().contains(name));
    }
    assert forall|i: int, k: int|
        0 <= i < order.len() && 0 <= k < h[order[i]].len() implies order.take(i).contains(
        #[trigger] h[order[i]][k],
    ) by {
        let name = order[i];
        let dep = h[name][k];
        assert(order.contains(name));
        assert(h[name].contains(dep));
        let m = choose|m: int| 0 <= m < g[name].len() && g[name][m] == dep;
        assert(order.take(i).contains(g[order[i]][m]));
    }
    assert forall|i: int, j: int| 0 <= i < j < order.len() implies loads_before(
        h,
        order,
        #[trigger] order[i],
        #[trigger] order[j],
    ) by {
        let (a, b) = (order[i], order[j]);
        assert(order.contains(a));
        assert(order.contains(b));
        lemma_ready_by_members(g[a], h[a], order);
        lemma_ready_by_members(h[a], g[a], order);
        lemma_ready_by_members(g[b], h[b], order);
        lemma_ready_by_members(h[b], g[b], order);
        assert(loads_before(g, order, a, b));
    }
}

/// The specification at `i` is enabled, and no later enabled one has its name.
pub open spec fn takes_part(specs: Seq<PluginModel>, i: int) -> bool {
    &&& 0 <= i < specs.len()
    &&& specs[i].enabled
    &&& forall|j: int|
        i < j < specs.len() && (#[trigger] specs[j]).enabled ==> specs[j].name != specs[i].name
}

/// The graph holds the names of the enabled specifications, and no others. Of those with
/// the same name, the last one says what the plugin depends on.
pub proof fn law_graph_of_specs(specs: Seq<PluginModel>)
    ensures
        forall|i: int|
            0 <= i < specs.len() && (#[trigger] specs[i]).enabled ==> graph(specs).contains_key(
                specs[i].name,
            ),
        forall|name: Seq<char>| #[trigger]
            graph(specs).contains_key(name) ==> exists|i: int| #[trigger]
                takes_part(specs, i) && specs[i].name == name,
        forall|i: int| #[trigger]
            takes_part(specs, i) ==> graph(specs)[specs[i].name] == specs[i].dependencies,
    decreases specs.len(),
{
    if specs.len() > 0 {
        let rest = specs.drop_last();
        let last = specs.len() - 1;
        law_graph_of_specs(rest);
        assert forall|i: int| 0 <= i < specs.len() && (#[trigger] specs[i]).enabled implies graph(
            specs,
        ).contains_key(specs[i].name) by {
            if i < last {
                assert(rest[i].enabled);
            }
        }
        assert forall|name: Seq<char>| #[trigger] graph(specs).contains_key(name) implies exists|
            i: int,
        | #[trigger] takes_part(specs, i) && specs[i].name == name by {
            if specs[last].enabled && specs[last].name == name {
                assert(takes_part(specs, last));
            } else {
                assert(graph(rest).contains_key(name));
                let i = choose|i: int| #[trigger] takes_part(rest, i) && rest[i].name == name;
                assert forall|j: int|
                    i < j < specs.len() && (#[trigger] specs[j]).enabled implies specs[j].name
                    != specs[i].name by {
                    if j < last {
                        assert(rest[j].enabled);
                    }
                }
                assert(takes_part(specs, i));
            }
        }
        assert forall|i: int| #[trigger] takes_part(specs, i) implies graph(specs)[specs[i].name]
            == specs[i].dependencies by {
            if i < last {
                assert forall|j: int|
                    i < j < rest.len() && (#[trigger] rest[j]).enabled implies rest[j].name
                    != rest[i].name by {
                    assert(specs[j].enabled);
                }
                assert(takes_part(rest, i));
                if specs[last].enabled {
                    assert(specs[last].name != specs[i].name);
                }
            }
        }
    }
}

/// Who loads first is ready no later, and if both get ready together, has the earlier name.
pub(crate) proof fn lemma_ready_or_named(g: Graph, order: Seq<Seq<char>>, p: int, q: int)
    requires
        is_load_order(g, order),
        0 <= p < q < order.len(),
    ensures
        0 <= ready_after(g[order[p]], order) <= ready_after(g[order[q]], order),
        ready_after(g[order[p]], order) == ready_after(g[order[q]], order) ==> text::name_lt(
            order[p],
            order[q],
        ),
{
    assert(loads_before(g, order, order[p], order[q]));
    lemma_ready_is_last(g[order[p]], order);
}

/// A dependency stands before the place at which the plugin gets ready.
pub(crate) proof fn lemma_dep_before_ready(g: Graph, order: Seq<Seq<char>>, p: int, a: int)
    requires
        order.no_duplicates(),
        0 <= a < order.len(),
        g[order[p]].contains(order[a]),
    ensures
        a < ready_after(g[order[p]], order),
{
    lemma_ready_is_last(g[order[p]], order);
    lemma_index_of(order, a);
}

/// Something that the later of two plugins depends on stands no earlier than `a`, where
/// stands something that the earlier one depends on.
pub(crate) proof fn lemma_ready_sooner(
    g: Graph,
    order: Seq<Seq<char>>,
    p: int,
    q: int,
    a: int,
) -> (b: int)
    requires
        is_load_order(g, order),
        0 <= p < q < order.len(),
        0 <= a < order.len(),
        g[order[p]].contains(order[a]),
    ensures
        a <= b < order.len(),
        g[order[q]].contains(order[b]),
{
    lemma_ready_or_named(g, order, p, q);
    lemma_dep_before_ready(g, order, p, a);
    lemma_last_dep(g, order, q)
}

/// Where the last dependency of the plugin at `q` stands.
pub(crate) proof fn lemma_last_dep(g: Graph, order: Seq<Seq<char>>, q: int) -> (b: int)
    requires
        is_load_order(g, order),
        0 <= q < order.len(),
        ready_after(g[order[q]], order) > 0,
    ensures
        0 <= b < order.len(),
        b + 1 == ready_after(g[order[q]], order),
        g[order[q]].contains(order[b]),
{
    let deps = g[order[q]];
    lemma_ready_is_last(deps, order);
    let d = choose|d: Seq<char>| #[trigger]
        deps.contains(d) && order.index_of(d) + 1 == ready_after(deps, order);
    assert(order.contains(order[q]));
    law_dependencies_load_first(g, order, order[q], d);
    assert(order[order.index_of(d)] == d);
    order.index_of(d)
}

/// A plugin that is held up takes part, and depends on one that is held up.
pub proof fn law_held_up_depends_on_held_up(g: Graph, name: Seq<char>) -> (k: int)
    requires
        held_up(g).contains(name),
    ensures
        g.contains_key(name),
        0 <= k < g[name].len(),
        held_up(g).contains(g[name][k]),
{
    let chain = choose|chain: Seq<Seq<char>>| #[trigger]
        is_chain(g, chain) && chain[0] == name && comes_back(chain);
    lemma_next_is_held_up(g, chain);
    assert(g.contains_key(chain[0]));
    assert(g[chain[0]].contains(chain[1]));
    choose|k: int| 0 <= k < g[name].len() && g[name][k] == chain[1]
}

/// Wherever plugins wait for each other, each of them depending on one of them, they are
/// held up.
pub proof fn law_stuck_plugins_are_held_up(g: Graph, stuck: Set<Seq<char>>, name: Seq<char>)
    requires
        g.dom().finite(),
        wait_for_each_other(g, stuck),
        stuck.contains(name),
    ensures
        held_up(g).contains(name),
{
    lemma_held_up(g, stuck, name);
}

/// What a plugin that is held up leads to is held up.
proof fn lemma_next_is_held_up(g: Graph, chain: Seq<Seq<char>>)
    requires
        is_chain(g, chain),
        comes_back(chain),
    ensures
        chain.len() > 1,
        leads_to_cycle(g, chain[1]),
{
    let i = choose|i: int| 0 <= i < chain.len() - 1 && #[trigger] chain[i] == chain.last();
    let next = if i > 0 {
        chain.drop_first()
    } else {
        chain.drop_first().push(chain[1])
    };
    assert forall|p: int| 0 <= p < next.len() implies g.contains_key(#[trigger] next[p]) by {
        if p + 1 < chain.len() {
            assert(next[p] == chain[p + 1]);
        } else {
            assert(next[p] == chain[1]);
        }
    }
    assert forall|p: int, q: int|
        0 <= p && q == p + 1 && q < next.len() implies g[#[trigger] next[p]].contains(
        #[trigger] next[q],
    ) by {
        if q + 1 < chain.len() {
            assert(g[chain[p + 1]].contains(chain[q + 1]));
        } else {
            assert(next[p] == chain[0]);
            assert(g[chain[0]].contains(chain[1]));
        }
    }
    assert(is_chain(g, next));
    if i > 0 {
        assert(next[i - 1] == next.last());
    } else {
        assert(next[0] == next.last());
    }
    assert(comes_back(next) && next[0] == chain[1]);
}

} // verus!
