//! Dependency resolution: the order in which a set of plugins loads.

use vstd::prelude::*;

use crate::graph;
use crate::graph::Graph;
use crate::plugin;
use crate::plugin::PluginModel;
use crate::plugin::PluginSpec;
use crate::text;
use crate::text::Named;
use crate::topology;

verus! {

/// Errors that can occur during dependency resolution.
#[derive(Debug, Clone, PartialEq, Eq)]
pub enum ResolveError {
    /// A plugin declares a dependency that is not in the spec set.
    MissingDependency { from: String, dep: String },
    /// A cycle exists in the dependency graph.
    Cycle { cycle: String },
}

impl ResolveError {
    /// The error in words.
    pub open spec fn message(self) -> Seq<char> {
        match self {
            ResolveError::MissingDependency { from, dep } => "plugin '"@ + from@
                + "' depends on unknown plugin '"@ + dep@ + "'"@,
            ResolveError::Cycle { cycle } => "dependency cycle detected involving: "@ + cycle@,
        }
    }

    /// Puts the error in words.
    pub fn to_string(&self) -> (message: String)
        ensures
            message@ == self.message(),
    {
        match self {
            ResolveError::MissingDependency { from, dep } => {
                let mut message = "plugin '".to_owned();
                message.append(from.as_str());
                message.append("' depends on unknown plugin '");
                message.append(dep.as_str());
                message.append("'");
                message
            },
            ResolveError::Cycle { cycle } => {
                let mut message = "dependency cycle detected involving: ".to_owned();
                message.append(cycle.as_str());
                message
            },
        }
    }
}

/// What resolving `g` gives: its load order, or the reason why it has none.
pub open spec fn resolves_to(g: Graph, order: Result<Vec<String>, ResolveError>) -> bool {
    match order {
        Ok(order) => graph::is_complete(g) && graph::is_load_order(g, text::texts(order@)),
        Err(ResolveError::MissingDependency { from, dep }) => graph::reports_missing(g, from@, dep@),
        Err(ResolveError::Cycle { cycle }) => graph::is_complete(g) && exists|members: Seq<Seq<char>>|
            {
                &&& #[trigger] text::lists_in_order(members, graph::held_up(g))
                &&& members.len() > 0
                &&& cycle@ == text::joined(members, ", "@)
            },
    }
}

/// `nodes` are the plugins that take part, sorted by name.
spec fn represents(nodes: Seq<&PluginSpec>, g: Graph) -> bool {
    &&& text::strictly_sorted(text::names_of(nodes))
    &&& forall|name: Seq<char>| #[trigger]
        g.contains_key(name) ==> text::names_of(nodes).contains(name)
    &&& forall|i: int|
        0 <= i < nodes.len() ==> g.contains_key((#[trigger] nodes[i]).name@)
            && g[nodes[i].name@] == nodes[i]@.dependencies
}

proof fn lemma_represents_replaced(
    nodes: Seq<&PluginSpec>,
    g: Graph,
    at: int,
    spec_at: &PluginSpec,
)
    requires
        represents(nodes, g),
        0 <= at < nodes.len(),
        nodes[at].name@ == spec_at.name@,
    ensures
        represents(nodes.update(at, spec_at), g.insert(spec_at.name@, spec_at@.dependencies)),
{
    let old_names = text::names_of(nodes);
    let new_names = text::names_of(nodes.update(at, spec_at));
    assert(new_names =~= old_names);
    assert forall|i: int| 0 <= i < nodes.len() && i != at implies (
    #[trigger] nodes[i]).name@ != spec_at.name@ by {
        text::lemma_name_lt_irreflexive(spec_at.name@);
        if i < at {
            assert(text::name_lt(old_names[i], old_names[at]));
        } else {
            assert(text::name_lt(old_names[at], old_names[i]));
        }
    }
    assert(old_names[at] == spec_at.name@);
}

proof fn lemma_represents_inserted(
    nodes: Seq<&PluginSpec>,
    g: Graph,
    at: int,
    spec_at: &PluginSpec,
)
    requires
        represents(nodes, g),
        0 <= at <= nodes.len(),
        forall|i: int| 0 <= i < at ==> text::name_lt(#[trigger] nodes[i].called(), spec_at.name@),
        forall|i: int|
            at <= i < nodes.len() ==> text::name_lt(spec_at.name@, #[trigger] nodes[i].called()),
    ensures
        represents(nodes.insert(at, spec_at), g.insert(spec_at.name@, spec_at@.dependencies)),
{
    let old_names = text::names_of(nodes);
    let new_nodes = nodes.insert(at, spec_at);
    let new_names = text::names_of(new_nodes);
    assert(new_names =~= old_names.insert(at, spec_at.name@));
    assert forall|i: int, j: int| 0 <= i < j < new_names.len() implies #[trigger] text::name_lt(
        new_names[i],
        new_names[j],
    ) by {
        let a = if i < at { i } else { i - 1 };
        let b = if j < at { j } else { j - 1 };
        if i == at {
            assert(text::name_lt(spec_at.name@, nodes[b].called()));
        } else if j == at {
            assert(text::name_lt(nodes[a].called(), spec_at.name@));
        } else {
            assert(text::name_lt(old_names[a], old_names[b]));
        }
    }
    assert forall|name: Seq<char>| #[trigger]
        g.insert(spec_at.name@, spec_at@.dependencies).contains_key(name) implies new_names.contains(
        name,
    ) by {
        if name == spec_at.name@ {
            assert(new_names[at] == name);
        } else {
            assert(old_names.contains(name));
            let i = choose|i: int| 0 <= i < old_names.len() && old_names[i] == name;
            let j = if i < at { i } else { i + 1 };
            assert(new_names[j] == name);
        }
    }
    assert forall|i: int| 0 <= i < nodes.len() implies (#[trigger] nodes[i]).name@
        != spec_at.name@ by {
        text::lemma_name_lt_irreflexive(spec_at.name@);
        assert(nodes[i].called() == nodes[i].name@);
    }
    assert forall|i: int| 0 <= i < new_nodes.len() implies g.insert(
        spec_at.name@,
        spec_at@.dependencies,
    ).contains_key((#[trigger] new_nodes[i]).name@) && g.insert(
        spec_at.name@,
        spec_at@.dependencies,
    )[new_nodes[i].name@] == new_nodes[i]@.dependencies by {
        if i < at {
            assert(new_nodes[i] == nodes[i]);
        } else if i > at {
            assert(new_nodes[i] == nodes[i - 1]);
        }
    }
}

/// The specifications that take part, sorted by name.
fn enabled_by_name<'a>(specs: &'a [PluginSpec]) -> (nodes: Vec<&'a PluginSpec>)
    ensures
        represents(nodes@, graph::graph(plugin::models(specs@))),
{
    let mut nodes: Vec<&'a PluginSpec> = Vec::new();
    let ghost all = plugin::models(specs@);
    let mut i: usize = 0;
    while i < specs.len()
        invariant
            i <= specs.len(),
            all == plugin::models(specs@),
            represents(nodes@, graph::graph(all.take(i as int))),
        decreases specs.len() - i,
    {
        let candidate: &'a PluginSpec = &specs[i];
        proof {
            assert(all.take(i + 1).drop_last() =~= all.take(i as int));
            assert(all.take(i + 1).last() == candidate@);
        }
        if candidate.enabled {
            match text::position_of(&nodes, candidate.name.as_str()) {
                Ok(at) => {
                    proof {
                        lemma_represents_replaced(
                            nodes@,
                            graph::graph(all.take(i as int)),
                            at as int,
                            candidate,
                        );
                    }
                    nodes.set(at, candidate);
                },
                Err(at) => {
                    proof {
                        lemma_represents_inserted(
                            nodes@,
                            graph::graph(all.take(i as int)),
                            at as int,
                            candidate,
                        );
                    }
                    nodes.insert(at, candidate);
                },
            }
        }
        i += 1;
    }
    assert(all.take(all.len() as int) =~= all);
    nodes
}

/// `needs` says by numbers what the dependencies of `nodes` say by names.
spec fn linked(nodes: Seq<&PluginSpec>, needs: Seq<Seq<usize>>) -> bool {
    &&& needs.len() == nodes.len()
    &&& forall|x: int|
        0 <= x < nodes.len() ==> (#[trigger] needs[x]).len() == nodes[x]@.dependencies.len()
    &&& forall|x: int, k: int|
        0 <= x < nodes.len() && 0 <= k < needs[x].len() ==> #[trigger] needs[x][k] < nodes.len()
            && nodes[needs[x][k] as int].name@ == nodes[x]@.dependencies[k]
}

/// Looks up every dependency. The first one that takes no part is an error.
fn look_up(nodes: &Vec<&PluginSpec>, Ghost(g): Ghost<Graph>) -> (needs: Result<
    Vec<Vec<usize>>,
    ResolveError,
>)
    requires
        represents(nodes@, g),
    ensures
        match needs {
            Ok(needs) => graph::is_complete(g) && linked(nodes@, topology::lists(needs@)),
            Err(ResolveError::MissingDependency { from, dep }) => graph::reports_missing(g, from@, dep@),
            Err(ResolveError::Cycle { .. }) => false,
        },
{
    let mut needs: Vec<Vec<usize>> = Vec::new();
    let mut x: usize = 0;
    while x < nodes.len()
        invariant
            x <= nodes.len(),
            represents(nodes@, g),
            needs.len() == x,
            forall|y: int| 0 <= y < x ==> graph::has_all(g, (#[trigger] nodes[y]).name@),
            forall|y: int|
                0 <= y < x ==> (#[trigger] needs[y])@.len() == nodes[y]@.dependencies.len(),
            forall|y: int, k: int|
                0 <= y < x && 0 <= k < needs[y]@.len() ==> #[trigger] needs[y]@[k] < nodes.len()
                    && nodes[needs[y]@[k] as int].name@ == nodes[y]@.dependencies[k],
        decreases nodes.len() - x,
    {
        let node: &PluginSpec = nodes[x];
        let ghost deps = g[node.name@];
        let mut list: Vec<usize> = Vec::new();
        let mut k: usize = 0;
        while k < node.dependencies.len()
            invariant
                x < nodes.len(),
                represents(nodes@, g),
                node == nodes[x as int],
                deps == node@.dependencies,
                deps == g[node.name@],
                k <= node.dependencies.len(),
                list.len() == k,
                forall|y: int| 0 <= y < x ==> graph::has_all(g, (#[trigger] nodes[y]).name@),
                forall|j: int| 0 <= j < k ==> g.contains_key(#[trigger] deps[j]),
                forall|j: int|
                    0 <= j < k ==> #[trigger] list[j] < nodes.len()
                        && nodes[list[j] as int].name@ == deps[j],
            decreases node.dependencies.len() - k,
        {
            let dep: &String = &node.dependencies[k];
            assert(deps[k as int] == dep@);
            match text::position_of(nodes, dep.as_str()) {
                Ok(at) => {
                    assert(nodes[at as int].called() == nodes[at as int].name@);
                    list.push(at);
                },
                Err(at) => {
                    proof {
                        lemma_absent(nodes@, g, at as int, dep@);
                        assert(graph::first_missing(g, node.name@, dep@)) by {
                            assert(g[node.name@][k as int] == dep@);
                        }
                        assert forall|name: Seq<char>| #[trigger]
                            g.contains_key(name) && text::name_lt(name, node.name@) implies graph::has_all(
                            g,
                            name,
                        ) by {
                            let names = text::names_of(nodes@);
                            let y = choose|y: int| 0 <= y < names.len() && names[y] == name;
                            assert(nodes[y].name@ == name);
                            text::lemma_name_lt_irreflexive(name);
                            if y > x {
                                assert(text::name_lt(names[x as int], names[y]));
                                text::lemma_name_lt_transitive(name, node.name@, name);
                            }
                        }
                    }
                    return Err(
                        ResolveError::MissingDependency {
                            from: node.name.clone(),
                            dep: dep.clone(),
                        },
                    );
                },
            }
            k += 1;
        }
        needs.push(list);
        x += 1;
    }
    proof {
        assert forall|name: Seq<char>| #[trigger] g.contains_key(name) implies graph::has_all(g, name) by {
            let names = text::names_of(nodes@);
            let y = choose|y: int| 0 <= y < names.len() && names[y] == name;
            assert(nodes[y].name@ == name);
        }
        let lists = topology::lists(needs@);
        assert forall|y: int, k: int|
            0 <= y < nodes.len() && 0 <= k < lists[y].len() implies #[trigger] lists[y][k]
            < nodes.len() && nodes[lists[y][k] as int].name@ == nodes[y]@.dependencies[k] by {
            assert(lists[y][k] == needs[y]@[k]);
        }
    }
    Ok(needs)
}

/// A name that falls between the nodes takes no part.
proof fn lemma_absent(nodes: Seq<&PluginSpec>, g: Graph, at: int, name: Seq<char>)
    requires
        represents(nodes, g),
        0 <= at <= nodes.len(),
        forall|i: int| 0 <= i < at ==> text::name_lt(#[trigger] nodes[i].called(), name),
        forall|i: int| at <= i < nodes.len() ==> text::name_lt(name, #[trigger] nodes[i].called()),
    ensures
        !g.contains_key(name),
{
    if g.contains_key(name) {
        let names = text::names_of(nodes);
        let i = choose|i: int| 0 <= i < names.len() && names[i] == name;
        assert(nodes[i].called() == name);
        text::lemma_name_lt_irreflexive(name);
    }
}

/// The names of numbered nodes.
spec fn named(nodes: Seq<&PluginSpec>, order: Seq<usize>) -> Seq<Seq<char>> {
    order.map_values(|x: usize| nodes[x as int].name@)
}

proof fn lemma_names_differ(nodes: Seq<&PluginSpec>, g: Graph, i: int, j: int)
    requires
        represents(nodes, g),
        0 <= i < nodes.len(),
        0 <= j < nodes.len(),
        nodes[i].name@ == nodes[j].name@,
    ensures
        i == j,
{
    let names = text::names_of(nodes);
    text::lemma_name_lt_irreflexive(nodes[i].name@);
    if i < j {
        assert(text::name_lt(names[i], names[j]));
    } else if j < i {
        assert(text::name_lt(names[j], names[i]));
    }
}

/// A node gets ready by name when it does by number.
proof fn lemma_round_by_name(
    nodes: Seq<&PluginSpec>,
    g: Graph,
    needs: Seq<Seq<usize>>,
    order: Seq<usize>,
    round: int,
    q: int,
)
    requires
        represents(nodes, g),
        linked(nodes, needs),
        forall|i: int| 0 <= i < order.len() ==> #[trigger] order[i] < nodes.len(),
        named(nodes, order).no_duplicates(),
        0 <= q < order.len(),
        topology::settled(needs, order, round, q),
    ensures
        forall|k: int|
            0 <= k < g[named(nodes, order)[q]].len() ==> named(nodes, order).take(round).contains(
                #[trigger] g[named(nodes, order)[q]][k],
            ),
        graph::ready_after(g[named(nodes, order)[q]], named(nodes, order)) == round,
{
    let names = named(nodes, order);
    let x = order[q] as int;
    let deps = g[names[q]];
    assert(deps == nodes[x]@.dependencies);
    assert forall|k: int| 0 <= k < deps.len() implies names.take(round).contains(
        #[trigger] deps[k],
    ) by {
        let d = needs[x][k];
        assert(order.take(round).contains(d));
        let i = choose|i: int| 0 <= i < round && order.take(round)[i] == d;
        assert(names.take(round)[i] == deps[k]);
    }
    if round > 0 {
        let k = choose|k: int| 0 <= k < needs[x].len() && needs[x][k] == order[round - 1];
        assert(nodes[needs[x][k] as int].name@ == nodes[x]@.dependencies[k]);
        assert(deps[k] == names[round - 1]);
    }
    graph::lemma_ready_exactly(deps, names, round);
}

/// A sorting by numbers is one by names.
proof fn lemma_sorting_by_name(
    nodes: Seq<&PluginSpec>,
    g: Graph,
    needs: Seq<Seq<usize>>,
    order: Seq<usize>,
    rounds: Seq<int>,
)
    requires
        represents(nodes, g),
        linked(nodes, needs),
        topology::explains(needs, order, rounds),
    ensures
        named(nodes, order).no_duplicates(),
        graph::deps_come_first(g, named(nodes, order)),
        graph::goes_by_turns(g, named(nodes, order)),
{
    let names = named(nodes, order);
    assert forall|i: int, j: int|
        0 <= i < names.len() && 0 <= j < names.len() && i != j implies names[i] != names[j] by {
        if names[i] == names[j] {
            lemma_names_differ(nodes, g, order[i] as int, order[j] as int);
        }
    }
    assert forall|i: int, k: int|
        0 <= i < names.len() && 0 <= k < g[names[i]].len() implies names.take(i).contains(
        #[trigger] g[names[i]][k],
    ) by {
        let round = rounds[i];
        assert(topology::settled(needs, order, rounds[i], i));
        lemma_round_by_name(nodes, g, needs, order, round, i);
        let d = g[names[i]][k];
        assert(names.take(round).contains(d));
        let t = choose|t: int| 0 <= t < round && names.take(round)[t] == d;
        assert(names.take(i)[t] == d);
    }
    assert forall|i: int, j: int| 0 <= i < j < names.len() implies graph::loads_before(
        g,
        names,
        #[trigger] names[i],
        #[trigger] names[j],
    ) by {
        assert(topology::settled(needs, order, rounds[i], i));
        assert(topology::settled(needs, order, rounds[j], j));
        lemma_round_by_name(nodes, g, needs, order, rounds[i], i);
        lemma_round_by_name(nodes, g, needs, order, rounds[j], j);
        assert(rounds[i] < rounds[j] || (rounds[i] == rounds[j] && order[i] < order[j]));
        if rounds[i] == rounds[j] {
            let all = text::names_of(nodes);
            assert(text::name_lt(all[order[i] as int], all[order[j] as int]));
        }
    }
}

/// A node is in the order by name only if it is by number.
proof fn lemma_in_order_by_name(nodes: Seq<&PluginSpec>, g: Graph, order: Seq<usize>, x: usize)
    requires
        represents(nodes, g),
        x < nodes.len(),
        forall|q: int| 0 <= q < order.len() ==> #[trigger] order[q] < nodes.len(),
    ensures
        named(nodes, order).contains(nodes[x as int].name@) <==> order.contains(x),
{
    let names = named(nodes, order);
    let name = nodes[x as int].name@;
    if order.contains(x) {
        let q = choose|q: int| 0 <= q < order.len() && order[q] == x;
        assert(names[q] == name);
    }
    if names.contains(name) {
        let q = choose|q: int| 0 <= q < names.len() && names[q] == name;
        lemma_names_differ(nodes, g, order[q] as int, x as int);
        assert(order[q] == x);
    }
}

/// What a sorting by numbers leaves out, it leaves out by names.
proof fn lemma_left_out_by_name(
    nodes: Seq<&PluginSpec>,
    g: Graph,
    needs: Seq<Seq<usize>>,
    order: Seq<usize>,
    rounds: Seq<int>,
)
    requires
        represents(nodes, g),
        nodes.len() <= usize::MAX,
        linked(nodes, needs),
        topology::is_sorting(needs, order, rounds),
    ensures
        graph::leaves_out_the_rest(g, named(nodes, order)),
{
    let names = named(nodes, order);
    let all = text::names_of(nodes);
    assert forall|q: int| 0 <= q < order.len() implies #[trigger] order[q] < nodes.len() by {}
    assert forall|name: Seq<char>| #[trigger]
        g.contains_key(name) && !names.contains(name) implies exists|k: int|
        0 <= k < g[name].len() && !names.contains(#[trigger] g[name][k]) by {
        let y = choose|y: int| 0 <= y < all.len() && all[y] == name;
        let x = y as usize;
        assert(nodes[y].name@ == name);
        lemma_in_order_by_name(nodes, g, order, x);
        let k = choose|k: int|
            0 <= k < needs[x as int].len() && !order.contains(#[trigger] needs[x as int][k]);
        lemma_in_order_by_name(nodes, g, order, needs[y][k]);
        assert(g[name][k] == nodes[needs[y][k] as int].name@);
    }
}

/// The names of the nodes with the given numbers.
fn names_at(nodes: &Vec<&PluginSpec>, numbers: &Vec<usize>) -> (names: Vec<String>)
    requires
        forall|q: int| 0 <= q < numbers.len() ==> #[trigger] numbers[q] < nodes.len(),
    ensures
        text::texts(names@) == named(nodes@, numbers@),
{
    let mut names: Vec<String> = Vec::new();
    let mut q: usize = 0;
    while q < numbers.len()
        invariant
            q <= numbers.len(),
            names.len() == q,
            forall|i: int| 0 <= i < numbers.len() ==> #[trigger] numbers[i] < nodes.len(),
            forall|i: int| 0 <= i < q ==> (#[trigger] names[i])@ == nodes[numbers[i] as int].name@,
        decreases numbers.len() - q,
    {
        names.push(nodes[numbers[q]].name.clone());
        q += 1;
    }
    assert(text::texts(names@) =~= named(nodes@, numbers@));
    names
}

/// Resolve the load order for a set of plugin specs using topological sort
/// (Kahn's algorithm). Returns the plugin names in an order that satisfies
/// all dependency constraints.
///
/// Disabled plugins are excluded: whoever depends on one misses a dependency.
///
/// # Errors
///
/// Returns [`ResolveError::MissingDependency`] if a plugin references a
/// dependency that is not present, or not enabled, in `specs`.
///
/// Returns [`ResolveError::Cycle`] if the dependency graph contains a cycle, with
/// the names of all plugins that it holds up.
pub fn resolve_load_order(specs: &[PluginSpec]) -> (order: Result<Vec<String>, ResolveError>)
    ensures
        resolves_to(graph::graph(plugin::models(specs@)), order),
{
    let ghost g = graph::graph(plugin::models(specs@));
    let nodes = enabled_by_name(specs);
    let needs: Vec<Vec<usize>> = match look_up(&nodes, Ghost(g)) {
        Ok(needs) => needs,
        Err(error) => {
            return Err(error);
        },
    };
    let ghost lists = topology::lists(needs@);
    let (order, left_over) = topology::sort(&needs);
    proof {
        let rounds = choose|rounds: Seq<int>| topology::is_sorting(lists, order@, rounds);
        lemma_sorting_by_name(nodes@, g, lists, order@, rounds);
        assert(nodes.len() <= usize::MAX);
        lemma_left_out_by_name(nodes@, g, lists, order@, rounds);
        graph::lemma_graph_finite(plugin::models(specs@));
        graph::lemma_left_out_is_held_up(g, named(nodes@, order@));
        assert forall|q: int| 0 <= q < left_over.len() implies #[trigger] left_over[q]
            < nodes.len() by {
            assert(left_over@.contains(left_over[q]));
        }
        lemma_split(nodes@, g, order@, left_over@);
    }
    if left_over.len() > 0 {
        let members = names_at(&nodes, &left_over);
        let cycle = text::join(&members, ", ");
        assert(text::lists_in_order(text::texts(members@), graph::held_up(g)));
        return Err(ResolveError::Cycle { cycle });
    }
    let names = names_at(&nodes, &order);
    proof {
        let loaded = text::texts(names@);
        assert forall|name: Seq<char>| #[trigger] loaded.contains(name) <==> g.contains_key(
            name,
        ) by {
            assert(!named(nodes@, left_over@).contains(name));
        }
        assert(graph::is_load_order(g, loaded));
    }
    Ok(names)
}

/// By name as by number, the order and what is left over share the plugins out.
proof fn lemma_split(
    nodes: Seq<&PluginSpec>,
    g: Graph,
    order: Seq<usize>,
    left_over: Seq<usize>,
)
    requires
        represents(nodes, g),
        nodes.len() <= usize::MAX,
        forall|q: int| 0 <= q < order.len() ==> #[trigger] order[q] < nodes.len(),
        forall|i: int, j: int| 0 <= i < j < left_over.len() ==> left_over[i] < left_over[j],
        forall|x: usize| #[trigger]
            left_over.contains(x) <==> x < nodes.len() && !order.contains(x),
    ensures
        text::strictly_sorted(named(nodes, left_over)),
        forall|name: Seq<char>| #[trigger]
            named(nodes, left_over).contains(name) <==> g.contains_key(name) && !named(
                nodes,
                order,
            ).contains(name),
{
    let names = named(nodes, order);
    let left = named(nodes, left_over);
    let all = text::names_of(nodes);
    assert forall|i: int, j: int| 0 <= i < j < left.len() implies #[trigger] text::name_lt(
        left[i],
        left[j],
    ) by {
        assert(left_over.contains(left_over[j]));
        assert(text::name_lt(all[left_over[i] as int], all[left_over[j] as int]));
    }
    assert forall|name: Seq<char>| #[trigger] left.contains(name) <==> g.contains_key(name)
        && !names.contains(name) by {
        if left.contains(name) {
            let q = choose|q: int| 0 <= q < left.len() && left[q] == name;
            let x = left_over[q];
            assert(left_over.contains(x));
            assert(g.contains_key(nodes[x as int].name@));
            lemma_in_order_by_name(nodes, g, order, x);
        }
        if g.contains_key(name) && !names.contains(name) {
            let y = choose|y: int| 0 <= y < all.len() && all[y] == name;
            assert(nodes[y].name@ == name);
            lemma_in_order_by_name(nodes, g, order, y as usize);
            assert(left_over.contains(y as usize));
            let q = choose|q: int| 0 <= q < left_over.len() && left_over[q] == y;
            assert(left[q] == name);
        }
    }
}

/// Which result there is: a missing dependency is reported exactly where one is
/// missing, a cycle exactly where nothing is missing and some plugin leads to a
/// cycle, and a load order everywhere else.
pub proof fn law_outcome(g: Graph, order: Result<Vec<String>, ResolveError>)
    requires
        resolves_to(g, order),
    ensures
        (order matches Err(ResolveError::MissingDependency { .. })) <==> !graph::is_complete(g),
        (order matches Err(ResolveError::Cycle { .. })) <==> graph::is_complete(g) && exists|
            name: Seq<char>,
        | graph::leads_to_cycle(g, name),
        order is Ok <==> graph::is_complete(g) && !exists|name: Seq<char>|
            graph::leads_to_cycle(g, name),
{
    match order {
        Ok(order) => {
            graph::law_order_needs_complete_and_acyclic(g, text::texts(order@));
            assert forall|name: Seq<char>| !graph::leads_to_cycle(g, name) by {
                assert(!graph::held_up(g).contains(name));
            }
        },
        Err(ResolveError::MissingDependency { from, dep }) => {
            let k = choose|k: int|
                {
                    &&& 0 <= k < g[from@].len()
                    &&& #[trigger] g[from@][k] == dep@
                    &&& !g.contains_key(dep@)
                };
            assert(!graph::has_all(g, from@));
        },
        Err(ResolveError::Cycle { cycle }) => {
            let members = choose|members: Seq<Seq<char>>|
                {
                    &&& #[trigger] text::lists_in_order(members, graph::held_up(g))
                    &&& members.len() > 0
                    &&& cycle@ == text::joined(members, ", "@)
                };
            assert(members.contains(members[0]));
            assert(graph::leads_to_cycle(g, members[0]));
        },
    }
}

/// The two results say the same.
pub open spec fn same_result(
    a: Result<Vec<String>, ResolveError>,
    b: Result<Vec<String>, ResolveError>,
) -> bool {
    match (a, b) {
        (Ok(a), Ok(b)) => text::texts(a@) == text::texts(b@),
        (
            Err(ResolveError::MissingDependency { from: from_a, dep: dep_a }),
            Err(ResolveError::MissingDependency { from: from_b, dep: dep_b }),
        ) => from_a@ == from_b@ && dep_a@ == dep_b@,
        (
            Err(ResolveError::Cycle { cycle: cycle_a }),
            Err(ResolveError::Cycle { cycle: cycle_b }),
        ) => cycle_a@ == cycle_b@,
        _ => false,
    }
}

/// A graph resolves in one way only.
pub proof fn law_resolution_is_deterministic(
    g: Graph,
    a: Result<Vec<String>, ResolveError>,
    b: Result<Vec<String>, ResolveError>,
)
    requires
        resolves_to(g, a),
        resolves_to(g, b),
    ensures
        same_result(a, b),
{
    law_outcome(g, a);
    law_outcome(g, b);
    match (a, b) {
        (Ok(x), Ok(y)) => {
            graph::law_load_order_is_unique(g, text::texts(x@), text::texts(y@));
        },
        (
            Err(ResolveError::MissingDependency { from: from_a, dep: dep_a }),
            Err(ResolveError::MissingDependency { from: from_b, dep: dep_b }),
        ) => {
            text::lemma_name_lt_total(from_a@, from_b@);
            assert(!graph::has_all(g, from_a@)) by {
                assert(graph::first_missing(g, from_a@, dep_a@));
            }
            assert(!graph::has_all(g, from_b@)) by {
                assert(graph::first_missing(g, from_b@, dep_b@));
            }
        },
        (
            Err(ResolveError::Cycle { cycle: cycle_a }),
            Err(ResolveError::Cycle { cycle: cycle_b }),
        ) => {
            let held = graph::held_up(g);
            let x = choose|x: Seq<Seq<char>>|
                {
                    &&& #[trigger] text::lists_in_order(x, held)
                    &&& x.len() > 0
                    &&& cycle_a@ == text::joined(x, ", "@)
                };
            let y = choose|y: Seq<Seq<char>>|
                {
                    &&& #[trigger] text::lists_in_order(y, held)
                    &&& y.len() > 0
                    &&& cycle_b@ == text::joined(y, ", "@)
                };
            text::law_listing_is_unique(x, y, held);
        },
        _ => {},
    }
}

/// A load order, in terms of the specifications: it holds the name of every enabled one.
pub proof fn law_enabled_are_resolved(specs: Seq<PluginModel>, order: Vec<String>, i: int) -> (q: int)
    requires
        resolves_to(graph::graph(specs), Ok(order)),
        0 <= i < specs.len(),
        specs[i].enabled,
    ensures
        0 <= q < order@.len(),
        order@[q]@ == specs[i].name,
{
    let names = text::texts(order@);
    graph::law_graph_of_specs(specs);
    assert(names.contains(specs[i].name));
    choose|q: int| 0 <= q < names.len() && names[q] == specs[i].name
}

/// A load order holds no other names, and none twice.
pub proof fn law_resolved_are_enabled(specs: Seq<PluginModel>, order: Vec<String>, q: int) -> (i: int)
    requires
        resolves_to(graph::graph(specs), Ok(order)),
        0 <= q < order@.len(),
    ensures
        0 <= i < specs.len(),
        specs[i].enabled,
        specs[i].name == order@[q]@,
        forall|p: int| 0 <= p < order@.len() && p != q ==> (#[trigger] order@[p])@ != order@[q]@,
{
    let names = text::texts(order@);
    graph::law_graph_of_specs(specs);
    assert(names[q] == order@[q]@);
    assert(names.contains(names[q]));
    assert forall|p: int| 0 <= p < order@.len() && p != q implies (#[trigger] order@[p])@
        != order@[q]@ by {
        assert(names[p] != names[q]);
    }
    choose|i: int| #[trigger] graph::takes_part(specs, i) && specs[i].name == names[q]
}

/// In a load order, in terms of the specifications, a plugin stands behind all that its
/// specification says it depends on.
pub proof fn law_resolved_dependencies(
    specs: Seq<PluginModel>,
    order: Vec<String>,
    i: int,
    k: int,
    q: int,
) -> (p: int)
    requires
        resolves_to(graph::graph(specs), Ok(order)),
        graph::takes_part(specs, i),
        0 <= k < specs[i].dependencies.len(),
        0 <= q < order@.len(),
        order@[q]@ == specs[i].name,
    ensures
        0 <= p < q,
        order@[p]@ == specs[i].dependencies[k],
{
    let g = graph::graph(specs);
    let names = text::texts(order@);
    graph::law_graph_of_specs(specs);
    assert(names[q] == specs[i].name);
    let dep = g[names[q]][k];
    assert(names.take(q).contains(g[names[q]][k]));
    let p = choose|p: int| 0 <= p < q && names.take(q)[p] == dep;
    assert(order@[p]@ == dep);
    p
}

/// Who loads first, in terms of the specifications: of two plugins in a load order, the
/// earlier one does not depend on anything that loads after all that the later one depends
/// on.
pub proof fn law_ready_plugins_go_first(
    specs: Seq<PluginModel>,
    order: Vec<String>,
    p: int,
    q: int,
    i: int,
    j: int,
    a: int,
) -> (b: int)
    requires
        resolves_to(graph::graph(specs), Ok(order)),
        0 <= p < q < order@.len(),
        graph::takes_part(specs, i),
        graph::takes_part(specs, j),
        specs[i].name == order@[p]@,
        specs[j].name == order@[q]@,
        0 <= a < order@.len(),
        specs[i].dependencies.contains(order@[a]@),
    ensures
        a <= b < order@.len(),
        specs[j].dependencies.contains(order@[b]@),
{
    let g = graph::graph(specs);
    let names = text::texts(order@);
    graph::law_graph_of_specs(specs);
    assert(names[p] == order@[p]@ && names[q] == order@[q]@ && names[a] == order@[a]@);
    graph::lemma_ready_sooner(g, names, p, q, a)
}

/// Who loads first among plugins that get ready together: if the later one does not depend
/// on anything that loads after all that the earlier one depends on, the earlier one comes
/// first by name.
pub proof fn law_plugins_ready_together_go_by_name(
    specs: Seq<PluginModel>,
    order: Vec<String>,
    p: int,
    q: int,
    i: int,
    j: int,
)
    requires
        resolves_to(graph::graph(specs), Ok(order)),
        0 <= p < q < order@.len(),
        graph::takes_part(specs, i),
        graph::takes_part(specs, j),
        specs[i].name == order@[p]@,
        specs[j].name == order@[q]@,
        forall|b: int|
            0 <= b < order@.len() && specs[j].dependencies.contains((#[trigger] order@[b])@)
                ==> exists|a: int|
                b <= a < order@.len() && specs[i].dependencies.contains((#[trigger] order@[a])@),
    ensures
        text::name_lt(specs[i].name, specs[j].name),
{
    let g = graph::graph(specs);
    let names = text::texts(order@);
    graph::law_graph_of_specs(specs);
    let (x, y) = (specs[i].dependencies, specs[j].dependencies);
    assert(names[p] == order@[p]@ && names[q] == order@[q]@);
    graph::lemma_ready_or_named(g, names, p, q);
    if !text::name_lt(names[p], names[q]) {
        let b = graph::lemma_last_dep(g, names, q);
        assert(names[b] == order@[b]@);
        let a = choose|a: int| b <= a < order@.len() && x.contains((#[trigger] order@[a])@);
        assert(names[a] == order@[a]@);
        graph::lemma_dep_before_ready(g, names, p, a);
    }
}

/// What is reported missing, in terms of the specifications: the plugin `from` takes part
/// and depends on `dep`, which no enabled specification is called. All that `from` lists
/// before it is there, and so is all that plugins with earlier names depend on.
pub proof fn law_missing_dependency(specs: Seq<PluginModel>, from: String, dep: String)
    requires
        resolves_to(graph::graph(specs), Err(ResolveError::MissingDependency { from, dep })),
    ensures
        exists|i: int, k: int|
            {
                &&& graph::takes_part(specs, i)
                &&& specs[i].name == from@
                &&& 0 <= k < specs[i].dependencies.len()
                &&& #[trigger] specs[i].dependencies[k] == dep@
                &&& forall|l: int|
                    0 <= l < k ==> exists|j: int|
                        0 <= j < specs.len() && (#[trigger] specs[j]).enabled && specs[j].name
                            == #[trigger] specs[i].dependencies[l]
            },
        forall|j: int| 0 <= j < specs.len() && (#[trigger] specs[j]).enabled ==> specs[j].name != dep@,
        forall|i: int, l: int|
            graph::takes_part(specs, i) && text::name_lt(specs[i].name, from@) && 0 <= l
                < specs[i].dependencies.len() ==> exists|j: int|
                0 <= j < specs.len() && (#[trigger] specs[j]).enabled && specs[j].name
                    == #[trigger] specs[i].dependencies[l],
{
    let g = graph::graph(specs);
    graph::law_graph_of_specs(specs);
    let i = choose|i: int| #[trigger] graph::takes_part(specs, i) && specs[i].name == from@;
    let k = choose|k: int|
        {
            &&& 0 <= k < g[from@].len()
            &&& #[trigger] g[from@][k] == dep@
            &&& !g.contains_key(dep@)
            &&& forall|j: int| 0 <= j < k ==> g.contains_key(#[trigger] g[from@][j])
        };
    assert(specs[i].dependencies[k] == dep@);
    assert forall|l: int| 0 <= l < k implies exists|j: int|
        0 <= j < specs.len() && (#[trigger] specs[j]).enabled && specs[j].name
            == #[trigger] specs[i].dependencies[l] by {
        assert(g.contains_key(g[from@][l]));
        let j = choose|j: int| #[trigger]
            graph::takes_part(specs, j) && specs[j].name == g[from@][l];
        assert(specs[j].enabled);
    }
    assert forall|i: int, l: int|
        graph::takes_part(specs, i) && text::name_lt(specs[i].name, from@) && 0 <= l
            < specs[i].dependencies.len() implies exists|j: int|
        0 <= j < specs.len() && (#[trigger] specs[j]).enabled && specs[j].name
            == #[trigger] specs[i].dependencies[l] by {
        assert(specs[i].enabled);
        let name = specs[i].name;
        assert(graph::has_all(g, name));
        assert(g.contains_key(g[name][l]));
        let j = choose|j: int| #[trigger]
            graph::takes_part(specs, j) && specs[j].name == g[name][l];
        assert(specs[j].enabled);
    }
}

/// The plugin called `name` takes part, and depends on one of `stuck`.
pub open spec fn depends_on_one(
    specs: Seq<PluginModel>,
    stuck: Set<Seq<char>>,
    name: Seq<char>,
) -> bool {
    exists|i: int, k: int|
        {
            &&& graph::takes_part(specs, i)
            &&& specs[i].name == name
            &&& 0 <= k < specs[i].dependencies.len()
            &&& stuck.contains(#[trigger] specs[i].dependencies[k])
        }
}

/// What is reported of a cycle, in terms of the specifications: names in their order, with
/// commas between them. They are the names of plugins that take part and depend on each
/// other, each on another one of them or on itself, and of all such plugins.
pub proof fn law_reported_cycle(specs: Seq<PluginModel>, cycle: String) -> (members: Seq<Seq<char>>)
    requires
        resolves_to(graph::graph(specs), Err(ResolveError::Cycle { cycle })),
    ensures
        members.len() > 0,
        forall|p: int, q: int|
            0 <= p < q < members.len() ==> #[trigger] text::name_lt(members[p], members[q]),
        cycle@ == text::joined(members, ", "@),
        forall|p: int|
            0 <= p < members.len() ==> exists|i: int, k: int|
                {
                    &&& graph::takes_part(specs, i)
                    &&& specs[i].name == #[trigger] members[p]
                    &&& 0 <= k < specs[i].dependencies.len()
                    &&& members.contains(#[trigger] specs[i].dependencies[k])
                },
        forall|stuck: Set<Seq<char>>, name: Seq<char>|
            (forall|n: Seq<char>|
                stuck.contains(n) ==> #[trigger] depends_on_one(specs, stuck, n))
                && #[trigger] stuck.contains(name) ==> members.contains(name),
{
    let g = graph::graph(specs);
    let held = graph::held_up(g);
    graph::law_graph_of_specs(specs);
    graph::lemma_graph_finite(specs);
    let members = choose|members: Seq<Seq<char>>|
        {
            &&& #[trigger] text::lists_in_order(members, held)
            &&& members.len() > 0
            &&& cycle@ == text::joined(members, ", "@)
        };
    assert forall|p: int| 0 <= p < members.len() implies exists|i: int, k: int|
        {
            &&& graph::takes_part(specs, i)
            &&& specs[i].name == #[trigger] members[p]
            &&& 0 <= k < specs[i].dependencies.len()
            &&& members.contains(#[trigger] specs[i].dependencies[k])
        } by {
        let name = members[p];
        assert(members.contains(name));
        assert(held.contains(name));
        let k = graph::law_held_up_depends_on_held_up(g, name);
        let i = choose|i: int| #[trigger] graph::takes_part(specs, i) && specs[i].name == name;
        assert(members.contains(specs[i].dependencies[k]));
    }
    assert forall|stuck: Set<Seq<char>>, name: Seq<char>|
        (forall|n: Seq<char>|
                stuck.contains(n) ==> #[trigger] depends_on_one(specs, stuck, n))
                && #[trigger] stuck.contains(name) implies members.contains(name) by {
        lemma_stuck_specs(specs, stuck, name);
        assert(held.contains(name));
    }
    members
}

/// Specifications that wait for each other are held up.
proof fn lemma_stuck_specs(specs: Seq<PluginModel>, stuck: Set<Seq<char>>, name: Seq<char>)
    requires
        forall|n: Seq<char>| stuck.contains(n) ==> #[trigger] depends_on_one(specs, stuck, n),
        stuck.contains(name),
    ensures
        graph::held_up(graph::graph(specs)).contains(name),
{
    let g = graph::graph(specs);
    graph::law_graph_of_specs(specs);
    graph::lemma_graph_finite(specs);
    assert forall|n: Seq<char>| stuck.contains(n) implies #[trigger] graph::waits_for_one(
        g,
        stuck,
        n,
    ) by {
        assert(depends_on_one(specs, stuck, n));
        let (i, k) = choose|i: int, k: int|
            {
                &&& graph::takes_part(specs, i)
                &&& specs[i].name == n
                &&& 0 <= k < specs[i].dependencies.len()
                &&& stuck.contains(#[trigger] specs[i].dependencies[k])
            };
        assert(specs[i].enabled);
        assert(stuck.contains(g[n][k]));
    }
    graph::law_stuck_plugins_are_held_up(g, stuck, name);
}

/// Which result there is, in terms of the specifications. A dependency is missing exactly
/// where one that takes part depends on what no enabled one is called. Otherwise there is a
/// cycle exactly where some plugins wait for each other, and a load order exactly where
/// none do.
pub proof fn law_which_result(specs: Seq<PluginModel>, order: Result<Vec<String>, ResolveError>)
    requires
        resolves_to(graph::graph(specs), order),
    ensures
        (order matches Err(ResolveError::MissingDependency { .. })) <==> exists|i: int, k: int|
            {
                &&& graph::takes_part(specs, i)
                &&& 0 <= k < specs[i].dependencies.len()
                &&& forall|j: int|
                    0 <= j < specs.len() && (#[trigger] specs[j]).enabled ==> specs[j].name
                        != #[trigger] specs[i].dependencies[k]
            },
        order is Ok ==> !exists|stuck: Set<Seq<char>>, name: Seq<char>|
            {
                &&& #[trigger] stuck.contains(name)
                &&& forall|n: Seq<char>|
                    stuck.contains(n) ==> #[trigger] depends_on_one(specs, stuck, n)
            },
        (order matches Err(ResolveError::Cycle { .. })) ==> exists|
            stuck: Set<Seq<char>>,
            name: Seq<char>,
        |
            {
                &&& #[trigger] stuck.contains(name)
                &&& forall|n: Seq<char>|
                    stuck.contains(n) ==> #[trigger] depends_on_one(specs, stuck, n)
            },
{
    let g = graph::graph(specs);
    graph::law_graph_of_specs(specs);
    law_outcome(g, order);
    match order {
        Ok(list) => {
            lemma_nothing_missing(specs);
            assert forall|stuck: Set<Seq<char>>, name: Seq<char>|
                !({
                    &&& #[trigger] stuck.contains(name)
                    &&& forall|n: Seq<char>|
                    stuck.contains(n) ==> #[trigger] depends_on_one(specs, stuck, n)
                }) by {
                if stuck.contains(name) && (forall|n: Seq<char>|
                    stuck.contains(n) ==> #[trigger] depends_on_one(specs, stuck, n)) {
                    lemma_stuck_specs(specs, stuck, name);
                    assert(graph::held_up(g).contains(name));
                    assert(graph::leads_to_cycle(g, name));
                }
            }
        },
        Err(ResolveError::MissingDependency { from, dep }) => {
            law_missing_dependency(specs, from, dep);
            let (i, k) = choose|i: int, k: int|
                {
                    &&& graph::takes_part(specs, i)
                    &&& specs[i].name == from@
                    &&& 0 <= k < specs[i].dependencies.len()
                    &&& #[trigger] specs[i].dependencies[k] == dep@
                    &&& forall|l: int|
                        0 <= l < k ==> exists|j: int|
                            0 <= j < specs.len() && (#[trigger] specs[j]).enabled && specs[j].name
                                == #[trigger] specs[i].dependencies[l]
                };
            assert(graph::takes_part(specs, i) && specs[i].dependencies[k] == dep@);
        },
        Err(ResolveError::Cycle { cycle }) => {
            lemma_nothing_missing(specs);
            let members = law_reported_cycle(specs, cycle);
            let stuck = members.to_set();
            assert(members.contains(members[0]));
            assert(stuck.contains(members[0]));
            assert forall|n: Seq<char>| stuck.contains(n) implies #[trigger] depends_on_one(
                specs,
                stuck,
                n,
            ) by {
                let p = choose|p: int| 0 <= p < members.len() && members[p] == n;
                let (i, k) = choose|i: int, k: int|
                    {
                        &&& graph::takes_part(specs, i)
                        &&& specs[i].name == members[p]
                        &&& 0 <= k < specs[i].dependencies.len()
                        &&& members.contains(#[trigger] specs[i].dependencies[k])
                    };
                assert(stuck.contains(specs[i].dependencies[k]));
            }
        },
    }
}

/// In a complete graph, every dependency is an enabled specification.
proof fn lemma_nothing_missing(specs: Seq<PluginModel>)
    requires
        graph::is_complete(graph::graph(specs)),
    ensures
        !exists|i: int, k: int|
            {
                &&& graph::takes_part(specs, i)
                &&& 0 <= k < specs[i].dependencies.len()
                &&& forall|j: int|
                    0 <= j < specs.len() && (#[trigger] specs[j]).enabled ==> specs[j].name
                        != #[trigger] specs[i].dependencies[k]
            },
{
    let g = graph::graph(specs);
    graph::law_graph_of_specs(specs);
    assert forall|i: int, k: int|
        graph::takes_part(specs, i) && 0 <= k < specs[i].dependencies.len() implies exists|j: int|
        0 <= j < specs.len() && (#[trigger] specs[j]).enabled && specs[j].name
            == #[trigger] specs[i].dependencies[k] by {
        assert(specs[i].enabled);
        let name = specs[i].name;
        assert(graph::has_all(g, name));
        assert(g.contains_key(g[name][k]));
        let j = choose|j: int| #[trigger]
            graph::takes_part(specs, j) && specs[j].name == g[name][k];
        assert(specs[j].enabled);
    }
}

/// How each error reads.
pub proof fn law_resolve_errors_in_words(from: String, dep: String, cycle: String)
    ensures
        (ResolveError::MissingDependency { from, dep }).message() == "plugin '"@ + from@
            + "' depends on unknown plugin '"@ + dep@ + "'"@,
        (ResolveError::Cycle { cycle }).message() == "dependency cycle detected involving: "@
            + cycle@,
{
}

} // verus!
