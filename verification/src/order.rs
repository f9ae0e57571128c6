use vstd::prelude::*;

use std::collections::HashMap;
use std::collections::HashSet;

use crate::counter::{counter_add, counter_sum};
use crate::graph::ModuleIdentifier;

verus! {

broadcast use vstd::std_specs::hash::group_hash_axioms;

/// The order in which modules are entered, or the one in which they are left.
#[derive(Clone, Copy, Debug, PartialEq, Eq, Structural)]
pub enum TraversalOrder {
    Pre,
    Post,
}

/// The places of a module in the two global orders, where it has them.
#[derive(Clone, Copy, Debug, PartialEq, Eq, Structural)]
pub struct ModuleGraphModule {
    pub pre_order_index: Option<u32>,
    pub post_order_index: Option<u32>,
}

/// The modules of a compilation.
pub type ModuleGraph = HashMap<ModuleIdentifier, ModuleGraphModule>;

impl ModuleGraphModule {
    /// The place of the module in one of the orders.
    pub open spec fn place(self, order: TraversalOrder) -> Option<u32> {
        match order {
            TraversalOrder::Pre => self.pre_order_index,
            TraversalOrder::Post => self.post_order_index,
        }
    }

    /// The module with a place in one of the orders.
    pub open spec fn placed_at(self, order: TraversalOrder, index: u32) -> ModuleGraphModule {
        match order {
            TraversalOrder::Pre => ModuleGraphModule { pre_order_index: Some(index), ..self },
            TraversalOrder::Post => ModuleGraphModule { post_order_index: Some(index), ..self },
        }
    }

    fn has_place(&self, order: TraversalOrder) -> (r: bool)
        ensures
            r == self.place(order) is Some,
    {
        match order {
            TraversalOrder::Pre => self.pre_order_index.is_some(),
            TraversalOrder::Post => self.post_order_index.is_some(),
        }
    }

    fn with_place(&self, order: TraversalOrder, index: u32) -> (r: ModuleGraphModule)
        ensures
            r == self.placed_at(order, index),
    {
        match order {
            TraversalOrder::Pre => ModuleGraphModule {
                pre_order_index: Some(index),
                post_order_index: self.post_order_index,
            },
            TraversalOrder::Post => ModuleGraphModule {
                pre_order_index: self.pre_order_index,
                post_order_index: Some(index),
            },
        }
    }
}

/// Whether a module has no place in a global order. One that the graph does not know has none.
pub open spec fn lacks_place(
    graph: Map<ModuleIdentifier, ModuleGraphModule>,
    order: TraversalOrder,
    module: ModuleIdentifier,
) -> bool {
    graph.contains_key(module) ==> graph[module].place(order) is None
}

/// The modules that have no place yet in a global order.
pub fn order_candidates(
    graph: &ModuleGraph,
    order: TraversalOrder,
    modules: &Vec<ModuleIdentifier>,
) -> (r: Vec<ModuleIdentifier>)
    ensures
        r@ == modules@.filter(|module: ModuleIdentifier| lacks_place(graph@, order, module)),
{
    let ghost lacks = |module: ModuleIdentifier| lacks_place(graph@, order, module);
    let mut r: Vec<ModuleIdentifier> = Vec::new();
    let mut i: usize = 0;
    assert(modules@.take(0) =~= Seq::empty());
    proof {
        reveal(Seq::filter);
    }
    while i < modules.len()
        invariant
            i <= modules@.len(),
            lacks == (|module: ModuleIdentifier| lacks_place(graph@, order, module)),
            r@ == modules@.take(i as int).filter(lacks),
        decreases modules.len() - i,
    {
        let module: u64 = modules[i];
        let candidate = match graph.get(&module) {
            Some(entry) => !entry.has_place(order),
            None => true,
        };
        proof {
            reveal(Seq::filter);
            assert(modules@.take(i + 1).drop_last() =~= modules@.take(i as int));
        }
        if candidate {
            r.push(module);
        }
        i = i + 1;
    }
    assert(modules@.take(i as int) =~= modules@);
    r
}

/// The modules that were not seen before, each where it comes first.
pub open spec fn first_seen(seen: Set<ModuleIdentifier>, modules: Seq<ModuleIdentifier>) -> Seq<
    ModuleIdentifier,
>
    decreases modules.len(),
{
    if modules.len() == 0 {
        Seq::empty()
    } else {
        let before = first_seen(seen, modules.drop_last());
        if seen.contains(modules.last()) || before.contains(modules.last()) {
            before
        } else {
            before.push(modules.last())
        }
    }
}

/// A module was seen for the first time exactly where it is among the modules and was not seen
/// before.
pub(crate) proof fn lemma_first_seen_contains(
    seen: Set<ModuleIdentifier>,
    modules: Seq<ModuleIdentifier>,
    module: ModuleIdentifier,
)
    ensures
        first_seen(seen, modules).contains(module) <==> modules.contains(module) && !seen.contains(
            module,
        ),
    decreases modules.len(),
{
    if modules.len() > 0 {
        let before = first_seen(seen, modules.drop_last());
        lemma_first_seen_contains(seen, modules.drop_last(), module);
        assert(modules =~= modules.drop_last().push(modules.last()));
        lemma_contains_push(modules.drop_last(), modules.last(), module);
        lemma_contains_push(before, modules.last(), module);
        lemma_first_seen_contains(seen, modules.drop_last(), modules.last());
    }
}

/// No module is seen for the first time twice.
pub(crate) proof fn lemma_first_seen_distinct(
    seen: Set<ModuleIdentifier>,
    modules: Seq<ModuleIdentifier>,
)
    ensures
        first_seen(seen, modules).no_duplicates(),
    decreases modules.len(),
{
    if modules.len() > 0 {
        lemma_first_seen_distinct(seen, modules.drop_last());
    }
}

pub(crate) proof fn lemma_contains_push<T>(s: Seq<T>, x: T, y: T)
    ensures
        s.push(x).contains(y) <==> s.contains(y) || y == x,
{
    if s.contains(y) {
        let i = choose|i: int| 0 <= i < s.len() && s[i] == y;
        assert(s.push(x)[i] == y);
    }
    if y == x {
        assert(s.push(x)[s.len() as int] == y);
    }
    if s.push(x).contains(y) && y != x {
        let i = choose|i: int| 0 <= i < s.push(x).len() && s.push(x)[i] == y;
        assert(s[i] == y);
    }
}

/// What was seen first among fewer modules comes first among more.
pub(crate) proof fn lemma_first_seen_prefix(
    seen: Set<ModuleIdentifier>,
    modules: Seq<ModuleIdentifier>,
    k: int,
)
    requires
        0 <= k <= modules.len(),
    ensures
        first_seen(seen, modules.take(k)).len() <= first_seen(seen, modules).len(),
        first_seen(seen, modules.take(k)) == first_seen(seen, modules).take(
            first_seen(seen, modules.take(k)).len() as int,
        ),
    decreases modules.len(),
{
    if k == modules.len() {
        assert(modules.take(k) =~= modules);
        assert(first_seen(seen, modules).take(first_seen(seen, modules).len() as int)
            =~= first_seen(seen, modules));
    } else {
        lemma_first_seen_prefix(seen, modules.drop_last(), k);
        assert(modules.drop_last().take(k) =~= modules.take(k));
        let n = first_seen(seen, modules.take(k)).len() as int;
        assert(first_seen(seen, modules).take(n) =~= first_seen(seen, modules.drop_last()).take(n));
    }
}

/// Places for modules that have none, in their order, from `next` on.
pub open spec fn numbered(
    indices: Map<ModuleIdentifier, usize>,
    next: usize,
    fresh: Seq<ModuleIdentifier>,
) -> Map<ModuleIdentifier, usize>
    decreases fresh.len(),
{
    if fresh.len() == 0 {
        indices
    } else {
        numbered(indices, next, fresh.drop_last()).insert(
            fresh.last(),
            (next + fresh.len() - 1) as usize,
        )
    }
}

/// The modules that are numbered are those that were and those that are new.
proof fn lemma_numbered_domain(
    indices: Map<ModuleIdentifier, usize>,
    next: usize,
    fresh: Seq<ModuleIdentifier>,
    module: ModuleIdentifier,
)
    ensures
        numbered(indices, next, fresh).contains_key(module) <==> indices.contains_key(module)
            || fresh.contains(module),
    decreases fresh.len(),
{
    if fresh.len() > 0 {
        lemma_numbered_domain(indices, next, fresh.drop_last(), module);
        assert(fresh =~= fresh.drop_last().push(fresh.last()));
        lemma_contains_push(fresh.drop_last(), fresh.last(), module);
    }
}

/// Gives each module that has no place in a chunk group the next one, in order.
pub fn assign_places(
    indices: &mut HashMap<ModuleIdentifier, usize>,
    next: usize,
    modules: &Vec<ModuleIdentifier>,
) -> (after: usize)
    requires
        next + first_seen(old(indices)@.dom(), modules@).len() <= usize::MAX,
    ensures
        final(indices)@ == numbered(
            old(indices)@,
            next,
            first_seen(old(indices)@.dom(), modules@),
        ),
        after == next + first_seen(old(indices)@.dom(), modules@).len(),
{
    let ghost placed = old(indices)@.dom();
    let mut after: usize = next;
    let mut i: usize = 0;
    assert(modules@.take(0) =~= Seq::empty());
    while i < modules.len()
        invariant
            i <= modules@.len(),
            placed == old(indices)@.dom(),
            next + first_seen(placed, modules@).len() <= usize::MAX,
            indices@ == numbered(old(indices)@, next, first_seen(placed, modules@.take(i as int))),
            after == next + first_seen(placed, modules@.take(i as int)).len(),
        decreases modules.len() - i,
    {
        let module: u64 = modules[i];
        let ghost before = first_seen(placed, modules@.take(i as int));
        i = i + 1;
        proof {
            assert(modules@.take(i as int).drop_last() =~= modules@.take(i - 1));
            lemma_first_seen_prefix(placed, modules@, i as int);
            lemma_numbered_domain(old(indices)@, next, before, module);
        }
        if !indices.contains_key(&module) {
            indices.insert(module, after);
            after = after + 1;
            assert(before.push(module).drop_last() =~= before);
        }
    }
    assert(modules@.take(i as int) =~= modules@);
    after
}

/// How many modules have no place in a chunk group.
pub fn count_without_place(
    indices: &HashMap<ModuleIdentifier, usize>,
    modules: &Vec<ModuleIdentifier>,
) -> (n: usize)
    ensures
        n == first_seen(indices@.dom(), modules@).len(),
{
    let ghost placed = indices@.dom();
    let mut met: HashSet<ModuleIdentifier> = HashSet::new();
    let mut n: usize = 0;
    let mut i: usize = 0;
    assert(modules@.take(0) =~= Seq::empty());
    while i < modules.len()
        invariant
            i <= modules@.len(),
            placed == indices@.dom(),
            n <= i,
            n == first_seen(placed, modules@.take(i as int)).len(),
            forall|module: ModuleIdentifier| #[trigger]
                met@.contains(module) <==> first_seen(placed, modules@.take(i as int)).contains(
                    module,
                ),
        decreases modules.len() - i,
    {
        let module: u64 = modules[i];
        let ghost before = first_seen(placed, modules@.take(i as int));
        i = i + 1;
        assert(modules@.take(i as int).drop_last() =~= modules@.take(i - 1));
        proof {
            assert forall|m: ModuleIdentifier| #[trigger]
                before.push(module).contains(m) <==> before.contains(m) || m == module by {
                lemma_contains_push(before, module, m);
            }
        }
        if !indices.contains_key(&module) && met.insert(module) {
            n = n + 1;
        }
    }
    assert(modules@.take(i as int) =~= modules@);
    n
}

/// The modules among the candidates that were not checked before and have no place in the graph, each
/// where it comes first.
pub open spec fn unplaced(
    graph: Map<ModuleIdentifier, ModuleGraphModule>,
    order: TraversalOrder,
    checked: Set<ModuleIdentifier>,
    candidates: Seq<ModuleIdentifier>,
) -> Seq<ModuleIdentifier> {
    first_seen(checked, candidates).filter(
        |module: ModuleIdentifier| graph[module].place(order) is None,
    )
}

/// A graph in which modules were given places in a global order, one after the other, from `next` on.
pub open spec fn placed(
    graph: Map<ModuleIdentifier, ModuleGraphModule>,
    order: TraversalOrder,
    next: u32,
    fresh: Seq<ModuleIdentifier>,
) -> Map<ModuleIdentifier, ModuleGraphModule>
    decreases fresh.len(),
{
    if fresh.len() == 0 {
        graph
    } else {
        placed(graph, order, next, fresh.drop_last()).insert(
            fresh.last(),
            graph[fresh.last()].placed_at(order, (next + fresh.len() - 1) as u32),
        )
    }
}

/// Giving modules places changes nothing about the others.
pub(crate) proof fn lemma_placed_leaves_others(
    graph: Map<ModuleIdentifier, ModuleGraphModule>,
    order: TraversalOrder,
    next: u32,
    fresh: Seq<ModuleIdentifier>,
    module: ModuleIdentifier,
)
    requires
        !fresh.contains(module),
    ensures
        placed(graph, order, next, fresh).contains_key(module) == graph.contains_key(module),
        placed(graph, order, next, fresh)[module] == graph[module],
    decreases fresh.len(),
{
    if fresh.len() > 0 {
        assert(fresh[fresh.len() - 1] == fresh.last());
        assert forall|i: int| 0 <= i < fresh.drop_last().len() implies fresh.drop_last()[i]
            != module by {
            assert(fresh[i] != module);
        }
        lemma_placed_leaves_others(graph, order, next, fresh.drop_last(), module);
    }
}

/// A filter keeps exactly what passes.
pub(crate) proof fn lemma_filter_contains<T>(s: Seq<T>, pass: spec_fn(T) -> bool, x: T)
    ensures
        s.filter(pass).contains(x) <==> s.contains(x) && pass(x),
    decreases s.len(),
{
    reveal(Seq::filter);
    if s.len() > 0 {
        lemma_filter_contains(s.drop_last(), pass, x);
        assert(s =~= s.drop_last().push(s.last()));
        lemma_contains_push(s.drop_last(), s.last(), x);
        lemma_contains_push(s.drop_last().filter(pass), s.last(), x);
    }
}

/// Among fewer candidates there are fewer modules without a place.
proof fn lemma_unplaced_prefix(
    graph: Map<ModuleIdentifier, ModuleGraphModule>,
    order: TraversalOrder,
    checked: Set<ModuleIdentifier>,
    candidates: Seq<ModuleIdentifier>,
    k: int,
)
    requires
        0 <= k <= candidates.len(),
    ensures
        unplaced(graph, order, checked, candidates.take(k)).len() <= unplaced(
            graph,
            order,
            checked,
            candidates,
        ).len(),
{
    let without = |module: ModuleIdentifier| graph[module].place(order) is None;
    let all = first_seen(checked, candidates);
    lemma_first_seen_prefix(checked, candidates, k);
    let n = first_seen(checked, candidates.take(k)).len() as int;
    assert(all =~= all.take(n) + all.skip(n));
    Seq::filter_distributes_over_add(all.take(n), all.skip(n), without);
}

/// How many candidates that were not checked before have no place in a global order, where all those are in
/// the graph that were not checked before.
pub fn count_unplaced(
    graph: &ModuleGraph,
    order: TraversalOrder,
    checked: &HashSet<ModuleIdentifier>,
    candidates: &Vec<ModuleIdentifier>,
) -> (n: Option<usize>)
    ensures
        n is Some <==> forall|module: ModuleIdentifier|
            candidates@.contains(module) && !checked@.contains(module)
                ==> #[trigger] graph@.contains_key(module),
        n matches Some(n) ==> n == unplaced(graph@, order, checked@, candidates@).len(),
{
    let ghost g = graph@;
    let ghost c = checked@;
    let mut met: HashSet<ModuleIdentifier> = HashSet::new();
    let mut n: usize = 0;
    let mut i: usize = 0;
    proof {
        assert(candidates@.take(0) =~= Seq::empty());
        assert(unplaced(g, order, c, candidates@.take(0)) =~= Seq::empty()) by {
            reveal(Seq::filter);
        }
    }
    while i < candidates.len()
        invariant
            i <= candidates@.len(),
            g == graph@,
            c == checked@,
            n <= i,
            n == unplaced(g, order, c, candidates@.take(i as int)).len(),
            forall|module: ModuleIdentifier| #[trigger]
                met@.contains(module) <==> first_seen(c, candidates@.take(i as int)).contains(
                    module,
                ),
            forall|j: int|
                0 <= j < i && !c.contains(#[trigger] candidates@[j]) ==> g.contains_key(
                    candidates@[j],
                ),
        decreases candidates.len() - i,
    {
        let module: u64 = candidates[i];
        let ghost newly = first_seen(c, candidates@.take(i as int));
        let ghost fresh = unplaced(g, order, c, candidates@.take(i as int));
        i = i + 1;
        proof {
            assert(candidates@.take(i as int).drop_last() =~= candidates@.take(i - 1));
            assert forall|m: ModuleIdentifier| #[trigger]
                newly.push(module).contains(m) <==> newly.contains(m) || m == module by {
                lemma_contains_push(newly, module, m);
            }
            assert(newly.push(module).drop_last() =~= newly);
            assert(candidates@[i - 1] == module);
        }
        if checked.contains(&module) {
            continue;
        }
        match graph.get(&module) {
            Some(entry) => {
                if met.insert(module) {
                    proof {
                        assert(first_seen(c, candidates@.take(i as int)) == newly.push(module));
                        assert(unplaced(g, order, c, candidates@.take(i as int)) == (if g[module].place(
                            order,
                        ) is None {
                            fresh.push(module)
                        } else {
                            fresh
                        })) by {
                            reveal(Seq::filter);
                        }
                    }
                    if !entry.has_place(order) {
                        n = n + 1;
                    }
                }
            },
            None => {
                assert(candidates@.contains(module) && !c.contains(module));
                return None;
            },
        }
    }
    assert(candidates@.take(i as int) =~= candidates@);
    Some(n)
}

/// Looks at each candidate that was not checked before: one that has no place in the global order gets
/// the next one. The result is the next free place and the count of candidates that were looked at.
pub fn assign_global_places(
    graph: &mut ModuleGraph,
    order: TraversalOrder,
    checked: &mut HashSet<ModuleIdentifier>,
    next: u32,
    checks: u32,
    candidates: &Vec<ModuleIdentifier>,
) -> (after: (u32, u32))
    requires
        forall|i: int|
            0 <= i < first_seen(old(checked)@, candidates@).len() ==> old(graph)@.contains_key(
                #[trigger] first_seen(old(checked)@, candidates@)[i],
            ),
        next + unplaced(old(graph)@, order, old(checked)@, candidates@).len() <= u32::MAX,
    ensures
        final(graph)@ == placed(
            old(graph)@,
            order,
            next,
            unplaced(old(graph)@, order, old(checked)@, candidates@),
        ),
        final(checked)@ == old(checked)@.union(candidates@.to_set()),
        after.0 == next + unplaced(old(graph)@, order, old(checked)@, candidates@).len(),
        after.1 == counter_sum(checks, first_seen(old(checked)@, candidates@).len() as int),
{
    let ghost g = old(graph)@;
    let ghost c = old(checked)@;
    let ghost without = |module: ModuleIdentifier| g[module].place(order) is None;
    let mut next: u32 = next;
    let mut checks: u32 = checks;
    let ghost first = next;
    let ghost counted = checks;
    let mut i: usize = 0;
    proof {
        assert(candidates@.take(0) =~= Seq::empty());
        assert(unplaced(g, order, c, candidates@.take(0)) =~= Seq::empty()) by {
            reveal(Seq::filter);
        }
        assert(c.union(Seq::<ModuleIdentifier>::empty().to_set()) =~= c);
    }
    while i < candidates.len()
        invariant
            i <= candidates@.len(),
            g == old(graph)@,
            c == old(checked)@,
            without == (|module: ModuleIdentifier| g[module].place(order) is None),
            forall|j: int|
                0 <= j < first_seen(c, candidates@).len() ==> g.contains_key(
                    #[trigger] first_seen(c, candidates@)[j],
                ),
            first + unplaced(g, order, c, candidates@).len() <= u32::MAX,
            graph@ == placed(
                g,
                order,
                first,
                unplaced(g, order, c, candidates@.take(i as int)),
            ),
            checked@ == c.union(candidates@.take(i as int).to_set()),
            next == first + unplaced(g, order, c, candidates@.take(i as int)).len(),
            checks == counter_sum(
                counted,
                first_seen(c, candidates@.take(i as int)).len() as int,
            ),
        decreases candidates.len() - i,
    {
        let module: u64 = candidates[i];
        let ghost read = candidates@.take(i as int);
        let ghost newly = first_seen(c, read);
        let ghost fresh = unplaced(g, order, c, read);
        i = i + 1;
        proof {
            assert(candidates@.take(i as int) =~= read.push(module));
            assert(read.push(module).drop_last() =~= read);
            assert(newly.push(module).drop_last() =~= newly);
            lemma_first_seen_contains(c, read, module);
            lemma_unplaced_prefix(g, order, c, candidates@, i as int);
            assert(read.push(module).to_set() =~= read.to_set().insert(module)) by {
                assert forall|m: ModuleIdentifier| read.push(module).to_set().contains(m)
                    <==> read.to_set().insert(module).contains(m) by {
                    lemma_contains_push(read, module, m);
                }
            }
            assert(c.union(read.push(module).to_set()) =~= c.union(read.to_set()).insert(module));
        }
        if !checked.insert(module) {
            continue;
        }
        checks = counter_add(checks, 1);
        proof {
            assert(first_seen(c, read.push(module)) == newly.push(module));
            assert(unplaced(g, order, c, read.push(module)) == (if g[module].place(
                order,
            ) is None {
                fresh.push(module)
            } else {
                fresh
            })) by {
                reveal(Seq::filter);
            }
            lemma_first_seen_contains(c, candidates@, module);
            assert(candidates@[i - 1] == module);
            assert(candidates@.contains(module));
            assert(first_seen(c, candidates@).contains(module));
            let j = choose|j: int|
                0 <= j < first_seen(c, candidates@).len() && first_seen(c, candidates@)[j]
                    == module;
            assert(g.contains_key(first_seen(c, candidates@)[j]));
            assert(!fresh.contains(module)) by {
                lemma_filter_contains(newly, without, module);
            }
            lemma_placed_leaves_others(g, order, first, fresh, module);
            assert(fresh.push(module).drop_last() =~= fresh);
        }
        let entry = *graph.get(&module).unwrap();
        if !entry.has_place(order) {
            graph.insert(module, entry.with_place(order, next));
            next = next + 1;
        }
    }
    assert(candidates@.take(i as int) =~= candidates@);
    (next, checks)
}

/// Giving modules places in one order changes nothing about the other, nor about which modules there
/// are.
pub(crate) proof fn lemma_placed_keeps_other_order(
    graph: Map<ModuleIdentifier, ModuleGraphModule>,
    order: TraversalOrder,
    next: u32,
    fresh: Seq<ModuleIdentifier>,
    other: TraversalOrder,
    module: ModuleIdentifier,
)
    requires
        order != other,
        forall|i: int| 0 <= i < fresh.len() ==> graph.contains_key(#[trigger] fresh[i]),
    ensures
        placed(graph, order, next, fresh).contains_key(module) == graph.contains_key(module),
        placed(graph, order, next, fresh)[module].place(other) == graph[module].place(other),
    decreases fresh.len(),
{
    if fresh.len() > 0 {
        assert(graph.contains_key(fresh[fresh.len() - 1]));
        assert forall|i: int| 0 <= i < fresh.drop_last().len() implies graph.contains_key(
            #[trigger] fresh.drop_last()[i],
        ) by {
            assert(fresh.drop_last()[i] == fresh[i]);
        }
        lemma_placed_keeps_other_order(graph, order, next, fresh.drop_last(), other, module);
    }
}

/// Which modules have no place in one order does not depend on the places in the other.
pub(crate) proof fn lemma_unplaced_after_other_order(
    graph: Map<ModuleIdentifier, ModuleGraphModule>,
    order: TraversalOrder,
    next: u32,
    fresh: Seq<ModuleIdentifier>,
    other: TraversalOrder,
    checked: Set<ModuleIdentifier>,
    candidates: Seq<ModuleIdentifier>,
)
    requires
        order != other,
        forall|i: int| 0 <= i < fresh.len() ==> graph.contains_key(#[trigger] fresh[i]),
    ensures
        unplaced(placed(graph, order, next, fresh), other, checked, candidates) == unplaced(
            graph,
            other,
            checked,
            candidates,
        ),
{
    let after = placed(graph, order, next, fresh);
    let before = |module: ModuleIdentifier| graph[module].place(other) is None;
    let later = |module: ModuleIdentifier| after[module].place(other) is None;
    assert forall|module: ModuleIdentifier| #[trigger] before(module) == later(module) by {
        lemma_placed_keeps_other_order(graph, order, next, fresh, other, module);
    }
    assert(before =~= later);
}

} // verus!
