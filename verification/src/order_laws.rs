use vstd::prelude::*;

use crate::graph::ModuleIdentifier;
use crate::order::{
    ModuleGraphModule, TraversalOrder, first_seen, lacks_place, lemma_filter_contains,
    lemma_first_seen_contains, lemma_first_seen_distinct, lemma_first_seen_prefix,
    lemma_placed_keeps_other_order,
    lemma_placed_leaves_others, numbered, placed, unplaced,
};

verus! {

/// Modules that had no place get the next ones, one after the other, and every other place stays.
pub proof fn law_numbered_in_order(
    indices: Map<ModuleIdentifier, usize>,
    next: usize,
    modules: Seq<ModuleIdentifier>,
)
    requires
        next + first_seen(indices.dom(), modules).len() <= usize::MAX,
    ensures
        ({
            let fresh = first_seen(indices.dom(), modules);
            let after = numbered(indices, next, fresh);
            &&& forall|i: int|
                0 <= i < fresh.len() ==> after.contains_key(#[trigger] fresh[i])
                    && after[fresh[i]] == next + i
            &&& forall|module: ModuleIdentifier| #[trigger]
                indices.contains_key(module) ==> after.contains_key(module) && after[module]
                    == indices[module]
            &&& forall|module: ModuleIdentifier| #[trigger]
                after.contains_key(module) <==> indices.contains_key(module) || modules.contains(
                    module,
                )
        }),
{
    let fresh = first_seen(indices.dom(), modules);
    lemma_first_seen_distinct(indices.dom(), modules);
    assert forall|i: int| 0 <= i < fresh.len() implies !indices.contains_key(
        #[trigger] fresh[i],
    ) by {
        lemma_first_seen_contains(indices.dom(), modules, fresh[i]);
    }
    lemma_numbered(indices, next, fresh);
    assert forall|module: ModuleIdentifier| #[trigger]
        numbered(indices, next, fresh).contains_key(module) <==> indices.contains_key(module)
            || modules.contains(module) by {
        lemma_first_seen_contains(indices.dom(), modules, module);
    }
}

proof fn lemma_numbered(
    indices: Map<ModuleIdentifier, usize>,
    next: usize,
    fresh: Seq<ModuleIdentifier>,
)
    requires
        fresh.no_duplicates(),
        next + fresh.len() <= usize::MAX,
        forall|i: int| 0 <= i < fresh.len() ==> !indices.contains_key(#[trigger] fresh[i]),
    ensures
        forall|i: int|
            0 <= i < fresh.len() ==> numbered(indices, next, fresh)[#[trigger] fresh[i]] == next
                + i,
        forall|module: ModuleIdentifier| #[trigger]
            indices.contains_key(module) ==> numbered(indices, next, fresh)[module]
                == indices[module],
        forall|module: ModuleIdentifier| #[trigger]
            numbered(indices, next, fresh).contains_key(module) <==> indices.contains_key(module)
                || fresh.contains(module),
    decreases fresh.len(),
{
    if fresh.len() > 0 {
        let before = fresh.drop_last();
        assert forall|i: int| 0 <= i < before.len() implies !indices.contains_key(
            #[trigger] before[i],
        ) by {
            assert(before[i] == fresh[i]);
        }
        lemma_numbered(indices, next, before);
        assert forall|i: int| 0 <= i < fresh.len() implies numbered(indices, next, fresh)[
        #[trigger] fresh[i]] == next + i by {
            if i < before.len() {
                assert(before[i] == fresh[i]);
                assert(fresh[i] != fresh[fresh.len() - 1]);
            }
        }
        assert(!indices.contains_key(fresh[fresh.len() - 1]));
        assert forall|module: ModuleIdentifier| #[trigger]
            numbered(indices, next, fresh).contains_key(module) <==> indices.contains_key(module)
                || fresh.contains(module) by {
            if before.contains(module) {
                let i = choose|i: int| 0 <= i < before.len() && before[i] == module;
                assert(fresh[i] == module);
            }
            if fresh.contains(module) && module != fresh.last() {
                let i = choose|i: int| 0 <= i < fresh.len() && fresh[i] == module;
                assert(before[i] == module);
            }
            if module == fresh.last() {
                assert(fresh[fresh.len() - 1] == module);
            }
            assert(numbered(indices, next, before).contains_key(module) <==> indices.contains_key(
                module,
            ) || before.contains(module));
        }
    }
}

/// Whether no two modules have the same place in a chunk group, and all places lie before the next.
pub open spec fn places_distinct(indices: Map<ModuleIdentifier, usize>, next: usize) -> bool {
    &&& forall|module: ModuleIdentifier| #[trigger]
        indices.contains_key(module) ==> indices[module] < next
    &&& forall|a: ModuleIdentifier, b: ModuleIdentifier|
        #![trigger indices.contains_key(a), indices.contains_key(b)]
        indices.contains_key(a) && indices.contains_key(b) && a != b ==> indices[a] != indices[b]
}

/// Places in a chunk group stay distinct.
pub proof fn law_places_stay_distinct(
    indices: Map<ModuleIdentifier, usize>,
    next: usize,
    modules: Seq<ModuleIdentifier>,
)
    requires
        places_distinct(indices, next),
        next + first_seen(indices.dom(), modules).len() <= usize::MAX,
    ensures
        places_distinct(
            numbered(indices, next, first_seen(indices.dom(), modules)),
            (next + first_seen(indices.dom(), modules).len()) as usize,
        ),
{
    let fresh = first_seen(indices.dom(), modules);
    let after = numbered(indices, next, fresh);
    law_numbered_in_order(indices, next, modules);
    lemma_first_seen_distinct(indices.dom(), modules);
    assert forall|module: ModuleIdentifier| #[trigger] after.contains_key(module) implies (
    indices.contains_key(module) && after[module] < next) || (!indices.contains_key(module)
        && exists|i: int| 0 <= i < fresh.len() && #[trigger] fresh[i] == module) by {
        if !indices.contains_key(module) {
            lemma_first_seen_contains(indices.dom(), modules, module);
            assert(fresh.contains(module));
        }
    }
    assert forall|a: ModuleIdentifier, b: ModuleIdentifier|
        #![trigger after.contains_key(a), after.contains_key(b)]
        after.contains_key(a) && after.contains_key(b) && a != b implies after[a] != after[b] by {
        if !indices.contains_key(a) {
            let i = choose|i: int| 0 <= i < fresh.len() && #[trigger] fresh[i] == a;
            assert(after[fresh[i]] == next + i);
        }
        if !indices.contains_key(b) {
            let j = choose|j: int| 0 <= j < fresh.len() && #[trigger] fresh[j] == b;
            assert(after[fresh[j]] == next + j);
        }
    }
}

/// A module that has a place in a global order keeps it, the candidates that have none and were not
/// checked get the next ones, one after the other, and no other module changes.
pub proof fn law_global_places_in_order(
    graph: Map<ModuleIdentifier, ModuleGraphModule>,
    order: TraversalOrder,
    checked: Set<ModuleIdentifier>,
    next: u32,
    candidates: Seq<ModuleIdentifier>,
)
    requires
        next + unplaced(graph, order, checked, candidates).len() <= u32::MAX,
    ensures
        ({
            let fresh = unplaced(graph, order, checked, candidates);
            let after = placed(graph, order, next, fresh);
            &&& forall|i: int|
                0 <= i < fresh.len() ==> after.contains_key(#[trigger] fresh[i])
                    && after[fresh[i]] == graph[fresh[i]].placed_at(order, (next + i) as u32)
            &&& forall|module: ModuleIdentifier|
                #![trigger after.contains_key(module)]
                #![trigger after[module]]
                !fresh.contains(module) ==> after.contains_key(module) == graph.contains_key(module)
                    && after[module] == graph[module]
            &&& forall|module: ModuleIdentifier|
                graph.contains_key(module) && graph[module].place(order) is Some
                    ==> #[trigger] after[module] == graph[module]
        }),
{
    let fresh = unplaced(graph, order, checked, candidates);
    let after = placed(graph, order, next, fresh);
    let without = |module: ModuleIdentifier| graph[module].place(order) is None;
    lemma_unplaced_distinct(graph, order, checked, candidates);
    lemma_placed(graph, order, next, fresh);
    assert forall|module: ModuleIdentifier|
        #![trigger after.contains_key(module)]
        #![trigger after[module]]
        !fresh.contains(module) implies after.contains_key(module) == graph.contains_key(module)
        && after[module] == graph[module] by {
        lemma_placed_leaves_others(graph, order, next, fresh, module);
    }
    assert forall|module: ModuleIdentifier|
        graph.contains_key(module) && graph[module].place(
            order,
        ) is Some implies #[trigger] after[module] == graph[module] by {
        lemma_filter_contains(first_seen(checked, candidates), without, module);
        lemma_placed_leaves_others(graph, order, next, fresh, module);
    }
}

proof fn lemma_unplaced_distinct(
    graph: Map<ModuleIdentifier, ModuleGraphModule>,
    order: TraversalOrder,
    checked: Set<ModuleIdentifier>,
    candidates: Seq<ModuleIdentifier>,
)
    ensures
        unplaced(graph, order, checked, candidates).no_duplicates(),
{
    lemma_first_seen_distinct(checked, candidates);
    lemma_filter_distinct(
        first_seen(checked, candidates),
        |module: ModuleIdentifier| graph[module].place(order) is None,
    );
}

proof fn lemma_filter_distinct<T>(s: Seq<T>, pass: spec_fn(T) -> bool)
    requires
        s.no_duplicates(),
    ensures
        s.filter(pass).no_duplicates(),
    decreases s.len(),
{
    reveal(Seq::filter);
    if s.len() > 0 {
        lemma_filter_distinct(s.drop_last(), pass);
        lemma_filter_contains(s.drop_last(), pass, s.last());
        assert(!s.drop_last().contains(s.last()));
    }
}

proof fn lemma_placed(
    graph: Map<ModuleIdentifier, ModuleGraphModule>,
    order: TraversalOrder,
    next: u32,
    fresh: Seq<ModuleIdentifier>,
)
    requires
        fresh.no_duplicates(),
    ensures
        forall|i: int|
            0 <= i < fresh.len() ==> placed(graph, order, next, fresh).contains_key(
                #[trigger] fresh[i],
            ) && placed(graph, order, next, fresh)[fresh[i]] == graph[fresh[i]].placed_at(
                order,
                (next + i) as u32,
            ),
    decreases fresh.len(),
{
    if fresh.len() > 0 {
        let before = fresh.drop_last();
        lemma_placed(graph, order, next, before);
        assert forall|i: int| 0 <= i < fresh.len() implies placed(
            graph,
            order,
            next,
            fresh,
        ).contains_key(#[trigger] fresh[i]) && placed(graph, order, next, fresh)[fresh[i]]
            == graph[fresh[i]].placed_at(order, (next + i) as u32) by {
            if i < before.len() {
                assert(before[i] == fresh[i]);
                assert(fresh[i] != fresh[fresh.len() - 1]);
            }
        }
    }
}

/// Whether no two modules have the same place in a global order, and all places lie before the next.
pub open spec fn global_places_distinct(
    graph: Map<ModuleIdentifier, ModuleGraphModule>,
    order: TraversalOrder,
    next: u32,
) -> bool {
    &&& forall|module: ModuleIdentifier| #[trigger]
        graph.contains_key(module) ==> (graph[module].place(order) matches Some(place) ==> place
            < next)
    &&& forall|a: ModuleIdentifier, b: ModuleIdentifier|
        #![trigger graph.contains_key(a), graph.contains_key(b)]
        graph.contains_key(a) && graph.contains_key(b) && a != b && graph[a].place(order) is Some
            ==> graph[a].place(order) != graph[b].place(order)
}

/// Places in a global order stay distinct.
pub proof fn law_global_places_stay_distinct(
    graph: Map<ModuleIdentifier, ModuleGraphModule>,
    order: TraversalOrder,
    checked: Set<ModuleIdentifier>,
    next: u32,
    candidates: Seq<ModuleIdentifier>,
)
    requires
        global_places_distinct(graph, order, next),
        next + unplaced(graph, order, checked, candidates).len() <= u32::MAX,
    ensures
        global_places_distinct(
            placed(graph, order, next, unplaced(graph, order, checked, candidates)),
            order,
            (next + unplaced(graph, order, checked, candidates).len()) as u32,
        ),
{
    let fresh = unplaced(graph, order, checked, candidates);
    let after = placed(graph, order, next, fresh);
    law_global_places_in_order(graph, order, checked, next, candidates);
    lemma_unplaced_distinct(graph, order, checked, candidates);
    assert forall|module: ModuleIdentifier| #[trigger] after.contains_key(module) implies (
    fresh.contains(module) || (graph.contains_key(module) && after[module] == graph[module])) by {
        if !fresh.contains(module) {
            assert(after[module] == graph[module]);
        }
    }
    assert forall|module: ModuleIdentifier| fresh.contains(module) implies exists|i: int|
        0 <= i < fresh.len() && fresh[i] == module && (#[trigger] after[module]).place(order)
            == Some((next + i) as u32) by {
        let i = choose|i: int| 0 <= i < fresh.len() && fresh[i] == module;
        assert(after[fresh[i]].place(order) == Some((next + i) as u32));
    }
    assert forall|module: ModuleIdentifier| #[trigger] after.contains_key(module) implies (
    after[module].place(order) matches Some(place) ==> place < next + fresh.len()) by {
        if fresh.contains(module) {
            let i = choose|i: int| 0 <= i < fresh.len() && fresh[i] == module;
            assert(after[fresh[i]].place(order) == Some((next + i) as u32));
        } else {
            assert(graph.contains_key(module));
        }
    }
    assert forall|a: ModuleIdentifier, b: ModuleIdentifier|
        #![trigger after.contains_key(a), after.contains_key(b)]
        after.contains_key(a) && after.contains_key(b) && a != b && after[a].place(
            order,
        ) is Some implies after[a].place(order) != after[b].place(order) by {
        if fresh.contains(a) {
            let i = choose|i: int| 0 <= i < fresh.len() && fresh[i] == a;
            assert(after[fresh[i]].place(order) == Some((next + i) as u32));
        } else {
            assert(graph.contains_key(a));
        }
        if fresh.contains(b) {
            let j = choose|j: int| 0 <= j < fresh.len() && fresh[j] == b;
            assert(after[fresh[j]].place(order) == Some((next + j) as u32));
        } else {
            assert(graph.contains_key(b));
        }
    }
}

/// Whether every module that was checked has a place in a global order.
pub open spec fn checked_are_placed(
    graph: Map<ModuleIdentifier, ModuleGraphModule>,
    order: TraversalOrder,
    checked: Set<ModuleIdentifier>,
) -> bool {
    forall|module: ModuleIdentifier| #[trigger]
        checked.contains(module) ==> graph.contains_key(module) && graph[module].place(order) is Some
}

/// A module that was checked has a place from then on, so that looking at each candidate only once
/// leaves none without one.
pub proof fn law_checked_stay_placed(
    graph: Map<ModuleIdentifier, ModuleGraphModule>,
    order: TraversalOrder,
    checked: Set<ModuleIdentifier>,
    next: u32,
    candidates: Seq<ModuleIdentifier>,
)
    requires
        checked_are_placed(graph, order, checked),
        forall|module: ModuleIdentifier|
            candidates.contains(module) && !checked.contains(module)
                ==> #[trigger] graph.contains_key(module),
        next + unplaced(graph, order, checked, candidates).len() <= u32::MAX,
    ensures
        checked_are_placed(
            placed(graph, order, next, unplaced(graph, order, checked, candidates)),
            order,
            checked.union(candidates.to_set()),
        ),
{
    let fresh = unplaced(graph, order, checked, candidates);
    let after = placed(graph, order, next, fresh);
    let without = |module: ModuleIdentifier| graph[module].place(order) is None;
    law_global_places_in_order(graph, order, checked, next, candidates);
    assert forall|module: ModuleIdentifier| #[trigger]
        checked.union(candidates.to_set()).contains(module) implies after.contains_key(module)
        && after[module].place(order) is Some by {
        lemma_first_seen_contains(checked, candidates, module);
        lemma_filter_contains(first_seen(checked, candidates), without, module);
        if fresh.contains(module) {
            let i = choose|i: int| 0 <= i < fresh.len() && fresh[i] == module;
            assert(after[fresh[i]].place(order) is Some);
        } else {
            assert(after[module] == graph[module]);
            assert(graph.contains_key(module));
        }
    }
}

/// Looking at the candidates alone gives the same modules places as looking at all the modules that
/// were walked would: those that a walk leaves out had places before, and places are not lost.
pub proof fn law_candidates_suffice(
    at_walk: Map<ModuleIdentifier, ModuleGraphModule>,
    graph: Map<ModuleIdentifier, ModuleGraphModule>,
    order: TraversalOrder,
    checked: Set<ModuleIdentifier>,
    modules: Seq<ModuleIdentifier>,
)
    requires
        forall|module: ModuleIdentifier|
            !#[trigger] lacks_place(at_walk, order, module) ==> graph[module].place(order) is Some,
    ensures
        unplaced(
            graph,
            order,
            checked,
            modules.filter(|module: ModuleIdentifier| lacks_place(at_walk, order, module)),
        ) == unplaced(graph, order, checked, modules),
    decreases modules.len(),
{
    reveal(Seq::filter);
    let lacks = |module: ModuleIdentifier| lacks_place(at_walk, order, module);
    let without = |module: ModuleIdentifier| graph[module].place(order) is None;
    if modules.len() > 0 {
        let before = modules.drop_last();
        let module = modules.last();
        law_candidates_suffice(at_walk, graph, order, checked, before);
        lemma_filter_contains(before, lacks, module);
        lemma_first_seen_contains(checked, before, module);
        lemma_first_seen_contains(checked, before.filter(lacks), module);
        let few = first_seen(checked, before.filter(lacks));
        let many = first_seen(checked, before);
        assert(few.push(module).drop_last() =~= few);
        assert(many.push(module).drop_last() =~= many);
        assert(before.filter(lacks).push(module).drop_last() =~= before.filter(lacks));
        if lacks_place(at_walk, order, module) {
            assert(modules.filter(lacks) == before.filter(lacks).push(module));
        } else {
            assert(modules.filter(lacks) == before.filter(lacks));
            assert(!without(module));
        }
    }
}

/// Giving modules places in one order keeps the places in the other distinct, and the modules placed
/// that were checked for it.
pub proof fn law_orders_are_independent(
    graph: Map<ModuleIdentifier, ModuleGraphModule>,
    order: TraversalOrder,
    next: u32,
    fresh: Seq<ModuleIdentifier>,
    other: TraversalOrder,
    other_next: u32,
    other_checked: Set<ModuleIdentifier>,
)
    requires
        order != other,
        forall|i: int| 0 <= i < fresh.len() ==> graph.contains_key(#[trigger] fresh[i]),
    ensures
        global_places_distinct(graph, other, other_next) ==> global_places_distinct(
            placed(graph, order, next, fresh),
            other,
            other_next,
        ),
        checked_are_placed(graph, other, other_checked) ==> checked_are_placed(
            placed(graph, order, next, fresh),
            other,
            other_checked,
        ),
{
    let after = placed(graph, order, next, fresh);
    assert forall|module: ModuleIdentifier|
        #![trigger after.contains_key(module)]
        #![trigger graph.contains_key(module)]
        after.contains_key(module) == graph.contains_key(module) && after[module].place(other)
            == graph[module].place(other) by {
        lemma_placed_keeps_other_order(graph, order, next, fresh, other, module);
    }
}

/// The modules that get places are in the graph, where all those are that are looked at.
pub(crate) proof fn lemma_unplaced_known(
    graph: Map<ModuleIdentifier, ModuleGraphModule>,
    order: TraversalOrder,
    checked: Set<ModuleIdentifier>,
    candidates: Seq<ModuleIdentifier>,
)
    requires
        forall|module: ModuleIdentifier|
            candidates.contains(module) && !checked.contains(module)
                ==> #[trigger] graph.contains_key(module),
    ensures
        ({
            let fresh = unplaced(graph, order, checked, candidates);
            forall|i: int| 0 <= i < fresh.len() ==> graph.contains_key(#[trigger] fresh[i])
        }),
{
    let fresh = unplaced(graph, order, checked, candidates);
    let without = |module: ModuleIdentifier| graph[module].place(order) is None;
    assert forall|i: int| 0 <= i < fresh.len() implies graph.contains_key(#[trigger] fresh[i]) by {
        lemma_filter_contains(first_seen(checked, candidates), without, fresh[i]);
        lemma_first_seen_contains(checked, candidates, fresh[i]);
    }
}

/// Whether a module comes at `i` for the first time.
pub open spec fn comes_first_at(modules: Seq<ModuleIdentifier>, i: int) -> bool {
    &&& 0 <= i < modules.len()
    &&& forall|j: int| 0 <= j < i ==> #[trigger] modules[j] != modules[i]
}

/// Where a module comes for the first time, and was not seen before, it is the next one that is seen.
proof fn lemma_first_seen_at(
    seen: Set<ModuleIdentifier>,
    modules: Seq<ModuleIdentifier>,
    i: int,
)
    requires
        comes_first_at(modules, i),
        !seen.contains(modules[i]),
    ensures
        ({
            let p = first_seen(seen, modules.take(i)).len() as int;
            &&& p < first_seen(seen, modules).len()
            &&& first_seen(seen, modules)[p] == modules[i]
            &&& first_seen(seen, modules.take(i + 1)).len() == p + 1
        }),
{
    let before = first_seen(seen, modules.take(i));
    let p = before.len() as int;
    assert(modules.take(i + 1).drop_last() =~= modules.take(i));
    assert(!before.contains(modules[i])) by {
        lemma_first_seen_contains(seen, modules.take(i), modules[i]);
        if modules.take(i).contains(modules[i]) {
            let j = choose|j: int| 0 <= j < i && modules.take(i)[j] == modules[i];
            assert(modules[j] == modules[i]);
        }
    }
    let now = first_seen(seen, modules.take(i + 1));
    assert(now == before.push(modules[i]));
    lemma_first_seen_prefix(seen, modules, i + 1);
    assert(now[p] == first_seen(seen, modules).take(now.len() as int)[p]);
}

/// The more modules, the more are seen.
proof fn lemma_first_seen_grows(
    seen: Set<ModuleIdentifier>,
    modules: Seq<ModuleIdentifier>,
    i: int,
    j: int,
)
    requires
        0 <= i <= j <= modules.len(),
    ensures
        first_seen(seen, modules.take(i)).len() <= first_seen(seen, modules.take(j)).len(),
{
    assert(modules.take(j).take(i) =~= modules.take(i));
    lemma_first_seen_prefix(seen, modules.take(j), i);
}

/// How the places of a chunk group grow with the modules of a walk: `before` with the next place `next`
/// becomes `after` with the next place `next_after`. What has a place keeps it, and every module of the
/// walk has one. Of two modules that are new, the one that comes first in the walk has the smaller place.
/// New places begin at `next`, and there are as many as there are different new modules.
pub open spec fn places_follow(
    before: Map<ModuleIdentifier, usize>,
    next: usize,
    modules: Seq<ModuleIdentifier>,
    after: Map<ModuleIdentifier, usize>,
    next_after: usize,
) -> bool {
    &&& forall|module: ModuleIdentifier| #[trigger]
        after.contains_key(module) <==> before.contains_key(module) || modules.contains(module)
    &&& forall|module: ModuleIdentifier| #[trigger]
        before.contains_key(module) ==> after[module] == before[module]
    &&& forall|i: int|
        comes_first_at(modules, i) && !before.contains_key(#[trigger] modules[i]) ==> next
            <= after[modules[i]] < next_after
    &&& forall|i: int, j: int|
        i < j && comes_first_at(modules, i) && comes_first_at(modules, j) && !before.contains_key(
            #[trigger] modules[i],
        ) && !before.contains_key(#[trigger] modules[j]) ==> after[modules[i]] < after[modules[j]]
    &&& next_after == next + modules.to_set().difference(before.dom()).len()
}

/// Modules get places in a chunk group in the order in which they come first.
pub proof fn law_places_follow_the_walk(
    indices: Map<ModuleIdentifier, usize>,
    next: usize,
    modules: Seq<ModuleIdentifier>,
)
    requires
        next + first_seen(indices.dom(), modules).len() <= usize::MAX,
    ensures
        places_follow(
            indices,
            next,
            modules,
            numbered(indices, next, first_seen(indices.dom(), modules)),
            (next + first_seen(indices.dom(), modules).len()) as usize,
        ),
{
    let seen = indices.dom();
    let fresh = first_seen(seen, modules);
    let after = numbered(indices, next, fresh);
    law_numbered_in_order(indices, next, modules);
    assert forall|i: int|
        comes_first_at(modules, i) && !indices.contains_key(#[trigger] modules[i]) implies next
        <= after[modules[i]] < next + fresh.len() && after[modules[i]] == next + first_seen(
        seen,
        modules.take(i),
    ).len() by {
        lemma_first_seen_at(seen, modules, i);
        assert(after[fresh[first_seen(seen, modules.take(i)).len() as int]] == next + first_seen(
            seen,
            modules.take(i),
        ).len());
    }
    assert forall|i: int, j: int|
        i < j && comes_first_at(modules, i) && comes_first_at(modules, j) && !indices.contains_key(
            #[trigger] modules[i],
        ) && !indices.contains_key(#[trigger] modules[j]) implies after[modules[i]]
        < after[modules[j]] by {
        lemma_first_seen_at(seen, modules, i);
        lemma_first_seen_grows(seen, modules, i + 1, j);
    }
    lemma_first_seen_counts(seen, modules);
}

/// As many modules are seen for the first time as there are different ones that were not seen before.
pub(crate) proof fn lemma_first_seen_counts(seen: Set<ModuleIdentifier>, modules: Seq<ModuleIdentifier>)
    ensures
        first_seen(seen, modules).len() == modules.to_set().difference(seen).len(),
        first_seen(seen, modules).to_set() == modules.to_set().difference(seen),
{
    let fresh = first_seen(seen, modules);
    lemma_first_seen_distinct(seen, modules);
    assert forall|module: ModuleIdentifier| #[trigger]
        fresh.to_set().contains(module) <==> modules.to_set().difference(seen).contains(module) by {
        lemma_first_seen_contains(seen, modules, module);
    }
    assert(fresh.to_set() =~= modules.to_set().difference(seen));
    fresh.unique_seq_to_set();
}

/// The place of a module in one of the two global orders.
pub open spec fn place_in(module: ModuleGraphModule, order: TraversalOrder) -> Option<u32> {
    match order {
        TraversalOrder::Pre => module.pre_order_index,
        TraversalOrder::Post => module.post_order_index,
    }
}

/// The place of a module in the other one of the two global orders.
pub open spec fn place_in_other(module: ModuleGraphModule, order: TraversalOrder) -> Option<u32> {
    match order {
        TraversalOrder::Pre => module.post_order_index,
        TraversalOrder::Post => module.pre_order_index,
    }
}

/// Whether a candidate was not checked before and has no place.
pub open spec fn is_new_candidate(
    graph: Map<ModuleIdentifier, ModuleGraphModule>,
    order: TraversalOrder,
    checked: Set<ModuleIdentifier>,
    module: ModuleIdentifier,
) -> bool {
    !checked.contains(module) && place_in(graph[module], order) is None
}

/// How the places in a global order grow with the candidates of a walk. No module comes or goes, none
/// changes in the other order, and what has a place keeps it. A candidate that was not checked and has no
/// place gets one, from `next` on; of two such candidates the one that comes first in the walk has the
/// smaller place. No other module gets a place, and there are as many new places as there are different
/// new candidates.
pub open spec fn global_places_follow(
    graph: Map<ModuleIdentifier, ModuleGraphModule>,
    order: TraversalOrder,
    checked: Set<ModuleIdentifier>,
    next: u32,
    candidates: Seq<ModuleIdentifier>,
    after: Map<ModuleIdentifier, ModuleGraphModule>,
    next_after: u32,
) -> bool {
    &&& after.dom() == graph.dom()
    &&& forall|module: ModuleIdentifier| #[trigger]
        graph.contains_key(module) ==> {
            &&& place_in_other(after[module], order) == place_in_other(graph[module], order)
            &&& !(candidates.contains(module) && is_new_candidate(graph, order, checked, module))
                ==> place_in(after[module], order) == place_in(graph[module], order)
        }
    &&& forall|i: int|
        comes_first_at(candidates, i) && is_new_candidate(
            graph,
            order,
            checked,
            #[trigger] candidates[i],
        ) ==> place_in(after[candidates[i]], order) is Some && next <= place_in(
            after[candidates[i]],
            order,
        )->0 < next_after
    &&& forall|i: int, j: int|
        i < j && comes_first_at(candidates, i) && comes_first_at(candidates, j)
            && is_new_candidate(graph, order, checked, #[trigger] candidates[i])
            && is_new_candidate(graph, order, checked, #[trigger] candidates[j]) ==> place_in(
            after[candidates[i]],
            order,
        )->0 < place_in(after[candidates[j]], order)->0
    &&& next_after == next + candidates.to_set().filter(
        |module: ModuleIdentifier| is_new_candidate(graph, order, checked, module),
    ).len()
}

/// Where a candidate comes for the first time that is new, it gets the next place.
proof fn lemma_unplaced_at(
    graph: Map<ModuleIdentifier, ModuleGraphModule>,
    order: TraversalOrder,
    checked: Set<ModuleIdentifier>,
    candidates: Seq<ModuleIdentifier>,
    i: int,
)
    requires
        comes_first_at(candidates, i),
        is_new_candidate(graph, order, checked, candidates[i]),
    ensures
        ({
            let p = unplaced(graph, order, checked, candidates.take(i)).len() as int;
            &&& p < unplaced(graph, order, checked, candidates).len()
            &&& unplaced(graph, order, checked, candidates)[p] == candidates[i]
            &&& unplaced(graph, order, checked, candidates.take(i + 1)).len() == p + 1
        }),
{
    let without = |module: ModuleIdentifier| graph[module].place(order) is None;
    let before = first_seen(checked, candidates.take(i));
    let now = first_seen(checked, candidates.take(i + 1));
    let all = first_seen(checked, candidates);
    lemma_first_seen_at(checked, candidates, i);
    lemma_first_seen_prefix(checked, candidates, i);
    lemma_first_seen_prefix(checked, candidates, i + 1);
    assert(now[before.len() as int] == candidates[i]) by {
        assert(now[before.len() as int] == all.take(now.len() as int)[before.len() as int]);
    }
    assert(now =~= before.push(candidates[i])) by {
        assert forall|j: int| 0 <= j < before.len() implies now[j] == before[j] by {
            assert(now[j] == all.take(now.len() as int)[j]);
            assert(before[j] == all.take(before.len() as int)[j]);
        }
    }
    assert(now.filter(without) == before.filter(without).push(candidates[i])) by {
        reveal(Seq::filter);
        assert(before.push(candidates[i]).drop_last() =~= before);
        assert(without(candidates[i]));
    }
    let n = now.len() as int;
    assert(all =~= all.take(n) + all.skip(n));
    Seq::filter_distributes_over_add(all.take(n), all.skip(n), without);
    let p = before.filter(without).len() as int;
    assert(all.filter(without)[p] == now.filter(without)[p]);
}

proof fn lemma_unplaced_grows(
    graph: Map<ModuleIdentifier, ModuleGraphModule>,
    order: TraversalOrder,
    checked: Set<ModuleIdentifier>,
    candidates: Seq<ModuleIdentifier>,
    i: int,
    j: int,
)
    requires
        0 <= i <= j <= candidates.len(),
    ensures
        unplaced(graph, order, checked, candidates.take(i)).len() <= unplaced(
            graph,
            order,
            checked,
            candidates.take(j),
        ).len(),
{
    let without = |module: ModuleIdentifier| graph[module].place(order) is None;
    let few = candidates.take(j);
    assert(few.take(i) =~= candidates.take(i));
    let all = first_seen(checked, few);
    lemma_first_seen_prefix(checked, few, i);
    let n = first_seen(checked, candidates.take(i)).len() as int;
    assert(all =~= all.take(n) + all.skip(n));
    Seq::filter_distributes_over_add(all.take(n), all.skip(n), without);
}

/// Candidates get places in a global order in the order in which they come first.
pub proof fn law_global_places_follow_the_walk(
    graph: Map<ModuleIdentifier, ModuleGraphModule>,
    order: TraversalOrder,
    checked: Set<ModuleIdentifier>,
    next: u32,
    candidates: Seq<ModuleIdentifier>,
)
    requires
        forall|module: ModuleIdentifier|
            candidates.contains(module) && !checked.contains(module)
                ==> #[trigger] graph.contains_key(module),
        next + unplaced(graph, order, checked, candidates).len() <= u32::MAX,
    ensures
        global_places_follow(
            graph,
            order,
            checked,
            next,
            candidates,
            placed(graph, order, next, unplaced(graph, order, checked, candidates)),
            (next + unplaced(graph, order, checked, candidates).len()) as u32,
        ),
{
    let fresh = unplaced(graph, order, checked, candidates);
    let after = placed(graph, order, next, fresh);
    let without = |module: ModuleIdentifier| graph[module].place(order) is None;
    let other = match order {
        TraversalOrder::Pre => TraversalOrder::Post,
        TraversalOrder::Post => TraversalOrder::Pre,
    };
    law_global_places_in_order(graph, order, checked, next, candidates);
    lemma_unplaced_known(graph, order, checked, candidates);
    assert forall|module: ModuleIdentifier|
        #![trigger graph.contains_key(module)]
        #![trigger after.contains_key(module)]
        after.contains_key(module) == graph.contains_key(module) && place_in_other(
            after[module],
            order,
        ) == place_in_other(graph[module], order) by {
        lemma_placed_keeps_other_order(graph, order, next, fresh, other, module);
    }
    assert(after.dom() =~= graph.dom());
    assert forall|module: ModuleIdentifier| #[trigger]
        fresh.contains(module) <==> candidates.contains(module) && is_new_candidate(
            graph,
            order,
            checked,
            module,
        ) by {
        lemma_filter_contains(first_seen(checked, candidates), without, module);
        lemma_first_seen_contains(checked, candidates, module);
    }
    assert forall|module: ModuleIdentifier| #[trigger]
        graph.contains_key(module) && !(candidates.contains(module) && is_new_candidate(
            graph,
            order,
            checked,
            module,
        )) implies place_in(after[module], order) == place_in(graph[module], order) by {
        assert(!fresh.contains(module));
    }
    assert forall|i: int|
        comes_first_at(candidates, i) && is_new_candidate(
            graph,
            order,
            checked,
            #[trigger] candidates[i],
        ) implies place_in(after[candidates[i]], order) == Some(
        (next + unplaced(graph, order, checked, candidates.take(i)).len()) as u32,
    ) && unplaced(graph, order, checked, candidates.take(i)).len() < fresh.len() by {
        lemma_unplaced_at(graph, order, checked, candidates, i);
        let p = unplaced(graph, order, checked, candidates.take(i)).len() as int;
        assert(after[fresh[p]] == graph[fresh[p]].placed_at(order, (next + p) as u32));
    }
    assert forall|i: int, j: int|
        i < j && comes_first_at(candidates, i) && comes_first_at(candidates, j)
            && is_new_candidate(graph, order, checked, #[trigger] candidates[i])
            && is_new_candidate(graph, order, checked, #[trigger] candidates[j]) implies place_in(
        after[candidates[i]],
        order,
    )->0 < place_in(after[candidates[j]], order)->0 by {
        lemma_unplaced_at(graph, order, checked, candidates, i);
        lemma_unplaced_grows(graph, order, checked, candidates, i + 1, j);
    }
    lemma_unplaced_counts(graph, order, checked, candidates);
}

/// As many candidates get places as there are different new ones.
pub(crate) proof fn lemma_unplaced_counts(
    graph: Map<ModuleIdentifier, ModuleGraphModule>,
    order: TraversalOrder,
    checked: Set<ModuleIdentifier>,
    candidates: Seq<ModuleIdentifier>,
)
    ensures
        unplaced(graph, order, checked, candidates).len() == candidates.to_set().filter(
            |module: ModuleIdentifier| is_new_candidate(graph, order, checked, module),
        ).len(),
{
    let fresh = unplaced(graph, order, checked, candidates);
    let without = |module: ModuleIdentifier| graph[module].place(order) is None;
    assert forall|module: ModuleIdentifier| #[trigger]
        fresh.contains(module) <==> candidates.contains(module) && is_new_candidate(
            graph,
            order,
            checked,
            module,
        ) by {
        lemma_filter_contains(first_seen(checked, candidates), without, module);
        lemma_first_seen_contains(checked, candidates, module);
    }
    lemma_unplaced_distinct(graph, order, checked, candidates);
    fresh.unique_seq_to_set();
    assert(fresh.to_set() =~= candidates.to_set().filter(
        |module: ModuleIdentifier| is_new_candidate(graph, order, checked, module),
    ));
}

/// A module is a candidate for a global order where the graph does not know it or it has no place in that
/// order.
pub proof fn law_candidates_lack_places(
    graph: Map<ModuleIdentifier, ModuleGraphModule>,
    module: ModuleIdentifier,
)
    ensures
        lacks_place(graph, TraversalOrder::Pre, module) <==> !graph.contains_key(module)
            || graph[module].pre_order_index is None,
        lacks_place(graph, TraversalOrder::Post, module) <==> !graph.contains_key(module)
            || graph[module].post_order_index is None,
{
}

} // verus!
