use super::ast::{
    hosting, lemma_level_len, lemma_paths_in_parts, lemma_place_of, level_len, level_of, levels_of,
    new_nodes, new_nodes_of_paths, paths_from, paths_of, paths_of_list, paths_through, place_of,
    with_path, with_paths, LevelView, NodeView, Step,
};
use super::dense_hash_set::MatchId;
use super::expansion::{
    combinations, compound_expansion, compound_operands, saturated, simple_expansion,
    MAX_ALTERNATIVES,
};
use super::expansion_laws::{law_count_is_number_of_alternatives, lemma_product_len};
use super::expr::{Predicate, PredicateView};
use super::selector::{Combinator, ComplexSelector, Component};
use vstd::prelude::*;

verus! {

/// How many nodes there are on a level and below it.
pub open spec fn total_nodes(branches: Seq<NodeView>) -> nat
    decreases branches,
{
    if branches.len() == 0 {
        0
    } else {
        total_nodes(branches.drop_last()) + node_size(branches.last())
    }
}

/// A node with all the nodes below it.
pub open spec fn node_size(node: NodeView) -> nat
    decreases node,
{
    1 + total_nodes(node.children) + total_nodes(node.descendants)
}

proof fn lemma_total_after_update(branches: Seq<NodeView>, at: int, node: NodeView)
    requires
        0 <= at < branches.len(),
    ensures
        total_nodes(branches.update(at, node)) + node_size(branches[at]) == total_nodes(branches)
            + node_size(node),
    decreases branches.len(),
{
    let updated = branches.update(at, node);
    if at == branches.len() - 1 {
        assert(updated.drop_last() =~= branches.drop_last());
    } else {
        assert(updated.drop_last() =~= branches.drop_last().update(at, node));
        lemma_total_after_update(branches.drop_last(), at, node);
    }
}

proof fn lemma_total_of_hosting(branches: Seq<NodeView>, predicate: PredicateView)
    ensures
        place_of(branches, predicate) < hosting(branches, predicate).len(),
        hosting(branches, predicate)[place_of(branches, predicate) as int].predicate == predicate,
        total_nodes(hosting(branches, predicate)) == total_nodes(branches) + (if place_of(
            branches,
            predicate,
        ) < branches.len() {
            0nat
        } else {
            1nat
        }),
{
    lemma_place_of(branches, predicate);
    if place_of(branches, predicate) == branches.len() {
        let hosts = hosting(branches, predicate);
        assert(hosts.drop_last() =~= branches);
        assert(node_size(NodeView::leaf(predicate)) == 1) by {
            reveal_with_fuel(total_nodes, 2);
        }
    }
}

proof fn lemma_total_of_path(branches: Seq<NodeView>, path: Seq<Step>, match_id: MatchId)
    ensures
        total_nodes(with_path(branches, path, match_id)) == total_nodes(branches) + new_nodes(
            branches,
            path,
        ),
    decreases path.len(),
{
    if path.len() > 0 {
        let at = place_of(branches, path[0].predicate) as int;
        let hosts = hosting(branches, path[0].predicate);
        let node = hosts[at];
        let rest = path.drop_first();
        lemma_total_of_hosting(branches, path[0].predicate);
        lemma_total_of_path(node.children, rest, match_id);
        lemma_total_of_path(node.descendants, rest, match_id);
        let after = with_path(branches, path, match_id);
        assert(after == hosts.update(at, after[at]));
        lemma_total_after_update(hosts, at, after[at]);
    }
}

/// The number of nodes grows by exactly the number of new ones, so a count that starts at the
/// number of nodes stays there however many selectors are added.
pub proof fn law_node_count_is_exact(
    branches: Seq<NodeView>,
    paths: Seq<Seq<Step>>,
    match_id: MatchId,
)
    ensures
        total_nodes(with_paths(branches, paths, match_id)) == total_nodes(branches)
            + new_nodes_of_paths(branches, paths, match_id),
    decreases paths.len(),
{
    if paths.len() > 0 {
        law_node_count_is_exact(branches, paths.drop_last(), match_id);
        lemma_total_of_path(
            with_paths(branches, paths.drop_last(), match_id),
            paths.last(),
            match_id,
        );
    }
}

/// Whether no two nodes beside each other have the same predicate, on a level and below it.
pub open spec fn is_tidy(branches: Seq<NodeView>) -> bool
    decreases branches,
{
    &&& forall|i: int, j: int|
        0 <= i < j < branches.len() ==> (#[trigger] branches[i]).predicate != (
        #[trigger] branches[j]).predicate
    &&& forall|i: int|
        #![trigger branches[i]]
        0 <= i < branches.len() ==> is_tidy(branches[i].children) && is_tidy(
            branches[i].descendants,
        )
}

proof fn lemma_path_keeps_tidy(branches: Seq<NodeView>, path: Seq<Step>, match_id: MatchId)
    requires
        is_tidy(branches),
    ensures
        is_tidy(with_path(branches, path, match_id)),
    decreases path.len(),
{
    if path.len() > 0 {
        let at = place_of(branches, path[0].predicate) as int;
        let hosts = hosting(branches, path[0].predicate);
        let node = hosts[at];
        let rest = path.drop_first();
        lemma_place_of(branches, path[0].predicate);
        let empty: Seq<NodeView> = Seq::empty();
        assert(is_tidy(empty));
        assert(is_tidy(hosts));
        lemma_path_keeps_tidy(node.children, rest, match_id);
        lemma_path_keeps_tidy(node.descendants, rest, match_id);
        let after = with_path(branches, path, match_id);
        assert forall|i: int| 0 <= i < after.len() implies (#[trigger] after[i]).predicate
            == hosts[i].predicate && is_tidy(after[i].children) && is_tidy(after[i].descendants) by {
            if i != at {
                assert(after[i] == hosts[i]);
            }
        }
        assert forall|i: int, j: int| 0 <= i < j < after.len() implies (
        #[trigger] after[i]).predicate != (#[trigger] after[j]).predicate by {
            assert(hosts[i].predicate != hosts[j].predicate);
        }
    }
}

/// What selectors have in common at the start is held once: nodes beside each other stay
/// different, however many selectors are added.
pub proof fn law_siblings_stay_different(
    branches: Seq<NodeView>,
    paths: Seq<Seq<Step>>,
    match_id: MatchId,
)
    requires
        is_tidy(branches),
    ensures
        is_tidy(with_paths(branches, paths, match_id)),
    decreases paths.len(),
{
    if paths.len() > 0 {
        law_siblings_stay_different(branches, paths.drop_last(), match_id);
        lemma_path_keeps_tidy(
            with_paths(branches, paths.drop_last(), match_id),
            paths.last(),
            match_id,
        );
    }
}

/// The match ids at the end of a path.
pub open spec fn ids_at(branches: Seq<NodeView>, path: Seq<Step>) -> Set<MatchId>
    decreases path.len(),
{
    if path.len() == 0 {
        Set::empty()
    } else {
        let at = place_of(branches, path[0].predicate) as int;
        if at < branches.len() {
            match path[0].combinator {
                Some(Combinator::Child) => ids_at(branches[at].children, path.drop_first()),
                Some(_) => ids_at(branches[at].descendants, path.drop_first()),
                None => branches[at].match_ids,
            }
        } else {
            Set::empty()
        }
    }
}

/// Whether two paths end at the same node. A path ends at its first step without a combinator.
pub open spec fn is_same_end(left: Seq<Step>, right: Seq<Step>) -> bool
    decreases left.len(),
{
    &&& left.len() > 0
    &&& right.len() > 0
    &&& left[0].predicate == right[0].predicate
    &&& match (left[0].combinator, right[0].combinator) {
        (None, None) => true,
        (Some(l), Some(r)) => (l == Combinator::Child) == (r == Combinator::Child) && is_same_end(
            left.drop_first(),
            right.drop_first(),
        ),
        _ => false,
    }
}

/// Hosting a predicate does not move or lose any node.
pub proof fn lemma_place_in_hosting(
    branches: Seq<NodeView>,
    hosted: PredicateView,
    predicate: PredicateView,
)
    ensures
        place_of(branches, hosted) < hosting(branches, hosted).len(),
        hosting(branches, hosted)[place_of(branches, hosted) as int].predicate == hosted,
        place_of(branches, predicate) < branches.len() || predicate == hosted ==> place_of(
            hosting(branches, hosted),
            predicate,
        ) == place_of(branches, predicate),
        place_of(branches, predicate) == branches.len() && predicate != hosted ==> place_of(
            hosting(branches, hosted),
            predicate,
        ) == hosting(branches, hosted).len(),
{
    lemma_place_of(branches, hosted);
    lemma_place_of(branches, predicate);
    let hosts = hosting(branches, hosted);
    lemma_place_of(hosts, predicate);
    let before = place_of(branches, predicate) as int;
    let after = place_of(hosts, predicate) as int;
    if after < before {
        assert(branches[after].predicate != predicate);
    }
    if before < after && before < branches.len() {
        assert(hosts[before].predicate != predicate);
    }
    if before < after && before == branches.len() && predicate == hosted {
        assert(hosts[before].predicate != predicate);
    }
}

/// An update that keeps predicates keeps places.
pub proof fn lemma_place_after_update(
    branches: Seq<NodeView>,
    at: int,
    node: NodeView,
    predicate: PredicateView,
)
    requires
        0 <= at < branches.len(),
        node.predicate == branches[at].predicate,
    ensures
        place_of(branches.update(at, node), predicate) == place_of(branches, predicate),
{
    let updated = branches.update(at, node);
    lemma_place_of(branches, predicate);
    lemma_place_of(updated, predicate);
    let before = place_of(branches, predicate) as int;
    let after = place_of(updated, predicate) as int;
    if after < before {
        assert(branches[after].predicate != predicate);
        assert(updated[after].predicate == branches[after].predicate);
    }
    if before < after {
        assert(updated[before].predicate != predicate);
        assert(updated[before].predicate == branches[before].predicate);
    }
}

/// Putting a match id at the end of a path adds it there, and changes what no other path leads
/// to.
pub proof fn law_path_is_found(
    branches: Seq<NodeView>,
    path: Seq<Step>,
    match_id: MatchId,
    other: Seq<Step>,
)
    ensures
        ids_at(with_path(branches, path, match_id), other) == (if is_same_end(path, other) {
            ids_at(branches, other).insert(match_id)
        } else {
            ids_at(branches, other)
        }),
    decreases path.len(),
{
    if path.len() > 0 && other.len() > 0 {
        let hosted = path[0].predicate;
        let wanted = other[0].predicate;
        let at = place_of(branches, hosted) as int;
        let hosts = hosting(branches, hosted);
        let after = with_path(branches, path, match_id);
        lemma_place_in_hosting(branches, hosted, wanted);
        assert(after == hosts.update(at, after[at]));
        lemma_place_after_update(hosts, at, after[at], wanted);
        lemma_place_of(branches, hosted);
        lemma_place_of(branches, wanted);
        let rest = path.drop_first();
        let other_rest = other.drop_first();
        law_path_is_found(hosts[at].children, rest, match_id, other_rest);
        law_path_is_found(hosts[at].descendants, rest, match_id, other_rest);
        if wanted == hosted && at == branches.len() {
            lemma_nothing_is_below_a_leaf(hosted, other_rest);
        }
    }
}

proof fn lemma_nothing_is_below_a_leaf(predicate: PredicateView, path: Seq<Step>)
    ensures
        ids_at(NodeView::leaf(predicate).children, path) == Set::<MatchId>::empty(),
        ids_at(NodeView::leaf(predicate).descendants, path) == Set::<MatchId>::empty(),
{
}

/// Whether some of the paths ends at the same node as `path`.
pub open spec fn some_ends_at(paths: Seq<Seq<Step>>, path: Seq<Step>) -> bool {
    exists|i: int| 0 <= i < paths.len() && is_same_end(#[trigger] paths[i], path)
}

/// Adding a selector puts its match id at the end of each of its paths, and changes what no other
/// path leads to: the match ids of other selectors stay where they are.
pub proof fn law_selector_is_found(
    branches: Seq<NodeView>,
    paths: Seq<Seq<Step>>,
    match_id: MatchId,
    path: Seq<Step>,
)
    ensures
        ids_at(with_paths(branches, paths, match_id), path) == (if some_ends_at(paths, path) {
            ids_at(branches, path).insert(match_id)
        } else {
            ids_at(branches, path)
        }),
    decreases paths.len(),
{
    if paths.len() > 0 {
        let shorter = paths.drop_last();
        law_selector_is_found(branches, shorter, match_id, path);
        law_path_is_found(with_paths(branches, shorter, match_id), paths.last(), match_id, path);
        if some_ends_at(shorter, path) {
            let i: int = choose|i: int|
                0 <= i < shorter.len() && is_same_end(#[trigger] shorter[i], path);
            assert(is_same_end(paths[i], path));
        }
        if some_ends_at(paths, path) && !some_ends_at(shorter, path) {
            let i: int = choose|i: int|
                0 <= i < paths.len() && is_same_end(#[trigger] paths[i], path);
            assert(i == paths.len() - 1 || shorter[i] == paths[i]);
        }
        if is_same_end(paths.last(), path) {
            assert(is_same_end(paths[paths.len() - 1], path));
        }
        assert(ids_at(branches, path).insert(match_id).insert(match_id) =~= ids_at(
            branches,
            path,
        ).insert(match_id));
    }
}

/// Whether a path is there already, with the match id at its end.
pub open spec fn has_path(branches: Seq<NodeView>, path: Seq<Step>, match_id: MatchId) -> bool
    decreases path.len(),
{
    path.len() == 0 || {
        let at = place_of(branches, path[0].predicate) as int;
        &&& at < branches.len()
        &&& match path[0].combinator {
            Some(Combinator::Child) => has_path(
                branches[at].children,
                path.drop_first(),
                match_id,
            ),
            Some(_) => has_path(branches[at].descendants, path.drop_first(), match_id),
            None => branches[at].match_ids.contains(match_id),
        }
    }
}

proof fn lemma_present_path_changes_nothing(
    branches: Seq<NodeView>,
    path: Seq<Step>,
    match_id: MatchId,
)
    requires
        has_path(branches, path, match_id),
    ensures
        with_path(branches, path, match_id) == branches,
        new_nodes(branches, path) == 0,
    decreases path.len(),
{
    if path.len() > 0 {
        let at = place_of(branches, path[0].predicate) as int;
        let node = branches[at];
        let rest = path.drop_first();
        match path[0].combinator {
            Some(Combinator::Child) => {
                lemma_present_path_changes_nothing(node.children, rest, match_id);
            },
            Some(_) => {
                lemma_present_path_changes_nothing(node.descendants, rest, match_id);
            },
            None => {
                assert(node.match_ids.insert(match_id) =~= node.match_ids);
            },
        }
        assert(with_path(branches, path, match_id) =~= branches);
    }
}

proof fn lemma_path_is_present_after(branches: Seq<NodeView>, path: Seq<Step>, match_id: MatchId)
    ensures
        has_path(with_path(branches, path, match_id), path, match_id),
    decreases path.len(),
{
    if path.len() > 0 {
        let predicate = path[0].predicate;
        let at = place_of(branches, predicate) as int;
        let hosts = hosting(branches, predicate);
        let rest = path.drop_first();
        let after = with_path(branches, path, match_id);
        lemma_place_in_hosting(branches, predicate, predicate);
        assert(after == hosts.update(at, after[at]));
        lemma_place_after_update(hosts, at, after[at], predicate);
        lemma_path_is_present_after(hosts[at].children, rest, match_id);
        lemma_path_is_present_after(hosts[at].descendants, rest, match_id);
    }
}

proof fn lemma_present_path_stays(
    branches: Seq<NodeView>,
    path: Seq<Step>,
    match_id: MatchId,
    present: Seq<Step>,
    present_id: MatchId,
)
    requires
        has_path(branches, present, present_id),
    ensures
        has_path(with_path(branches, path, match_id), present, present_id),
    decreases path.len(),
{
    if path.len() > 0 && present.len() > 0 {
        let hosted = path[0].predicate;
        let wanted = present[0].predicate;
        let at = place_of(branches, hosted) as int;
        let hosts = hosting(branches, hosted);
        let rest = path.drop_first();
        let present_rest = present.drop_first();
        let after = with_path(branches, path, match_id);
        lemma_place_in_hosting(branches, hosted, wanted);
        assert(after == hosts.update(at, after[at]));
        lemma_place_after_update(hosts, at, after[at], wanted);
        if wanted == hosted {
            match present[0].combinator {
                Some(Combinator::Child) => {
                    lemma_present_path_stays(
                        hosts[at].children,
                        rest,
                        match_id,
                        present_rest,
                        present_id,
                    );
                },
                Some(_) => {
                    lemma_present_path_stays(
                        hosts[at].descendants,
                        rest,
                        match_id,
                        present_rest,
                        present_id,
                    );
                },
                None => {},
            }
        } else {
            lemma_place_of(branches, hosted);
            lemma_place_of(branches, wanted);
        }
    }
}

/// Whether every path is there already, with the match id at its end.
pub open spec fn has_paths(
    branches: Seq<NodeView>,
    paths: Seq<Seq<Step>>,
    match_id: MatchId,
) -> bool {
    forall|i: int| 0 <= i < paths.len() ==> has_path(branches, #[trigger] paths[i], match_id)
}

proof fn lemma_paths_are_present_after(
    branches: Seq<NodeView>,
    paths: Seq<Seq<Step>>,
    match_id: MatchId,
)
    ensures
        has_paths(with_paths(branches, paths, match_id), paths, match_id),
    decreases paths.len(),
{
    if paths.len() > 0 {
        let shorter = paths.drop_last();
        let before = with_paths(branches, shorter, match_id);
        lemma_paths_are_present_after(branches, shorter, match_id);
        lemma_path_is_present_after(before, paths.last(), match_id);
        assert forall|i: int| 0 <= i < paths.len() implies has_path(
            with_paths(branches, paths, match_id),
            #[trigger] paths[i],
            match_id,
        ) by {
            if i < shorter.len() {
                assert(has_path(before, shorter[i], match_id));
                lemma_present_path_stays(before, paths.last(), match_id, paths[i], match_id);
            }
        }
    }
}

proof fn lemma_present_paths_change_nothing(
    branches: Seq<NodeView>,
    paths: Seq<Seq<Step>>,
    match_id: MatchId,
)
    requires
        has_paths(branches, paths, match_id),
    ensures
        with_paths(branches, paths, match_id) == branches,
        new_nodes_of_paths(branches, paths, match_id) == 0,
    decreases paths.len(),
{
    if paths.len() > 0 {
        let shorter = paths.drop_last();
        assert forall|i: int| 0 <= i < shorter.len() implies has_path(
            branches,
            #[trigger] shorter[i],
            match_id,
        ) by {
            assert(has_path(branches, paths[i], match_id));
        }
        lemma_present_paths_change_nothing(branches, shorter, match_id);
        assert(has_path(branches, paths[paths.len() - 1], match_id));
        lemma_present_path_changes_nothing(branches, paths.last(), match_id);
    }
}

/// A selector that is added again under the same match id changes nothing and needs no node.
pub proof fn law_adding_again_changes_nothing(
    branches: Seq<NodeView>,
    paths: Seq<Seq<Step>>,
    match_id: MatchId,
)
    ensures
        with_paths(with_paths(branches, paths, match_id), paths, match_id) == with_paths(
            branches,
            paths,
            match_id,
        ),
        new_nodes_of_paths(with_paths(branches, paths, match_id), paths, match_id) == 0,
{
    lemma_paths_are_present_after(branches, paths, match_id);
    lemma_present_paths_change_nothing(
        with_paths(branches, paths, match_id),
        paths,
        match_id,
    );
}

/// Whether two levels have the same nodes, up to the match ids in them.
pub open spec fn is_same_tree(left: Seq<NodeView>, right: Seq<NodeView>) -> bool
    decreases left,
{
    &&& left.len() == right.len()
    &&& forall|i: int|
        #![trigger left[i]]
        #![trigger right[i]]
        0 <= i < left.len() ==> {
            &&& left[i].predicate == right[i].predicate
            &&& is_same_tree(left[i].children, right[i].children)
            &&& is_same_tree(left[i].descendants, right[i].descendants)
        }
}

proof fn lemma_same_tree_as_itself(branches: Seq<NodeView>)
    ensures
        is_same_tree(branches, branches),
    decreases branches,
{
    assert forall|i: int| #![trigger branches[i]] 0 <= i < branches.len() implies is_same_tree(
        branches[i].children,
        branches[i].children,
    ) && is_same_tree(branches[i].descendants, branches[i].descendants) by {
        lemma_same_tree_as_itself(branches[i].children);
        lemma_same_tree_as_itself(branches[i].descendants);
    }
}

proof fn lemma_same_trees_in_a_row(
    first: Seq<NodeView>,
    second: Seq<NodeView>,
    third: Seq<NodeView>,
)
    requires
        is_same_tree(first, second),
        is_same_tree(second, third),
    ensures
        is_same_tree(first, third),
    decreases first,
{
    assert forall|i: int|
        #![trigger first[i]]
        0 <= i < first.len() implies first[i].predicate == third[i].predicate && is_same_tree(
        first[i].children,
        third[i].children,
    ) && is_same_tree(first[i].descendants, third[i].descendants) by {
        assert(first[i].predicate == second[i].predicate);
        assert(second[i].predicate == third[i].predicate);
        lemma_same_trees_in_a_row(first[i].children, second[i].children, third[i].children);
        lemma_same_trees_in_a_row(
            first[i].descendants,
            second[i].descendants,
            third[i].descendants,
        );
    }
}

/// Whether a path is there, whatever is at its end.
pub open spec fn is_there(branches: Seq<NodeView>, path: Seq<Step>) -> bool
    decreases path.len(),
{
    path.len() == 0 || {
        let at = place_of(branches, path[0].predicate) as int;
        &&& at < branches.len()
        &&& match path[0].combinator {
            Some(Combinator::Child) => is_there(branches[at].children, path.drop_first()),
            Some(_) => is_there(branches[at].descendants, path.drop_first()),
            None => true,
        }
    }
}

proof fn lemma_present_path_is_there(
    branches: Seq<NodeView>,
    path: Seq<Step>,
    match_id: MatchId,
)
    requires
        has_path(branches, path, match_id),
    ensures
        is_there(branches, path),
    decreases path.len(),
{
    if path.len() > 0 {
        let at = place_of(branches, path[0].predicate) as int;
        match path[0].combinator {
            Some(Combinator::Child) => {
                lemma_present_path_is_there(branches[at].children, path.drop_first(), match_id);
            },
            Some(_) => {
                lemma_present_path_is_there(branches[at].descendants, path.drop_first(), match_id);
            },
            None => {},
        }
    }
}

proof fn lemma_path_that_is_there_needs_no_node(
    branches: Seq<NodeView>,
    path: Seq<Step>,
    match_id: MatchId,
)
    requires
        is_there(branches, path),
    ensures
        new_nodes(branches, path) == 0,
        is_same_tree(branches, with_path(branches, path, match_id)),
    decreases path.len(),
{
    lemma_same_tree_as_itself(branches);
    if path.len() > 0 {
        let at = place_of(branches, path[0].predicate) as int;
        let rest = path.drop_first();
        let after = with_path(branches, path, match_id);
        lemma_place_of(branches, path[0].predicate);
        match path[0].combinator {
            Some(Combinator::Child) => {
                lemma_path_that_is_there_needs_no_node(branches[at].children, rest, match_id);
            },
            Some(_) => {
                lemma_path_that_is_there_needs_no_node(branches[at].descendants, rest, match_id);
            },
            None => {},
        }
        assert forall|i: int|
            #![trigger branches[i]]
            #![trigger after[i]]
            0 <= i < branches.len() implies branches[i].predicate == after[i].predicate
            && is_same_tree(branches[i].children, after[i].children) && is_same_tree(
            branches[i].descendants,
            after[i].descendants,
        ) by {
            if i != at {
                assert(after[i] == branches[i]);
            }
        }
    }
}

proof fn lemma_path_stays_there(
    branches: Seq<NodeView>,
    path: Seq<Step>,
    match_id: MatchId,
    present: Seq<Step>,
)
    requires
        is_there(branches, present),
    ensures
        is_there(with_path(branches, path, match_id), present),
    decreases path.len(),
{
    if path.len() > 0 && present.len() > 0 {
        let hosted = path[0].predicate;
        let wanted = present[0].predicate;
        let at = place_of(branches, hosted) as int;
        let hosts = hosting(branches, hosted);
        let rest = path.drop_first();
        let present_rest = present.drop_first();
        let after = with_path(branches, path, match_id);
        lemma_place_in_hosting(branches, hosted, wanted);
        assert(after == hosts.update(at, after[at]));
        lemma_place_after_update(hosts, at, after[at], wanted);
        if wanted == hosted {
            match present[0].combinator {
                Some(Combinator::Child) => {
                    lemma_path_stays_there(hosts[at].children, rest, match_id, present_rest);
                },
                Some(_) => {
                    lemma_path_stays_there(hosts[at].descendants, rest, match_id, present_rest);
                },
                None => {},
            }
        } else {
            lemma_place_of(branches, hosted);
            lemma_place_of(branches, wanted);
        }
    }
}

proof fn lemma_paths_that_are_there_need_no_node(
    branches: Seq<NodeView>,
    paths: Seq<Seq<Step>>,
    match_id: MatchId,
)
    requires
        forall|i: int| 0 <= i < paths.len() ==> is_there(branches, #[trigger] paths[i]),
    ensures
        new_nodes_of_paths(branches, paths, match_id) == 0,
        is_same_tree(branches, with_paths(branches, paths, match_id)),
        forall|path: Seq<Step>|
            is_there(branches, path) ==> #[trigger] is_there(
                with_paths(branches, paths, match_id),
                path,
            ),
    decreases paths.len(),
{
    lemma_same_tree_as_itself(branches);
    if paths.len() > 0 {
        let shorter = paths.drop_last();
        let before = with_paths(branches, shorter, match_id);
        assert forall|i: int| 0 <= i < shorter.len() implies is_there(
            branches,
            #[trigger] shorter[i],
        ) by {
            assert(shorter[i] == paths[i]);
        }
        lemma_paths_that_are_there_need_no_node(branches, shorter, match_id);
        assert(is_there(branches, paths[paths.len() - 1]));
        assert(is_there(before, paths.last()));
        lemma_path_that_is_there_needs_no_node(before, paths.last(), match_id);
        lemma_same_trees_in_a_row(branches, before, with_paths(branches, paths, match_id));
        assert forall|path: Seq<Step>| is_there(branches, path) implies #[trigger] is_there(
            with_paths(branches, paths, match_id),
            path,
        ) by {
            assert(is_there(before, path));
            lemma_path_stays_there(before, paths.last(), match_id, path);
        }
    }
}

/// A selector that is added again under another match id needs no node: the tree stays as it is, but
/// for the match id, which comes to the nodes that have the first one for this selector.
pub proof fn law_other_id_goes_to_the_same_nodes(
    branches: Seq<NodeView>,
    paths: Seq<Seq<Step>>,
    match_id: MatchId,
    other_id: MatchId,
    path: Seq<Step>,
)
    ensures
        ({
            let once = with_paths(branches, paths, match_id);
            let twice = with_paths(once, paths, other_id);
            &&& new_nodes_of_paths(once, paths, other_id) == 0
            &&& is_same_tree(once, twice)
            &&& ids_at(twice, path) == (if some_ends_at(paths, path) {
                ids_at(branches, path).insert(match_id).insert(other_id)
            } else {
                ids_at(branches, path)
            })
        }),
{
    let once = with_paths(branches, paths, match_id);
    lemma_paths_are_present_after(branches, paths, match_id);
    assert forall|i: int| 0 <= i < paths.len() implies is_there(once, #[trigger] paths[i]) by {
        lemma_present_path_is_there(once, paths[i], match_id);
    }
    lemma_paths_that_are_there_need_no_node(once, paths, other_id);
    law_selector_is_found(branches, paths, match_id, path);
    law_selector_is_found(once, paths, other_id, path);
}

/// Adding the selectors of a list one by one under one match id does what adding the list does.
pub proof fn law_list_is_its_selectors(
    branches: Seq<NodeView>,
    first: Seq<ComplexSelector>,
    second: Seq<ComplexSelector>,
    match_id: MatchId,
)
    ensures
        with_paths(branches, paths_of_list(first + second), match_id) == with_paths(
            with_paths(branches, paths_of_list(first), match_id),
            paths_of_list(second),
            match_id,
        ),
{
    lemma_paths_of_parts(first, second);
    lemma_paths_in_parts(branches, paths_of_list(first), paths_of_list(second), match_id);
}

proof fn lemma_paths_of_parts(first: Seq<ComplexSelector>, second: Seq<ComplexSelector>)
    ensures
        paths_of_list(first + second) == paths_of_list(first) + paths_of_list(second),
    decreases second.len(),
{
    if second.len() == 0 {
        assert(first + second =~= first);
        assert(paths_of_list(first) + paths_of_list(second) =~= paths_of_list(first));
    } else {
        assert((first + second).drop_last() =~= first + second.drop_last());
        lemma_paths_of_parts(first, second.drop_last());
        assert(paths_of_list(first + second) =~= paths_of_list(first) + paths_of_list(second));
    }
}

/// The product of the numbers of alternatives of some components.
spec fn alternatives_product(components: Seq<Component>) -> nat
    decreases components.len(),
{
    if components.len() == 0 {
        1
    } else {
        alternatives_product(components.drop_last()) * simple_expansion::<Vec<Predicate>>(
            components.last(),
            false,
        ).len()
    }
}

proof fn lemma_expansion_len(components: Seq<Component>)
    ensures
        compound_expansion::<Vec<Predicate>>(components, false).len() == alternatives_product(
            components,
        ),
    decreases components.len(),
{
    let operands = compound_operands::<Vec<Predicate>>(components, false);
    if components.len() > 0 {
        lemma_expansion_len(components.drop_last());
        assert(operands.drop_last() =~= compound_operands::<Vec<Predicate>>(
            components.drop_last(),
            false,
        ));
        lemma_product_len(combinations(operands.drop_last()), operands.last());
    }
}

proof fn lemma_alternatives_product_of_parts(first: Seq<Component>, second: Seq<Component>)
    ensures
        alternatives_product(first + second) == alternatives_product(first) * alternatives_product(
            second,
        ),
    decreases second.len(),
{
    let a = alternatives_product(first);
    if second.len() == 0 {
        assert(first + second =~= first);
        assert(a * 1 == a);
    } else {
        assert((first + second).drop_last() =~= first + second.drop_last());
        lemma_alternatives_product_of_parts(first, second.drop_last());
        let b = alternatives_product(second.drop_last());
        let c = simple_expansion::<Vec<Predicate>>(second.last(), false).len();
        assert((a * b) * c == a * (b * c)) by (nonlinear_arith);
    }
}

proof fn lemma_alternatives_product_of_one(component: Component)
    ensures
        alternatives_product(seq![component]) == simple_expansion::<Vec<Predicate>>(
            component,
            false,
        ).len(),
{
    let one = seq![component];
    assert(one.drop_last() =~= Seq::<Component>::empty());
    assert(alternatives_product(one.drop_last()) == 1);
    assert(1 * simple_expansion::<Vec<Predicate>>(component, false).len() == simple_expansion::<
        Vec<Predicate>,
    >(component, false).len());
}

proof fn lemma_alternatives_product_of_reverse(components: Seq<Component>)
    ensures
        alternatives_product(components.reverse()) == alternatives_product(components),
    decreases components.len(),
{
    if components.len() == 0 {
        assert(components.reverse() =~= components);
    } else {
        let last = components.last();
        let shorter = components.drop_last();
        lemma_alternatives_product_of_reverse(shorter);
        assert(components.reverse() =~= seq![last] + shorter.reverse());
        lemma_alternatives_product_of_parts(seq![last], shorter.reverse());
        lemma_alternatives_product_of_one(last);
        let a = alternatives_product(shorter);
        let b = simple_expansion::<Vec<Predicate>>(last, false).len();
        assert(a * b == b * a) by (nonlinear_arith);
    }
}

/// The product of the numbers of alternatives of some levels.
pub open spec fn levels_product(levels: Seq<LevelView>) -> nat
    decreases levels.len(),
{
    if levels.len() == 0 {
        1
    } else {
        levels[0].alternatives.len() * levels_product(levels.drop_first())
    }
}

proof fn lemma_levels_product(components: Seq<Component>)
    ensures
        levels_product(levels_of(components)) == alternatives_product(components),
    decreases components.len(),
{
    if components.len() > 0 {
        lemma_level_len(components);
        let len = level_len(components) as int;
        let level = components.take(len);
        let rest = components.skip(len);
        lemma_levels_product(rest);
        assert(levels_of(components).drop_first() =~= levels_of(rest));
        assert(levels_of(components)[0] == level_of(level));
        assert(level + rest =~= components);
        lemma_alternatives_product_of_parts(level, rest);
        lemma_expansion_len(level);
        lemma_expansion_len(level.drop_last());
        match level.last() {
            Component::Combinator(combinator) => {
                let a = alternatives_product(level.drop_last());
                assert(simple_expansion::<Vec<Predicate>>(level.last(), false).len() == 1);
                assert(a * 1 == a);
            },
            _ => {},
        }
    }
}

pub proof fn lemma_paths_len(taken: Seq<Step>, levels: Seq<LevelView>)
    ensures
        paths_from(taken, levels).len() == levels_product(levels),
    decreases levels.len(), levels[0].alternatives.len() + 1,
{
    if levels.len() > 0 {
        lemma_paths_through_len(taken, levels, levels[0].alternatives.len());
    }
}

pub proof fn lemma_paths_through_len(taken: Seq<Step>, levels: Seq<LevelView>, count: nat)
    requires
        levels.len() > 0,
    ensures
        paths_through(taken, levels, count).len() == count * levels_product(levels.drop_first()),
    decreases levels.len(), count,
{
    let each = levels_product(levels.drop_first());
    if count > 0 {
        let step = Step {
            predicate: levels[0].alternatives[count - 1],
            combinator: levels[0].combinator,
        };
        lemma_paths_through_len(taken, levels, (count - 1) as nat);
        lemma_paths_len(taken.push(step), levels.drop_first());
        assert(count * each == (count - 1) * each + each) by (nonlinear_arith)
            requires
                count > 0,
        ;
    } else {
        assert(0 * each == 0);
    }
}

/// The parser counts exactly the paths that the AST gets: one for every combination of one
/// alternative per compound selector (or the largest `usize` where there are more). That is the
/// product, over the compound selectors, of the numbers of their alternatives.
pub proof fn law_count_is_number_of_paths(selector: ComplexSelector)
    ensures
        compound_expansion::<usize>(selector.components@, false) == saturated(
            paths_of(selector).len(),
        ),
        compound_expansion::<usize>(selector.components@, false) == saturated(
            levels_product(levels_of(selector.spec_parse_order())),
        ),
{
    law_count_is_number_of_alternatives(selector.components@, false);
    lemma_expansion_len(selector.components@);
    lemma_alternatives_product_of_reverse(selector.components@);
    lemma_levels_product(selector.spec_parse_order());
    lemma_paths_len(Seq::empty(), levels_of(selector.spec_parse_order()));
}

/// A selector that is not refused for its alternatives has no more paths than a selector may have.
pub proof fn law_accepted_selector_has_few_paths(selector: ComplexSelector)
    requires
        compound_expansion::<usize>(selector.components@, false) <= MAX_ALTERNATIVES,
    ensures
        paths_of(selector).len() <= MAX_ALTERNATIVES,
        paths_of(selector).len() == compound_expansion::<usize>(selector.components@, false),
{
    law_count_is_number_of_paths(selector);
}

} // verus!
