use super::ast::{
    hosting, lemma_level_len, lemma_place_of, level_len, level_of, levels_of, node_views,
    paths_from, paths_of, paths_of_list, paths_through, place_of, with_path, with_paths, Ast,
    LevelView, NodeView, Step,
};
use super::ast_laws::{
    ids_at, is_there, law_accepted_selector_has_few_paths, law_count_is_number_of_paths,
    law_node_count_is_exact, law_selector_is_found, lemma_place_after_update,
    lemma_paths_len, lemma_paths_through_len, lemma_place_in_hosting, levels_product, some_ends_at,
    total_nodes,
};
use super::dense_hash_set::MatchId;
use super::expansion::{compound_expansion, count_alternatives, Alternatives, MAX_ALTERNATIVES};
use super::selector::{Combinator, ComplexSelector, Component, Selector};
use super::selector_error::{list_error, SelectorError};
use vstd::prelude::*;

verus! {

/// Whether none of some components is a combinator.
pub open spec fn has_no_combinator(components: Seq<Component>) -> bool {
    forall|i: int| 0 <= i < components.len() ==> !((#[trigger] components[i]) is Combinator)
}

proof fn lemma_level_of_one_compound(components: Seq<Component>)
    requires
        components.len() > 0,
        has_no_combinator(components),
    ensures
        level_len(components) == components.len(),
    decreases components.len(),
{
    let rest = components.drop_first();
    assert(!(components[0] is Combinator));
    if rest.len() > 0 {
        assert forall|i: int| 0 <= i < rest.len() implies !((#[trigger] rest[i]) is Combinator) by {
            assert(rest[i] == components[i + 1]);
        }
        lemma_level_of_one_compound(rest);
    } else {
        assert(level_len(rest) == 0);
    }
}

proof fn lemma_level_ends_at_combinator(
    first: Seq<Component>,
    combinator: Combinator,
    rest: Seq<Component>,
)
    requires
        has_no_combinator(first),
        combinator == Combinator::Child || combinator == Combinator::Descendant,
    ensures
        level_len(first.push(Component::Combinator(combinator)) + rest) == first.len() + 1,
    decreases first.len(),
{
    let all = first.push(Component::Combinator(combinator)) + rest;
    if first.len() == 0 {
        assert(all.first() == Component::Combinator(combinator));
    } else {
        let shorter = first.drop_first();
        assert(!(first[0] is Combinator));
        assert(all.first() == first[0]);
        assert(all.drop_first() =~= shorter.push(Component::Combinator(combinator)) + rest);
        assert forall|i: int| 0 <= i < shorter.len() implies !((
        #[trigger] shorter[i]) is Combinator) by {
            assert(shorter[i] == first[i + 1]);
        }
        lemma_level_ends_at_combinator(shorter, combinator, rest);
    }
}

/// A single compound selector is one level: its alternatives, with nothing behind.
pub proof fn law_compound_selector_is_one_level(components: Seq<Component>)
    requires
        has_no_combinator(components),
    ensures
        components.len() > 0 ==> levels_of(components) == seq![
            LevelView {
                alternatives: compound_expansion::<Alternatives>(components, false),
                combinator: None,
            },
        ],
        components.len() == 0 ==> levels_of(components) == Seq::<LevelView>::empty(),
{
    if components.len() > 0 {
        lemma_level_of_one_compound(components);
        let len = level_len(components) as int;
        assert(components.take(len) =~= components);
        assert(components.skip(len) =~= Seq::<Component>::empty());
        assert(levels_of(components.skip(len)) =~= Seq::<LevelView>::empty());
        assert(!(components[components.len() - 1] is Combinator));
        assert(levels_of(components) =~= seq![level_of(components)]);
    }
}

/// A compound selector with a child or descendant combinator behind it is one level, its alternatives
/// and that combinator, and what is behind the combinator are the levels below.
pub proof fn law_combinator_ends_a_level(
    first: Seq<Component>,
    combinator: Combinator,
    rest: Seq<Component>,
)
    requires
        has_no_combinator(first),
        combinator == Combinator::Child || combinator == Combinator::Descendant,
    ensures
        levels_of(first.push(Component::Combinator(combinator)) + rest) == seq![
            LevelView {
                alternatives: compound_expansion::<Alternatives>(first, false),
                combinator: Some(combinator),
            },
        ] + levels_of(rest),
{
    let level = first.push(Component::Combinator(combinator));
    let all = level + rest;
    lemma_level_ends_at_combinator(first, combinator, rest);
    lemma_level_len(all);
    let len = level_len(all) as int;
    assert(all.take(len) =~= level);
    assert(all.skip(len) =~= rest);
    assert(level.drop_last() =~= first);
    assert(level.last() == Component::Combinator(combinator));
    assert(all.len() > 0);
    assert(levels_of(all) == seq![level_of(all.take(len))] + levels_of(all.skip(len)));
}

/// Whether a path goes on with one alternative of each level, in order, from place `from` on.
pub open spec fn picks_from(path: Seq<Step>, from: int, levels: Seq<LevelView>) -> bool {
    &&& path.len() == from + levels.len()
    &&& forall|i: int|
        #![trigger levels[i]]
        0 <= i < levels.len() ==> {
            &&& levels[i].alternatives.contains(path[from + i].predicate)
            &&& path[from + i].combinator == levels[i].combinator
        }
}

proof fn lemma_paths_from(taken: Seq<Step>, levels: Seq<LevelView>, path: Seq<Step>)
    ensures
        paths_from(taken, levels).contains(path) <==> {
            &&& picks_from(path, taken.len() as int, levels)
            &&& path.take(taken.len() as int) == taken
        },
    decreases levels.len(), levels[0].alternatives.len() + 1,
{
    let from = taken.len() as int;
    if levels.len() == 0 {
        let paths = paths_from(taken, levels);
        assert(paths[0] == taken);
        if path.len() == from && path.take(from) == taken {
            assert(path =~= taken);
            assert(paths.contains(path));
        }
        if paths.contains(path) {
            assert(path.take(from) =~= taken);
        }
    } else {
        lemma_paths_through(taken, levels, levels[0].alternatives.len(), path);
        let alternatives = levels[0].alternatives;
        let rest = levels.drop_first();
        if paths_from(taken, levels).contains(path) {
            let k: int = choose|k: int|
                0 <= k < alternatives.len() && path.len() > from && path[from].predicate
                    == #[trigger] alternatives[k];
            assert(alternatives.contains(path[from].predicate));
            assert forall|i: int|
                #![trigger levels[i]]
                0 <= i < levels.len() implies levels[i].alternatives.contains(
                path[from + i].predicate,
            ) && path[from + i].combinator == levels[i].combinator by {
                if i > 0 {
                    assert(rest[i - 1] == levels[i]);
                }
            }
        }
        if picks_from(path, from, levels) && path.take(from) == taken {
            assert(levels[0].alternatives.contains(path[from + 0].predicate));
            let k: int = choose|k: int|
                0 <= k < alternatives.len() && alternatives[k] == path[from].predicate;
            assert(path[from].predicate == alternatives[k]);
            assert forall|i: int|
                #![trigger rest[i]]
                0 <= i < rest.len() implies rest[i].alternatives.contains(
                path[from + 1 + i].predicate,
            ) && path[from + 1 + i].combinator == rest[i].combinator by {
                assert(levels[i + 1] == rest[i]);
            }
            assert(picks_from(path, from + 1, rest));
        }
    }
}

proof fn lemma_paths_through(
    taken: Seq<Step>,
    levels: Seq<LevelView>,
    count: nat,
    path: Seq<Step>,
)
    requires
        levels.len() > 0,
        count <= levels[0].alternatives.len(),
    ensures
        paths_through(taken, levels, count).contains(path) <==> {
            let from = taken.len() as int;
            &&& picks_from(path, from + 1, levels.drop_first())
            &&& path.take(from) == taken
            &&& path[from].combinator == levels[0].combinator
            &&& exists|k: int|
                0 <= k < count && path.len() > from && path[from].predicate
                    == #[trigger] levels[0].alternatives[k]
        },
    decreases levels.len(), count,
{
    let from = taken.len() as int;
    let rest = levels.drop_first();
    let all = paths_through(taken, levels, count);
    if count == 0 {
        assert(!all.contains(path));
    } else {
        let step = Step {
            predicate: levels[0].alternatives[count - 1],
            combinator: levels[0].combinator,
        };
        let earlier = paths_through(taken, levels, (count - 1) as nat);
        let last = paths_from(taken.push(step), rest);
        lemma_paths_through(taken, levels, (count - 1) as nat, path);
        lemma_paths_from(taken.push(step), rest, path);
        assert(all == earlier + last);
        assert(all.contains(path) <==> earlier.contains(path) || last.contains(path)) by {
            if earlier.contains(path) {
                let i: int = choose|i: int| 0 <= i < earlier.len() && earlier[i] == path;
                assert(all[i] == path);
            }
            if last.contains(path) {
                let i: int = choose|i: int| 0 <= i < last.len() && last[i] == path;
                assert(all[earlier.len() + i] == path);
            }
            if all.contains(path) {
                let i: int = choose|i: int| 0 <= i < all.len() && all[i] == path;
                if i < earlier.len() {
                    assert(earlier[i] == path);
                } else {
                    assert(last[i - earlier.len()] == path);
                }
            }
        }
        if path.len() > from {
            assert(path.take(from + 1) == taken.push(step) <==> path.take(from) == taken
                && path[from] == step) by {
                if path.take(from + 1) == taken.push(step) {
                    assert(path.take(from) =~= path.take(from + 1).take(from));
                    assert(taken.push(step).take(from) =~= taken);
                    assert(path[from] == path.take(from + 1)[from]);
                }
                if path.take(from) == taken && path[from] == step {
                    assert(path.take(from + 1) =~= path.take(from).push(step));
                }
            }
        }
    }
}

/// The paths of some levels are exactly the ways to pick one alternative of each, in order, each with
/// the combinator of its level.
pub proof fn law_paths_pick_one_alternative_of_each_level(
    levels: Seq<LevelView>,
    path: Seq<Step>,
)
    ensures
        paths_from(Seq::empty(), levels).contains(path) <==> {
            &&& path.len() == levels.len()
            &&& forall|i: int|
                #![trigger levels[i]]
                0 <= i < levels.len() ==> {
                    &&& levels[i].alternatives.contains(path[i].predicate)
                    &&& path[i].combinator == levels[i].combinator
                }
        },
{
    lemma_paths_from(Seq::empty(), levels, path);
    assert(path.take(0) =~= Seq::<Step>::empty());
    if picks_from(path, 0, levels) {
        assert forall|i: int|
            #![trigger levels[i]]
            0 <= i < levels.len() implies levels[i].alternatives.contains(path[i].predicate)
            && path[i].combinator == levels[i].combinator by {
            assert(path[0 + i] == path[i]);
        }
    }
    if path.len() == levels.len() && (forall|i: int|
        #![trigger levels[i]]
        0 <= i < levels.len() ==> levels[i].alternatives.contains(path[i].predicate)
            && path[i].combinator == levels[i].combinator) {
        assert forall|i: int|
            #![trigger levels[i]]
            0 <= i < levels.len() implies levels[i].alternatives.contains(path[0 + i].predicate)
            && path[0 + i].combinator == levels[i].combinator by {
            assert(path[0 + i] == path[i]);
        }
    }
}

/// A selector that is not refused for its alternatives has at most 256 paths.
pub proof fn law_accepted_selector_has_at_most_256_paths(selector: ComplexSelector)
    requires
        compound_expansion::<usize>(selector.components@, false)
            <= MAX_ALTERNATIVES,
    ensures
        paths_of(selector).len() <= 256,
{
    law_accepted_selector_has_few_paths(selector);
}

/// Whether a path leads along another one, as far as it goes.
pub open spec fn leads_along(path: Seq<Step>, along: Seq<Step>) -> bool
    decreases path.len(),
{
    path.len() == 0 || {
        &&& along.len() > 0
        &&& path[0].predicate == along[0].predicate
        &&& path[0].combinator is None || path.len() == 1 || {
            &&& along[0].combinator is Some
            &&& (path[0].combinator == Some(Combinator::Child)) == (along[0].combinator == Some(
                Combinator::Child,
            ))
            &&& leads_along(path.drop_first(), along.drop_first())
        }
    }
}

proof fn lemma_nothing_is_there_below_a_leaf(path: Seq<Step>)
    ensures
        is_there(Seq::<NodeView>::empty(), path) <==> path.len() == 0,
{
}

/// Putting a match id at the end of a path adds just the nodes along that path: whatever else is in
/// the tree was there before, and whatever was there is there.
#[verifier::spinoff_prover]
pub proof fn law_only_nodes_along_the_path_are_added(
    branches: Seq<NodeView>,
    along: Seq<Step>,
    match_id: MatchId,
    path: Seq<Step>,
)
    ensures
        is_there(with_path(branches, along, match_id), path) <==> is_there(branches, path)
            || leads_along(path, along),
    decreases along.len(),
{
    if along.len() > 0 && path.len() > 0 {
        let hosted = along[0].predicate;
        let wanted = path[0].predicate;
        let at = place_of(branches, hosted) as int;
        let hosts = hosting(branches, hosted);
        let node = hosts[at];
        let after = with_path(branches, along, match_id);
        let rest = path.drop_first();
        let along_rest = along.drop_first();
        lemma_place_in_hosting(branches, hosted, wanted);
        assert(after == hosts.update(at, after[at]));
        lemma_place_after_update(hosts, at, after[at], wanted);
        lemma_place_of(branches, hosted);
        lemma_place_of(branches, wanted);
        let there = place_of(branches, wanted) as int;
        if wanted == hosted {
            assert(place_of(after, wanted) == at);
            if at == branches.len() {
                assert(node == NodeView::leaf(hosted));
                lemma_nothing_is_there_below_a_leaf(rest);
                assert(!is_there(branches, path));
            } else {
                assert(node == branches[at]);
            }
            match path[0].combinator {
                None => {},
                Some(Combinator::Child) => {
                    if along[0].combinator == Some(Combinator::Child) {
                        law_only_nodes_along_the_path_are_added(
                            node.children,
                            along_rest,
                            match_id,
                            rest,
                        );
                        assert(after[at].children == with_path(
                            node.children,
                            along_rest,
                            match_id,
                        ));
                    } else {
                        assert(after[at].children == node.children);
                    }
                    assert(is_there(after, path) <==> is_there(after[at].children, rest));
                },
                Some(_) => {
                    if along[0].combinator is Some && along[0].combinator != Some(
                        Combinator::Child,
                    ) {
                        law_only_nodes_along_the_path_are_added(
                            node.descendants,
                            along_rest,
                            match_id,
                            rest,
                        );
                        assert(after[at].descendants == with_path(
                            node.descendants,
                            along_rest,
                            match_id,
                        ));
                    } else {
                        assert(after[at].descendants == node.descendants);
                    }
                    assert(is_there(after, path) <==> is_there(after[at].descendants, rest));
                },
            }
        } else if there < branches.len() {
            assert(place_of(after, wanted) == there);
            assert(there != at);
            assert(after[there] == branches[there]);
        } else {
            assert(!is_there(after, path));
        }
    }
}

/// Whether a path leads along one of some others.
pub open spec fn leads_along_some(path: Seq<Step>, paths: Seq<Seq<Step>>) -> bool {
    exists|i: int| 0 <= i < paths.len() && leads_along(path, #[trigger] paths[i])
}

/// Adding a selector adds just the nodes along its paths.
pub proof fn law_only_nodes_of_the_selector_are_added(
    branches: Seq<NodeView>,
    paths: Seq<Seq<Step>>,
    match_id: MatchId,
    path: Seq<Step>,
)
    ensures
        is_there(with_paths(branches, paths, match_id), path) <==> is_there(branches, path)
            || leads_along_some(path, paths),
    decreases paths.len(),
{
    if paths.len() > 0 {
        let shorter = paths.drop_last();
        law_only_nodes_of_the_selector_are_added(branches, shorter, match_id, path);
        law_only_nodes_along_the_path_are_added(
            with_paths(branches, shorter, match_id),
            paths.last(),
            match_id,
            path,
        );
        if leads_along_some(path, shorter) {
            let i: int = choose|i: int| 0 <= i < shorter.len() && leads_along(
                path,
                #[trigger] shorter[i],
            );
            assert(leads_along(path, paths[i]));
        }
        if leads_along_some(path, paths) {
            let i: int = choose|i: int| 0 <= i < paths.len() && leads_along(
                path,
                #[trigger] paths[i],
            );
            if i < shorter.len() {
                assert(shorter[i] == paths[i]);
            }
        }
        if leads_along(path, paths.last()) {
            assert(leads_along(path, paths[paths.len() - 1]));
        }
    }
}

/// A selector list with nothing else wrong is taken exactly if each of its selectors has at most 256
/// paths, and refused otherwise as syntax that is not supported.
pub proof fn law_validate_counts_paths(selector: Selector, res: Result<(), SelectorError>)
    requires
        call_ensures(Selector::validate, (&selector,), res),
        list_error(selector.0@, false) is None,
    ensures
        res is Ok <==> forall|i: int|
            0 <= i < selector.0@.len() ==> paths_of(#[trigger] selector.0@[i]).len() <= 256,
        res is Err ==> res == Err::<(), SelectorError>(SelectorError::UnsupportedSyntax),
{
    assert forall|i: int| 0 <= i < selector.0@.len() implies (paths_of(
        #[trigger] selector.0@[i],
    ).len() <= 256 <==> compound_expansion::<usize>(selector.0@[i].components@, false)
        <= MAX_ALTERNATIVES) by {
        law_count_is_number_of_paths(selector.0@[i]);
    }
}

/// Adding a selector list to an AST puts its match id at the end of each of its paths and nowhere else,
/// adds the nodes along its paths and no others, and keeps the count of the nodes.
pub proof fn law_add_selector(selector: Selector, match_id: MatchId, path: Seq<Step>)
    ensures
        forall|ast: &mut Ast|
            #[trigger] call_ensures(Ast::add_selector, (ast, &selector, match_id), ()) ==> {
                let before = node_views(ast.root@);
                let after = node_views((*final(ast)).root@);
                let paths = paths_of_list(selector.0@);
                &&& ids_at(after, path) == (if some_ends_at(paths, path) {
                    ids_at(before, path).insert(match_id)
                } else {
                    ids_at(before, path)
                })
                &&& is_there(after, path) <==> is_there(before, path) || leads_along_some(
                    path,
                    paths,
                )
                &&& total_nodes(after) - total_nodes(before) == (*final(ast)).cumulative_node_count
                    - ast.cumulative_node_count
            },
{
    let paths = paths_of_list(selector.0@);
    assert forall|ast: &mut Ast| #[trigger]
        call_ensures(Ast::add_selector, (ast, &selector, match_id), ()) implies ({
        let before = node_views(ast.root@);
        let after = node_views((*final(ast)).root@);
        &&& ids_at(after, path) == (if some_ends_at(paths, path) {
            ids_at(before, path).insert(match_id)
        } else {
            ids_at(before, path)
        })
        &&& is_there(after, path) <==> is_there(before, path) || leads_along_some(path, paths)
        &&& total_nodes(after) - total_nodes(before) == (*final(ast)).cumulative_node_count
            - ast.cumulative_node_count
    }) by {
        let before = node_views(ast.root@);
        law_selector_is_found(before, paths, match_id, path);
        law_only_nodes_of_the_selector_are_added(before, paths, match_id, path);
        law_node_count_is_exact(before, paths, match_id);
    }
}

/// The number of alternatives of a selector is that of its paths, or the largest number there is.
pub proof fn law_count_alternatives(selector: ComplexSelector, count: usize)
    requires
        call_ensures(count_alternatives, (&selector,), count),
    ensures
        paths_of(selector).len() <= usize::MAX ==> count == paths_of(selector).len(),
        paths_of(selector).len() > usize::MAX ==> count == usize::MAX,
{
    law_count_is_number_of_paths(selector);
}

proof fn lemma_place_of_path(
    taken: Seq<Step>,
    levels: Seq<LevelView>,
    count: nat,
    pick: nat,
    at: nat,
)
    requires
        levels.len() > 0,
        pick < count <= levels[0].alternatives.len(),
        at < levels_product(levels.drop_first()),
    ensures
        ({
            let step = Step {
                predicate: levels[0].alternatives[pick as int],
                combinator: levels[0].combinator,
            };
            let each = levels_product(levels.drop_first());
            &&& pick * each + at < paths_through(taken, levels, count).len()
            &&& paths_through(taken, levels, count)[(pick * each + at) as int] == paths_from(
                taken.push(step),
                levels.drop_first(),
            )[at as int]
        }),
    decreases count,
{
    let each = levels_product(levels.drop_first());
    let step = Step {
        predicate: levels[0].alternatives[count - 1],
        combinator: levels[0].combinator,
    };
    let earlier = paths_through(taken, levels, (count - 1) as nat);
    let last = paths_from(taken.push(step), levels.drop_first());
    lemma_paths_through_len(taken, levels, count);
    lemma_paths_through_len(taken, levels, (count - 1) as nat);
    lemma_paths_len(taken.push(step), levels.drop_first());
    assert(paths_through(taken, levels, count) == earlier + last);
    if pick < count - 1 {
        lemma_place_of_path(taken, levels, (count - 1) as nat, pick, at);
        assert((earlier + last)[(pick * each + at) as int] == earlier[(pick * each + at) as int]);
    } else {
        assert((earlier + last)[(count - 1) * each + at] == last[at as int]);
    }
}

/// The paths of some levels come in the order of the alternatives of the first level, and those with
/// the same alternative there in the order of the paths of the other levels: the last level changes
/// fastest.
pub proof fn law_last_level_changes_fastest(
    taken: Seq<Step>,
    levels: Seq<LevelView>,
    pick: nat,
    at: nat,
)
    requires
        levels.len() > 0,
        pick < levels[0].alternatives.len(),
        at < levels_product(levels.drop_first()),
    ensures
        ({
            let step = Step {
                predicate: levels[0].alternatives[pick as int],
                combinator: levels[0].combinator,
            };
            let each = levels_product(levels.drop_first());
            &&& pick * each + at < paths_from(taken, levels).len()
            &&& paths_from(taken, levels)[(pick * each + at) as int] == paths_from(
                taken.push(step),
                levels.drop_first(),
            )[at as int]
        }),
{
    lemma_place_of_path(taken, levels, levels[0].alternatives.len(), pick, at);
}

} // verus!
