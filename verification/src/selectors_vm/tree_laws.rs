use super::ast::{
    hosting, lemma_place_of, new_nodes_of_paths, paths_of_list, place_of, with_path, with_paths,
    NodeView, Step,
};
use super::ast_laws::{
    is_tidy, law_node_count_is_exact, law_siblings_stay_different, total_nodes,
};
use super::dense_hash_set::MatchId;
use super::selector::ComplexSelector;
use vstd::prelude::*;

verus! {

/// Whether every node of a level, and below it, is still there, at the same place and with all its
/// match ids.
pub open spec fn is_kept(before: Seq<NodeView>, after: Seq<NodeView>) -> bool
    decreases before,
{
    &&& before.len() <= after.len()
    &&& forall|i: int|
        #![trigger before[i]]
        0 <= i < before.len() ==> {
            &&& after[i].predicate == before[i].predicate
            &&& before[i].match_ids.subset_of(after[i].match_ids)
            &&& is_kept(before[i].children, after[i].children)
            &&& is_kept(before[i].descendants, after[i].descendants)
        }
}

proof fn lemma_kept_as_it_is(branches: Seq<NodeView>)
    ensures
        is_kept(branches, branches),
    decreases branches,
{
    assert forall|i: int| #![trigger branches[i]] 0 <= i < branches.len() implies is_kept(
        branches[i].children,
        branches[i].children,
    ) && is_kept(branches[i].descendants, branches[i].descendants) by {
        lemma_kept_as_it_is(branches[i].children);
        lemma_kept_as_it_is(branches[i].descendants);
    }
}

proof fn lemma_kept_twice(first: Seq<NodeView>, second: Seq<NodeView>, third: Seq<NodeView>)
    requires
        is_kept(first, second),
        is_kept(second, third),
    ensures
        is_kept(first, third),
    decreases first,
{
    assert forall|i: int| #![trigger first[i]] 0 <= i < first.len() implies {
        &&& third[i].predicate == first[i].predicate
        &&& first[i].match_ids.subset_of(third[i].match_ids)
        &&& is_kept(first[i].children, third[i].children)
        &&& is_kept(first[i].descendants, third[i].descendants)
    } by {
        assert(second[i].predicate == first[i].predicate);
        assert(third[i].predicate == second[i].predicate);
        lemma_kept_twice(first[i].children, second[i].children, third[i].children);
        lemma_kept_twice(first[i].descendants, second[i].descendants, third[i].descendants);
    }
}

proof fn lemma_path_keeps_all(branches: Seq<NodeView>, path: Seq<Step>, match_id: MatchId)
    ensures
        is_kept(branches, with_path(branches, path, match_id)),
    decreases path.len(),
{
    lemma_kept_as_it_is(branches);
    if path.len() > 0 {
        let at = place_of(branches, path[0].predicate) as int;
        let hosts = hosting(branches, path[0].predicate);
        let rest = path.drop_first();
        let after = with_path(branches, path, match_id);
        lemma_place_of(branches, path[0].predicate);
        lemma_path_keeps_all(hosts[at].children, rest, match_id);
        lemma_path_keeps_all(hosts[at].descendants, rest, match_id);
        assert forall|i: int| #![trigger branches[i]] 0 <= i < branches.len() implies {
            &&& after[i].predicate == branches[i].predicate
            &&& branches[i].match_ids.subset_of(after[i].match_ids)
            &&& is_kept(branches[i].children, after[i].children)
            &&& is_kept(branches[i].descendants, after[i].descendants)
        } by {
            assert(hosts[i] == branches[i]);
            lemma_kept_as_it_is(branches[i].children);
            lemma_kept_as_it_is(branches[i].descendants);
            if i != at {
                assert(after[i] == branches[i]);
            }
        }
    }
}

/// When a selector is added, every node that was there stays, at its place and with all its match
/// ids.
pub proof fn law_earlier_nodes_are_kept(
    branches: Seq<NodeView>,
    paths: Seq<Seq<Step>>,
    match_id: MatchId,
)
    ensures
        is_kept(branches, with_paths(branches, paths, match_id)),
    decreases paths.len(),
{
    if paths.len() == 0 {
        lemma_kept_as_it_is(branches);
    } else {
        let before = with_paths(branches, paths.drop_last(), match_id);
        law_earlier_nodes_are_kept(branches, paths.drop_last(), match_id);
        lemma_path_keeps_all(before, paths.last(), match_id);
        lemma_kept_twice(branches, before, with_paths(branches, paths, match_id));
    }
}

/// A selector list that is added to an AST under a match id.
pub struct Addition {
    pub selectors: Seq<ComplexSelector>,
    pub match_id: MatchId,
}

/// The nodes of an AST after some additions to an empty one.
pub open spec fn tree_after(additions: Seq<Addition>) -> Seq<NodeView>
    decreases additions.len(),
{
    if additions.len() == 0 {
        Seq::empty()
    } else {
        with_paths(
            tree_after(additions.drop_last()),
            paths_of_list(additions.last().selectors),
            additions.last().match_id,
        )
    }
}

/// The node count of an AST after some additions to an empty one.
pub open spec fn count_after(additions: Seq<Addition>) -> nat
    decreases additions.len(),
{
    if additions.len() == 0 {
        0
    } else {
        count_after(additions.drop_last()) + new_nodes_of_paths(
            tree_after(additions.drop_last()),
            paths_of_list(additions.last().selectors),
            additions.last().match_id,
        )
    }
}

/// However many selectors are added to an empty AST, its node count is the number of its nodes, no
/// two nodes beside each other have the same predicate, and all that was there after the first few
/// additions is there after all of them.
pub proof fn law_tree_of_additions(additions: Seq<Addition>, first: int)
    requires
        0 <= first <= additions.len(),
    ensures
        count_after(additions) == total_nodes(tree_after(additions)),
        is_tidy(tree_after(additions)),
        is_kept(tree_after(additions.take(first)), tree_after(additions)),
    decreases additions.len(),
{
    if additions.len() > 0 {
        let earlier = additions.drop_last();
        let tree = tree_after(earlier);
        let paths = paths_of_list(additions.last().selectors);
        let match_id = additions.last().match_id;
        law_tree_of_additions(earlier, if first < additions.len() { first } else { 0 });
        law_node_count_is_exact(tree, paths, match_id);
        law_siblings_stay_different(tree, paths, match_id);
        if first < additions.len() {
            law_earlier_nodes_are_kept(tree, paths, match_id);
            assert(earlier.take(first) =~= additions.take(first));
            lemma_kept_twice(tree_after(additions.take(first)), tree, tree_after(additions));
        }
    }
    if first == additions.len() {
        assert(additions.take(first) =~= additions);
        lemma_kept_as_it_is(tree_after(additions));
    }
}

} // verus!
