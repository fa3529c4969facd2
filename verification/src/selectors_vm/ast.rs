use super::dense_hash_set::{DenseHashSet, MatchId};
use super::expansion::{compound_expansion, expand_compound, Alternatives};
use super::expr::{views, Predicate, PredicateView};
use super::selector::{referents, Combinator, ComplexSelector, Component, Selector};
use vstd::prelude::*;

verus! {

/// A node of the AST: the elements that match the predicate, and what is asked further below them.
#[derive(PartialEq, Eq, Debug)]
pub struct AstNode {
    pub predicate: Predicate,
    pub children: Vec<AstNode>,
    pub descendants: Vec<AstNode>,
    pub match_ids: DenseHashSet,
}

/// What an [`AstNode`] is made of.
#[verifier::ext_equal]
pub struct NodeView {
    pub predicate: PredicateView,
    pub children: Seq<NodeView>,
    pub descendants: Seq<NodeView>,
    pub match_ids: Set<MatchId>,
}

impl AstNode {
    pub open spec fn view(&self) -> NodeView
        decreases self,
    {
        NodeView {
            predicate: self.predicate@,
            children: Seq::new(
                self.children@.len(),
                |i: int|
                    if 0 <= i < self.children@.len() {
                        self.children@[i].view()
                    } else {
                        arbitrary()
                    },
            ),
            descendants: Seq::new(
                self.descendants@.len(),
                |i: int|
                    if 0 <= i < self.descendants@.len() {
                        self.descendants@[i].view()
                    } else {
                        arbitrary()
                    },
            ),
            match_ids: self.match_ids@,
        }
    }

    /// A node without anything below it.
    #[must_use]
    pub fn new(predicate: Predicate) -> (node: Self)
        ensures
            node@ == NodeView::leaf(predicate@),
    {
        let node = AstNode {
            predicate,
            children: Vec::new(),
            descendants: Vec::new(),
            match_ids: DenseHashSet::new(),
        };
        assert(node@.children =~= Seq::empty());
        assert(node@.descendants =~= Seq::empty());
        node
    }
}

impl NodeView {
    /// A node without anything below it.
    pub open spec fn leaf(predicate: PredicateView) -> Self {
        NodeView {
            predicate,
            children: Seq::empty(),
            descendants: Seq::empty(),
            match_ids: Set::empty(),
        }
    }
}

/// The views of the nodes of a level.
pub open spec fn node_views(nodes: Seq<AstNode>) -> Seq<NodeView> {
    nodes.map_values(|node: AstNode| node@)
}

/// What a node's own view has of the nodes below it.
proof fn lemma_node_view(node: AstNode)
    ensures
        node@.children == node_views(node.children@),
        node@.descendants == node_views(node.descendants@),
{
    assert(node@.children =~= node_views(node.children@));
    assert(node@.descendants =~= node_views(node.descendants@));
}

/// The place of the first node with the given predicate, or the number of nodes without one.
pub open spec fn place_of(branches: Seq<NodeView>, predicate: PredicateView) -> nat
    decreases branches.len(),
{
    if branches.len() == 0 || branches[0].predicate == predicate {
        0
    } else {
        1 + place_of(branches.drop_first(), predicate)
    }
}

/// The branches with a node for the predicate: as they are, or with a new node at the end.
pub open spec fn hosting(branches: Seq<NodeView>, predicate: PredicateView) -> Seq<NodeView> {
    if place_of(branches, predicate) < branches.len() {
        branches
    } else {
        branches.push(NodeView::leaf(predicate))
    }
}

/// One compound selector on the way from the root, and the combinator that follows it.
#[verifier::ext_equal]
pub struct Step {
    pub predicate: PredicateView,
    pub combinator: Option<Combinator>,
}

/// The branches after `match_id` was put at the end of `path`.
pub open spec fn with_path(branches: Seq<NodeView>, path: Seq<Step>, match_id: MatchId) -> Seq<
    NodeView,
>
    decreases path.len(),
{
    if path.len() == 0 {
        branches
    } else {
        let at = place_of(branches, path[0].predicate) as int;
        let hosts = hosting(branches, path[0].predicate);
        let node = hosts[at];
        let rest = path.drop_first();
        hosts.update(
            at,
            match path[0].combinator {
                Some(Combinator::Child) => NodeView {
                    children: with_path(node.children, rest, match_id),
                    ..node
                },
                Some(_) => NodeView {
                    descendants: with_path(node.descendants, rest, match_id),
                    ..node
                },
                None => NodeView { match_ids: node.match_ids.insert(match_id), ..node },
            },
        )
    }
}

/// How many nodes are new when a match id is put at the end of `path`.
pub open spec fn new_nodes(branches: Seq<NodeView>, path: Seq<Step>) -> nat
    decreases path.len(),
{
    if path.len() == 0 {
        0
    } else {
        let at = place_of(branches, path[0].predicate) as int;
        let node = hosting(branches, path[0].predicate)[at];
        let rest = path.drop_first();
        let here: nat = if at < branches.len() {
            0
        } else {
            1
        };
        here + match path[0].combinator {
            Some(Combinator::Child) => new_nodes(node.children, rest),
            Some(_) => new_nodes(node.descendants, rest),
            None => 0,
        }
    }
}

/// The branches after `match_id` was put at the end of every path, in order.
pub open spec fn with_paths(
    branches: Seq<NodeView>,
    paths: Seq<Seq<Step>>,
    match_id: MatchId,
) -> Seq<NodeView>
    decreases paths.len(),
{
    if paths.len() == 0 {
        branches
    } else {
        with_path(with_paths(branches, paths.drop_last(), match_id), paths.last(), match_id)
    }
}

/// How many nodes are new when a match id is put at the end of every path, in order.
pub open spec fn new_nodes_of_paths(
    branches: Seq<NodeView>,
    paths: Seq<Seq<Step>>,
    match_id: MatchId,
) -> nat
    decreases paths.len(),
{
    if paths.len() == 0 {
        0
    } else {
        new_nodes_of_paths(branches, paths.drop_last(), match_id) + new_nodes(
            with_paths(branches, paths.drop_last(), match_id),
            paths.last(),
        )
    }
}

/// The alternatives of a compound selector, and the combinator that follows it.
#[verifier::ext_equal]
pub struct LevelView {
    pub alternatives: Seq<PredicateView>,
    pub combinator: Option<Combinator>,
}

/// The length of the first compound selector, with the combinator that ends it.
pub open spec fn level_len(components: Seq<Component>) -> nat
    decreases components.len(),
{
    if components.len() == 0 {
        0
    } else if components.first().spec_ends_level() {
        1
    } else {
        1 + level_len(components.drop_first())
    }
}

/// The first compound selector is a part of the components, and not an empty one.
pub proof fn lemma_level_len(components: Seq<Component>)
    requires
        components.len() > 0,
    ensures
        0 < level_len(components) <= components.len(),
        forall|i: int|
            0 <= i < level_len(components) - 1 ==> !(#[trigger] components[i]).spec_ends_level(),
        level_len(components) < components.len() ==> components[level_len(components)
            - 1].spec_ends_level(),
    decreases components.len(),
{
    if !components.first().spec_ends_level() && components.len() > 1 {
        let rest = components.drop_first();
        lemma_level_len(rest);
        assert forall|i: int| 0 <= i < level_len(components) - 1 implies !(
        #[trigger] components[i]).spec_ends_level() by {
            if i > 0 {
                assert(components[i] == rest[i - 1]);
            }
        }
        assert(rest[level_len(rest) - 1] == components[level_len(components) - 1]);
    } else if components.len() == 1 && !components.first().spec_ends_level() {
        assert(level_len(components.drop_first()) == 0);
    }
}

/// What a compound selector, with the combinator that may end it, expands to.
pub open spec fn level_of(components: Seq<Component>) -> LevelView {
    match components.last() {
        Component::Combinator(combinator) => LevelView {
            alternatives: compound_expansion::<Alternatives>(components.drop_last(), false),
            combinator: Some(combinator),
        },
        _ => LevelView {
            alternatives: compound_expansion::<Alternatives>(components, false),
            combinator: None,
        },
    }
}

/// The levels of a complex selector whose components are in parse order.
pub open spec fn levels_of(components: Seq<Component>) -> Seq<LevelView>
    decreases components.len(),
{
    if components.len() == 0 {
        Seq::empty()
    } else {
        proof {
            lemma_level_len(components);
        }
        let len = level_len(components) as int;
        seq![level_of(components.take(len))] + levels_of(components.skip(len))
    }
}

/// The paths that start with `taken` and go on with one alternative of every level, the last
/// level changing fastest.
pub open spec fn paths_from(taken: Seq<Step>, levels: Seq<LevelView>) -> Seq<Seq<Step>>
    decreases levels.len(), levels[0].alternatives.len() + 1,
{
    if levels.len() == 0 {
        seq![taken]
    } else {
        paths_through(taken, levels, levels[0].alternatives.len())
    }
}

/// The paths of [`paths_from`] that go on with one of the first `count` alternatives.
pub open spec fn paths_through(
    taken: Seq<Step>,
    levels: Seq<LevelView>,
    count: nat,
) -> Seq<Seq<Step>>
    decreases levels.len(), count,
    when levels.len() > 0
{
    if count == 0 {
        Seq::empty()
    } else {
        let step = Step {
            predicate: levels[0].alternatives[count - 1],
            combinator: levels[0].combinator,
        };
        paths_through(taken, levels, (count - 1) as nat) + paths_from(
            taken.push(step),
            levels.drop_first(),
        )
    }
}

/// The paths of a complex selector: every combination of one alternative per compound selector.
pub open spec fn paths_of(selector: ComplexSelector) -> Seq<Seq<Step>> {
    paths_from(Seq::empty(), levels_of(selector.spec_parse_order()))
}

/// The paths of every selector of a list.
pub open spec fn paths_of_list(selectors: Seq<ComplexSelector>) -> Seq<Seq<Step>>
    decreases selectors.len(),
{
    if selectors.len() == 0 {
        Seq::empty()
    } else {
        paths_of_list(selectors.drop_last()) + paths_of(selectors.last())
    }
}

/// The alternatives of a compound selector, and the combinator that follows it.
#[derive(Debug)]
pub struct Level {
    pub alternatives: Alternatives,
    pub combinator: Option<Combinator>,
}

impl View for Level {
    type V = LevelView;

    open spec fn view(&self) -> LevelView {
        LevelView { alternatives: views(self.alternatives@), combinator: self.combinator }
    }
}

/// Expands a compound selector that a combinator may end.
fn expand_level(components: Vec<&Component>) -> (level: Level)
    requires
        components.len() > 0,
    ensures
        level@ == level_of(referents(components@)),
{
    let mut components = components;
    let ghost all = referents(components@);
    let last: &Component = components[components.len() - 1];
    assert(all.last() == *last);
    if let Component::Combinator(combinator) = last {
        components.pop();
        assert(referents(components@) =~= all.drop_last());
        Level {
            alternatives: expand_compound::<Alternatives>(&components, false),
            combinator: Some(*combinator),
        }
    } else {
        Level {
            alternatives: expand_compound::<Alternatives>(&components, false),
            combinator: None,
        }
    }
}

/// Expands the compound selectors of a complex selector in parse order, each with the combinator
/// that follows it.
pub fn expand_levels(selector: &ComplexSelector) -> (levels: Vec<Level>)
    ensures
        views(levels@) == levels_of(selector.spec_parse_order()),
{
    let components = selector.parse_order();
    let ghost all = referents(components@);
    let mut levels: Vec<Level> = Vec::new();
    let mut start: usize = 0;
    assert(all.skip(0) =~= all);
    assert(views(levels@) + levels_of(all.skip(0)) =~= levels_of(all));
    while start < components.len()
        invariant
            start <= components.len(),
            all == referents(components@),
            views(levels@) + levels_of(all.skip(start as int)) == levels_of(all),
        decreases components.len() - start,
    {
        let ghost rest = all.skip(start as int);
        let ghost before = levels@;
        proof {
            lemma_level_len(rest);
        }
        let mut level: Vec<&Component> = Vec::new();
        let mut end: usize = start;
        let mut ended: bool = false;
        assert(referents(level@) =~= rest.take(0));
        while end < components.len() && !ended
            invariant
                start <= end <= components.len(),
                start < components.len(),
                all == referents(components@),
                rest == all.skip(start as int),
                0 < level_len(rest) <= rest.len(),
                forall|i: int|
                    0 <= i < level_len(rest) - 1 ==> !(#[trigger] rest[i]).spec_ends_level(),
                level_len(rest) < rest.len() ==> rest[level_len(rest) - 1].spec_ends_level(),
                end - start <= level_len(rest),
                ended ==> end > start && rest[end - start - 1].spec_ends_level(),
                forall|i: int|
                    0 <= i < end - start && !ended ==> !(#[trigger] rest[i]).spec_ends_level(),
                referents(level@) == rest.take(end - start),
            decreases components.len() - end + (if ended { 0int } else { 1int }),
        {
            let component: &Component = components[end];
            let ghost taken = level@;
            assert(rest[end - start] == *component);
            proof {
                if end - start == level_len(rest) {
                    assert(rest[level_len(rest) - 1].spec_ends_level());
                }
            }
            level.push(component);
            ended = component.ends_level();
            assert(referents(level@) =~= referents(taken).push(*component));
            assert(rest.take(end - start + 1) =~= rest.take(end - start).push(*component));
            end = end + 1;
        }
        assert(end - start == level_len(rest)) by {
            if end - start < level_len(rest) {
                if ended {
                    assert(!rest[end - start - 1].spec_ends_level());
                }
            }
        }
        levels.push(expand_level(level));
        proof {
            let len = level_len(rest) as int;
            assert(rest.skip(len) =~= all.skip(end as int));
            assert(views(levels@) =~= views(before).push(level_of(rest.take(len))));
            assert(views(levels@) + levels_of(rest.skip(len)) =~= views(before) + levels_of(rest));
        }
        start = end;
    }
    assert(views(levels@) + levels_of(all.skip(start as int)) =~= views(levels@));
    levels
}

/// Where [`place_of`] finds a node, and what it passes over.
pub proof fn lemma_place_of(branches: Seq<NodeView>, predicate: PredicateView)
    ensures
        place_of(branches, predicate) <= branches.len(),
        place_of(branches, predicate) < branches.len() ==> branches[place_of(
            branches,
            predicate,
        ) as int].predicate == predicate,
        forall|i: int|
            0 <= i < place_of(branches, predicate) ==> (#[trigger] branches[i]).predicate
                != predicate,
    decreases branches.len(),
{
    if branches.len() > 0 && branches[0].predicate != predicate {
        let rest = branches.drop_first();
        lemma_place_of(rest, predicate);
        assert forall|i: int| 0 <= i < place_of(branches, predicate) implies (
        #[trigger] branches[i]).predicate != predicate by {
            if i > 0 {
                assert(branches[i] == rest[i - 1]);
            }
        }
    }
}

/// The first node with the predicate is where [`place_of`] says.
proof fn lemma_place_is_first(branches: Seq<NodeView>, predicate: PredicateView, at: int)
    requires
        0 <= at <= branches.len(),
        at < branches.len() ==> branches[at].predicate == predicate,
        forall|i: int| 0 <= i < at ==> (#[trigger] branches[i]).predicate != predicate,
    ensures
        place_of(branches, predicate) == at,
{
    lemma_place_of(branches, predicate);
    let place = place_of(branches, predicate) as int;
    if place < at {
        assert(branches[place].predicate != predicate);
    } else if at < place {
        assert(branches[at].predicate != predicate);
    }
}

/// The path that takes the given alternative of each level.
pub open spec fn picked(levels: Seq<LevelView>, picks: Seq<usize>) -> Seq<Step> {
    Seq::new(
        picks.len(),
        |i: int|
            Step {
                predicate: levels[i].alternatives[picks[i] as int],
                combinator: levels[i].combinator,
            },
    )
}

/// Whether every pick is an alternative of its level.
spec fn picks_are_valid(levels: Seq<LevelView>, picks: Seq<usize>) -> bool {
    &&& picks.len() <= levels.len()
    &&& forall|i: int|
        0 <= i < picks.len() ==> (#[trigger] picks[i]) < levels[i].alternatives.len()
}

/// Paths can be put in one part after another.
pub proof fn lemma_paths_in_parts(
    branches: Seq<NodeView>,
    first: Seq<Seq<Step>>,
    second: Seq<Seq<Step>>,
    match_id: MatchId,
)
    ensures
        with_paths(branches, first + second, match_id) == with_paths(
            with_paths(branches, first, match_id),
            second,
            match_id,
        ),
        new_nodes_of_paths(branches, first + second, match_id) == new_nodes_of_paths(
            branches,
            first,
            match_id,
        ) + new_nodes_of_paths(with_paths(branches, first, match_id), second, match_id),
    decreases second.len(),
{
    if second.len() == 0 {
        assert(first + second =~= first);
    } else {
        assert((first + second).drop_last() =~= first + second.drop_last());
        lemma_paths_in_parts(branches, first, second.drop_last(), match_id);
    }
}

/// More alternatives of a level need no fewer nodes.
proof fn lemma_more_alternatives_need_more_nodes(
    branches: Seq<NodeView>,
    taken: Seq<Step>,
    levels: Seq<LevelView>,
    fewer: nat,
    more: nat,
    match_id: MatchId,
)
    requires
        levels.len() > 0,
        fewer <= more,
    ensures
        new_nodes_of_paths(branches, paths_through(taken, levels, fewer), match_id)
            <= new_nodes_of_paths(branches, paths_through(taken, levels, more), match_id),
    decreases more - fewer,
{
    if fewer < more {
        let step = Step {
            predicate: levels[0].alternatives[more - 1],
            combinator: levels[0].combinator,
        };
        let last = paths_from(taken.push(step), levels.drop_first());
        lemma_more_alternatives_need_more_nodes(
            branches,
            taken,
            levels,
            fewer,
            (more - 1) as nat,
            match_id,
        );
        lemma_paths_in_parts(
            branches,
            paths_through(taken, levels, (more - 1) as nat),
            last,
            match_id,
        );
    }
}

/// Selectors as a tree: what they have in common at the start is held once.
#[derive(PartialEq, Eq, Debug)]
pub struct Ast {
    pub root: Vec<AstNode>,
    /// The number of nodes.
    pub cumulative_node_count: usize,
}

impl Default for Ast {
    fn default() -> (ast: Self)
        ensures
            node_views(ast.root@) == Seq::<NodeView>::empty(),
            ast.cumulative_node_count == 0,
    {
        let ast = Ast { root: Vec::new(), cumulative_node_count: 0 };
        assert(node_views(ast.root@) =~= Seq::<NodeView>::empty());
        ast
    }
}

impl Ast {
    /// The index of the branch for `predicate`, which is added where there is none.
    pub fn host_expressions(
        predicate: Predicate,
        branches: &mut Vec<AstNode>,
        cumulative_node_count: &mut usize,
    ) -> (index: usize)
        requires
            place_of(node_views(old(branches)@), predicate@) == old(branches)@.len()
                ==> *old(cumulative_node_count) < usize::MAX,
        ensures
            index == place_of(node_views(old(branches)@), predicate@),
            index < final(branches)@.len(),
            node_views(final(branches)@) == hosting(node_views(old(branches)@), predicate@),
            *final(cumulative_node_count) == *old(cumulative_node_count) + (if index
                < old(branches)@.len() {
                0int
            } else {
                1int
            }),
    {
        let ghost nodes = node_views(branches@);
        let mut i: usize = 0;
        while i < branches.len()
            invariant
                i <= branches.len(),
                *branches == *old(branches),
                *cumulative_node_count == *old(cumulative_node_count),
                nodes == node_views(branches@),
                forall|k: int| 0 <= k < i ==> (#[trigger] nodes[k]).predicate != predicate@,
            decreases branches.len() - i,
        {
            assert(nodes[i as int].predicate == branches@[i as int].predicate@);
            if branches[i].predicate == predicate {
                proof {
                    lemma_place_is_first(nodes, predicate@, i as int);
                }
                return i;
            }
            i = i + 1;
        }
        proof {
            lemma_place_is_first(nodes, predicate@, i as int);
        }
        branches.push(AstNode::new(predicate));
        *cumulative_node_count = *cumulative_node_count + 1;
        assert(node_views(branches@) =~= nodes.push(NodeView::leaf(predicate@)));
        i
    }

    /// Puts `match_id` at the end of the path that goes on from `depth` with the given picks.
    fn add_path(
        branches: &mut Vec<AstNode>,
        cumulative_node_count: &mut usize,
        levels: &Vec<Level>,
        picks: &Vec<usize>,
        depth: usize,
        match_id: MatchId,
    )
        requires
            picks_are_valid(views(levels@), picks@),
            depth <= picks.len(),
            *old(cumulative_node_count) + new_nodes(
                node_views(old(branches)@),
                picked(views(levels@), picks@).skip(depth as int),
            ) <= usize::MAX,
        ensures
            node_views(final(branches)@) == with_path(
                node_views(old(branches)@),
                picked(views(levels@), picks@).skip(depth as int),
                match_id,
            ),
            *final(cumulative_node_count) == *old(cumulative_node_count) + new_nodes(
                node_views(old(branches)@),
                picked(views(levels@), picks@).skip(depth as int),
            ),
        decreases picks.len() - depth,
    {
        if depth == picks.len() {
            return;
        }
        let ghost path = picked(views(levels@), picks@).skip(depth as int);
        let ghost nodes = node_views(branches@);
        let ghost rest = picked(views(levels@), picks@).skip(depth + 1);
        proof {
            assert(path.drop_first() =~= rest);
            assert(views(levels@)[depth as int] == levels@[depth as int]@);
            assert(picks@[depth as int] < views(levels@)[depth as int].alternatives.len());
            lemma_place_of(nodes, path[0].predicate);
        }
        let predicate = levels[depth].alternatives[picks[depth]].clone();
        assert(predicate@ == path[0].predicate);
        let at: usize = Self::host_expressions(predicate, branches, cumulative_node_count);
        let ghost hosts = node_views(branches@);
        let ghost node = branches@[at as int];
        proof {
            lemma_node_view(node);
            assert(hosts[at as int] == node@);
        }
        match levels[depth].combinator {
            Some(Combinator::Child) => {
                Self::add_path(
                    &mut branches[at].children,
                    cumulative_node_count,
                    levels,
                    picks,
                    depth + 1,
                    match_id,
                );
            },
            // `Combinator::Descendant`, the only other one that levels are split at
            Some(_) => {
                Self::add_path(
                    &mut branches[at].descendants,
                    cumulative_node_count,
                    levels,
                    picks,
                    depth + 1,
                    match_id,
                );
            },
            None => {
                branches[at].match_ids.insert(match_id);
            },
        }
        proof {
            lemma_node_view(branches@[at as int]);
            assert(node_views(branches@) =~= with_path(nodes, path, match_id));
        }
    }

    /// Puts `match_id` at the end of every path that starts with the given picks.
    fn add_paths(
        root: &mut Vec<AstNode>,
        cumulative_node_count: &mut usize,
        levels: &Vec<Level>,
        picks: &mut Vec<usize>,
        match_id: MatchId,
    )
        requires
            picks_are_valid(views(levels@), old(picks)@),
            *old(cumulative_node_count) + new_nodes_of_paths(
                node_views(old(root)@),
                paths_from(
                    picked(views(levels@), old(picks)@),
                    views(levels@).skip(old(picks)@.len() as int),
                ),
                match_id,
            ) <= usize::MAX,
        ensures
            final(picks)@ == old(picks)@,
            node_views(final(root)@) == with_paths(
                node_views(old(root)@),
                paths_from(
                    picked(views(levels@), old(picks)@),
                    views(levels@).skip(old(picks)@.len() as int),
                ),
                match_id,
            ),
            *final(cumulative_node_count) == *old(cumulative_node_count) + new_nodes_of_paths(
                node_views(old(root)@),
                paths_from(
                    picked(views(levels@), old(picks)@),
                    views(levels@).skip(old(picks)@.len() as int),
                ),
                match_id,
            ),
        decreases levels.len() - old(picks).len(),
    {
        let depth: usize = picks.len();
        let ghost all = views(levels@);
        let ghost before = picks@;
        let ghost taken = picked(all, before);
        let ghost rest = all.skip(depth as int);
        let ghost nodes = node_views(root@);
        let ghost start: int = *cumulative_node_count as int;
        if depth == levels.len() {
            proof {
                reveal_with_fuel(with_paths, 2);
                reveal_with_fuel(new_nodes_of_paths, 2);
                let paths = paths_from(taken, rest);
                assert(paths =~= seq![taken]);
                assert(paths.drop_last() =~= Seq::empty());
                assert(paths.last() == taken);
                assert(taken.skip(0) =~= taken);
            }
            Self::add_path(root, cumulative_node_count, levels, picks, 0, match_id);
            return;
        }
        let count: usize = levels[depth].alternatives.len();
        assert(all[depth as int] == levels@[depth as int]@);
        assert(rest[0] == all[depth as int]);
        assert(rest[0].alternatives.len() == count);
        let mut i: usize = 0;
        while i < count
            invariant
                i <= count,
                depth < levels.len(),
                all == views(levels@),
                count == all[depth as int].alternatives.len(),
                picks@ == before,
                before == old(picks)@,
                before.len() == depth,
                picks_are_valid(all, before),
                taken == picked(all, before),
                rest == all.skip(depth as int),
                node_views(root@) == with_paths(
                    nodes,
                    paths_through(taken, rest, i as nat),
                    match_id,
                ),
                *cumulative_node_count == start + new_nodes_of_paths(
                    nodes,
                    paths_through(taken, rest, i as nat),
                    match_id,
                ),
                start + new_nodes_of_paths(
                    nodes,
                    paths_through(taken, rest, count as nat),
                    match_id,
                ) <= usize::MAX,
            decreases count - i,
        {
            picks.push(i);
            proof {
                let step = Step {
                    predicate: rest[0].alternatives[i as int],
                    combinator: rest[0].combinator,
                };
                assert(rest[0] == all[depth as int]);
                assert(picked(all, picks@) =~= taken.push(step));
                assert(rest.drop_first() =~= all.skip(depth + 1));
                lemma_paths_in_parts(
                    nodes,
                    paths_through(taken, rest, i as nat),
                    paths_from(taken.push(step), rest.drop_first()),
                    match_id,
                );
                lemma_more_alternatives_need_more_nodes(
                    nodes,
                    taken,
                    rest,
                    (i + 1) as nat,
                    count as nat,
                    match_id,
                );
            }
            Self::add_paths(root, cumulative_node_count, levels, picks, match_id);
            picks.pop();
            assert(picks@ =~= before);
            i = i + 1;
        }
    }

    /// Adds a selector list. `match_id` is a small integer chosen by the caller, which comes back
    /// with every match.
    pub fn add_selector(&mut self, selector: &Selector, match_id: MatchId)
        requires
            old(self).cumulative_node_count + new_nodes_of_paths(
                node_views(old(self).root@),
                paths_of_list(selector.0@),
                match_id,
            ) <= usize::MAX,
        ensures
            node_views(final(self).root@) == with_paths(
                node_views(old(self).root@),
                paths_of_list(selector.0@),
                match_id,
            ),
            final(self).cumulative_node_count == old(self).cumulative_node_count
                + new_nodes_of_paths(
                node_views(old(self).root@),
                paths_of_list(selector.0@),
                match_id,
            ),
    {
        let ghost nodes = node_views(self.root@);
        let ghost start: int = self.cumulative_node_count as int;
        let ghost selectors = selector.0@;
        let mut i: usize = 0;
        while i < selector.0.len()
            invariant
                i <= selector.0.len(),
                selectors == selector.0@,
                node_views(self.root@) == with_paths(
                    nodes,
                    paths_of_list(selectors.take(i as int)),
                    match_id,
                ),
                self.cumulative_node_count == start + new_nodes_of_paths(
                    nodes,
                    paths_of_list(selectors.take(i as int)),
                    match_id,
                ),
                start + new_nodes_of_paths(nodes, paths_of_list(selectors), match_id)
                    <= usize::MAX,
            decreases selector.0.len() - i,
        {
            let levels = expand_levels(&selector.0[i]);
            let mut picks: Vec<usize> = Vec::new();
            proof {
                let upto = selectors.take(i + 1);
                assert(upto.drop_last() =~= selectors.take(i as int));
                assert(upto.last() == selectors[i as int]);
                assert(views(levels@).skip(0) =~= views(levels@));
                assert(picked(views(levels@), picks@) =~= Seq::empty());
                lemma_paths_in_parts(
                    nodes,
                    paths_of_list(selectors.take(i as int)),
                    paths_of(selectors[i as int]),
                    match_id,
                );
                lemma_more_selectors_need_more_nodes(nodes, selectors, i + 1, match_id);
            }
            Self::add_paths(
                &mut self.root,
                &mut self.cumulative_node_count,
                &levels,
                &mut picks,
                match_id,
            );
            i = i + 1;
        }
        assert(selectors.take(i as int) =~= selectors);
    }
}

/// The first selectors of a list need no more nodes than all of them.
proof fn lemma_more_selectors_need_more_nodes(
    branches: Seq<NodeView>,
    selectors: Seq<ComplexSelector>,
    count: int,
    match_id: MatchId,
)
    requires
        0 <= count <= selectors.len(),
    ensures
        new_nodes_of_paths(branches, paths_of_list(selectors.take(count)), match_id)
            <= new_nodes_of_paths(branches, paths_of_list(selectors), match_id),
    decreases selectors.len(),
{
    if count == selectors.len() {
        assert(selectors.take(count) =~= selectors);
    } else {
        let shorter = selectors.drop_last();
        assert(shorter.take(count) =~= selectors.take(count));
        lemma_more_selectors_need_more_nodes(branches, shorter, count, match_id);
        lemma_paths_in_parts(
            branches,
            paths_of_list(shorter),
            paths_of(selectors.last()),
            match_id,
        );
    }
}

} // verus!
