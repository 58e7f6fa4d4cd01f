//! An `egg` e-graph of operations.

use egg::{EGraph, Id};
use vstd::prelude::*;

use crate::graph::{ClassGraph, TileClass};
use crate::text::{is_phantom, names_phantom};
use crate::tile::{table_view, TileLang};

verus! {

/// An operation over ids, as mathematical values.
#[verifier::ext_equal]
pub struct TileView {
    pub op: Seq<char>,
    pub children: Seq<nat>,
    pub edge_data: Seq<(i32, i32)>,
    pub rt: Seq<Seq<i32>>,
}

impl View for TileLang<usize> {
    type V = TileView;

    open spec fn view(&self) -> TileView {
        TileView {
            op: self.op@,
            children: Seq::new(self.children@.len(), |k: int| self.children@[k] as nat),
            edge_data: self.edge_data@,
            rt: table_view(self.rt@),
        }
    }
}

/// The operations of a list.
pub open spec fn tile_views(tiles: Seq<TileLang<usize>>) -> Seq<TileView> {
    Seq::new(tiles.len(), |j: int| tiles[j]@)
}

/// An e-graph of operations without analysis data, which `egg` can rewrite.
#[verifier::external_body]
pub struct TileGraph {
    pub egraph: EGraph<TileLang<Id>, ()>,
}

/// The operations of each class, by the id of the class.
pub uninterp spec fn classes_of(g: TileGraph) -> Map<nat, Seq<TileView>>;

/// For each id that was handed out, the id of its class.
pub uninterp spec fn leaders_of(g: TileGraph) -> Seq<nat>;

/// For each operator with operands that was ever added, the id that it got.
pub uninterp spec fn memo_of(g: TileGraph) -> Map<(Seq<char>, Seq<nat>), nat>;

/// Explanations are on.
pub uninterp spec fn explains(g: TileGraph) -> bool;

/// The ids are ones that were handed out.
pub open spec fn known(leaders: Seq<nat>, ids: Seq<nat>) -> bool {
    forall|k: int| 0 <= k < ids.len() ==> (#[trigger] ids[k]) < leaders.len()
}

/// Each id replaced by that of its class.
pub open spec fn led(leaders: Seq<nat>, ids: Seq<nat>) -> Seq<nat> {
    Seq::new(ids.len(), |k: int| leaders[ids[k] as int])
}

/// The operation with each operand replaced by the id of its class.
pub open spec fn canonical(leaders: Seq<nat>, tile: TileView) -> TileView {
    TileView {
        op: tile.op,
        children: led(leaders, tile.children),
        edge_data: tile.edge_data,
        rt: tile.rt,
    }
}

/// What tells operations apart: the operator and the operands.
pub open spec fn key(tile: TileView) -> (Seq<char>, Seq<nat>) {
    (tile.op, tile.children)
}

/// Classes lead themselves, every id is led by a class, and operands are ids.
pub open spec fn valid(
    classes: Map<nat, Seq<TileView>>,
    leaders: Seq<nat>,
    memo: Map<(Seq<char>, Seq<nat>), nat>,
) -> bool {
    &&& forall|id: nat| #[trigger]
        classes.contains_key(id) ==> id < leaders.len() && leaders[id as int] == id
    &&& forall|i: int| 0 <= i < leaders.len() ==> classes.contains_key(#[trigger] leaders[i])
    &&& forall|id: nat, j: int|
        classes.contains_key(id) && 0 <= j < classes[id].len() ==> known(
            leaders,
            (#[trigger] classes[id][j]).children,
        )
    &&& forall|k: (Seq<char>, Seq<nat>)| #[trigger]
        memo.contains_key(k) ==> memo[k] < leaders.len() && known(leaders, k.1)
}

/// The e-graph is valid.
pub open spec fn is_valid(g: TileGraph) -> bool {
    valid(classes_of(g), leaders_of(g), memo_of(g))
}

/// The e-graph holds nothing.
pub open spec fn is_blank(g: TileGraph) -> bool {
    &&& classes_of(g) == Map::<nat, Seq<TileView>>::empty()
    &&& leaders_of(g) == Seq::<nat>::empty()
    &&& memo_of(g) == Map::<(Seq<char>, Seq<nat>), nat>::empty()
}

/// Operations that have become the same are in the same class.
pub open spec fn settled(leaders: Seq<nat>, memo: Map<(Seq<char>, Seq<nat>), nat>) -> bool {
    forall|k: (Seq<char>, Seq<nat>), l: (Seq<char>, Seq<nat>)|
        #![trigger memo[k], memo[l]]
        memo.contains_key(k) && memo.contains_key(l) && k.0 == l.0 && led(leaders, k.1) == led(
            leaders,
            l.1,
        ) ==> leaders[memo[k] as int] == leaders[memo[l] as int]
}

/// The leaders when `root` also leads what `other` led.
pub open spec fn merged(leaders: Seq<nat>, root: nat, other: nat) -> Seq<nat> {
    Seq::new(
        leaders.len(),
        |i: int|
            if leaders[i] == other {
                root
            } else {
                leaders[i]
            },
    )
}

/// The classes when the one of `other` has gone over to `root`.
pub open spec fn joined(
    before: Map<nat, Seq<TileView>>,
    after: Map<nat, Seq<TileView>>,
    root: nat,
    other: nat,
) -> bool {
    ||| after == before.remove(other).insert(root, before[root] + before[other])
    ||| after == before.remove(other).insert(root, before[other] + before[root])
}

/// `after` are the operations `before` with their operands replaced by the ids of their classes,
/// those that have become the same kept once.
pub open spec fn tidied(leaders: Seq<nat>, before: Seq<TileView>, after: Seq<TileView>) -> bool {
    &&& forall|j: int|
        0 <= j < after.len() ==> exists|i: int|
            0 <= i < before.len() && (#[trigger] after[j]) == canonical(
                leaders,
                #[trigger] before[i],
            )
    &&& forall|i: int|
        0 <= i < before.len() ==> exists|j: int|
            0 <= j < after.len() && key(#[trigger] after[j]) == key(
                canonical(leaders, #[trigger] before[i]),
            )
    &&& forall|i: int, j: int|
        0 <= i < j < after.len() ==> key(#[trigger] after[i]) != key(#[trigger] after[j])
}

/// An operation that is not a placeholder.
pub open spec fn is_real(tile: TileView) -> bool {
    !is_phantom(tile.op)
}

/// The operations that are not placeholders, in order.
pub open spec fn reals(tiles: Seq<TileView>) -> Seq<TileView> {
    tiles.filter(|tile: TileView| is_real(tile))
}

/// The operations that are not placeholders are all there, and no others.
pub proof fn reals_are_the_real(tiles: Seq<TileView>)
    ensures
        forall|j: int|
            0 <= j < reals(tiles).len() ==> is_real(#[trigger] reals(tiles)[j]) && tiles.contains(
                reals(tiles)[j],
            ),
        forall|i: int|
            0 <= i < tiles.len() && is_real(#[trigger] tiles[i]) ==> reals(tiles).contains(tiles[i]),
{
    let pred = |tile: TileView| is_real(tile);
    assert forall|j: int| 0 <= j < reals(tiles).len() implies is_real(#[trigger] reals(tiles)[j])
        && tiles.contains(reals(tiles)[j]) by {
        tiles.lemma_filter_pred(pred, j);
        assert(tiles.filter(pred).contains(tiles.filter(pred)[j]));
        tiles.lemma_filter_contains_rev(pred, tiles.filter(pred)[j]);
    }
    assert forall|i: int| 0 <= i < tiles.len() && is_real(#[trigger] tiles[i]) implies reals(
        tiles,
    ).contains(tiles[i]) by {
        tiles.lemma_filter_contains(pred, i);
    }
}

/// What is left after the placeholders have gone is told apart as before.
pub proof fn reals_stay_distinct(tiles: Seq<TileView>)
    requires
        forall|i: int, j: int|
            0 <= i < j < tiles.len() ==> key(#[trigger] tiles[i]) != key(#[trigger] tiles[j]),
    ensures
        forall|i: int, j: int|
            0 <= i < j < reals(tiles).len() ==> key(#[trigger] reals(tiles)[i]) != key(
                #[trigger] reals(tiles)[j],
            ),
    decreases tiles.len(),
{
    reveal(Seq::filter);
    if tiles.len() > 0 {
        let front = tiles.drop_last();
        assert forall|i: int, j: int| 0 <= i < j < front.len() implies key(#[trigger] front[i])
            != key(#[trigger] front[j]) by {
            assert(front[i] == tiles[i] && front[j] == tiles[j]);
        }
        reals_stay_distinct(front);
        reals_are_the_real(front);
        let kept = reals(front);
        assert forall|i: int, j: int| 0 <= i < j < reals(tiles).len() implies key(
            #[trigger] reals(tiles)[i],
        ) != key(#[trigger] reals(tiles)[j]) by {
            if j < kept.len() {
                assert(reals(tiles)[i] == kept[i] && reals(tiles)[j] == kept[j]);
            } else {
                assert(reals(tiles)[i] == kept[i]);
                assert(front.contains(kept[i]));
                let a = choose|a: int| 0 <= a < front.len() && front[a] == kept[i];
                assert(tiles[a] == kept[i]);
                assert(reals(tiles)[j] == tiles[tiles.len() - 1]);
            }
        }
    }
}

/// An e-graph is still valid when the placeholders have left one of its classes.
proof fn still_valid(before: TileGraph, after: TileGraph, id: nat)
    requires
        is_valid(before),
        classes_of(before).contains_key(id),
        leaders_of(after) == leaders_of(before),
        memo_of(after) == memo_of(before),
        classes_of(after) == classes_of(before).insert(id, reals(classes_of(before)[id])),
    ensures
        is_valid(after),
{
    assert forall|c: nat, j: int|
        classes_of(after).contains_key(c) && 0 <= j < classes_of(after)[c].len() implies known(
        leaders_of(after),
        (#[trigger] classes_of(after)[c][j]).children,
    ) by {
        let tiles = classes_of(before)[c];
        if c == id {
            let tile = reals(tiles)[j];
            reals_are_the_real(tiles);
            assert(is_real(tile) && tiles.contains(tile));
            let i = choose|i: int| 0 <= i < tiles.len() && tiles[i] == tile;
            assert(classes_of(before)[c][i] == tile);
        } else {
            assert(classes_of(before)[c][j] == classes_of(after)[c][j]);
        }
    }
}

/// Lists the operations that are not placeholders, in order.
fn real_nodes(nodes: &Vec<TileLang<usize>>) -> (r: Vec<TileLang<usize>>)
    ensures
        tile_views(r@) == reals(tile_views(nodes@)),
{
    let ghost views = tile_views(nodes@);
    let n = nodes.len();
    let mut kept: Vec<TileLang<usize>> = Vec::new();
    let mut i: usize = 0;
    proof {
        reveal(Seq::filter);
        assert(tile_views(kept@) =~= reals(views.take(0)));
    }
    while i < n
        invariant
            i <= n,
            n == nodes@.len(),
            views == tile_views(nodes@),
            tile_views(kept@) == reals(views.take(i as int)),
        decreases n - i,
    {
        let ghost before = kept@;
        let ghost front = views.take(i + 1);
        proof {
            reveal(Seq::filter);
            assert(front.drop_last() =~= views.take(i as int));
            assert(front.last() == nodes@[i as int]@);
        }
        if !names_phantom(nodes[i].op.as_str()) {
            let node = nodes[i].clone();
            assert(node@ =~= nodes@[i as int]@);
            kept.push(node);
            assert(tile_views(kept@) =~= tile_views(before).push(node@));
        }
        i = i + 1;
    }
    assert(views.take(n as int) =~= views);
    kept
}

impl TileGraph {
    /// `egg::EGraph::default`: an e-graph without classes and with explanations off.
    #[verifier::external_body]
    pub(crate) fn empty() -> (g: Self)
        ensures
            is_blank(g),
            !explains(g),
    {
        TileGraph { egraph: EGraph::default() }
    }

    /// `egg::EGraph::add`, with explanations off: operands are replaced by the ids of their classes; an operation that
    /// was there before keeps its class, another one gets the next id and a class of its own.
    #[verifier::external_body]
    pub(crate) fn add(&mut self, tile: TileLang<usize>) -> (id: usize)
        requires
            is_valid(*old(self)),
            !explains(*old(self)),
            known(leaders_of(*old(self)), tile@.children),
            leaders_of(*old(self)).len() < u32::MAX,
        ensures
            is_valid(*final(self)),
            !explains(*final(self)),
            ({
                let leaders = leaders_of(*old(self));
                let node = canonical(leaders, tile@);
                if memo_of(*old(self)).contains_key(key(node)) {
                    &&& id == leaders[memo_of(*old(self))[key(node)] as int]
                    &&& classes_of(*final(self)) == classes_of(*old(self))
                    &&& leaders_of(*final(self)) == leaders
                    &&& memo_of(*final(self)) == memo_of(*old(self))
                } else {
                    &&& id == leaders.len()
                    &&& classes_of(*final(self)) == classes_of(*old(self)).insert(
                        id as nat,
                        seq![node],
                    )
                    &&& leaders_of(*final(self)) == leaders.push(id as nat)
                    &&& memo_of(*final(self)) == memo_of(*old(self)).insert(key(node), id as nat)
                }
            }),
    {
        let children: Vec<Id> = tile.children.into_iter().map(Id::from).collect();
        usize::from(self.egraph.add(TileLang::new(tile.op, children, tile.edge_data, tile.rt)))
    }

    /// `egg::EGraph::union`: two classes become one, which goes by the id of one of them; a
    /// class with itself stays as it is.
    #[verifier::external_body]
    pub(crate) fn union(&mut self, a: usize, b: usize) -> (changed: bool)
        requires
            is_valid(*old(self)),
            a < leaders_of(*old(self)).len(),
            b < leaders_of(*old(self)).len(),
        ensures
            is_valid(*final(self)),
            explains(*final(self)) == explains(*old(self)),
            memo_of(*final(self)) == memo_of(*old(self)),
            changed == (leaders_of(*old(self))[a as int] != leaders_of(*old(self))[b as int]),
            !changed ==> classes_of(*final(self)) == classes_of(*old(self)) && leaders_of(
                *final(self),
            ) == leaders_of(*old(self)),
            changed ==> ({
                let p = leaders_of(*old(self))[a as int];
                let q = leaders_of(*old(self))[b as int];
                ||| leaders_of(*final(self)) == merged(leaders_of(*old(self)), p, q) && joined(
                    classes_of(*old(self)),
                    classes_of(*final(self)),
                    p,
                    q,
                )
                ||| leaders_of(*final(self)) == merged(leaders_of(*old(self)), q, p) && joined(
                    classes_of(*old(self)),
                    classes_of(*final(self)),
                    q,
                    p,
                )
            }),
    {
        self.egraph.union(Id::from(a), Id::from(b))
    }

    /// `egg::EGraph::rebuild`: what was in one class stays in one class. Where operations that
    /// have become the same are in the same class already, no classes are merged, and each class
    /// has its operations over the ids of classes, each of them once. Which further classes are
    /// merged otherwise is not stated.
    #[verifier::external_body]
    pub(crate) fn rebuild(&mut self)
        requires
            is_valid(*old(self)),
        ensures
            is_valid(*final(self)),
            leaders_of(*final(self)).len() == leaders_of(*old(self)).len(),
            forall|i: int, j: int|
                #![trigger leaders_of(*final(self))[i], leaders_of(*final(self))[j]]
                0 <= i < leaders_of(*old(self)).len() && 0 <= j < leaders_of(*old(self)).len()
                    && leaders_of(*old(self))[i] == leaders_of(*old(self))[j] ==> leaders_of(
                    *final(self),
                )[i] == leaders_of(*final(self))[j],
            settled(leaders_of(*old(self)), memo_of(*old(self))) ==> {
                &&& leaders_of(*final(self)) == leaders_of(*old(self))
                &&& classes_of(*final(self)).dom() == classes_of(*old(self)).dom()
                &&& forall|id: nat| #[trigger]
                    classes_of(*final(self)).contains_key(id) ==> tidied(
                        leaders_of(*old(self)),
                        classes_of(*old(self))[id],
                        classes_of(*final(self))[id],
                    )
            },
    {
        self.egraph.rebuild();
    }

    /// `egg::EGraph::index_mut` and the field `nodes` of the class: the class has these operations,
    /// which are some of those that it had, and nothing else has changed.
    #[verifier::external_body]
    fn set_nodes(&mut self, id: usize, tiles: Vec<TileLang<usize>>)
        requires
            is_valid(*old(self)),
            classes_of(*old(self)).contains_key(id as nat),
            forall|j: int|
                0 <= j < tiles@.len() ==> classes_of(*old(self))[id as nat].contains(
                    (#[trigger] tiles@[j])@,
                ),
        ensures
            leaders_of(*final(self)) == leaders_of(*old(self)),
            memo_of(*final(self)) == memo_of(*old(self)),
            explains(*final(self)) == explains(*old(self)),
            classes_of(*final(self)) == classes_of(*old(self)).insert(
                id as nat,
                tile_views(tiles@),
            ),
    {
        let node = |n: TileLang<usize>| {
            let children: Vec<Id> = n.children.into_iter().map(Id::from).collect();
            TileLang::new(n.op, children, n.edge_data, n.rt)
        };
        self.egraph[Id::from(id)].nodes = tiles.into_iter().map(node).collect();
    }

    /// Takes the placeholders out of their classes; the other operations stay in order.
    pub(crate) fn drop_phantoms(&mut self)
        requires
            is_valid(*old(self)),
        ensures
            is_valid(*final(self)),
            leaders_of(*final(self)) == leaders_of(*old(self)),
            memo_of(*final(self)) == memo_of(*old(self)),
            explains(*final(self)) == explains(*old(self)),
            classes_of(*final(self)).dom() == classes_of(*old(self)).dom(),
            forall|id: nat| #[trigger]
                classes_of(*final(self)).contains_key(id) ==> classes_of(*final(self))[id] == reals(
                    classes_of(*old(self))[id],
                ),
    {
        let ghost before = *self;
        let classes = self.classes();
        let n = classes.len();
        let mut c: usize = 0;
        while c < n
            invariant
                n == classes@.len(),
                c <= n,
                is_valid(before),
                is_valid(*self),
                leaders_of(*self) == leaders_of(before),
                memo_of(*self) == memo_of(before),
                explains(*self) == explains(before),
                classes_of(*self).dom() == classes_of(before).dom(),
                forall|i: int, j: int|
                    0 <= i < j < n ==> (#[trigger] classes@[i]).id != (#[trigger] classes@[j]).id,
                forall|i: int|
                    0 <= i < n ==> classes_of(before).contains_key(
                        (#[trigger] classes@[i]).id as nat,
                    ) && tile_views(classes@[i].nodes@) == classes_of(before)[classes@[i].id as nat],
                forall|i: int|
                    0 <= i < c ==> classes_of(*self)[(#[trigger] classes@[i]).id as nat] == reals(
                        classes_of(before)[classes@[i].id as nat],
                    ),
                forall|i: int|
                    c <= i < n ==> classes_of(*self)[(#[trigger] classes@[i]).id as nat]
                        == classes_of(before)[classes@[i].id as nat],
            decreases n - c,
        {
            let ghost earlier = *self;
            let ghost id = classes@[c as int].id as nat;
            let kept = real_nodes(&classes[c].nodes);
            assert(classes_of(*self).dom().contains(id));
            proof {
                let tiles = classes_of(*self)[id];
                reals_are_the_real(tiles);
                assert forall|j: int| 0 <= j < kept@.len() implies tiles.contains(
                    (#[trigger] kept@[j])@,
                ) by {
                    assert(tile_views(kept@)[j] == kept@[j]@);
                    assert(is_real(reals(tiles)[j]));
                }
            }
            self.set_nodes(classes[c].id, kept);
            proof {
                assert(classes_of(*self).dom() =~= classes_of(before).dom());
                still_valid(earlier, *self, id);
                assert forall|i: int| 0 <= i < c implies classes_of(*self)[(
                #[trigger] classes@[i]).id as nat] == reals(
                    classes_of(before)[classes@[i].id as nat],
                ) by {
                    assert(classes@[i].id != classes@[c as int].id);
                }
            }
            c = c + 1;
        }
        proof {
            assert forall|id: nat| #[trigger] classes_of(*self).contains_key(id) implies classes_of(
                *self,
            )[id] == reals(classes_of(before)[id]) by {
                assert(classes_of(before).dom().contains(id));
                assert(classes_of(before).contains_key(id));
                let i = choose|i: int| 0 <= i < classes@.len() && (#[trigger] classes@[i]).id == id;
                assert(classes@[i].id == id);
            }
        }
    }

    /// `egg::EGraph::classes`: every class, in some order, with its operations in order.
    #[verifier::external_body]
    pub(crate) fn classes(&self) -> (r: Vec<TileClass>)
        requires
            is_valid(*self),
        ensures
            forall|b: int, c: int|
                0 <= b < c < r@.len() ==> (#[trigger] r@[b]).id != (#[trigger] r@[c]).id,
            forall|c: int|
                0 <= c < r@.len() ==> classes_of(*self).contains_key(
                    (#[trigger] r@[c]).id as nat,
                ) && tile_views(r@[c].nodes@) == classes_of(*self)[r@[c].id as nat],
            forall|id: nat| #[trigger]
                classes_of(*self).contains_key(id) ==> exists|c: int|
                    0 <= c < r@.len() && (#[trigger] r@[c]).id == id,
    {
        let plain = |n: &TileLang<Id>| TileLang {
            op: n.op.clone(),
            children: n.children.iter().map(|c| usize::from(*c)).collect(),
            edge_data: n.edge_data.clone(),
            rt: n.rt.clone(),
        };
        let class = |c: &egg::EClass<TileLang<Id>, ()>| TileClass {
            id: usize::from(c.id),
            nodes: c.nodes.iter().map(plain).collect(),
        };
        self.egraph.classes().map(class).collect()
    }

    /// `egg::EGraph::find`: the id of the class that holds an id.
    #[verifier::external_body]
    pub(crate) fn find(&self, id: usize) -> (r: usize)
        requires
            id < leaders_of(*self).len(),
        ensures
            r == leaders_of(*self)[id as int],
    {
        usize::from(self.egraph.find(Id::from(id)))
    }

    /// The length of `egg::EGraph::nodes`: how many ids were handed out.
    #[verifier::external_body]
    pub(crate) fn id_count(&self) -> (r: usize)
        ensures
            r == leaders_of(*self).len(),
    {
        self.egraph.nodes().len()
    }

    /// The classes of the e-graph as plain values.
    pub fn snapshot(&self) -> (r: ClassGraph)
        requires
            is_valid(*self),
        ensures
            r.wf(),
            mirrors(*self, r),
    {
        let n = self.id_count();
        let classes = self.classes();
        let mut leaders: Vec<usize> = Vec::new();
        let mut id: usize = 0;
        while id < n
            invariant
                id <= n,
                n == leaders_of(*self).len(),
                leaders@.len() == id,
                forall|i: int| 0 <= i < id ==> #[trigger] leaders@[i] == leaders_of(*self)[i],
            decreases n - id,
        {
            leaders.push(self.find(id));
            id = id + 1;
        }
        let r = ClassGraph { classes, leaders };
        proof {
            assert forall|i: int| 0 <= i < r.leaders@.len() implies r.is_class(
                #[trigger] r.leaders@[i],
            ) by {
                let leader = leaders_of(*self)[i];
                assert(classes_of(*self).contains_key(leader));
                let c = choose|c: int|
                    0 <= c < r.classes@.len() && (#[trigger] r.classes@[c]).id == leader;
                assert(r.classes@[c].id == leader);
            }
            assert forall|c: int, j: int, k: int|
                0 <= c < r.classes@.len() && 0 <= j < r.nodes(c).len() && 0 <= k < r.nodes(
                    c,
                )[j].children@.len() implies (#[trigger] r.nodes(c)[j].children@[k])
                < r.leaders@.len() by {
                let id = r.classes@[c].id as nat;
                let tile = classes_of(*self)[id][j];
                assert(tile == tile_views(r.nodes(c))[j]);
                assert(known(leaders_of(*self), tile.children));
                assert(tile.children[k] < leaders_of(*self).len());
            }
            assert forall|id: nat| #[trigger] classes_of(*self).contains_key(id) implies exists|
                c: int,
            |
                0 <= c < r.classes@.len() && (#[trigger] r.classes@[c]).id == id by {
                let c = choose|c: int| 0 <= c < classes@.len() && (#[trigger] classes@[c]).id == id;
                assert(r.classes@[c].id == id);
            }
        }
        r
    }
}

/// `r` holds the classes of `g` and the class of every id.
pub open spec fn mirrors(g: TileGraph, r: ClassGraph) -> bool {
    &&& forall|c: int|
        0 <= c < r.classes@.len() ==> classes_of(g).contains_key(
            (#[trigger] r.classes@[c]).id as nat,
        ) && tile_views(r.nodes(c)) == classes_of(g)[r.classes@[c].id as nat]
    &&& forall|id: nat| #[trigger]
        classes_of(g).contains_key(id) ==> exists|c: int|
            0 <= c < r.classes@.len() && (#[trigger] r.classes@[c]).id == id
    &&& r.leaders@.len() == leaders_of(g).len()
    &&& forall|i: int|
        0 <= i < r.leaders@.len() ==> #[trigger] r.leaders@[i] == leaders_of(g)[i]
}

/// The plain values have every class of the e-graph, once, with every operation, and for every id its
/// class.
pub proof fn snapshots_have_everything(g: TileGraph, r: ClassGraph, id: nat)
    requires
        mirrors(g, r),
        classes_of(g).contains_key(id),
    ensures
        exists|c: int|
            0 <= c < r.classes@.len() && (#[trigger] r.classes@[c]).id == id
                && r.classes@[c].nodes@.len() == classes_of(g)[id].len(),
        forall|c: int, j: int|
            0 <= c < r.classes@.len() && r.classes@[c].id == id && 0 <= j
                < r.classes@[c].nodes@.len() ==> {
                let node = #[trigger] r.classes@[c].nodes@[j];
                let tile = classes_of(g)[id][j];
                &&& j < classes_of(g)[id].len()
                &&& node.op@ == tile.op
                &&& node.edge_data@ == tile.edge_data
                &&& node.children@.len() == tile.children.len()
                &&& forall|k: int|
                    0 <= k < tile.children.len() ==> #[trigger] node.children@[k]
                        == tile.children[k]
                &&& node.rt@.len() == tile.rt.len()
                &&& forall|k: int|
                    0 <= k < tile.rt.len() ==> (#[trigger] node.rt@[k])@ == tile.rt[k]
            },
        r.leaders@.len() == leaders_of(g).len(),
        forall|i: int|
            0 <= i < r.leaders@.len() ==> #[trigger] r.leaders@[i] == leaders_of(g)[i],
{
    let c = choose|c: int| 0 <= c < r.classes@.len() && (#[trigger] r.classes@[c]).id == id;
    assert(tile_views(r.nodes(c)) == classes_of(g)[id]);
    assert(r.classes@[c].nodes@.len() == classes_of(g)[id].len());
    assert forall|c: int, j: int|
        0 <= c < r.classes@.len() && r.classes@[c].id == id && 0 <= j
            < r.classes@[c].nodes@.len() implies {
        let node = #[trigger] r.classes@[c].nodes@[j];
        let tile = classes_of(g)[id][j];
        &&& j < classes_of(g)[id].len()
        &&& node.op@ == tile.op
        &&& node.edge_data@ == tile.edge_data
        &&& node.children@.len() == tile.children.len()
        &&& forall|k: int|
            0 <= k < tile.children.len() ==> #[trigger] node.children@[k] == tile.children[k]
        &&& node.rt@.len() == tile.rt.len()
        &&& forall|k: int| 0 <= k < tile.rt.len() ==> (#[trigger] node.rt@[k])@ == tile.rt[k]
    } by {
        let node = r.classes@[c].nodes@[j];
        let tile = classes_of(g)[id][j];
        assert(tile_views(r.nodes(c)) == classes_of(g)[r.classes@[c].id as nat]);
        assert(tile_views(r.nodes(c))[j] == node@);
        assert forall|k: int| 0 <= k < tile.children.len() implies #[trigger] node.children@[k]
            == tile.children[k] by {
            assert(node@.children[k] == node.children@[k]);
        }
        assert forall|k: int| 0 <= k < tile.rt.len() implies (#[trigger] node.rt@[k])@
            == tile.rt[k] by {
            assert(node@.rt[k] == node.rt@[k]@);
        }
    }
}

} // verus!
