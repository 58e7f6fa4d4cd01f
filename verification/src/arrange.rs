//! The classes that a dependence graph unfolds into.

use vstd::prelude::*;

use crate::dep::{distinct, DepGraph};
use crate::egraph::{
    canonical, is_real, joined, key, known, led, merged, reals, reals_are_the_real,
    reals_stay_distinct, settled, tidied, valid, TileView,
};
use crate::text::{is_phantom, phantom, phantom_round_trip, unphantom};

verus! {

/// The operations of each class.
pub type Classes = Map<nat, Seq<TileView>>;

/// The ids that operators with operands got.
pub type Memo = Map<(Seq<char>, Seq<nat>), nat>;

/// The operation at position `j` has the name of the placeholder of another operation and no
/// operands, so that it is that placeholder.
pub open spec fn absorbed(dep: DepGraph, j: int) -> bool {
    &&& is_phantom(dep.name(j))
    &&& dep.in_edges(dep.name(j)).len() == 0
    &&& dep.has(unphantom(dep.name(j)))
}

/// One of the first `m` operations has the name and is the placeholder of another.
pub open spec fn stands_in(dep: DepGraph, name: Seq<char>, m: int) -> bool {
    exists|j: int| 0 <= j < m && #[trigger] dep.name(j) == name && absorbed(dep, j)
}

/// What the operation that has the name is a placeholder of in the end, where the first `m`
/// operations can be placeholders.
pub open spec fn stem(dep: DepGraph, name: Seq<char>, m: int) -> Seq<char>
    decreases name.len(),
{
    if stands_in(dep, name, m) && unphantom(name).len() < name.len() {
        stem(dep, unphantom(name), m)
    } else {
        name
    }
}

/// The operation at position `j` over the ids that the operations have got.
pub open spec fn unfolded(dep: DepGraph, ids: Seq<nat>, j: int) -> TileView {
    let edges = dep.in_edges(dep.name(j));
    TileView {
        op: dep.name(j),
        children: Seq::new(edges.len(), |k: int| ids[dep.place(edges[k].id@)]),
        edge_data: Seq::new(edges.len(), |k: int| (edges[k].d, edges[k].delta)),
        rt: dep.table(dep.name(j)),
    }
}

/// `tile` is an operation of the class `id` that does not have the name of a placeholder.
pub open spec fn unfolds_to(dep: DepGraph, ids: Seq<nat>, id: nat, tile: TileView) -> bool {
    exists|j: int|
        0 <= j < dep.nodes@.len() && !is_phantom(dep.name(j)) && #[trigger] ids[j] == id && tile
            == unfolded(dep, ids, j)
}

/// No two operations have the same operator and operands.
pub open spec fn distinct_keys(tiles: Seq<TileView>) -> bool {
    forall|i: int, j: int|
        0 <= i < j < tiles.len() ==> key(#[trigger] tiles[i]) != key(#[trigger] tiles[j])
}

/// The classes are those of the operations, where the one at position `i` is in the class
/// `ids[i]`. Operations share a class when they are placeholders of the same one, and a class
/// holds those of its operations that do not have the name of a placeholder, over the ids.
pub open spec fn arranged(dep: DepGraph, classes: Classes, ids: Seq<nat>) -> bool {
    let n = dep.nodes@.len();
    &&& ids.len() == n
    &&& forall|i: int| 0 <= i < n ==> classes.contains_key(#[trigger] ids[i])
    &&& forall|id: nat| #[trigger]
        classes.contains_key(id) ==> exists|i: int| 0 <= i < n && #[trigger] ids[i] == id
    &&& forall|i: int, j: int|
        0 <= i < n && 0 <= j < n ==> (#[trigger] ids[i] == #[trigger] ids[j] <==> stem(
            dep,
            dep.name(i),
            n as int,
        ) == stem(dep, dep.name(j), n as int))
    &&& forall|j: int|
        0 <= j < n && !is_phantom(dep.name(j)) ==> classes[#[trigger] ids[j]].contains(
            unfolded(dep, ids, j),
        )
    &&& forall|id: nat, x: int|
        classes.contains_key(id) && 0 <= x < classes[id].len() ==> unfolds_to(
            dep,
            ids,
            id,
            #[trigger] classes[id][x],
        )
    &&& forall|id: nat| #[trigger] classes.contains_key(id) ==> distinct_keys(classes[id])
}

/// The ids `0, 1, ..`, one for each operation.
pub open spec fn own_ids(n: nat) -> Seq<nat> {
    Seq::new(n, |i: int| i as nat)
}

/// The placeholder of the operation at position `i`.
pub open spec fn placeholder(dep: DepGraph, i: int) -> TileView {
    TileView { op: phantom(dep.name(i)), children: seq![], edge_data: seq![], rt: seq![] }
}

/// `tile` is the operation at position `j`, over operands of the same classes as those of the
/// placeholders.
pub open spec fn resembles(dep: DepGraph, leaders: Seq<nat>, tile: TileView, j: int) -> bool {
    canonical(leaders, tile) == canonical(leaders, unfolded(dep, own_ids(dep.nodes@.len()), j))
}

/// The operations of a class are placeholders and some of the first `m` operations, which share
/// the class.
pub open spec fn comes_from(
    dep: DepGraph,
    m: int,
    leaders: Seq<nat>,
    id: nat,
    tile: TileView,
) -> bool {
    ||| exists|i: int|
        0 <= i < dep.nodes@.len() && #[trigger] leaders[i] == id && tile == placeholder(dep, i)
    ||| exists|j: int| 0 <= j < m && #[trigger] leaders[j] == id && resembles(dep, leaders, tile, j)
}

/// An operation of the class is the one at position `j`.
pub open spec fn holds_tile(
    dep: DepGraph,
    leaders: Seq<nat>,
    tiles: Seq<TileView>,
    j: int,
) -> bool {
    exists|x: int| 0 <= x < tiles.len() && resembles(dep, leaders, #[trigger] tiles[x], j)
}

/// An operator with operands that was added: that of a placeholder or of one of the first `m`
/// operations.
pub open spec fn is_entry(dep: DepGraph, m: int, memo: Memo, k: (Seq<char>, Seq<nat>)) -> bool {
    ||| exists|i: int|
        0 <= i < dep.nodes@.len() && k.0 == phantom(#[trigger] dep.name(i)) && k.1.len() == 0
    ||| exists|j: int| 0 <= j < m && k.0 == #[trigger] dep.name(j)
}

/// One of the first `n` ids is in the class `id`.
pub open spec fn leads_own(leaders: Seq<nat>, n: nat, id: nat) -> bool {
    exists|i: int| 0 <= i < n && #[trigger] leaders[i] == id
}

/// What the e-graph holds when every operation has got its placeholder and the first `m`
/// operations have joined theirs.
pub open spec fn built(dep: DepGraph, m: int, classes: Classes, leaders: Seq<nat>, memo: Memo) -> bool {
    let n = dep.nodes@.len();
    &&& valid(classes, leaders, memo)
    &&& n <= leaders.len() <= n + m
    &&& forall|i: int, j: int|
        0 <= i < n && 0 <= j < n ==> (#[trigger] leaders[i] == #[trigger] leaders[j] <==> stem(
            dep,
            dep.name(i),
            m,
        ) == stem(dep, dep.name(j), m))
    &&& forall|q: int| 0 <= q < leaders.len() ==> leads_own(leaders, n, #[trigger] leaders[q])
    &&& forall|id: nat, x: int|
        classes.contains_key(id) && 0 <= x < classes[id].len() ==> comes_from(
            dep,
            m,
            leaders,
            id,
            #[trigger] classes[id][x],
        )
    &&& forall|j: int|
        0 <= j < m && !absorbed(dep, j) ==> holds_tile(
            dep,
            leaders,
            classes[#[trigger] leaders[j]],
            j,
        )
    &&& forall|k: (Seq<char>, Seq<nat>)| #[trigger]
        memo.contains_key(k) ==> is_entry(dep, m, memo, k)
    &&& forall|k: (Seq<char>, Seq<nat>), l: (Seq<char>, Seq<nat>)|
        memo.contains_key(k) && memo.contains_key(l) && k.0 == l.0 && k.1.len() == l.1.len() ==> k
            == l
    &&& forall|i: int|
        0 <= i < n ==> {
            let k = (phantom(#[trigger] dep.name(i)), Seq::<nat>::empty());
            memo.contains_key(k) && memo[k] == i
        }
}

/// A stem is no longer than the name.
proof fn stem_shrinks(dep: DepGraph, name: Seq<char>, m: int)
    ensures
        stem(dep, name, m).len() <= name.len(),
    decreases name.len(),
{
    if stands_in(dep, name, m) && unphantom(name).len() < name.len() {
        stem_shrinks(dep, unphantom(name), m);
    }
}

/// Stems when one more operation can be a placeholder.
proof fn stem_grows(dep: DepGraph, name: Seq<char>, m: int)
    requires
        distinct(dep.nodes@),
        0 <= m < dep.nodes@.len(),
    ensures
        stem(dep, name, m + 1) == if absorbed(dep, m) && stem(dep, name, m) == dep.name(m) {
            stem(dep, unphantom(dep.name(m)), m)
        } else {
            stem(dep, name, m)
        },
    decreases name.len(),
{
    if stands_in(dep, name, m) {
        let j = choose|j: int| 0 <= j < m && #[trigger] dep.name(j) == name && absorbed(dep, j);
        assert(0 <= j < m + 1 && dep.name(j) == name && absorbed(dep, j));
        assert(stands_in(dep, name, m + 1));
        assert(unphantom(name).len() < name.len());
        stem_grows(dep, unphantom(name), m);
    } else if stands_in(dep, name, m + 1) {
        let j = choose|j: int| 0 <= j < m + 1 && #[trigger] dep.name(j) == name && absorbed(dep, j);
        assert(j == m);
        assert(unphantom(name).len() < name.len());
        stem_grows(dep, unphantom(name), m);
        stem_shrinks(dep, unphantom(name), m);
    } else {
        if absorbed(dep, m) && name == dep.name(m) {
            assert(0 <= m < m + 1 && dep.name(m) == name && absorbed(dep, m));
            assert(false);
        }
    }
}

/// An operation that has not joined its placeholder stands in for no other.
proof fn own_stem(dep: DepGraph, m: int)
    requires
        distinct(dep.nodes@),
        0 <= m < dep.nodes@.len(),
    ensures
        stem(dep, dep.name(m), m) == dep.name(m),
{
    if stands_in(dep, dep.name(m), m) {
        let j = choose|j: int|
            0 <= j < m && #[trigger] dep.name(j) == dep.name(m) && absorbed(dep, j);
        assert(dep.nodes@[j]@ != dep.nodes@[m]@);
    }
}

/// Merging two classes keeps operations alike.
proof fn resembles_after_merge(
    dep: DepGraph,
    leaders: Seq<nat>,
    root: nat,
    other: nat,
    tile: TileView,
    j: int,
)
    requires
        dep.wf(),
        dep.nodes@.len() <= leaders.len(),
        0 <= j < dep.nodes@.len(),
        known(leaders, tile.children),
        resembles(dep, leaders, tile, j),
    ensures
        resembles(dep, merged(leaders, root, other), tile, j),
{
    let own = unfolded(dep, own_ids(dep.nodes@.len()), j);
    let after = merged(leaders, root, other);
    assert(led(leaders, tile.children) == led(leaders, own.children));
    assert(tile.children.len() == led(leaders, tile.children).len());
    assert(own.children.len() == led(leaders, own.children).len());
    own_children_known(dep, leaders, j);
    assert forall|k: int| 0 <= k < tile.children.len() implies led(after, tile.children)[k]
        == #[trigger] led(after, own.children)[k] by {
        assert(led(leaders, tile.children)[k] == led(leaders, own.children)[k]);
        assert(tile.children[k] < leaders.len());
        assert(own.children[k] < leaders.len());
    }
    assert(led(after, tile.children) =~= led(after, own.children));
    assert(canonical(leaders, tile) == canonical(leaders, own));
    assert(canonical(after, tile) =~= canonical(after, own));
}

/// The placeholders of operands have ids.
pub proof fn own_children_known(dep: DepGraph, leaders: Seq<nat>, j: int)
    requires
        dep.wf(),
        dep.nodes@.len() <= leaders.len(),
        0 <= j < dep.nodes@.len(),
    ensures
        known(leaders, unfolded(dep, own_ids(dep.nodes@.len()), j).children),
        forall|k: int|
            0 <= k < dep.in_edges(dep.name(j)).len() ==> 0 <= #[trigger] unfolded(
                dep,
                own_ids(dep.nodes@.len()),
                j,
            ).children[k] < dep.nodes@.len(),
{
    let edges = dep.in_edges(dep.name(j));
    assert forall|k: int| 0 <= k < edges.len() implies 0 <= #[trigger] unfolded(
        dep,
        own_ids(dep.nodes@.len()),
        j,
    ).children[k] < dep.nodes@.len() by {
        assert(dep.has(edges[k].id@));
        assert(0 <= dep.place(edges[k].id@) < dep.nodes@.len());
    }
}

/// One more id keeps operations alike.
proof fn resembles_after_push(dep: DepGraph, leaders: Seq<nat>, id: nat, tile: TileView, j: int)
    requires
        dep.wf(),
        dep.nodes@.len() <= leaders.len(),
        0 <= j < dep.nodes@.len(),
        known(leaders, tile.children),
        resembles(dep, leaders, tile, j),
    ensures
        resembles(dep, leaders.push(id), tile, j),
{
    let own = unfolded(dep, own_ids(dep.nodes@.len()), j);
    let after = leaders.push(id);
    own_children_known(dep, leaders, j);
    assert(led(after, tile.children) =~= led(leaders, tile.children));
    assert(led(after, own.children) =~= led(leaders, own.children));
    assert(canonical(leaders, tile) == canonical(leaders, own));
    assert(canonical(after, tile) =~= canonical(after, own));
}

/// What the e-graph holds when the first `m` operations have got their placeholders.
pub open spec fn seeded(dep: DepGraph, m: int, classes: Classes, leaders: Seq<nat>, memo: Memo) -> bool {
    &&& leaders == own_ids(m as nat)
    &&& forall|id: nat| #[trigger] classes.contains_key(id) <==> id < m
    &&& forall|id: nat| id < m ==> #[trigger] classes[id] == seq![placeholder(dep, id as int)]
    &&& forall|k: (Seq<char>, Seq<nat>)| #[trigger]
        memo.contains_key(k) ==> memo[k] < m && k.0 == phantom(dep.name(memo[k] as int))
            && k.1.len() == 0
    &&& forall|i: int|
        0 <= i < m ==> {
            let k = (phantom(#[trigger] dep.name(i)), Seq::<nat>::empty());
            memo.contains_key(k) && memo[k] == i
        }
}

/// Placeholders of distinct names have distinct names.
pub proof fn phantoms_differ(a: Seq<char>, b: Seq<char>)
    requires
        phantom(a) == phantom(b),
    ensures
        a == b,
{
    phantom_round_trip(a);
    phantom_round_trip(b);
}

/// The next operation gets its placeholder.
pub proof fn seed_step(dep: DepGraph, m: int, classes: Classes, leaders: Seq<nat>, memo: Memo)
    requires
        distinct(dep.nodes@),
        0 <= m < dep.nodes@.len(),
        seeded(dep, m, classes, leaders, memo),
    ensures
        canonical(leaders, placeholder(dep, m)) == placeholder(dep, m),
        !memo.contains_key(key(placeholder(dep, m))),
        seeded(
            dep,
            m + 1,
            classes.insert(m as nat, seq![placeholder(dep, m)]),
            leaders.push(m as nat),
            memo.insert(key(placeholder(dep, m)), m as nat),
        ),
{
    let node = placeholder(dep, m);
    assert(canonical(leaders, node) =~= node);
    if memo.contains_key(key(node)) {
        let i = memo[key(node)] as int;
        phantoms_differ(dep.name(i), dep.name(m));
        assert(dep.nodes@[i]@ != dep.nodes@[m]@);
    }
    assert(leaders.push(m as nat) =~= own_ids((m + 1) as nat));
    assert forall|i: int| 0 <= i < m + 1 implies ({
        let k = (phantom(#[trigger] dep.name(i)), Seq::<nat>::empty());
        let after = memo.insert(key(node), m as nat);
        after.contains_key(k) && after[k] == i
    }) by {
        if i < m {
            let k = (phantom(dep.name(i)), Seq::<nat>::empty());
            assert(memo.contains_key(k));
            assert(k != key(node));
        }
    }
}

/// When all operations have got their placeholders, none has joined its own.
pub proof fn seeded_is_built(dep: DepGraph, classes: Classes, leaders: Seq<nat>, memo: Memo)
    requires
        dep.wf(),
        seeded(dep, dep.nodes@.len() as int, classes, leaders, memo),
    ensures
        built(dep, 0, classes, leaders, memo),
{
    let n = dep.nodes@.len();
    assert(valid(classes, leaders, memo)) by {
        assert forall|id: nat, j: int|
            classes.contains_key(id) && 0 <= j < classes[id].len() implies known(
            leaders,
            (#[trigger] classes[id][j]).children,
        ) by {
            assert(classes[id] == seq![placeholder(dep, id as int)]);
        }
    }
    assert forall|i: int, j: int| 0 <= i < n && 0 <= j < n implies (#[trigger] leaders[i]
        == #[trigger] leaders[j] <==> stem(dep, dep.name(i), 0) == stem(dep, dep.name(j), 0)) by {
        assert(!stands_in(dep, dep.name(i), 0));
        assert(!stands_in(dep, dep.name(j), 0));
        if i < j {
            assert(dep.nodes@[i]@ != dep.nodes@[j]@);
        }
        if j < i {
            assert(dep.nodes@[j]@ != dep.nodes@[i]@);
        }
    }
    assert(leaders.len() == n);
    assert forall|id: nat, x: int|
        classes.contains_key(id) && 0 <= x < classes[id].len() implies comes_from(
        dep,
        0,
        leaders,
        id,
        #[trigger] classes[id][x],
    ) by {
        assert(classes[id] == seq![placeholder(dep, id as int)]);
        assert(leaders[id as int] == id);
    }
    assert forall|k: (Seq<char>, Seq<nat>)| #[trigger] memo.contains_key(k) implies is_entry(
        dep,
        0,
        memo,
        k,
    ) by {
        assert(k.0 == phantom(dep.name(memo[k] as int)));
    }
    assert forall|k: (Seq<char>, Seq<nat>), l: (Seq<char>, Seq<nat>)|
        memo.contains_key(k) && memo.contains_key(l) && k.0 == l.0 && k.1.len() == l.1.len() implies k
        == l by {
        assert(k.1 =~= l.1);
    }
}

/// The id of a class after `other` has gone over to `root`.
pub open spec fn moved(id: nat, root: nat, other: nat) -> nat {
    if id == other {
        root
    } else {
        id
    }
}

/// What a class holds comes from where it came from when two classes are merged.
proof fn comes_from_after_merge(
    dep: DepGraph,
    m: int,
    leaders: Seq<nat>,
    root: nat,
    other: nat,
    id: nat,
    tile: TileView,
)
    requires
        dep.wf(),
        0 <= m <= dep.nodes@.len() <= leaders.len(),
        known(leaders, tile.children),
        comes_from(dep, m, leaders, id, tile),
    ensures
        comes_from(dep, m, merged(leaders, root, other), moved(id, root, other), tile),
{
    let after = merged(leaders, root, other);
    if exists|i: int|
        0 <= i < dep.nodes@.len() && #[trigger] leaders[i] == id && tile == placeholder(dep, i) {
        let i = choose|i: int|
            0 <= i < dep.nodes@.len() && #[trigger] leaders[i] == id && tile == placeholder(dep, i);
        assert(after[i] == moved(id, root, other));
    } else {
        let j = choose|j: int|
            0 <= j < m && #[trigger] leaders[j] == id && resembles(dep, leaders, tile, j);
        assert(after[j] == moved(id, root, other));
        resembles_after_merge(dep, leaders, root, other, tile, j);
    }
}

/// `tile` was in a class that is now `id`.
spec fn came_along(before: Classes, root: nat, other: nat, id: nat, tile: TileView) -> bool {
    exists|was: nat, y: int|
        moved(was, root, other) == id && before.contains_key(was) && 0 <= y < before[was].len()
            && #[trigger] before[was][y] == tile
}

/// The merged class holds what the two classes held, and nothing else has changed.
proof fn joined_holds(before: Classes, after: Classes, root: nat, other: nat)
    requires
        before.contains_key(root),
        before.contains_key(other),
        root != other,
        joined(before, after, root, other),
    ensures
        forall|id: nat| #[trigger]
            after.contains_key(id) <==> before.contains_key(id) && id != other,
        forall|id: nat, x: int|
            after.contains_key(id) && 0 <= x < after[id].len() ==> came_along(
                before,
                root,
                other,
                id,
                #[trigger] after[id][x],
            ),
        forall|was: nat, y: int|
            before.contains_key(was) && 0 <= y < before[was].len() ==> after[moved(
                was,
                root,
                other,
            )].contains(#[trigger] before[was][y]),
{
    let a = before[root];
    let b = before[other];
    assert forall|id: nat, x: int| after.contains_key(id) && 0 <= x < after[id].len() implies
        came_along(before, root, other, id, #[trigger] after[id][x]) by {
        if id != root {
            assert(before[id][x] == after[id][x]);
        } else if after[root] == a + b {
            if x < a.len() {
                assert(before[root][x] == after[id][x]);
            } else {
                assert(before[other][x - a.len()] == after[id][x]);
            }
        } else {
            if x < b.len() {
                assert(before[other][x] == after[id][x]);
            } else {
                assert(before[root][x - b.len()] == after[id][x]);
            }
        }
    }
    assert forall|was: nat, y: int|
        before.contains_key(was) && 0 <= y < before[was].len() implies after[moved(
        was,
        root,
        other,
    )].contains(#[trigger] before[was][y]) by {
        let id = moved(was, root, other);
        if id != root {
            assert(after[id][y] == before[was][y]);
        } else if after[root] == a + b {
            let x = if was == root {
                y
            } else {
                a.len() + y
            };
            assert(after[id][x] == before[was][y]);
        } else {
            let x = if was == root {
                b.len() + y
            } else {
                y
            };
            assert(after[id][x] == before[was][y]);
        }
    }
}

/// An operation stays in its class when two classes are merged.
proof fn holds_tile_after_merge(
    dep: DepGraph,
    classes: Classes,
    leaders: Seq<nat>,
    root: nat,
    other: nat,
    after: Classes,
    id: nat,
    j: int,
)
    requires
        dep.wf(),
        dep.nodes@.len() <= leaders.len(),
        0 <= j < dep.nodes@.len(),
        classes.contains_key(root),
        classes.contains_key(other),
        root != other,
        joined(classes, after, root, other),
        classes.contains_key(id),
        forall|x: int|
            0 <= x < classes[id].len() ==> known(leaders, (#[trigger] classes[id][x]).children),
        holds_tile(dep, leaders, classes[id], j),
    ensures
        holds_tile(dep, merged(leaders, root, other), after[moved(id, root, other)], j),
{
    let y = choose|y: int|
        0 <= y < classes[id].len() && resembles(dep, leaders, #[trigger] classes[id][y], j);
    joined_holds(classes, after, root, other);
    resembles_after_merge(dep, leaders, root, other, classes[id][y], j);
    let tiles = after[moved(id, root, other)];
    assert(tiles.contains(classes[id][y]));
    let x = choose|x: int| 0 <= x < tiles.len() && tiles[x] == classes[id][y];
    assert(resembles(dep, merged(leaders, root, other), tiles[x], j));
}

/// An operation that is the placeholder of another joins its own placeholder.
pub proof fn absorbed_step(
    dep: DepGraph,
    m: int,
    classes: Classes,
    leaders: Seq<nat>,
    memo: Memo,
    root: nat,
    other: nat,
    after: Classes,
)
    requires
        dep.wf(),
        0 <= m < dep.nodes@.len(),
        built(dep, m, classes, leaders, memo),
        absorbed(dep, m),
        ({
            let p = leaders[m];
            let q = leaders[dep.place(unphantom(dep.name(m)))];
            (root == p && other == q) || (root == q && other == p)
        }),
        root != other,
        joined(classes, after, root, other),
        valid(after, merged(leaders, root, other), memo),
    ensures
        built(dep, m + 1, after, merged(leaders, root, other), memo),
{
    let n = dep.nodes@.len();
    let led_by = merged(leaders, root, other);
    let target = unphantom(dep.name(m));
    let t = dep.place(target);
    assert(0 <= t < n && dep.name(t) == target);
    own_stem(dep, m);
    assert forall|i: int, j: int| 0 <= i < n && 0 <= j < n implies (#[trigger] led_by[i]
        == #[trigger] led_by[j] <==> stem(dep, dep.name(i), m + 1) == stem(
        dep,
        dep.name(j),
        m + 1,
    )) by {
        stem_grows(dep, dep.name(i), m);
        stem_grows(dep, dep.name(j), m);
        let _ = (leaders[i], leaders[j], leaders[m], leaders[t]);
    }
    assert forall|q: int| 0 <= q < led_by.len() implies leads_own(
        led_by,
        n,
        #[trigger] led_by[q],
    ) by {
        let i = choose|i: int| 0 <= i < n && #[trigger] leaders[i] == leaders[q];
        assert(led_by[i] == led_by[q]);
    }
    joined_holds(classes, after, root, other);
    assert forall|id: nat, x: int|
        after.contains_key(id) && 0 <= x < after[id].len() implies comes_from(
        dep,
        m + 1,
        led_by,
        id,
        #[trigger] after[id][x],
    ) by {
        let (was, y) = choose|was: nat, y: int|
            moved(was, root, other) == id && classes.contains_key(was) && 0 <= y
                < classes[was].len() && after[id][x] == #[trigger] classes[was][y];
        comes_from_after_merge(dep, m, leaders, root, other, was, classes[was][y]);
        widen(dep, m, led_by, id, after[id][x]);
    }
    assert forall|j: int| 0 <= j < m + 1 && !absorbed(dep, j) implies holds_tile(
        dep,
        led_by,
        after[#[trigger] led_by[j]],
        j,
    ) by {
        let id = leaders[j];
        holds_tile_after_merge(dep, classes, leaders, root, other, after, id, j);
    }
    assert forall|k: (Seq<char>, Seq<nat>)| #[trigger] memo.contains_key(k) implies is_entry(
        dep,
        m + 1,
        memo,
        k,
    ) by {
        assert(is_entry(dep, m, memo, k));
        if exists|j: int| 0 <= j < m && k.0 == #[trigger] dep.name(j) {
            let j = choose|j: int| 0 <= j < m && k.0 == #[trigger] dep.name(j);
            assert(0 <= j < m + 1 && k.0 == dep.name(j));
        }
    }
}

proof fn widen(dep: DepGraph, m: int, leaders: Seq<nat>, id: nat, tile: TileView)
    requires
        comes_from(dep, m, leaders, id, tile),
    ensures
        comes_from(dep, m + 1, leaders, id, tile),
{
    if exists|j: int|
        0 <= j < m && #[trigger] leaders[j] == id && resembles(dep, leaders, tile, j) {
        let j = choose|j: int|
            0 <= j < m && #[trigger] leaders[j] == id && resembles(dep, leaders, tile, j);
        assert(0 <= j < m + 1 && leaders[j] == id && resembles(dep, leaders, tile, j));
    }
}

/// What a class holds comes from where it came from when there is one more id.
proof fn comes_from_after_push(
    dep: DepGraph,
    m: int,
    leaders: Seq<nat>,
    next: nat,
    id: nat,
    tile: TileView,
)
    requires
        dep.wf(),
        0 <= m <= dep.nodes@.len() <= leaders.len(),
        known(leaders, tile.children),
        comes_from(dep, m, leaders, id, tile),
    ensures
        comes_from(dep, m, leaders.push(next), id, tile),
{
    let after = leaders.push(next);
    if exists|i: int|
        0 <= i < dep.nodes@.len() && #[trigger] leaders[i] == id && tile == placeholder(dep, i) {
        let i = choose|i: int|
            0 <= i < dep.nodes@.len() && #[trigger] leaders[i] == id && tile == placeholder(dep, i);
        assert(after[i] == id);
    } else {
        let j = choose|j: int|
            0 <= j < m && #[trigger] leaders[j] == id && resembles(dep, leaders, tile, j);
        assert(after[j] == id);
        resembles_after_push(dep, leaders, next, tile, j);
    }
}

/// The next operation is there already exactly when it is the placeholder of another, whose class
/// is not that of its own placeholder.
pub proof fn entry_of_next(dep: DepGraph, m: int, classes: Classes, leaders: Seq<nat>, memo: Memo)
    requires
        dep.wf(),
        0 <= m < dep.nodes@.len(),
        built(dep, m, classes, leaders, memo),
    ensures
        ({
            let k = key(canonical(leaders, unfolded(dep, own_ids(dep.nodes@.len()), m)));
            let t = dep.place(unphantom(dep.name(m)));
            &&& memo.contains_key(k) <==> absorbed(dep, m)
            &&& absorbed(dep, m) ==> 0 <= t < dep.nodes@.len() && memo[k] == t && leaders[m]
                != leaders[t]
        }),
{
    let n = dep.nodes@.len();
    let own = unfolded(dep, own_ids(n), m);
    let k = key(canonical(leaders, own));
    let name = dep.name(m);
    if absorbed(dep, m) {
        let t = dep.place(unphantom(name));
        assert(0 <= t < n && dep.name(t) == unphantom(name));
        phantom_round_trip(name);
        assert(k.1 =~= Seq::<nat>::empty());
        assert(k == (phantom(dep.name(t)), Seq::<nat>::empty()));
        own_stem(dep, m);
        stem_shrinks(dep, dep.name(t), m);
        assert(stem(dep, name, m) != stem(dep, dep.name(t), m));
        let _ = (leaders[m], leaders[t]);
    } else if memo.contains_key(k) {
        assert(is_entry(dep, m, memo, k));
        foreign_entry(dep, m, memo, k);
    }
}

/// An operation that is no placeholder of another shares its name and number of operands with no
/// placeholder and no earlier operation.
proof fn foreign_entry(dep: DepGraph, m: int, memo: Memo, k: (Seq<char>, Seq<nat>))
    requires
        dep.wf(),
        0 <= m < dep.nodes@.len(),
        !absorbed(dep, m),
        is_entry(dep, m, memo, k),
        k.1.len() == dep.in_edges(dep.name(m)).len(),
    ensures
        k.0 != dep.name(m),
{
    let n = dep.nodes@.len();
    if k.0 == dep.name(m) {
        if exists|i: int| 0 <= i < n && k.0 == phantom(#[trigger] dep.name(i)) && k.1.len() == 0 {
            let i = choose|i: int|
                0 <= i < n && k.0 == phantom(#[trigger] dep.name(i)) && k.1.len() == 0;
            phantom_round_trip(dep.name(i));
            assert(dep.has(unphantom(dep.name(m))));
        } else {
            let j = choose|j: int| 0 <= j < m && k.0 == #[trigger] dep.name(j);
            assert(dep.nodes@[j]@ != dep.nodes@[m]@);
        }
    }
}

/// An operation gets a class of its own, which its placeholder joins.
pub proof fn fresh_step(
    dep: DepGraph,
    m: int,
    classes: Classes,
    leaders: Seq<nat>,
    memo: Memo,
    root: nat,
    other: nat,
    after: Classes,
)
    requires
        dep.wf(),
        0 <= m < dep.nodes@.len(),
        built(dep, m, classes, leaders, memo),
        !absorbed(dep, m),
        ({
            let p = leaders[m];
            let q = leaders.len();
            (root == p && other == q) || (root == q && other == p)
        }),
        ({
            let node = canonical(leaders, unfolded(dep, own_ids(dep.nodes@.len()), m));
            let id = leaders.len();
            let led_by = merged(leaders.push(id), root, other);
            &&& valid(
                classes.insert(id, seq![node]),
                leaders.push(id),
                memo.insert(key(node), id),
            )
            &&& joined(classes.insert(id, seq![node]), after, root, other)
            &&& valid(after, led_by, memo.insert(key(node), id))
        }),
    ensures
        ({
            let node = canonical(leaders, unfolded(dep, own_ids(dep.nodes@.len()), m));
            let id = leaders.len();
            built(
                dep,
                m + 1,
                after,
                merged(leaders.push(id), root, other),
                memo.insert(key(node), id),
            )
        }),
{
    let n = dep.nodes@.len();
    let own = unfolded(dep, own_ids(n), m);
    let node = canonical(leaders, own);
    let id = leaders.len();
    let pushed = leaders.push(id);
    let led_by = merged(pushed, root, other);
    let grown = classes.insert(id, seq![node]);
    let entries = memo.insert(key(node), id);
    entry_of_next(dep, m, classes, leaders, memo);
    own_children_known(dep, leaders, m);
    assert(classes.contains_key(leaders[m]));
    assert(leaders[m] < id);
    assert(pushed[m] == leaders[m]);
    assert(led_by[m] == root);
    assert(grown.contains_key(root) && grown.contains_key(other));
    assert(resembles(dep, pushed, node, m)) by {
        assert forall|k: int| 0 <= k < own.children.len() implies led(pushed, node.children)[k]
            == #[trigger] led(pushed, own.children)[k] by {
            let child = own.children[k] as int;
            assert(own.children[k] < n);
            assert(node.children[k] == leaders[child]);
            assert(classes.contains_key(leaders[child]));
            assert(leaders[leaders[child] as int] == leaders[child]);
        }
        assert(led(pushed, node.children) =~= led(pushed, own.children));
        assert(canonical(pushed, node) =~= canonical(pushed, own));
    }
    assert(known(pushed, node.children)) by {
        assert(known(pushed, grown[id][0].children));
    }
    resembles_after_merge(dep, pushed, root, other, node, m);
    joined_holds(grown, after, root, other);
    assert forall|i: int, j: int| 0 <= i < n && 0 <= j < n implies (#[trigger] led_by[i]
        == #[trigger] led_by[j] <==> stem(dep, dep.name(i), m + 1) == stem(
        dep,
        dep.name(j),
        m + 1,
    )) by {
        stem_grows(dep, dep.name(i), m);
        stem_grows(dep, dep.name(j), m);
        assert(classes.contains_key(leaders[i]) && classes.contains_key(leaders[j]));
        assert(pushed[i] == leaders[i] && pushed[j] == leaders[j]);
    }
    assert forall|q: int| 0 <= q < led_by.len() implies leads_own(
        led_by,
        n,
        #[trigger] led_by[q],
    ) by {
        if q == id {
            assert(led_by[m] == led_by[q]);
        } else {
            assert(leads_own(leaders, n, leaders[q]));
            let i = choose|i: int| 0 <= i < n && #[trigger] leaders[i] == leaders[q];
            assert(pushed[i] == pushed[q]);
            assert(led_by[i] == led_by[q]);
        }
    }
    assert forall|c: nat, x: int|
        after.contains_key(c) && 0 <= x < after[c].len() implies comes_from(
        dep,
        m + 1,
        led_by,
        c,
        #[trigger] after[c][x],
    ) by {
        let tile = after[c][x];
        assert(came_along(grown, root, other, c, tile));
        let (was, y) = choose|was: nat, y: int|
            moved(was, root, other) == c && grown.contains_key(was) && 0 <= y < grown[was].len()
                && #[trigger] grown[was][y] == tile;
        if was == id {
            assert(tile == node);
            assert(led_by[m] == c && resembles(dep, led_by, tile, m));
        } else {
            assert(classes[was][y] == tile);
            comes_from_after_push(dep, m, leaders, id, was, tile);
            comes_from_after_merge(dep, m, pushed, root, other, was, tile);
            widen(dep, m, led_by, c, tile);
        }
    }
    assert forall|j: int| 0 <= j < m + 1 && !absorbed(dep, j) implies holds_tile(
        dep,
        led_by,
        after[#[trigger] led_by[j]],
        j,
    ) by {
        let c = if j == m {
            id
        } else {
            leaders[j]
        };
        if j == m {
            assert(resembles(dep, pushed, grown[id][0], m));
        } else {
            assert(classes.contains_key(leaders[j]));
            let y = choose|y: int|
                0 <= y < classes[c].len() && resembles(dep, leaders, #[trigger] classes[c][y], j);
            resembles_after_push(dep, leaders, id, classes[c][y], j);
            assert(resembles(dep, pushed, grown[c][y], j));
        }
        holds_tile_after_merge(dep, grown, pushed, root, other, after, c, j);
    }
    assert forall|k: (Seq<char>, Seq<nat>)| #[trigger] entries.contains_key(k) implies is_entry(
        dep,
        m + 1,
        entries,
        k,
    ) by {
        if k == key(node) {
            assert(0 <= m < m + 1 && k.0 == dep.name(m));
        } else {
            assert(is_entry(dep, m, memo, k));
            if exists|j: int| 0 <= j < m && k.0 == #[trigger] dep.name(j) {
                let j = choose|j: int| 0 <= j < m && k.0 == #[trigger] dep.name(j);
                assert(0 <= j < m + 1 && k.0 == dep.name(j));
            }
        }
    }
    assert forall|k: (Seq<char>, Seq<nat>), l: (Seq<char>, Seq<nat>)|
        entries.contains_key(k) && entries.contains_key(l) && k.0 == l.0 && k.1.len()
            == l.1.len() implies k == l by {
        if k == key(node) && l != k {
            foreign_entry(dep, m, memo, l);
        } else if l == key(node) && l != k {
            foreign_entry(dep, m, memo, k);
        }
    }
}

/// When the operations have joined their placeholders, none have become the same.
pub proof fn built_is_settled(
    dep: DepGraph,
    m: int,
    classes: Classes,
    leaders: Seq<nat>,
    memo: Memo,
)
    requires
        built(dep, m, classes, leaders, memo),
    ensures
        settled(leaders, memo),
{
    assert forall|k: (Seq<char>, Seq<nat>), l: (Seq<char>, Seq<nat>)|
        #![trigger memo[k], memo[l]]
        memo.contains_key(k) && memo.contains_key(l) && k.0 == l.0 && led(leaders, k.1) == led(
            leaders,
            l.1,
        ) implies leaders[memo[k] as int] == leaders[memo[l] as int] by {
        assert(led(leaders, k.1).len() == k.1.len());
        assert(led(leaders, l.1).len() == l.1.len());
        assert(k == l);
    }
}

/// An operation of a class over the ids of classes is what the graph says it is.
proof fn canonical_is_unfolded(dep: DepGraph, leaders: Seq<nat>, tile: TileView, j: int)
    requires
        dep.wf(),
        dep.nodes@.len() <= leaders.len(),
        0 <= j < dep.nodes@.len(),
        resembles(dep, leaders, tile, j),
    ensures
        canonical(leaders, tile) == unfolded(dep, leaders.take(dep.nodes@.len() as int), j),
{
    let n = dep.nodes@.len();
    let own = unfolded(dep, own_ids(n), j);
    let target = unfolded(dep, leaders.take(n as int), j);
    own_children_known(dep, leaders, j);
    let edges = dep.in_edges(dep.name(j));
    assert forall|k: int| 0 <= k < edges.len() implies led(leaders, own.children)[k]
        == #[trigger] target.children[k] by {
        assert(own.children[k] < n);
        assert(own.children[k] == dep.place(edges[k].id@));
    }
    assert(led(leaders, own.children) =~= target.children);
    assert(canonical(leaders, own) =~= target);
}

/// When the operations have joined their placeholders, the classes are tidied up and the
/// placeholders leave, the classes are those of the operations.
pub proof fn built_is_arranged(
    dep: DepGraph,
    classes: Classes,
    leaders: Seq<nat>,
    memo: Memo,
    tidy: Classes,
    last: Classes,
)
    requires
        dep.wf(),
        built(dep, dep.nodes@.len() as int, classes, leaders, memo),
        tidy.dom() == classes.dom(),
        forall|id: nat| #[trigger]
            tidy.contains_key(id) ==> tidied(leaders, classes[id], tidy[id]),
        last.dom() == tidy.dom(),
        forall|id: nat| #[trigger] last.contains_key(id) ==> last[id] == reals(tidy[id]),
    ensures
        arranged(dep, last, leaders.take(dep.nodes@.len() as int)),
{
    let n = dep.nodes@.len();
    let ids = leaders.take(n as int);
    assert forall|id: nat| #[trigger] last.contains_key(id) <==> classes.contains_key(id) by {
        assert(last.dom().contains(id) <==> tidy.dom().contains(id));
        assert(classes.dom().contains(id) <==> tidy.dom().contains(id));
    }
    assert forall|id: nat| #[trigger] last.contains_key(id) implies exists|i: int|
        0 <= i < n && #[trigger] ids[i] == id by {
        assert(leads_own(leaders, n, leaders[id as int]));
        let i = choose|i: int| 0 <= i < n && #[trigger] leaders[i] == id;
        assert(ids[i] == id);
    }
    assert forall|i: int, j: int| 0 <= i < n && 0 <= j < n implies (#[trigger] ids[i]
        == #[trigger] ids[j] <==> stem(dep, dep.name(i), n as int) == stem(
        dep,
        dep.name(j),
        n as int,
    )) by {
        assert(ids[i] == leaders[i] && ids[j] == leaders[j]);
    }
    assert forall|id: nat, x: int|
        last.contains_key(id) && 0 <= x < last[id].len() implies unfolds_to(
        dep,
        ids,
        id,
        #[trigger] last[id][x],
    ) by {
        let tile = last[id][x];
        reals_are_the_real(tidy[id]);
        assert(is_real(reals(tidy[id])[x]));
        assert(tidy[id].contains(tile));
        let y = choose|y: int| 0 <= y < tidy[id].len() && tidy[id][y] == tile;
        assert(tidy.dom().contains(id));
        real_comes_from(dep, classes, leaders, memo, tidy[id], id, y);
        let j = choose|j: int|
            0 <= j < n && #[trigger] leaders[j] == id && tile == unfolded(dep, ids, j);
        assert(ids[j] == id);
    }
    assert forall|j: int| 0 <= j < n && !is_phantom(dep.name(j)) implies last[#[trigger] ids[j]].contains(
        unfolded(dep, ids, j),
    ) by {
        let id = ids[j];
        assert(id == leaders[j]);
        assert(classes.contains_key(id));
        assert(tidy.dom().contains(id));
        assert(holds_tile(dep, leaders, classes[id], j));
        let x = choose|x: int|
            0 <= x < classes[id].len() && resembles(dep, leaders, #[trigger] classes[id][x], j);
        canonical_is_unfolded(dep, leaders, classes[id][x], j);
        let y = choose|y: int|
            0 <= y < tidy[id].len() && key(#[trigger] tidy[id][y]) == key(
                canonical(leaders, classes[id][x]),
            );
        real_comes_from(dep, classes, leaders, memo, tidy[id], id, y);
        let i = choose|i: int|
            0 <= i < n && #[trigger] leaders[i] == id && tidy[id][y] == unfolded(dep, ids, i);
        if i < j {
            assert(dep.nodes@[i]@ != dep.nodes@[j]@);
        }
        if j < i {
            assert(dep.nodes@[j]@ != dep.nodes@[i]@);
        }
        assert(i == j);
        reals_are_the_real(tidy[id]);
        assert(reals(tidy[id]).contains(tidy[id][y]));
    }
    assert forall|id: nat| #[trigger] last.contains_key(id) implies distinct_keys(last[id]) by {
        assert(tidy.dom().contains(id));
        reals_stay_distinct(tidy[id]);
    }
}

/// An operation of a tidied class that is no placeholder is one of the graph.
proof fn real_comes_from(
    dep: DepGraph,
    classes: Classes,
    leaders: Seq<nat>,
    memo: Memo,
    tidy: Seq<TileView>,
    id: nat,
    y: int,
)
    requires
        dep.wf(),
        built(dep, dep.nodes@.len() as int, classes, leaders, memo),
        classes.contains_key(id),
        tidied(leaders, classes[id], tidy),
        0 <= y < tidy.len(),
        is_real(tidy[y]),
    ensures
        exists|j: int|
            0 <= j < dep.nodes@.len() && #[trigger] leaders[j] == id && tidy[y] == unfolded(
                dep,
                leaders.take(dep.nodes@.len() as int),
                j,
            ),
{
    let n = dep.nodes@.len();
    let i = choose|i: int|
        0 <= i < classes[id].len() && tidy[y] == canonical(leaders, #[trigger] classes[id][i]);
    let tile = classes[id][i];
    assert(comes_from(dep, n as int, leaders, id, tile));
    if exists|p: int|
        0 <= p < n && #[trigger] leaders[p] == id && tile == placeholder(dep, p) {
        let p = choose|p: int|
            0 <= p < n && #[trigger] leaders[p] == id && tile == placeholder(dep, p);
        phantom_round_trip(dep.name(p));
    }
    let j = choose|j: int|
        0 <= j < n && #[trigger] leaders[j] == id && resembles(dep, leaders, tile, j);
    canonical_is_unfolded(dep, leaders, tile, j);
    assert(leaders[j] == id);
}

/// Where no operation has the name of a placeholder, every operation has a class of its own, which
/// holds it and nothing else, and there are no other classes.
pub proof fn operations_have_their_own_classes(dep: DepGraph, classes: Classes, ids: Seq<nat>)
    requires
        dep.wf(),
        arranged(dep, classes, ids),
        forall|i: int| 0 <= i < dep.nodes@.len() ==> !is_phantom(#[trigger] dep.name(i)),
    ensures
        forall|i: int, j: int|
            0 <= i < j < dep.nodes@.len() ==> #[trigger] ids[i] != #[trigger] ids[j],
        forall|i: int|
            0 <= i < dep.nodes@.len() ==> #[trigger] classes[ids[i]] == seq![unfolded(dep, ids, i)],
        forall|id: nat| #[trigger]
            classes.contains_key(id) <==> exists|i: int|
                0 <= i < dep.nodes@.len() && #[trigger] ids[i] == id,
{
    let n = dep.nodes@.len();
    assert forall|i: int, j: int| 0 <= i < j < n implies #[trigger] ids[i] != #[trigger] ids[j] by {
        assert(dep.nodes@[i]@ != dep.nodes@[j]@);
        assert(!stands_in(dep, dep.name(i), n as int));
        assert(!stands_in(dep, dep.name(j), n as int));
    }
    assert forall|i: int| 0 <= i < n implies #[trigger] classes[ids[i]] == seq![
        unfolded(dep, ids, i),
    ] by {
        let id = ids[i];
        let tiles = classes[id];
        assert(classes.contains_key(id));
        assert(!is_phantom(dep.name(i)));
        assert(tiles.contains(unfolded(dep, ids, i)));
        assert forall|x: int| 0 <= x < tiles.len() implies #[trigger] tiles[x] == unfolded(
            dep,
            ids,
            i,
        ) by {
            assert(unfolds_to(dep, ids, id, classes[id][x]));
            let j = choose|j: int|
                0 <= j < n && !is_phantom(dep.name(j)) && #[trigger] ids[j] == id && tiles[x]
                    == unfolded(dep, ids, j);
            assert(!(i < j) && !(j < i));
        }
        assert(distinct_keys(tiles));
        if tiles.len() > 1 {
            assert(key(tiles[0]) != key(tiles[1]));
        }
        assert(tiles =~= seq![unfolded(dep, ids, i)]);
    }
}

} // verus!
