//! Colours for operations.

use vstd::prelude::*;

use crate::lanes::{op_views, Op, OpView};

verus! {

/// How many colours there are.
pub const N_COLORS: usize = 8;

/// The colours, as they are written.
pub open spec fn palette(i: int) -> Seq<char> {
    if i == 0 {
        "#e76f51"@
    } else if i == 1 {
        "#2a9d8f"@
    } else if i == 2 {
        "#f4a261"@
    } else if i == 3 {
        "#264653"@
    } else if i == 4 {
        "#e9c46a"@
    } else if i == 5 {
        "#8ecae6"@
    } else if i == 6 {
        "#bb9457"@
    } else {
        "#c77dff"@
    }
}

fn palette_entry(i: usize) -> (r: &'static str)
    requires
        i < N_COLORS,
    ensures
        r@ == palette(i as int),
{
    if i == 0 {
        "#e76f51"
    } else if i == 1 {
        "#2a9d8f"
    } else if i == 2 {
        "#f4a261"
    } else if i == 3 {
        "#264653"
    } else if i == 4 {
        "#e9c46a"
    } else if i == 5 {
        "#8ecae6"
    } else if i == 6 {
        "#bb9457"
    } else {
        "#c77dff"
    }
}

/// The names of the first `n` operations, each once, in the order in which they come first.
pub open spec fn names(ops: Seq<OpView>, n: int) -> Seq<Seq<char>>
    decreases n,
{
    if n <= 0 {
        seq![]
    } else {
        let rest = names(ops, n - 1);
        if rest.contains(ops[n - 1].name) {
            rest
        } else {
            rest.push(ops[n - 1].name)
        }
    }
}

/// A name and its colour.
pub type Coloring = Seq<(Seq<char>, Seq<char>)>;

/// Each name with the next colour, from the start again when there are no more.
pub open spec fn coloring(ops: Seq<OpView>) -> Coloring {
    let distinct = names(ops, ops.len() as int);
    Seq::new(distinct.len(), |k: int| (distinct[k], palette(k % (N_COLORS as int))))
}

/// The names and colours of a list.
pub open spec fn color_views(colors: Seq<(String, &'static str)>) -> Coloring {
    Seq::new(colors.len(), |k: int| (colors[k].0@, colors[k].1@))
}

/// The first entry with the name stands at position `k`.
pub open spec fn is_place_of(colors: Coloring, name: Seq<char>, k: int) -> bool {
    &&& 0 <= k < colors.len()
    &&& colors[k].0 == name
    &&& forall|i: int| 0 <= i < k ==> (#[trigger] colors[i]).0 != name
}

/// The name has a colour.
pub open spec fn has_color(colors: Coloring, name: Seq<char>) -> bool {
    exists|k: int| is_place_of(colors, name, k)
}

/// The colour that the name has.
pub open spec fn color_of_name(colors: Coloring, name: Seq<char>) -> Seq<char> {
    colors[choose|k: int| is_place_of(colors, name, k)].1
}

/// The colour that the name has, where it has one.
pub fn color_of(colors: &Vec<(String, &'static str)>, name: &String) -> (r: Option<&'static str>)
    ensures
        match r {
            Some(color) => has_color(color_views(colors@), name@) && color@ == color_of_name(
                color_views(colors@),
                name@,
            ),
            None => !has_color(color_views(colors@), name@),
        },
{
    let ghost views = color_views(colors@);
    let n = colors.len();
    let mut k: usize = 0;
    while k < n
        invariant
            k <= n,
            n == colors@.len(),
            views == color_views(colors@),
            forall|i: int| 0 <= i < k ==> (#[trigger] views[i]).0 != name@,
        decreases n - k,
    {
        if colors[k].0 == *name {
            proof {
                assert(is_place_of(views, name@, k as int));
                let place = choose|k: int| is_place_of(views, name@, k);
                assert(!(place < k) && !(k < place)) by {
                    let _ = (views[place], views[k as int]);
                }
            }
            return Some(colors[k].1);
        }
        assert(views[k as int].0 != name@);
        k = k + 1;
    }
    None
}

/// Gives each name a colour.
pub fn assign_colors(ops: &[Op]) -> (r: Vec<(String, &'static str)>)
    ensures
        color_views(r@) == coloring(op_views(ops@)),
{
    let ghost views = op_views(ops@);
    let n = ops.len();
    let mut colors: Vec<(String, &'static str)> = Vec::new();
    let mut i: usize = 0;
    while i < n
        invariant
            i <= n,
            n == ops@.len(),
            views == op_views(ops@),
            colors@.len() == names(views, i as int).len(),
            forall|k: int|
                0 <= k < colors@.len() ==> (#[trigger] color_views(colors@)[k]).0 == names(
                    views,
                    i as int,
                )[k] && color_views(colors@)[k].1 == palette(k % (N_COLORS as int)),
        decreases n - i,
    {
        let ghost before = names(views, i as int);
        let ghost known = color_views(colors@);
        let name = &ops[i].name;
        if color_of(&colors, name).is_none() {
            proof {
                if before.contains(name@) {
                    let k = before.index_of_first(name@)->0;
                    before.index_of_first_ensures(name@);
                    assert(known[k].0 == before[k]);
                    assert forall|i: int| 0 <= i < k implies (#[trigger] known[i]).0 != name@ by {
                        assert(before[i] != name@);
                    }
                    assert(is_place_of(known, name@, k));
                }
            }
            let color = palette_entry(colors.len() % N_COLORS);
            colors.push((name.clone(), color));
            proof {
                assert forall|k: int| 0 <= k < colors@.len() implies (#[trigger] color_views(
                    colors@,
                )[k]).0 == names(views, i + 1)[k] && color_views(colors@)[k].1 == palette(
                    k % (N_COLORS as int),
                ) by {
                    if k < known.len() {
                        assert(color_views(colors@)[k] == known[k]);
                    }
                }
            }
        } else {
            proof {
                let k = choose|k: int| is_place_of(known, name@, k);
                assert(before[k] == known[k].0);
            }
        }
        i = i + 1;
    }
    assert(color_views(colors@) =~= coloring(views));
    colors
}

/// No name comes twice.
pub proof fn names_are_distinct(ops: Seq<OpView>, n: int)
    requires
        0 <= n <= ops.len(),
    ensures
        names(ops, n).no_duplicates(),
    decreases n,
{
    if n > 0 {
        names_are_distinct(ops, n - 1);
    }
}

/// Every operation's name is there.
pub proof fn every_operation_is_named(ops: Seq<OpView>, n: int, i: int)
    requires
        0 <= i < n <= ops.len(),
    ensures
        names(ops, n).contains(ops[i].name),
    decreases n,
{
    let rest = names(ops, n - 1);
    if i < n - 1 {
        every_operation_is_named(ops, n - 1, i);
        let k = choose|k: int| 0 <= k < rest.len() && rest[k] == ops[i].name;
        assert(names(ops, n)[k] == ops[i].name);
    } else if !rest.contains(ops[i].name) {
        assert(names(ops, n)[rest.len() as int] == ops[i].name);
    }
}

/// The colours differ from each other.
pub proof fn palette_is_distinct(i: int, j: int)
    requires
        0 <= i < N_COLORS,
        0 <= j < N_COLORS,
        palette(i) == palette(j),
    ensures
        i == j,
{
    reveal_strlit("#e76f51");
    reveal_strlit("#2a9d8f");
    reveal_strlit("#f4a261");
    reveal_strlit("#264653");
    reveal_strlit("#e9c46a");
    reveal_strlit("#8ecae6");
    reveal_strlit("#bb9457");
    reveal_strlit("#c77dff");
    let _ = (palette(i)[1], palette(j)[1], palette(i)[2], palette(j)[2]);
}

/// Every operation has a colour, and operations with the same name have the same.
pub proof fn every_operation_has_a_color(ops: Seq<OpView>, i: int)
    requires
        0 <= i < ops.len(),
    ensures
        has_color(coloring(ops), ops[i].name),
{
    let distinct = names(ops, ops.len() as int);
    let name = ops[i].name;
    every_operation_is_named(ops, ops.len() as int, i);
    distinct.index_of_first_ensures(name);
    let k = distinct.index_of_first(name)->0;
    assert forall|j: int| 0 <= j < k implies (#[trigger] coloring(ops)[j]).0 != name by {
        assert(distinct[j] != name);
    }
    assert(is_place_of(coloring(ops), name, k));
}

/// Up to as many names as there are colours, names that differ have colours that differ.
pub proof fn few_names_have_distinct_colors(ops: Seq<OpView>, i: int, j: int)
    requires
        0 <= i < j < coloring(ops).len() <= N_COLORS,
    ensures
        coloring(ops)[i].0 != coloring(ops)[j].0,
        coloring(ops)[i].1 != coloring(ops)[j].1,
{
    names_are_distinct(ops, ops.len() as int);
    if palette(i) == palette(j) {
        palette_is_distinct(i, j);
    }
}

/// The names of the first `n` operations.
pub open spec fn first_names(ops: Seq<OpView>, n: int) -> Set<Seq<char>> {
    Seq::new(n as nat, |j: int| ops[j].name).to_set()
}

proof fn names_are_the_first(ops: Seq<OpView>, n: int)
    requires
        0 <= n <= ops.len(),
    ensures
        names(ops, n).to_set() == first_names(ops, n),
        names(ops, n).len() == first_names(ops, n).len(),
    decreases n,
{
    names_are_distinct(ops, n);
    let listed = Seq::new(n as nat, |j: int| ops[j].name);
    assert forall|name: Seq<char>| names(ops, n).contains(name) <==> listed.contains(name) by {
        if listed.contains(name) {
            let j = choose|j: int| 0 <= j < listed.len() && listed[j] == name;
            every_operation_is_named(ops, n, j);
        }
        if names(ops, n).contains(name) {
            let j = name_comes_from(ops, n, name);
            assert(listed[j] == name);
        }
    }
    assert(names(ops, n).to_set() =~= listed.to_set());
    names(ops, n).unique_seq_to_set();
}

proof fn name_comes_from(ops: Seq<OpView>, n: int, name: Seq<char>) -> (j: int)
    requires
        0 <= n <= ops.len(),
        names(ops, n).contains(name),
    ensures
        0 <= j < n,
        ops[j].name == name,
    decreases n,
{
    let rest = names(ops, n - 1);
    if ops[n - 1].name == name {
        n - 1
    } else {
        let k = choose|k: int| 0 <= k < names(ops, n).len() && names(ops, n)[k] == name;
        assert(k < rest.len());
        assert(rest[k] == name);
        name_comes_from(ops, n - 1, name)
    }
}

proof fn names_keep_their_places(ops: Seq<OpView>, i: int, n: int)
    requires
        0 <= i < n <= ops.len(),
        !names(ops, i).contains(ops[i].name),
    ensures
        names(ops, i).len() < names(ops, n).len(),
        names(ops, n)[names(ops, i).len() as int] == ops[i].name,
    decreases n,
{
    if i < n - 1 {
        names_keep_their_places(ops, i, n - 1);
    }
}

/// Names get the colours in turn: a name has the colour whose number is that of the different names
/// that come before it, from the start again after the last colour; and nothing else has one.
pub proof fn names_get_colors_in_turn(ops: Seq<OpView>, i: int)
    requires
        0 <= i < ops.len(),
        forall|j: int| 0 <= j < i ==> (#[trigger] ops[j]).name != ops[i].name,
    ensures
        has_color(coloring(ops), ops[i].name),
        color_of_name(coloring(ops), ops[i].name) == palette(first_names(ops, i).len() as int % 8),
        coloring(ops).len() == first_names(ops, ops.len() as int).len(),
{
    let n = ops.len() as int;
    let name = ops[i].name;
    names_are_the_first(ops, i);
    names_are_the_first(ops, n);
    names_are_distinct(ops, n);
    if names(ops, i).contains(name) {
        let j = name_comes_from(ops, i, name);
        assert(ops[j].name != name);
    }
    names_keep_their_places(ops, i, n);
    let k = names(ops, i).len() as int;
    let colors = coloring(ops);
    assert(colors[k] == (name, palette(k % 8)));
    assert forall|j: int| 0 <= j < k implies (#[trigger] colors[j]).0 != name by {
        assert(names(ops, n)[j] != names(ops, n)[k]);
    }
    assert(is_place_of(colors, name, k));
    let place = choose|k: int| is_place_of(colors, name, k);
    assert(is_place_of(colors, name, place));
    assert(!(place < k) && !(k < place));
}

/// The colour of a name is that of the first entry that has it.
pub proof fn the_first_entry_gives_the_color(colors: Coloring, name: Seq<char>, k: int)
    requires
        0 <= k < colors.len(),
        colors[k].0 == name,
        forall|i: int| 0 <= i < k ==> (#[trigger] colors[i]).0 != name,
    ensures
        has_color(colors, name),
        color_of_name(colors, name) == colors[k].1,
{
    assert(is_place_of(colors, name, k));
    let place = choose|k: int| is_place_of(colors, name, k);
    assert(is_place_of(colors, name, place));
    assert(!(place < k) && !(k < place));
}

} // verus!
