//! How problems are written: what is written is what is read.

use vstd::arithmetic::power::{lemma_pow1, lemma_pow_adds, pow};
use vstd::prelude::*;

use crate::number::{decimal, digit, digits};
use crate::swp::{
    describes, description_is_unique, edges_at, is_sound, node_is_sound, nodes_at, reads,
    reads_edge, reads_node, SwpEdgeView, SwpNodeView, SwpProblem, SwpProblemView,
};
use crate::words::{digit_value, integer, is_space, natural, words};

verus! {

/// A part of what is written: a text or a number.
pub enum Token {
    Name(Seq<char>),
    Number(int),
}

/// An operation as it is written: name, cost and resource.
pub open spec fn node_tokens(node: SwpNodeView) -> Seq<Token> {
    seq![Token::Name(node.name), Token::Number(node.cost), Token::Number(node.kind)]
}

/// A dependence as it is written: from which to which operation, distance and offset.
pub open spec fn edge_tokens(edge: SwpEdgeView) -> Seq<Token> {
    seq![
        Token::Number(edge.src),
        Token::Number(edge.dst),
        Token::Number(edge.d),
        Token::Number(edge.delta),
    ]
}

/// A problem as it is written: `R`, how many resources there are and the units of each, one after
/// the other; `N`, how many operations there are, and the operations; `E`, how many dependences
/// there are, and the dependences.
pub open spec fn tokens(p: SwpProblemView) -> Seq<Token> {
    seq![Token::Name(seq!['R']), Token::Number(p.resources.len() as int)] + p.resources.map_values(
        |units: int| Token::Number(units),
    ) + seq![Token::Name(seq!['N']), Token::Number(p.nodes.len() as int)] + p.nodes.map_values(
        |node: SwpNodeView| node_tokens(node),
    ).flatten() + seq![Token::Name(seq!['E']), Token::Number(p.edges.len() as int)]
        + p.edges.map_values(|edge: SwpEdgeView| edge_tokens(edge)).flatten()
}

/// The word is the text, or decimal digits for the number.
pub open spec fn spells(word: Seq<char>, token: Token) -> bool {
    match token {
        Token::Name(text) => word == text,
        Token::Number(value) => integer(word) == Some(value),
    }
}

/// There is a word for each part, which spells it.
pub open spec fn all_spelled(w: Seq<Seq<char>>, parts: Seq<Token>) -> bool {
    &&& w.len() == parts.len()
    &&& forall|i: int| 0 <= i < parts.len() ==> spells(#[trigger] w[i], parts[i])
}

proof fn flatten_of_equals<T>(lists: Seq<Seq<T>>, k: int)
    requires
        forall|i: int| 0 <= i < lists.len() ==> (#[trigger] lists[i]).len() == k,
    ensures
        lists.flatten().len() == lists.len() * k,
    decreases lists.len(),
{
    if lists.len() == 0 {
        assert(lists.len() * k == 0) by (nonlinear_arith)
            requires
                lists.len() == 0,
        ;
    } else {
        let rest = lists.drop_first();
        assert forall|i: int| 0 <= i < rest.len() implies (#[trigger] rest[i]).len() == k by {
            assert(rest[i] == lists[i + 1]);
        }
        flatten_of_equals(rest, k);
        let n = lists.len();
        assert(n * k == (n - 1) * k + k) by (nonlinear_arith);
        assert(lists[0].len() == k);
    }
}

proof fn flatten_in_place<T>(lists: Seq<Seq<T>>, k: int, i: int, j: int)
    requires
        forall|i: int| 0 <= i < lists.len() ==> (#[trigger] lists[i]).len() == k,
        0 <= i < lists.len(),
        0 <= j < k,
    ensures
        0 <= i * k + j < lists.flatten().len(),
        lists.flatten()[i * k + j] == lists[i][j],
    decreases i,
{
    let rest = lists.drop_first();
    assert forall|i: int| 0 <= i < rest.len() implies (#[trigger] rest[i]).len() == k by {
        assert(rest[i] == lists[i + 1]);
    }
    assert(lists[0].len() == k);
    assert(lists.flatten() == lists[0] + rest.flatten());
    if i == 0 {
        assert(i * k == 0) by (nonlinear_arith)
            requires
                i == 0,
        ;
    } else {
        flatten_in_place(rest, k, i - 1, j);
        assert(rest[i - 1] == lists[i]);
        assert(i * k == (i - 1) * k + k) by (nonlinear_arith);
    }
}

/// Where the parts of a problem stand.
proof fn tokens_in_place(p: SwpProblemView)
    ensures
        ({
            let s = p.resources.len() as int;
            let n = p.nodes.len() as int;
            let m = p.edges.len() as int;
            let all = tokens(p);
            &&& all.len() == s + 3 * n + 6 + 4 * m
            &&& all[0] == Token::Name(seq!['R'])
            &&& all[1] == Token::Number(s)
            &&& forall|i: int|
                0 <= i < s ==> all[2 + i] == Token::Number(#[trigger] p.resources[i])
            &&& all[s + 2] == Token::Name(seq!['N'])
            &&& all[s + 3] == Token::Number(n)
            &&& forall|i: int, j: int|
                0 <= i < n && 0 <= j < 3 ==> all[s + 4 + 3 * i + j] == #[trigger] node_tokens(
                    p.nodes[i],
                )[j]
            &&& all[s + 3 * n + 4] == Token::Name(seq!['E'])
            &&& all[s + 3 * n + 5] == Token::Number(m)
            &&& forall|i: int, j: int|
                0 <= i < m && 0 <= j < 4 ==> all[s + 3 * n + 6 + 4 * i + j]
                    == #[trigger] edge_tokens(p.edges[i])[j]
        }),
{
    let s = p.resources.len() as int;
    let n = p.nodes.len() as int;
    let m = p.edges.len() as int;
    let all = tokens(p);
    let first = seq![Token::Name(seq!['R']), Token::Number(s)];
    let units = p.resources.map_values(|units: int| Token::Number(units));
    let second = seq![Token::Name(seq!['N']), Token::Number(n)];
    let nodes = p.nodes.map_values(|node: SwpNodeView| node_tokens(node));
    let third = seq![Token::Name(seq!['E']), Token::Number(m)];
    let edges = p.edges.map_values(|edge: SwpEdgeView| edge_tokens(edge));
    flatten_of_equals(nodes, 3);
    flatten_of_equals(edges, 4);
    assert(all == first + units + second + nodes.flatten() + third + edges.flatten());
    assert forall|i: int, j: int| 0 <= i < n && 0 <= j < 3 implies all[s + 4 + 3 * i + j]
        == #[trigger] node_tokens(p.nodes[i])[j] by {
        assert(nodes[i][j] == node_tokens(p.nodes[i])[j]);
        flatten_in_place(nodes, 3, i, j);
    }
    assert forall|i: int, j: int| 0 <= i < m && 0 <= j < 4 implies all[s + 3 * n + 6 + 4 * i + j]
        == #[trigger] edge_tokens(p.edges[i])[j] by {
        assert(edges[i][j] == edge_tokens(p.edges[i])[j]);
        flatten_in_place(edges, 4, i, j);
    }
}

/// Words describe a problem exactly when they spell, one after the other, what is written of it.
pub proof fn what_is_read_is_what_is_written(w: Seq<Seq<char>>, p: SwpProblemView)
    ensures
        describes(w, p) <==> all_spelled(w, tokens(p)),
{
    let s = p.resources.len() as int;
    let n = p.nodes.len() as int;
    let m = p.edges.len() as int;
    let all = tokens(p);
    tokens_in_place(p);
    reveal_strlit("R");
    reveal_strlit("N");
    reveal_strlit("E");
    assert("R"@ =~= seq!['R'] && "N"@ =~= seq!['N'] && "E"@ =~= seq!['E']);
    if describes(w, p) {
        assert forall|i: int| 0 <= i < all.len() implies spells(#[trigger] w[i], all[i]) by {
            if 2 <= i < s + 2 {
                assert(reads(w[2 + (i - 2)], p.resources[i - 2]));
            } else if s + 4 <= i < s + 4 + 3 * n {
                let k = (i - s - 4) / 3;
                let j = (i - s - 4) % 3;
                assert(reads_node(w, nodes_at(s) + 3 * k, p.nodes[k]));
                assert(all[s + 4 + 3 * k + j] == node_tokens(p.nodes[k])[j]);
            } else if s + 3 * n + 6 <= i {
                let k = (i - s - 3 * n - 6) / 4;
                let j = (i - s - 3 * n - 6) % 4;
                assert(reads_edge(w, edges_at(s, n) + 4 * k, p.edges[k]));
                assert(all[s + 3 * n + 6 + 4 * k + j] == edge_tokens(p.edges[k])[j]);
            }
        }
    }
    if all_spelled(w, all) {
        assert(spells(w[0], all[0]) && spells(w[1], all[1]));
        assert(spells(w[s + 2], all[s + 2]) && spells(w[s + 3], all[s + 3]));
        assert(spells(w[s + 3 * n + 4], all[s + 3 * n + 4]));
        assert(spells(w[s + 3 * n + 5], all[s + 3 * n + 5]));
        assert forall|i: int| 0 <= i < s implies reads(w[2 + i], #[trigger] p.resources[i]) by {
            assert(spells(w[2 + i], all[2 + i]));
        }
        assert forall|i: int| 0 <= i < n implies reads_node(
            w,
            nodes_at(s) + 3 * i,
            #[trigger] p.nodes[i],
        ) by {
            let at = s + 4 + 3 * i;
            let parts = node_tokens(p.nodes[i]);
            assert(all[at + 0] == parts[0] && all[at + 1] == parts[1] && all[at + 2] == parts[2]);
            assert(spells(w[at], all[at]) && spells(w[at + 1], all[at + 1]) && spells(
                w[at + 2],
                all[at + 2],
            ));
        }
        assert forall|i: int| 0 <= i < m implies reads_edge(
            w,
            edges_at(s, n) + 4 * i,
            #[trigger] p.edges[i],
        ) by {
            let at = s + 3 * n + 6 + 4 * i;
            let parts = edge_tokens(p.edges[i]);
            assert(all[at + 0] == parts[0] && all[at + 1] == parts[1] && all[at + 2] == parts[2]
                && all[at + 3] == parts[3]);
            assert(spells(w[at], all[at]) && spells(w[at + 1], all[at + 1]) && spells(
                w[at + 2],
                all[at + 2],
            ) && spells(w[at + 3], all[at + 3]));
        }
    }
}

/// A problem is seen as what its fields hold.
pub proof fn problems_are_seen_field_by_field(p: SwpProblem)
    ensures
        p@.resources.len() == p.resources@.len(),
        forall|i: int|
            0 <= i < p.resources@.len() ==> #[trigger] p@.resources[i] == p.resources@[i],
        p@.nodes.len() == p.nodes@.len(),
        forall|i: int|
            0 <= i < p.nodes@.len() ==> (#[trigger] p@.nodes[i]).name == p.nodes@[i].name@
                && p@.nodes[i].cost == p.nodes@[i].cost && p@.nodes[i].kind == p.nodes@[i].kind,
        p@.edges.len() == p.edges@.len(),
        forall|k: int|
            0 <= k < p.edges@.len() ==> (#[trigger] p@.edges[k]).src == p.edges@[k].src
                && p@.edges[k].dst == p.edges@[k].dst && p@.edges[k].d == p.edges@[k].d
                && p@.edges[k].delta == p.edges@[k].delta,
{
}

/// A problem is sound when units, distances and offsets are in the range of `i32`, costs are too and
/// not negative, operations use resources and dependences are between operations that there are, and
/// no name comes twice.
pub proof fn what_is_sound(p: SwpProblemView)
    ensures
        is_sound(p) <==> {
            &&& forall|i: int|
                0 <= i < p.resources.len() ==> -0x8000_0000 <= #[trigger] p.resources[i]
                    <= 0x7fff_ffff
            &&& forall|i: int|
                0 <= i < p.nodes.len() ==> 0 <= (#[trigger] p.nodes[i]).cost <= 0x7fff_ffff && 0
                    <= p.nodes[i].kind < p.resources.len()
            &&& forall|k: int|
                0 <= k < p.edges.len() ==> 0 <= (#[trigger] p.edges[k]).src < p.nodes.len() && 0
                    <= p.edges[k].dst < p.nodes.len() && -0x8000_0000 <= p.edges[k].d <= 0x7fff_ffff
                    && -0x8000_0000 <= p.edges[k].delta <= 0x7fff_ffff
            &&& forall|i: int, j: int|
                0 <= i < p.nodes.len() && 0 <= j < p.nodes.len() && (#[trigger] p.nodes[i]).name
                    == (#[trigger] p.nodes[j]).name ==> i == j
        },
{
    if is_sound(p) {
        assert forall|i: int| 0 <= i < p.nodes.len() implies 0 <= (#[trigger] p.nodes[i]).cost
            <= 0x7fff_ffff && 0 <= p.nodes[i].kind < p.resources.len() by {
            assert(node_is_sound(p.nodes[i], p.resources.len() as int));
        }
        assert forall|i: int, j: int|
            0 <= i < p.nodes.len() && 0 <= j < p.nodes.len() && (#[trigger] p.nodes[i]).name == (
            #[trigger] p.nodes[j]).name implies i == j by {
            assert(!(i < j) && !(j < i));
        }
    }
}

/// The text is a word: it has characters, and none of them is white space.
pub open spec fn is_word(text: Seq<char>) -> bool {
    &&& text.len() > 0
    &&& forall|i: int|
        0 <= i < text.len() ==> (#[trigger] text[i]) != ' ' && text[i] != '\n' && text[i] != '\r'
            && text[i] != '\t'
}

/// The text is white space, of at least one character.
pub open spec fn is_gap(text: Seq<char>) -> bool {
    &&& text.len() > 0
    &&& forall|i: int|
        0 <= i < text.len() ==> (#[trigger] text[i]) == ' ' || text[i] == '\n' || text[i] == '\r'
            || text[i] == '\t'
}

/// The words one after the other behind what comes first, each with the white space behind it.
pub open spec fn laid_out(
    lead: Seq<char>,
    list: Seq<Seq<char>>,
    gaps: Seq<Seq<char>>,
) -> Seq<char>
    decreases list.len(),
{
    if list.len() == 0 {
        lead
    } else {
        laid_out(lead, list.drop_last(), gaps) + list.last() + gaps[list.len() - 1]
    }
}

proof fn words_before_gap(text: Seq<char>, gap: Seq<char>)
    requires
        forall|i: int| 0 <= i < gap.len() ==> is_space(#[trigger] gap[i]),
    ensures
        words(text + gap) == words(text),
    decreases gap.len(),
{
    if gap.len() == 0 {
        assert(text + gap =~= text);
    } else {
        words_before_gap(text, gap.drop_last());
        assert((text + gap).drop_last() =~= text + gap.drop_last());
        assert((text + gap).last() == gap[gap.len() - 1]);
    }
}

proof fn words_with_word(text: Seq<char>, word: Seq<char>)
    requires
        text.len() == 0 || is_space(text.last()),
        word.len() > 0,
        forall|i: int| 0 <= i < word.len() ==> !is_space(#[trigger] word[i]),
    ensures
        words(text + word) == words(text).push(word),
    decreases word.len(),
{
    let both = text + word;
    let front = word.drop_last();
    assert(both.last() == word[word.len() - 1]);
    assert(both.drop_last() =~= text + front);
    if front.len() == 0 {
        assert(text + front =~= text);
        assert(word =~= seq![word[0]]);
    } else {
        assert forall|i: int| 0 <= i < front.len() implies !is_space(#[trigger] front[i]) by {
            assert(front[i] == word[i]);
        }
        words_with_word(text, front);
        assert((text + front).last() == front[front.len() - 1]);
        let rest = words(text + front);
        assert(rest.drop_last() =~= words(text));
        assert(rest.last().push(word.last()) =~= word);
    }
}

proof fn layout_ends_in_a_gap(lead: Seq<char>, list: Seq<Seq<char>>, gaps: Seq<Seq<char>>)
    requires
        lead.len() == 0 || is_gap(lead),
        list.len() <= gaps.len(),
        forall|i: int| 0 <= i < list.len() ==> is_gap(#[trigger] gaps[i]),
    ensures
        laid_out(lead, list, gaps).len() == 0 || is_space(laid_out(lead, list, gaps).last()),
{
    if list.len() > 0 {
        let gap = gaps[list.len() - 1];
        assert(is_gap(gap));
        assert(laid_out(lead, list, gaps).last() == gap[gap.len() - 1]);
    } else if lead.len() > 0 {
        assert(lead[lead.len() - 1] == lead.last());
    }
}

/// Words that are written one after the other, with any white space between them and before the
/// first, are read as they were written, whether there is white space behind the last or not.
pub proof fn words_are_read_as_written(
    lead: Seq<char>,
    list: Seq<Seq<char>>,
    gaps: Seq<Seq<char>>,
)
    requires
        lead.len() == 0 || is_gap(lead),
        list.len() <= gaps.len(),
        forall|i: int| 0 <= i < list.len() ==> is_word(#[trigger] list[i]),
        forall|i: int| 0 <= i < list.len() ==> is_gap(#[trigger] gaps[i]),
    ensures
        words(laid_out(lead, list, gaps)) == list,
        list.len() > 0 ==> words(laid_out(lead, list.drop_last(), gaps) + list.last()) == list,
    decreases list.len(),
{
    if list.len() == 0 {
        words_before_gap(seq![], lead);
        assert(Seq::<char>::empty() + lead =~= lead);
        assert(words(laid_out(lead, list, gaps)) =~= list);
    } else {
        let front = list.drop_last();
        let word = list[list.len() - 1];
        let gap = gaps[list.len() - 1];
        assert forall|i: int| 0 <= i < front.len() implies is_word(#[trigger] front[i]) by {
            assert(front[i] == list[i]);
        }
        words_are_read_as_written(lead, front, gaps);
        layout_ends_in_a_gap(lead, front, gaps);
        assert(is_word(word) && is_gap(gap));
        words_with_word(laid_out(lead, front, gaps), word);
        words_before_gap(laid_out(lead, front, gaps) + word, gap);
        assert(front.push(word) =~= list);
    }
}

/// The digits are those from `0` to `9`, in the order of their code points.
pub proof fn digits_are_in_order(c: char)
    ensures
        digit_value(c) is Some <==> '0' as int <= c as int <= '9' as int,
        digit_value(c) matches Some(d) ==> d == c as int - '0' as int,
        digit_value(c) matches Some(d) ==> digit(d as int) == c,
{
}

/// A word stands for a number that is not negative exactly when it has characters and all of them
/// are digits.
pub proof fn numbers_are_of_digits(word: Seq<char>)
    ensures
        natural(word) is Some <==> word.len() > 0 && forall|i: int|
            0 <= i < word.len() ==> '0' as int <= #[trigger] word[i] as int <= '9' as int,
    decreases word.len(),
{
    if word.len() > 0 {
        let front = word.drop_last();
        digits_are_in_order(word.last());
        numbers_are_of_digits(front);
        if natural(word) is Some {
            assert forall|i: int| 0 <= i < word.len() implies '0' as int <= #[trigger] word[i] as int
                <= '9' as int by {
                if i < front.len() {
                    assert(front[i] as int == word[i] as int);
                }
            }
        } else if forall|i: int|
            0 <= i < word.len() ==> '0' as int <= #[trigger] word[i] as int <= '9' as int {
            assert(word[word.len() - 1] as int == word.last() as int);
            assert forall|i: int|
                0 <= i < front.len() implies '0' as int <= #[trigger] front[i] as int
                <= '9' as int by {
                assert(front[i] as int == word[i] as int);
            }
        }
    }
}

/// Digits count ten times as much for each digit behind them.
pub proof fn numbers_are_decimal(a: Seq<char>, b: Seq<char>)
    requires
        natural(a) is Some,
        natural(b) is Some,
    ensures
        natural(a + b) == Some((natural(a)->0 * pow(10, b.len()) + natural(b)->0) as nat),
        0 <= natural(a)->0 * pow(10, b.len()),
    decreases b.len(),
{
    let x = natural(a)->0 as int;
    let both = a + b;
    let front = b.drop_last();
    assert(both.last() == b.last());
    if b.len() == 1 {
        assert(both.drop_last() =~= a);
        lemma_pow1(10);
        assert(x * pow(10, 1) == 10 * x);
    } else {
        assert(both.drop_last() =~= a + front);
        numbers_are_decimal(a, front);
        let y = natural(front)->0 as int;
        let power = pow(10, front.len());
        lemma_pow_adds(10, front.len(), 1);
        lemma_pow1(10);
        assert(pow(10, b.len()) == power * 10);
        assert(10 * (x * power + y) == x * (power * 10) + 10 * y) by (nonlinear_arith);
    }
}

/// A minus sign makes a number negative.
pub proof fn a_minus_sign_negates(word: Seq<char>)
    requires
        natural(word) is Some,
    ensures
        integer(word) == Some(natural(word)->0 as int),
        integer(seq!['-'] + word) == Some(-(natural(word)->0 as int)),
{
    numbers_are_of_digits(word);
    assert('0' as int <= word[0] as int);
    assert((seq!['-'] + word).skip(1) =~= word);
}

proof fn digits_are_read(n: nat)
    ensures
        natural(digits(n)) == Some(n),
        digits(n).len() > 0,
    decreases n,
{
    digits_are_in_order(digit((n % 10) as int));
    if n >= 10 {
        digits_are_read(n / 10);
        let front = digits(n / 10);
        let all = digits(n);
        assert(all.drop_last() =~= front);
        assert(all.last() == digit((n % 10) as int));
        assert(10 * (n / 10) + n % 10 == n);
    } else {
        assert(digits(n).last() == digit(n as int));
    }
}

/// Numbers are read as they are written, and written without leading zeros.
pub proof fn numbers_are_read_as_written(v: int)
    ensures
        integer(decimal(v)) == Some(v),
        is_word(decimal(v)),
        v != 0 ==> decimal(v)[0] != '0' && (decimal(v)[0] == '-' <==> v < 0),
        v < 0 ==> decimal(v)[1] != '0',
        v == 0 ==> decimal(v) == seq!['0'],
{
    let n = if v < 0 {
        (-v) as nat
    } else {
        v as nat
    };
    digits_are_read(n);
    let word = digits(n);
    a_minus_sign_negates(word);
    numbers_are_of_digits(word);
    if n > 0 {
        no_leading_zero(n);
    }
    assert forall|i: int| 0 <= i < decimal(v).len() implies (#[trigger] decimal(v)[i]) != ' '
        && decimal(v)[i] != '\n' && decimal(v)[i] != '\r' && decimal(v)[i] != '\t' by {
        if v < 0 {
            if i > 0 {
                assert('0' as int <= word[i - 1] as int <= '9' as int);
                assert(decimal(v)[i] == word[i - 1]);
            }
        } else {
            assert('0' as int <= word[i] as int <= '9' as int);
        }
    }
    assert('0' as int <= word[0] as int <= '9' as int);
}

proof fn no_leading_zero(n: nat)
    requires
        n > 0,
    ensures
        digits(n).len() > 0,
        digits(n)[0] != '0',
    decreases n,
{
    if n >= 10 {
        no_leading_zero(n / 10);
        assert(digits(n)[0] == digits(n / 10)[0]);
    }
}

/// The parts as they are written: texts as they are, numbers in decimal digits.
pub open spec fn written(parts: Seq<Token>) -> Seq<Seq<char>> {
    parts.map_values(
        |token: Token|
            match token {
                Token::Name(text) => text,
                Token::Number(value) => decimal(value),
            },
    )
}

/// A problem whose names are words is read back from what is written of it, in whatever lines and
/// with whatever white space, and nothing else is read from it.
pub proof fn problems_are_read_as_written(
    p: SwpProblemView,
    lead: Seq<char>,
    gaps: Seq<Seq<char>>,
)
    requires
        lead.len() == 0 || is_gap(lead),
        forall|i: int| 0 <= i < p.nodes.len() ==> is_word((#[trigger] p.nodes[i]).name),
        gaps.len() == tokens(p).len(),
        forall|i: int| 0 <= i < gaps.len() ==> is_gap(#[trigger] gaps[i]),
    ensures
        describes(words(laid_out(lead, written(tokens(p)), gaps)), p),
        forall|q: SwpProblemView| #[trigger]
            describes(words(laid_out(lead, written(tokens(p)), gaps)), q) ==> q == p,
{
    let all = tokens(p);
    let w = written(all);
    let s = p.resources.len() as int;
    let n = p.nodes.len() as int;
    tokens_in_place(p);
    assert forall|i: int| 0 <= i < w.len() implies is_word(#[trigger] w[i]) && spells(
        w[i],
        all[i],
    ) by {
        match all[i] {
            Token::Number(value) => {
                numbers_are_read_as_written(value);
            },
            Token::Name(text) => {
                name_is_word(p, i);
            },
        }
    }
    words_are_read_as_written(lead, w, gaps);
    what_is_read_is_what_is_written(w, p);
    assert forall|q: SwpProblemView| #[trigger]
        describes(words(laid_out(lead, written(tokens(p)), gaps)), q) implies q == p by {
        description_is_unique(w, p, q);
    }
}

proof fn name_is_word(p: SwpProblemView, i: int)
    requires
        forall|i: int| 0 <= i < p.nodes.len() ==> is_word((#[trigger] p.nodes[i]).name),
        0 <= i < tokens(p).len(),
        tokens(p)[i] is Name,
    ensures
        is_word(tokens(p)[i]->Name_0),
{
    let all = tokens(p);
    let s = p.resources.len() as int;
    let n = p.nodes.len() as int;
    tokens_in_place(p);
    if 2 <= i < s + 2 {
        assert(all[2 + (i - 2)] == Token::Number(p.resources[i - 2]));
    } else if s + 4 <= i < s + 4 + 3 * n {
        let k = (i - s - 4) / 3;
        let j = (i - s - 4) % 3;
        assert(all[s + 4 + 3 * k + j] == node_tokens(p.nodes[k])[j]);
        assert(is_word(p.nodes[k].name));
    } else if s + 3 * n + 6 <= i {
        let k = (i - s - 3 * n - 6) / 4;
        let j = (i - s - 3 * n - 6) % 4;
        assert(all[s + 3 * n + 6 + 4 * k + j] == edge_tokens(p.edges[k])[j]);
    }
}

/// A word stands for a number exactly when it is decimal digits, with a minus sign before them or
/// without.
pub proof fn what_stands_for_a_number(word: Seq<char>)
    ensures
        integer(word) is Some <==> is_digits(word) || (word.len() > 0 && word[0] == '-'
            && is_digits(word.skip(1))),
{
    numbers_are_of_digits(word);
    numbers_are_of_digits(word.skip(1));
    if is_digits(word) {
        assert('0' as int <= word[0] as int);
    }
}

/// The word has characters, and all of them are digits.
pub open spec fn is_digits(word: Seq<char>) -> bool {
    word.len() > 0 && forall|i: int|
        0 <= i < word.len() ==> '0' as int <= #[trigger] word[i] as int <= '9' as int
}

} // verus!
