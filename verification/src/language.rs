//! Operations as a language of the `egg` e-graph library.

use core::cmp::Ordering;
use core::hash::{Hash, Hasher};

use egg::{FromOp, Id, Language};
use vstd::prelude::*;
use vstd::std_specs::cmp::{PartialEqSpec, PartialOrdSpec};

use crate::order::{codes, codes_tell_texts_apart, one_precedes, precedes, precedes_is_transitive};
use crate::tile::TileLang;

verus! {

/// An id of an e-graph.
#[verifier::external_type_specification]
#[verifier::external_body]
pub struct ExId(Id);

/// The number that an `egg::Id` holds.
pub uninterp spec fn id_number(id: Id) -> nat;

/// The numbers of ids.
pub open spec fn id_numbers(ids: Seq<Id>) -> Seq<int> {
    Seq::new(ids.len(), |i: int| id_number(ids[i]) as int)
}

/// `==` of `egg::Id`: ids are equal when they have the same number.
#[verifier::external_body]
fn same_id(a: Id, b: Id) -> (r: bool)
    ensures
        r == (id_number(a) == id_number(b)),
        r == (a == b),
{
    a == b
}

impl PartialEq for TileLang<Id> {
    fn eq(&self, other: &Self) -> (r: bool) {
        if self.op != other.op || self.children.len() != other.children.len() {
            assert(id_numbers(self.children@).len() == self.children@.len());
            assert(id_numbers(other.children@).len() == other.children@.len());
            return false;
        }
        let mut i: usize = 0;
        while i < self.children.len()
            invariant
                self.children@.len() == other.children@.len(),
                i <= self.children@.len(),
                forall|k: int|
                    0 <= k < i ==> id_numbers(self.children@)[k] == id_numbers(other.children@)[k],
            decreases self.children.len() - i,
        {
            if !same_id(self.children[i], other.children[i]) {
                assert(id_numbers(self.children@)[i as int] != id_numbers(
                    other.children@,
                )[i as int]);
                return false;
            }
            i = i + 1;
        }
        assert(id_numbers(self.children@) =~= id_numbers(other.children@));
        true
    }
}

impl vstd::std_specs::cmp::PartialEqSpecImpl for TileLang<Id> {
    open spec fn obeys_eq_spec() -> bool {
        true
    }

    open spec fn eq_spec(&self, other: &Self) -> bool {
        self.op@ == other.op@ && id_numbers(self.children@) == id_numbers(other.children@)
    }
}

impl Eq for TileLang<Id> {

}

/// Operation `a` comes before operation `b`: by the operator, and where they have the same one, by
/// the operands.
pub open spec fn comes_first(a: TileLang<Id>, b: TileLang<Id>) -> bool {
    ||| precedes(codes(a.op@), codes(b.op@))
    ||| a.op@ == b.op@ && precedes(id_numbers(a.children@), id_numbers(b.children@))
}

/// How operation `a` compares with operation `b`.
pub open spec fn tile_order(a: TileLang<Id>, b: TileLang<Id>) -> Ordering {
    if comes_first(a, b) {
        Ordering::Less
    } else if comes_first(b, a) {
        Ordering::Greater
    } else {
        Ordering::Equal
    }
}

impl PartialOrd for TileLang<Id> {
    fn partial_cmp(&self, other: &Self) -> (r: Option<Ordering>) {
        Some(self.cmp(other))
    }
}

impl vstd::std_specs::cmp::PartialOrdSpecImpl for TileLang<Id> {
    open spec fn obeys_partial_cmp_spec() -> bool {
        true
    }

    open spec fn partial_cmp_spec(&self, other: &Self) -> Option<Ordering> {
        Some(tile_order(*self, *other))
    }
}

impl Ord for TileLang<Id> {
    /// `cmp` of pairs of a `String` and a `Vec` of `egg::Id`: the pairs are ordered by the text and
    /// then by the list, texts by their code points, lists by the numbers of their ids, each by
    /// their first difference. Ids are the same when their numbers are.
    #[verifier::external_body]
    fn cmp(&self, other: &Self) -> (r: Ordering)
        ensures
            r == tile_order(*self, *other),
            (r == Ordering::Equal) == (self.op@ == other.op@ && self.children@ == other.children@),
    {
        (&self.op, &self.children).cmp(&(&other.op, &other.children))
    }
}

impl Hash for TileLang<Id> {
    /// `hash` of `egg::Id`: operator and operands go into the hash. Nothing is claimed of the
    /// result.
    #[verifier::external_body]
    fn hash<H: Hasher>(&self, state: &mut H) {
        self.op.hash(state);
        self.children.hash(state);
    }
}

impl Language for TileLang<Id> {
    type Discriminant = String;

    fn discriminant(&self) -> (r: String)
        ensures
            r@ == self.op@,
    {
        self.op.clone()
    }

    fn matches(&self, other: &Self) -> (r: bool)
        ensures
            r == (self.op@ == other.op@ && self.children@.len() == other.children@.len()),
    {
        self.op == other.op && self.children.len() == other.children.len()
    }

    fn children(&self) -> (r: &[Id])
        ensures
            r@ == self.children@,
    {
        self.children.as_slice()
    }

    fn children_mut(&mut self) -> (r: &mut [Id])
        ensures
            r@ == old(self).children@,
            final(self).children@ == final(r)@,
            final(self).op == old(self).op,
            final(self).edge_data == old(self).edge_data,
            final(self).rt == old(self).rt,
    {
        self.children.as_mut_slice()
    }
}

impl FromOp for TileLang<Id> {
    type Error = core::convert::Infallible;

    fn from_op(op: &str, children: Vec<Id>) -> (r: Result<Self, Self::Error>)
        ensures
            r matches Ok(tile) && tile.op@ == op@ && tile.children == children
                && tile.edge_data@ == Seq::new(children@.len(), |i: int| (0i32, 0i32))
                && tile.rt@.len() == 0,
    {
        let n = children.len();
        let mut edge_data: Vec<(i32, i32)> = Vec::new();
        while edge_data.len() < n
            invariant
                edge_data@.len() <= n,
                edge_data@ == Seq::new(edge_data@.len(), |i: int| (0i32, 0i32)),
            decreases n - edge_data.len(),
        {
            edge_data.push((0, 0));
        }
        Ok(TileLang::new(op.to_owned(), children, edge_data, vec![]))
    }
}

/// Operations are equal when their operators and operands are, whatever their dependences carry
/// and whatever they occupy, and equal operations match.
pub proof fn equality_is_by_operator_and_operands(a: TileLang<Id>, b: TileLang<Id>)
    ensures
        a.eq_spec(&b) <==> a.op@ == b.op@ && id_numbers(a.children@) == id_numbers(b.children@),
        a.eq_spec(&b) ==> a.op@ == b.op@ && a.children@.len() == b.children@.len(),
{
    assert(id_numbers(a.children@).len() == a.children@.len());
    assert(id_numbers(b.children@).len() == b.children@.len());
}

/// Equality is an equivalence.
pub proof fn equality_is_an_equivalence(a: TileLang<Id>, b: TileLang<Id>, c: TileLang<Id>)
    ensures
        a.eq_spec(&a),
        a.eq_spec(&b) ==> b.eq_spec(&a),
        a.eq_spec(&b) && b.eq_spec(&c) ==> a.eq_spec(&c),
{
}

/// Operations compare as equal exactly when they are equal, comparing them the other way round
/// gives the reverse, and `partial_cmp` gives what `cmp` gives.
pub proof fn order_agrees_with_equality(a: TileLang<Id>, b: TileLang<Id>)
    ensures
        tile_order(a, b) == Ordering::Equal <==> a.eq_spec(&b),
        tile_order(a, b) == Ordering::Less <==> tile_order(b, a) == Ordering::Greater,
        tile_order(a, b) == Ordering::Equal <==> tile_order(b, a) == Ordering::Equal,
        a.partial_cmp_spec(&b) == Some(tile_order(a, b)),
{
    one_precedes(codes(a.op@), codes(b.op@));
    one_precedes(id_numbers(a.children@), id_numbers(b.children@));
    if codes(a.op@) == codes(b.op@) {
        codes_tell_texts_apart(a.op@, b.op@);
    }
}

/// What does not come behind something does not come behind what that does not come behind.
pub proof fn order_is_transitive(a: TileLang<Id>, b: TileLang<Id>, c: TileLang<Id>)
    requires
        tile_order(a, b) != Ordering::Greater,
        tile_order(b, c) != Ordering::Greater,
    ensures
        tile_order(a, c) != Ordering::Greater,
        tile_order(a, c) == Ordering::Equal ==> tile_order(a, b) == Ordering::Equal && tile_order(
            b,
            c,
        ) == Ordering::Equal,
{
    order_agrees_with_equality(a, b);
    order_agrees_with_equality(b, c);
    order_agrees_with_equality(a, c);
    if comes_first(a, b) && comes_first(b, c) {
        first_is_transitive(a, b, c);
    }
}

proof fn first_is_transitive(a: TileLang<Id>, b: TileLang<Id>, c: TileLang<Id>)
    requires
        comes_first(a, b),
        comes_first(b, c),
    ensures
        comes_first(a, c),
{
    if precedes(codes(a.op@), codes(b.op@)) && precedes(codes(b.op@), codes(c.op@)) {
        precedes_is_transitive(codes(a.op@), codes(b.op@), codes(c.op@));
    } else if a.op@ == b.op@ && b.op@ == c.op@ {
        if !precedes(codes(a.op@), codes(b.op@)) && !precedes(codes(b.op@), codes(c.op@)) {
            precedes_is_transitive(
                id_numbers(a.children@),
                id_numbers(b.children@),
                id_numbers(c.children@),
            );
        }
    }
}

/// Dependences and resource tables do not matter for the order.
pub proof fn order_is_by_operator_and_operands(
    a: TileLang<Id>,
    b: TileLang<Id>,
    c: TileLang<Id>,
)
    requires
        a.eq_spec(&b),
    ensures
        tile_order(a, c) == tile_order(b, c),
        tile_order(c, a) == tile_order(c, b),
{
}

/// Operations are ordered by the code points of their operators, and where these are the same by the
/// numbers of their operands.
pub proof fn operators_come_before_operands(a: TileLang<Id>, b: TileLang<Id>)
    ensures
        a.op@ != b.op@ ==> (tile_order(a, b) == Ordering::Less <==> precedes(
            codes(a.op@),
            codes(b.op@),
        )),
        a.op@ == b.op@ ==> (tile_order(a, b) == Ordering::Less <==> precedes(
            id_numbers(a.children@),
            id_numbers(b.children@),
        )),
{
    one_precedes(codes(a.op@), codes(b.op@));
    one_precedes(id_numbers(a.children@), id_numbers(b.children@));
    if codes(a.op@) == codes(b.op@) {
        codes_tell_texts_apart(a.op@, b.op@);
    }
}

} // verus!
