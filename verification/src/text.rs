//! Names and how they are written.

use vstd::prelude::*;

verus! {

/// What the name of a placeholder starts with.
pub open spec fn phantom_prefix() -> Seq<char> {
    seq!['_', '_', 'p', 'h', 'a', 'n', 't', 'o', 'm', '_']
}

/// The name of the placeholder of `name`.
pub open spec fn phantom(name: Seq<char>) -> Seq<char> {
    phantom_prefix() + name
}

/// `name` is the name of a placeholder.
pub open spec fn is_phantom(name: Seq<char>) -> bool {
    name.len() >= phantom_prefix().len() && name.take(phantom_prefix().len() as int)
        == phantom_prefix()
}

/// What `name` is the placeholder of.
pub open spec fn unphantom(name: Seq<char>) -> Seq<char> {
    name.skip(phantom_prefix().len() as int)
}

/// A name is a placeholder's exactly when it is that of what it is the placeholder of.
pub proof fn phantom_round_trip(name: Seq<char>)
    ensures
        is_phantom(phantom(name)),
        unphantom(phantom(name)) == name,
        is_phantom(name) ==> phantom(unphantom(name)) == name,
{
    assert(phantom(name).take(phantom_prefix().len() as int) =~= phantom_prefix());
    assert(unphantom(phantom(name)) =~= name);
    if is_phantom(name) {
        assert(phantom(unphantom(name)) =~= name);
    }
}

/// Whether two texts are the same.
pub fn same_text(a: &str, b: &str) -> (r: bool)
    ensures
        r == (a@ == b@),
{
    a.to_owned() == b.to_owned()
}

/// Writes the name of the placeholder of `name`.
pub fn phantom_name(name: &str) -> (r: String)
    ensures
        r@ == phantom(name@),
{
    let mut text = "__phantom_".to_owned();
    proof {
        reveal_strlit("__phantom_");
        assert("__phantom_"@ =~= phantom_prefix());
    }
    text.append(name);
    text
}

/// Whether `name` is the name of a placeholder.
pub fn names_phantom(name: &str) -> (r: bool)
    ensures
        r == is_phantom(name@),
{
    let prefix = "__phantom_";
    proof {
        reveal_strlit("__phantom_");
        assert(prefix@ =~= phantom_prefix());
    }
    if name.unicode_len() < 10 {
        return false;
    }
    let mut i: usize = 0;
    while i < 10
        invariant
            i <= 10,
            prefix@ == phantom_prefix(),
            name@.len() >= 10,
            forall|k: int| 0 <= k < i ==> name@[k] == prefix@[k],
        decreases 10 - i,
    {
        if name.get_char(i) != prefix.get_char(i) {
            proof {
                assert(name@.take(10)[i as int] == name@[i as int]);
            }
            return false;
        }
        i = i + 1;
    }
    proof {
        assert(name@.take(10) =~= phantom_prefix());
    }
    true
}

/// The name of a placeholder is `__phantom_` and what it is the placeholder of.
pub proof fn what_a_placeholder_is_called(name: Seq<char>)
    ensures
        phantom(name) == "__phantom_"@ + name,
        is_phantom(name) <==> exists|rest: Seq<char>| name == #[trigger] ("__phantom_"@ + rest),
{
    reveal_strlit("__phantom_");
    assert("__phantom_"@ =~= phantom_prefix());
    if is_phantom(name) {
        phantom_round_trip(name);
        assert(name == "__phantom_"@ + unphantom(name));
    }
    if exists|rest: Seq<char>| name == #[trigger] ("__phantom_"@ + rest) {
        let rest = choose|rest: Seq<char>| name == #[trigger] ("__phantom_"@ + rest);
        phantom_round_trip(rest);
    }
}

} // verus!
