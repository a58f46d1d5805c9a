//! What decimal notation and version names denote.

use vstd::prelude::*;

#[allow(unused_imports)]
use crate::text::{
    base_of, decimal, is_decimal, is_number, is_version_of, joined, lemma_decimal_is_decimal,
    lemma_is_decimal_of, signed_decimal, versioned,
};

verus! {

/// The number that a text of decimal digits denotes.
pub open spec fn denoted(s: Seq<char>) -> int
    decreases s.len(),
{
    if s.len() == 0 {
        0
    } else {
        10 * denoted(s.drop_last()) + (s.last() as int - '0' as int)
    }
}

/// Decimal notation consists of the digits `0` to `9`, starts with a zero only for zero
/// itself, and denotes the number it was made from.
pub proof fn law_decimal_denotes(n: nat)
    ensures
        denoted(decimal(n)) == n,
        decimal(n).len() > 0,
        forall|i: int|
            0 <= i < decimal(n).len() ==> '0' as int <= (#[trigger] decimal(n)[i]) as int
                && decimal(n)[i] as int <= '9' as int,
        n > 0 ==> decimal(n)[0] != '0',
        n == 0 ==> decimal(n) =~= seq!['0'],
    decreases n,
{
    lemma_decimal_is_decimal(n);
    if n < 10 {
        assert(decimal(n).drop_last() =~= Seq::<char>::empty());
        assert(denoted(decimal(n).drop_last()) == 0);
    } else {
        law_decimal_denotes(n / 10);
        assert(decimal(n).drop_last() =~= decimal(n / 10));
    }
}

/// Different integers are written differently.
pub proof fn law_integers_written_apart(a: int, b: int)
    requires
        signed_decimal(a) == signed_decimal(b),
    ensures
        a == b,
{
    reveal_strlit("-");
    if a >= 0 {
        law_decimal_denotes(a as nat);
    } else {
        law_decimal_denotes((-a) as nat);
        assert(signed_decimal(a)[0] == '-');
        assert(signed_decimal(a).skip(1) =~= decimal((-a) as nat));
    }
    if b >= 0 {
        law_decimal_denotes(b as nat);
    } else {
        law_decimal_denotes((-b) as nat);
        assert(signed_decimal(b)[0] == '-');
        assert(signed_decimal(b).skip(1) =~= decimal((-b) as nat));
    }
}

/// The name of a version starts with the node's name, and ends with the version's number:
/// different versions of a node have different names.
pub proof fn law_versions_named_apart(name: Seq<char>, a: nat, b: nat)
    ensures
        versioned(name, a).len() > name.len(),
        versioned(name, a).take(name.len() as int) == name,
        denoted(versioned(name, a).skip(name.len() as int)) == a,
        versioned(name, a) == versioned(name, b) ==> a == b,
{
    law_decimal_denotes(a);
    law_decimal_denotes(b);
    assert(versioned(name, a).take(name.len() as int) =~= name);
    assert(versioned(name, a).skip(name.len() as int) =~= decimal(a));
    assert(versioned(name, b).skip(name.len() as int) =~= decimal(b));
}

/// The base of a name is the longest start of it that ends in no numeric character: what
/// is cut off is numeric, and only that.
pub proof fn law_base_cuts_numeric_end(name: Seq<char>)
    ensures
        base_of(name).len() <= name.len(),
        name.take(base_of(name).len() as int) == base_of(name),
        forall|i: int| base_of(name).len() <= i < name.len() ==> is_number(#[trigger] name[i]),
        base_of(name).len() > 0 ==> !is_number(base_of(name).last()),
    decreases name.len(),
{
    if name.len() > 0 && is_number(name.last()) {
        law_base_cuts_numeric_end(name.drop_last());
        assert(name.take(base_of(name).len() as int) =~= name.drop_last().take(
            base_of(name).len() as int,
        ));
        assert forall|i: int| base_of(name).len() <= i < name.len() implies is_number(
            #[trigger] name[i],
        ) by {
            if i < name.len() - 1 {
                assert(name.drop_last()[i] == name[i]);
            }
        }
    } else {
        assert(name.take(name.len() as int) =~= name);
    }
}

/// Each of the joined texts stands in the whole, preceded by the separator but for the
/// first, and what follows them is joined in the same way.
pub proof fn law_joined_in_order(list: Seq<Seq<char>>, sep: Seq<char>)
    requires
        list.len() > 0,
    ensures
        list.len() == 1 ==> joined(list, sep) == list[0],
        list.len() > 1 ==> joined(list, sep) == list[0] + sep + joined(list.skip(1), sep),
    decreases list.len(),
{
    if list.len() == 2 {
        assert(list.drop_last() =~= seq![list[0]]);
        assert(list.skip(1) =~= seq![list[1]]);
        assert(joined(list.drop_last(), sep) == list[0]);
        assert(joined(list.skip(1), sep) == list[1]);
        assert(list.last() == list[1]);
    } else if list.len() > 2 {
        law_joined_in_order(list.drop_last(), sep);
        assert(list.drop_last().skip(1) =~= list.skip(1).drop_last());
        assert(joined(list, sep) =~= list[0] + sep + joined(list.skip(1), sep));
    }
}

/// A name is a version of a node exactly where it is the node's name with a number behind
/// it, in digits and without leading zeros.
pub proof fn law_versions_are_names_with_numbers(name: Seq<char>, node: Seq<char>)
    ensures
        is_version_of(name, node) <==> {
            let rest = name.skip(node.len() as int);
            &&& name.len() > node.len()
            &&& name.take(node.len() as int) == node
            &&& forall|i: int|
                0 <= i < rest.len() ==> '0' as int <= (#[trigger] rest[i]) as int && rest[i] as int
                    <= '9' as int
            &&& rest.len() > 1 ==> rest[0] != '0'
        },
{
    let rest = name.skip(node.len() as int);
    if is_version_of(name, node) {
        let v = choose|v: nat| name == #[trigger] versioned(node, v);
        law_versions_named_apart(node, v, v);
        law_decimal_denotes(v);
        lemma_decimal_is_decimal(v);
        assert(rest =~= decimal(v));
    }
    if name.len() > node.len() && name.take(node.len() as int) == node && (forall|i: int|
        0 <= i < rest.len() ==> '0' as int <= (#[trigger] rest[i]) as int && rest[i] as int
            <= '9' as int) && (rest.len() > 1 ==> rest[0] != '0') {
        assert(is_decimal(rest));
        let v = lemma_is_decimal_of(rest);
        assert(name =~= versioned(node, v));
    }
}

/// Among the ASCII characters the ten digits count as numeric, and no others.
pub proof fn law_ascii_digits_are_numeric(c: char)
    requires
        (c as int) < 128,
    ensures
        is_number(c) <==> '0' as int <= c as int && c as int <= '9' as int,
{
}

} // verus!
