//! Laws of the JSON text of arguments.
use vstd::prelude::*;

use crate::arguments::{
    comes_before, is_listing, listing, members_text, no_members, object_text, string_text,
};
use crate::dsml::{self, Element};
use crate::schema::Json;
use crate::xml;

verus! {

/// No text comes before one that it comes behind.
proof fn lemma_order_is_strict(first: Seq<char>, second: Seq<char>)
    ensures
        !(comes_before(first, second) && comes_before(second, first)),
        !comes_before(first, first),
    decreases first.len(),
{
    if 0 < first.len() {
        if 0 < second.len() && first[0] == second[0] {
            lemma_order_is_strict(first.drop_first(), second.drop_first());
        } else {
            lemma_order_is_strict(first.drop_first(), first.drop_first());
        }
    }
}

/// Of two different texts one comes before the other.
proof fn lemma_order_is_total(first: Seq<char>, second: Seq<char>)
    ensures
        first == second || comes_before(first, second) || comes_before(second, first),
    decreases first.len(),
{
    if first.len() == 0 {
        if second.len() == 0 {
            assert(first == second);
        }
    } else if 0 < second.len() && first[0] == second[0] {
        lemma_order_is_total(first.drop_first(), second.drop_first());
        if first.drop_first() == second.drop_first() {
            assert(first == seq![first[0]] + first.drop_first());
            assert(second == seq![second[0]] + second.drop_first());
        }
    }
}

/// What comes before a text comes before those behind it.
proof fn lemma_order_is_transitive(first: Seq<char>, second: Seq<char>, third: Seq<char>)
    requires
        comes_before(first, second),
        comes_before(second, third),
    ensures
        comes_before(first, third),
    decreases first.len(),
{
    if 0 < first.len() && first[0] == second[0] && second[0] == third[0] {
        lemma_order_is_transitive(first.drop_first(), second.drop_first(), third.drop_first());
    }
}

/// There is no more than one listing of the names of members.
pub proof fn lemma_listing_is_unique(
    first: Seq<Seq<char>>,
    second: Seq<Seq<char>>,
    members: Map<Seq<char>, Seq<char>>,
)
    requires
        is_listing(first, members),
        is_listing(second, members),
    ensures
        first == second,
    decreases first.len(),
{
    if first.len() == 0 {
        if 0 < second.len() {
            assert(second.contains(second[0]));
            assert(first.contains(second[0]));
        }
        assert(first == second);
    } else {
        assert(first.contains(first[0]));
        assert(second.contains(first[0]));
        assert(second.contains(second[0]));
        assert(first.contains(second[0]));
        if first[0] != second[0] {
            assert(comes_before(first[0], second[0]));
            assert(comes_before(second[0], first[0]));
            lemma_order_is_strict(first[0], second[0]);
        }
        let fewer = members.remove(first[0]);
        lemma_listing_without_first(first, members);
        lemma_listing_without_first(second, members);
        lemma_listing_is_unique(first.drop_first(), second.drop_first(), fewer);
        assert(first == seq![first[0]] + first.drop_first());
        assert(second == seq![second[0]] + second.drop_first());
    }
}

/// Without its first name, a listing lists the other members.
proof fn lemma_listing_without_first(names: Seq<Seq<char>>, members: Map<Seq<char>, Seq<char>>)
    requires
        is_listing(names, members),
        0 < names.len(),
    ensures
        is_listing(names.drop_first(), members.remove(names[0])),
{
    let others = names.drop_first();
    let fewer = members.remove(names[0]);
    assert forall|name: Seq<char>| #[trigger]
        others.contains(name) <==> fewer.contains_key(name) by {
        if others.contains(name) {
            let i = choose|i: int| 0 <= i < others.len() && others[i] == name;
            assert(names[i + 1] == name);
            assert(names.contains(name));
            assert(comes_before(names[0], names[i + 1]));
            lemma_order_is_strict(names[0], names[0]);
        }
        if fewer.contains_key(name) {
            assert(names.contains(name));
            let i = choose|i: int| 0 <= i < names.len() && names[i] == name;
            assert(others[i - 1] == name);
        }
    }
}

/// The names of finitely many members can be listed.
pub proof fn lemma_listing(members: Map<Seq<char>, Seq<char>>)
    requires
        members.dom().finite(),
    ensures
        is_listing(listing(members), members),
    decreases members.dom().len(),
{
    if members.dom().len() == 0 {
        let none = Seq::<Seq<char>>::empty();
        assert(members.dom() == Set::<Seq<char>>::empty());
        assert(is_listing(none, members));
    } else {
        let name = members.dom().choose();
        let fewer = members.remove(name);
        lemma_listing(fewer);
        let others = listing(fewer);
        lemma_listing_with(others, name, members, 0);
    }
}

/// Into a listing of the other members, a name can be put; those in front of `from` come before it.
proof fn lemma_listing_with(
    others: Seq<Seq<char>>,
    name: Seq<char>,
    members: Map<Seq<char>, Seq<char>>,
    from: int,
)
    requires
        members.contains_key(name),
        is_listing(others, members.remove(name)),
        0 <= from <= others.len(),
        forall|i: int| 0 <= i < from ==> comes_before(#[trigger] others[i], name),
    ensures
        exists|names: Seq<Seq<char>>| is_listing(names, members),
    decreases others.len() - from,
{
    if from < others.len() && comes_before(others[from], name) {
        lemma_listing_with(others, name, members, from + 1);
    } else {
        if from < others.len() {
            assert(others.contains(others[from]));
            lemma_order_is_total(others[from], name);
        }
        assert forall|i: int| from <= i < others.len() implies comes_before(
            name,
            #[trigger] others[i],
        ) by {
            if from < i {
                assert(comes_before(others[from], others[i]));
                lemma_order_is_transitive(name, others[from], others[i]);
            }
        }
        lemma_inserted(others, name, members, from);
    }
}

/// A name that stands behind the names that come before it, and in front of the others, makes a
/// listing complete.
proof fn lemma_inserted(
    others: Seq<Seq<char>>,
    name: Seq<char>,
    members: Map<Seq<char>, Seq<char>>,
    at: int,
)
    requires
        members.contains_key(name),
        is_listing(others, members.remove(name)),
        0 <= at <= others.len(),
        forall|i: int| 0 <= i < at ==> comes_before(#[trigger] others[i], name),
        forall|i: int| at <= i < others.len() ==> comes_before(name, #[trigger] others[i]),
    ensures
        is_listing(others.insert(at, name), members),
{
    let names = others.insert(at, name);
    let fewer = members.remove(name);
    assert forall|i: int, j: int| 0 <= i < j < names.len() implies comes_before(
        #[trigger] names[i],
        #[trigger] names[j],
    ) by {
        let first = if i < at { i } else { i - 1 };
        let second = if j < at { j } else { j - 1 };
        if i != at && j != at {
            assert(comes_before(others[first], others[second]));
        }
    }
    assert forall|other: Seq<char>| #[trigger]
        names.contains(other) <==> members.contains_key(other) by {
        if names.contains(other) {
            let i = choose|i: int| 0 <= i < names.len() && names[i] == other;
            if i != at {
                assert(others[if i < at { i } else { i - 1 }] == other);
                assert(others.contains(other));
                assert(fewer.contains_key(other));
            }
        }
        if members.contains_key(other) {
            if other == name {
                assert(names[at] == other);
            } else {
                assert(fewer.contains_key(other));
                assert(others.contains(other));
                let i = choose|i: int| 0 <= i < others.len() && others[i] == other;
                assert(names[if i < at { i } else { i + 1 }] == other);
            }
        }
    }
}

/// Without members, the text of an object is `{}`.
pub proof fn lemma_no_members()
    ensures
        object_text(no_members()) == "{}"@,
{
    reveal_strlit("{}");
    assert(no_members().dom() == Set::<Seq<char>>::empty());
    lemma_listing(no_members());
    let names = listing(no_members());
    if 0 < names.len() {
        assert(names.contains(names[0]));
    }
    assert(object_text(no_members()) == "{}"@);
}

/// With one member, the text of an object is its name, a colon and the text of its value, in braces.
pub proof fn lemma_one_member(name: Seq<char>, value: Seq<char>)
    ensures
        object_text(no_members().insert(name, value)) == seq!['{'] + (string_text(name) + seq![':']
            + value) + seq!['}'],
{
    let members = no_members().insert(name, value);
    let one = seq![name];
    assert forall|other: Seq<char>| #[trigger]
        one.contains(other) <==> members.contains_key(other) by {
        assert(one[0] == name);
    }
    assert(is_listing(one, members));
    lemma_listing_is_unique(one, listing(members), members);
    assert(members_text(one, members) == string_text(name) + seq![':'] + value);
}

/// The arguments of a call in XML style are finitely many, so that their names can be listed.
pub proof fn lemma_xml_arguments_are_finite(
    elements: Seq<(Seq<char>, Seq<char>)>,
    declared: Seq<(String, Json)>,
)
    ensures
        xml::arguments_of(elements, declared).dom().finite(),
    decreases elements.len(),
{
    if 0 < elements.len() {
        lemma_xml_arguments_are_finite(elements.drop_last(), declared);
    }
}

/// The arguments of a call in DSML are finitely many, so that their names can be listed.
pub proof fn lemma_dsml_arguments_are_finite(elements: Seq<Element>)
    ensures
        dsml::arguments_of(elements).dom().finite(),
    decreases elements.len(),
{
    if 0 < elements.len() {
        lemma_dsml_arguments_are_finite(elements.drop_last());
    }
}

} // verus!
