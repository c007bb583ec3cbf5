//! What holds of the order in which the attributes of an element are written.

use vstd::prelude::*;

use crate::error::ErrorView;
use crate::grammar::{
    add_attribute, attribute_name, declared_prefix, open_element, resolve, run, AttributeView,
    HeadView, ParserView, Scope, StateView, XML_NAMESPACE,
};
use crate::lexer::{ReadView, TokenView};
use crate::name::{split, QNameView};
use crate::scoping::{at_fault, attributes_are_resolved_one_by_one};

verus! {

/// What stands at two places of a sequence stands at two places of every reordering of it.
proof fn pair_in_reordering<A>(a: Seq<A>, b: Seq<A>, i: int, j: int) -> (places: (int, int))
    requires
        a.to_multiset() == b.to_multiset(),
        0 <= i < b.len(),
        0 <= j < b.len(),
        i != j,
    ensures
        0 <= places.0 < a.len(),
        0 <= places.1 < a.len(),
        places.0 != places.1,
        a[places.0] == b[i],
        a[places.1] == b[j],
{
    a.to_multiset_ensures();
    b.to_multiset_ensures();
    assert(b.contains(b[i]));
    assert(a.to_multiset().count(b[i]) > 0);
    let k = choose|k: int| 0 <= k < a.len() && a[k] == b[i];
    let a_rest = a.remove(k);
    let b_rest = b.remove(i);
    a_rest.to_multiset_ensures();
    b_rest.to_multiset_ensures();
    assert(b_rest[if j < i {
        j
    } else {
        j - 1
    }] == b[j]);
    assert(b_rest.to_multiset().count(b[j]) > 0);
    assert(a_rest.to_multiset() == b_rest.to_multiset());
    assert(a_rest.contains(b[j]));
    let l = choose|l: int| 0 <= l < a_rest.len() && a_rest[l] == b[j];
    (
        k,
        if l < k {
            l
        } else {
            l + 1
        },
    )
}

proof fn place_in_reordering<A>(a: Seq<A>, b: Seq<A>, i: int) -> (place: int)
    requires
        a.to_multiset() == b.to_multiset(),
        0 <= i < b.len(),
    ensures
        0 <= place < a.len(),
        a[place] == b[i],
{
    a.to_multiset_ensures();
    b.to_multiset_ensures();
    assert(b.contains(b[i]));
    assert(a.to_multiset().count(b[i]) > 0);
    choose|k: int| 0 <= k < a.len() && a[k] == b[i]
}

proof fn reordered_attributes_resolve_alike(
    scopes: Seq<Scope>,
    a: Seq<AttributeView>,
    b: Seq<AttributeView>,
)
    requires
        a.to_multiset() == b.to_multiset(),
        resolve(scopes, a) is Ok,
    ensures
        resolve(scopes, b) == resolve(scopes, a),
{
    attributes_are_resolved_one_by_one(scopes, a);
    attributes_are_resolved_one_by_one(scopes, b);
    let map = resolve(scopes, a)->Ok_0;
    if resolve(scopes, b) is Err {
        let i = choose|i: int| 0 <= i < b.len() && #[trigger] at_fault(scopes, b, i);
        let name = attribute_name(scopes, b[i].name);
        if name is None {
            let k = place_in_reordering(a, b, i);
            assert(at_fault(scopes, a, k));
        } else {
            let j = choose|j: int|
                0 <= j < i && attribute_name(scopes, #[trigger] b[j].name) == name;
            let (k, l) = pair_in_reordering(a, b, i, j);
            assert(attribute_name(scopes, a[k].name) == attribute_name(scopes, a[l].name));
            assert(at_fault(
                scopes,
                a,
                if k < l {
                    l
                } else {
                    k
                },
            ));
        }
    } else {
        let other = resolve(scopes, b)->Ok_0;
        assert forall|name: QNameView| #[trigger] map.contains_key(name) implies other.contains_key(
            name,
        ) && other[name] == map[name] by {
            let i = choose|i: int|
                0 <= i < a.len() && attribute_name(scopes, (#[trigger] a[i]).name) == Some(name);
            let k = place_in_reordering(b, a, i);
            assert(attribute_name(scopes, b[k].name) == Some(name));
        }
        assert forall|name: QNameView| #[trigger] other.contains_key(name) implies map.contains_key(
            name,
        ) by {
            let i = choose|i: int|
                0 <= i < b.len() && attribute_name(scopes, (#[trigger] b[i]).name) == Some(name);
            let k = place_in_reordering(a, b, i);
            assert(attribute_name(scopes, a[k].name) == Some(name));
        }
        assert(other =~= map);
    }
}

/// The parser with other attributes in the head that is being read.
pub open spec fn with_attributes(p: ParserView, attributes: Seq<AttributeView>) -> ParserView {
    ParserView { head: Some(HeadView { attributes, ..p.head->0 }), ..p }
}

/// Another order of the attributes in a head changes neither whether the element can be opened
/// nor anything of the opened element, its start event included. Only which error is told may
/// change where there is more than one.
pub proof fn order_of_attributes_does_not_matter(p: ParserView, attributes: Seq<AttributeView>)
    requires
        p.head is Some,
        attributes.to_multiset() == p.head->0.attributes.to_multiset(),
    ensures
        open_element(with_attributes(p, attributes)) is Ok <==> open_element(p) is Ok,
        open_element(p) is Ok ==> open_element(with_attributes(p, attributes)) == open_element(p),
{
    let scopes = p.scopes.push(p.head->0.decls);
    if resolve(scopes, p.head->0.attributes) is Ok {
        reordered_attributes_resolve_alike(scopes, p.head->0.attributes, attributes);
    }
    if resolve(scopes, attributes) is Ok {
        reordered_attributes_resolve_alike(scopes, attributes, p.head->0.attributes);
    }
}

/// A name, `=` and a value add an attribute to the head of an element, if the name can be split.
pub proof fn three_tokens_make_an_attribute(p: ParserView, name: Seq<char>, value: Seq<char>)
    requires
        p.state is AttrName,
    ensures
        run(
            p,
            seq![
                Ok(Some(TokenView::Name(name))),
                Ok(Some(TokenView::Eq)),
                Ok(Some(TokenView::AttributeValue(value))),
            ],
        ) == match split(name) {
            Ok(name) => add_attribute(p, name, value),
            Err(e) => Err(e),
        },
{
    let a: Seq<ReadView> = seq![Ok(Some(TokenView::Name(name)))];
    let ab = a.push(Ok(Some(TokenView::Eq)));
    let abc = ab.push(Ok(Some(TokenView::AttributeValue(value))));
    assert(run(p, a.drop_last()) == Ok::<ParserView, ErrorView>(p));
    assert(ab.drop_last() =~= a);
    assert(abc.drop_last() =~= ab);
    if let Ok(parts) = split(name) {
        assert(run(p, a) == Ok::<ParserView, ErrorView>(p.at(StateView::AttrEq(parts))));
        assert(run(p, ab) == Ok::<ParserView, ErrorView>(p.at(StateView::AttrValue(parts))));
    } else {
        assert(run(p, a) is Err);
        assert(run(p, ab) is Err);
    }
    assert(abc =~= seq![
        Ok(Some(TokenView::Name(name))),
        Ok(Some(TokenView::Eq)),
        Ok(Some(TokenView::AttributeValue(value))),
    ]);
}

/// A row of attributes, namespace declarations among them, in the head of an element.
pub open spec fn add_attributes(p: ParserView, written: Seq<AttributeView>) -> Result<
    ParserView,
    ErrorView,
>
    decreases written.len(),
{
    if written.len() == 0 {
        Ok(p)
    } else {
        match add_attributes(p, written.drop_last()) {
            Err(e) => Err(e),
            Ok(q) => add_attribute(q, written.last().name, written.last().value),
        }
    }
}

/// The head of an element with the given attributes, to its end.
pub open spec fn open_with(p: ParserView, written: Seq<AttributeView>) -> Result<
    ParserView,
    ErrorView,
> {
    match add_attributes(p, written) {
        Err(e) => Err(e),
        Ok(q) => open_element(q),
    }
}

/// The attribute is not a namespace declaration.
spec fn plain(attribute: AttributeView) -> bool {
    attribute.name.0 != Some("xmlns"@) && !(attribute.name.0 is None && attribute.name.1
        == "xmlns"@)
}

/// The attribute is a declaration of a reserved prefix.
spec fn reserved(attribute: AttributeView) -> bool {
    attribute.name.0 == Some("xmlns"@) && (attribute.name.1 == "xmlns"@ || attribute.name.1
        == "xml"@)
}

/// The prefix that the attribute declares. A declaration of a reserved prefix declares nothing.
spec fn declared(attribute: AttributeView) -> Option<Seq<char>> {
    declared_prefix(attribute.name)
}

/// The attribute at `i` is refused as soon as it is read.
spec fn refused(written: Seq<AttributeView>, i: int) -> bool {
    let attribute = written[i];
    ||| reserved(attribute) && (attribute.name.1 == "xmlns"@ || attribute.value != XML_NAMESPACE@)
    ||| declared(attribute) is Some && exists|j: int|
        0 <= j < i && declared(#[trigger] written[j]) == declared(attribute)
}

/// What the attributes make of a head that had none.
spec fn added(p: ParserView, written: Seq<AttributeView>, q: ParserView) -> bool {
    let decls = q.head->0.decls;
    &&& q == (ParserView {
        head: Some(
            HeadView {
                name: p.head->0.name,
                attributes: written.filter(|a: AttributeView| plain(a)),
                decls,
            },
        ),
        ..p
    })
    &&& forall|i: int| 0 <= i < written.len() ==> !refused(written, i)
    &&& forall|i: int|
        0 <= i < written.len() && declared(#[trigger] written[i]) is Some ==> decls.contains_key(
            declared(written[i])->0,
        ) && decls[declared(written[i])->0] == written[i].value
    &&& forall|prefix: Seq<char>| #[trigger]
        decls.contains_key(prefix) ==> exists|i: int|
            0 <= i < written.len() && declared(#[trigger] written[i]) == Some(prefix)
}

proof fn attributes_are_added_one_by_one(p: ParserView, written: Seq<AttributeView>)
    requires
        p.state is AttrName,
        p.head is Some,
        p.head->0.attributes.len() == 0,
        p.head->0.decls == Map::<Seq<char>, Seq<char>>::empty(),
    ensures
        match add_attributes(p, written) {
            Ok(q) => added(p, written, q),
            Err(_) => exists|i: int| 0 <= i < written.len() && #[trigger] refused(written, i),
        },
    decreases written.len(),
{
    reveal(Seq::filter);
    if written.len() == 0 {
        assert(p.head->0.attributes =~= written.filter(|a: AttributeView| plain(a)));
    } else {
        let rest = written.drop_last();
        let n = rest.len() as int;
        attributes_are_added_one_by_one(p, rest);
        assert forall|i: int| 0 <= i < n implies refused(written, i) == refused(rest, i) by {
            if refused(written, i) && !refused(rest, i) {
                let j = choose|j: int|
                    0 <= j < i && declared(#[trigger] written[j]) == declared(written[i]);
                assert(declared(rest[j]) == declared(rest[i]));
            }
            if refused(rest, i) && !refused(written, i) {
                let j = choose|j: int|
                    0 <= j < i && declared(#[trigger] rest[j]) == declared(rest[i]);
                assert(declared(written[j]) == declared(written[i]));
            }
        }
        match add_attributes(p, rest) {
            Err(_) => {
                let i = choose|i: int| 0 <= i < rest.len() && #[trigger] refused(rest, i);
                assert(refused(written, i));
            },
            Ok(m) => {
                let last = written[n];
                if declared(last) is Some && m.head->0.decls.contains_key(declared(last)->0) {
                    let j = choose|j: int|
                        0 <= j < n && declared(#[trigger] rest[j]) == declared(last);
                    assert(declared(written[j]) == declared(last));
                    assert(refused(written, n));
                } else if add_attribute(m, last.name, last.value) is Err {
                    assert(refused(written, n));
                } else {
                    let q = add_attribute(m, last.name, last.value)->Ok_0;
                    if refused(written, n) {
                        let j = choose|j: int|
                            0 <= j < n && declared(#[trigger] written[j]) == declared(last);
                        assert(declared(rest[j]) == declared(last));
                        assert(false);
                    }
                    assert forall|i: int|
                        0 <= i < written.len() && declared(
                            #[trigger] written[i],
                        ) is Some implies q.head->0.decls.contains_key(declared(written[i])->0)
                        && q.head->0.decls[declared(written[i])->0] == written[i].value by {
                        if i < n {
                            assert(rest[i] == written[i]);
                        }
                    }
                    assert forall|prefix: Seq<char>| #[trigger]
                        q.head->0.decls.contains_key(prefix) implies exists|i: int|
                        0 <= i < written.len() && declared(#[trigger] written[i]) == Some(
                            prefix,
                        ) by {
                        if m.head->0.decls.contains_key(prefix) {
                            let i = choose|i: int|
                                0 <= i < n && declared(#[trigger] rest[i]) == Some(prefix);
                            assert(declared(written[i]) == Some(prefix));
                        } else {
                            assert(declared(written[n]) == Some(prefix));
                        }
                    }
                }
            },
        }
    }
}

proof fn filter_of_reordering<A>(a: Seq<A>, pred: spec_fn(A) -> bool)
    ensures
        a.filter(pred).to_multiset() == a.to_multiset().filter(pred),
    decreases a.len(),
{
    reveal(Seq::filter);
    a.to_multiset_ensures();
    if a.len() == 0 {
        a.filter(pred).to_multiset_ensures();
        assert(a.filter(pred).to_multiset() =~= a.to_multiset().filter(pred));
    } else {
        let rest = a.drop_last();
        filter_of_reordering(rest, pred);
        rest.to_multiset_ensures();
        rest.filter(pred).to_multiset_ensures();
        assert(a =~= rest.push(a.last()));
        assert(a.filter(pred).to_multiset() =~= a.to_multiset().filter(pred));
    }
}

proof fn reordered_head_opens_alike(
    p: ParserView,
    a: Seq<AttributeView>,
    b: Seq<AttributeView>,
)
    requires
        p.state is AttrName,
        p.head is Some,
        p.head->0.attributes.len() == 0,
        p.head->0.decls == Map::<Seq<char>, Seq<char>>::empty(),
        a.to_multiset() == b.to_multiset(),
        open_with(p, a) is Ok,
    ensures
        open_with(p, b) == open_with(p, a),
{
    attributes_are_added_one_by_one(p, a);
    attributes_are_added_one_by_one(p, b);
    let q = add_attributes(p, a)->Ok_0;
    if add_attributes(p, b) is Err {
        let i = choose|i: int| 0 <= i < b.len() && #[trigger] refused(b, i);
        if reserved(b[i]) {
            let k = place_in_reordering(a, b, i);
            assert(refused(a, k));
        } else {
            let j = choose|j: int| 0 <= j < i && declared(#[trigger] b[j]) == declared(b[i]);
            let (k, l) = pair_in_reordering(a, b, i, j);
            assert(declared(a[k]) == declared(a[l]));
            assert(refused(
                a,
                if k < l {
                    l
                } else {
                    k
                },
            ));
        }
    } else {
        let r = add_attributes(p, b)->Ok_0;
        let q_decls = q.head->0.decls;
        let r_decls = r.head->0.decls;
        assert forall|prefix: Seq<char>| #[trigger] q_decls.contains_key(
            prefix,
        ) implies r_decls.contains_key(prefix) && r_decls[prefix] == q_decls[prefix] by {
            let i = choose|i: int| 0 <= i < a.len() && declared(#[trigger] a[i]) == Some(prefix);
            let k = place_in_reordering(b, a, i);
            assert(declared(b[k]) == Some(prefix));
        }
        assert forall|prefix: Seq<char>| #[trigger] r_decls.contains_key(
            prefix,
        ) implies q_decls.contains_key(prefix) by {
            let i = choose|i: int| 0 <= i < b.len() && declared(#[trigger] b[i]) == Some(prefix);
            let k = place_in_reordering(a, b, i);
            assert(declared(a[k]) == Some(prefix));
        }
        assert(r_decls =~= q_decls);
        filter_of_reordering(a, |a: AttributeView| plain(a));
        filter_of_reordering(b, |a: AttributeView| plain(a));
        assert(r == with_attributes(q, r.head->0.attributes));
        order_of_attributes_does_not_matter(q, r.head->0.attributes);
    }
}

/// Another order in which the attributes of an element are written, the namespace declarations
/// among them, changes neither whether the element can be opened nor anything of the opened
/// element, its start event included.
pub proof fn order_in_head_does_not_matter(
    p: ParserView,
    written: Seq<AttributeView>,
    reordered: Seq<AttributeView>,
)
    requires
        p.state is AttrName,
        p.head is Some,
        p.head->0.attributes.len() == 0,
        p.head->0.decls == Map::<Seq<char>, Seq<char>>::empty(),
        written.to_multiset() == reordered.to_multiset(),
    ensures
        open_with(p, reordered) is Ok <==> open_with(p, written) is Ok,
        open_with(p, written) is Ok ==> open_with(p, reordered) == open_with(p, written),
{
    if open_with(p, written) is Ok {
        reordered_head_opens_alike(p, written, reordered);
    }
    if open_with(p, reordered) is Ok {
        reordered_head_opens_alike(p, reordered, written);
    }
}

} // verus!
