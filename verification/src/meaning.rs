//! What the names of elements and attributes mean, and what is told of them.

use vstd::prelude::*;

use crate::error::{ErrorView, ERRCTX_ATTNAME, ERRCTX_ELEMENT};
use crate::event::EventView;
use crate::grammar::{
    attribute_name, element_name, lookup, open_element, resolve, AttributeView, ParserView, Scope,
};
use crate::name::QNameView;
use crate::scoping::{
    at_fault, attributes_are_resolved_one_by_one, prefix_stands_for_innermost_declaration,
};

verus! {

/// Some element in scope declares `prefix` as `uri`, and no element further in declares it.
pub open spec fn declared_as(scopes: Seq<Scope>, prefix: Seq<char>, uri: Seq<char>) -> bool {
    exists|i: int|
        {
            &&& 0 <= i < scopes.len()
            &&& #[trigger] scopes[i].contains_key(prefix)
            &&& scopes[i][prefix] == uri
            &&& forall|j: int|
                i < j < scopes.len() ==> !(#[trigger] scopes[j].contains_key(prefix))
        }
}

/// No element in scope declares `prefix`.
pub open spec fn undeclared(scopes: Seq<Scope>, prefix: Seq<char>) -> bool {
    forall|i: int| 0 <= i < scopes.len() ==> !(#[trigger] scopes[i].contains_key(prefix))
}

/// A prefix on a name stands for `uri`.
pub open spec fn stands_for(scopes: Seq<Scope>, prefix: Seq<char>, uri: Seq<char>) -> bool {
    if prefix == "xml"@ {
        uri == "http://www.w3.org/XML/1998/namespace"@
    } else {
        declared_as(scopes, prefix, uri)
    }
}

/// A prefix on a name stands for nothing.
pub open spec fn stands_for_nothing(scopes: Seq<Scope>, prefix: Seq<char>) -> bool {
    prefix != "xml"@ && undeclared(scopes, prefix)
}

/// What the name of an attribute means: the local part as it is written, and the URI that the
/// prefix stands for, where there is a prefix.
pub open spec fn attribute_means(
    scopes: Seq<Scope>,
    written: QNameView,
    name: QNameView,
) -> bool {
    &&& name.1 == written.1
    &&& match written.0 {
        Some(prefix) => name.0 matches Some(uri) && stands_for(scopes, prefix, uri),
        None => name.0 is None,
    }
}

/// What the name of an element means: the local part as it is written, and the URI that the
/// prefix stands for; where there is no prefix, the default namespace, if one is declared.
pub open spec fn element_means(scopes: Seq<Scope>, written: QNameView, name: QNameView) -> bool {
    &&& name.1 == written.1
    &&& match (written.0, name.0) {
        (Some(prefix), Some(uri)) => stands_for(scopes, prefix, uri),
        (Some(_), None) => false,
        (None, Some(uri)) => declared_as(scopes, Seq::empty(), uri),
        (None, None) => undeclared(scopes, Seq::empty()),
    }
}

/// The prefix of a name, if it has one, stands for nothing.
pub open spec fn meaningless(scopes: Seq<Scope>, written: QNameView) -> bool {
    written.0 matches Some(prefix) && stands_for_nothing(scopes, prefix)
}

proof fn lookup_finds_nothing(scopes: Seq<Scope>, prefix: Seq<char>)
    requires
        prefix != "xml"@,
    ensures
        lookup(scopes, prefix) is None <==> undeclared(scopes, prefix),
    decreases scopes.len(),
{
    if scopes.len() > 0 {
        let rest = scopes.drop_last();
        let n = rest.len() as int;
        lookup_finds_nothing(rest, prefix);
        assert(scopes[n] == scopes.last());
        if undeclared(rest, prefix) && !scopes.last().contains_key(prefix) {
            assert forall|i: int| 0 <= i < scopes.len() implies !(
            #[trigger] scopes[i].contains_key(prefix)) by {
                if i < n {
                    assert(!rest[i].contains_key(prefix));
                }
            }
        }
        if undeclared(scopes, prefix) {
            assert forall|i: int| 0 <= i < rest.len() implies !(
            #[trigger] rest[i].contains_key(prefix)) by {
                assert(!scopes[i].contains_key(prefix));
            }
        }
    }
}

proof fn lookup_finds(scopes: Seq<Scope>, prefix: Seq<char>)
    ensures
        lookup(scopes, prefix) is None <==> stands_for_nothing(scopes, prefix),
        forall|uri: Seq<char>|
            lookup(scopes, prefix) == Some(uri) <==> #[trigger] stands_for(scopes, prefix, uri),
{
    if prefix != "xml"@ {
        lookup_finds_nothing(scopes, prefix);
        assert forall|uri: Seq<char>|
            lookup(scopes, prefix) == Some(uri) <==> #[trigger] stands_for(
                scopes,
                prefix,
                uri,
            ) by {
            prefix_stands_for_innermost_declaration(scopes, prefix, uri);
        }
    }
}

/// A prefix other than `xml` stands for one URI at most: the one that the innermost element to
/// declare it gives it. It stands for none exactly if no element in scope declares it.
pub proof fn prefix_means_one_namespace(scopes: Seq<Scope>, prefix: Seq<char>)
    ensures
        undeclared(scopes, prefix) <==> !exists|uri: Seq<char>| declared_as(scopes, prefix, uri),
        forall|a: Seq<char>, b: Seq<char>|
            #![trigger declared_as(scopes, prefix, a), declared_as(scopes, prefix, b)]
            declared_as(scopes, prefix, a) && declared_as(scopes, prefix, b) ==> a == b,
    decreases scopes.len(),
{
    if !undeclared(scopes, prefix) {
        let n = scopes.len() - 1;
        let rest = scopes.drop_last();
        if scopes[n].contains_key(prefix) {
            assert(declared_as(scopes, prefix, scopes[n][prefix]));
        } else {
            let i = choose|i: int| 0 <= i < scopes.len() && scopes[i].contains_key(prefix);
            assert(rest[i].contains_key(prefix));
            prefix_means_one_namespace(rest, prefix);
            let uri = choose|uri: Seq<char>| declared_as(rest, prefix, uri);
            let k = choose|k: int|
                {
                    &&& 0 <= k < rest.len()
                    &&& #[trigger] rest[k].contains_key(prefix)
                    &&& rest[k][prefix] == uri
                    &&& forall|j: int|
                        k < j < rest.len() ==> !(#[trigger] rest[j].contains_key(prefix))
                };
            assert(scopes[k].contains_key(prefix));
            assert forall|j: int| k < j < scopes.len() implies !(
            #[trigger] scopes[j].contains_key(prefix)) by {
                if j < n {
                    assert(!rest[j].contains_key(prefix));
                }
            }
            assert(declared_as(scopes, prefix, uri));
        }
    }
}

/// An attribute with a prefix other than `xml` resolves to a URI exactly if some element in scope,
/// however far out, declares the prefix as that URI and no element further in declares it at all.
/// With the prefix `xml` it resolves to the XML namespace, without a prefix to no namespace. The
/// local part is kept. It cannot be resolved exactly if its prefix is declared nowhere.
pub proof fn attribute_name_means_innermost_declaration(
    scopes: Seq<Scope>,
    written: QNameView,
    name: QNameView,
)
    ensures
        attribute_name(scopes, written) == Some(name) <==> {
            &&& name.1 == written.1
            &&& written.0 is None ==> name.0 is None
            &&& written.0 == Some("xml"@) ==> name.0 == Some(
                "http://www.w3.org/XML/1998/namespace"@,
            )
            &&& written.0 is Some && written.0 != Some("xml"@) ==> name.0 is Some && exists|i: int|
                {
                    &&& 0 <= i < scopes.len()
                    &&& #[trigger] scopes[i].contains_key(written.0->0)
                    &&& scopes[i][written.0->0] == name.0->0
                    &&& forall|j: int|
                        i < j < scopes.len() ==> !(#[trigger] scopes[j].contains_key(
                            written.0->0,
                        ))
                }
        },
        attribute_name(scopes, written) is None <==> {
            &&& written.0 is Some
            &&& written.0 != Some("xml"@)
            &&& forall|i: int|
                0 <= i < scopes.len() ==> !(#[trigger] scopes[i].contains_key(written.0->0))
        },
{
    if let Some(prefix) = written.0 {
        lookup_finds(scopes, prefix);
        if let Some(uri) = name.0 {
            assert(lookup(scopes, prefix) == Some(uri) <==> stands_for(scopes, prefix, uri));
        }
    }
}

proof fn attribute_name_is_what_it_means(scopes: Seq<Scope>, written: QNameView)
    ensures
        attribute_name(scopes, written) is None <==> meaningless(scopes, written),
        forall|name: QNameView|
            attribute_name(scopes, written) == Some(name) <==> #[trigger] attribute_means(
                scopes,
                written,
                name,
            ),
{
    if let Some(prefix) = written.0 {
        lookup_finds(scopes, prefix);
    }
}

proof fn element_name_is_what_it_means(scopes: Seq<Scope>, written: QNameView)
    ensures
        element_name(scopes, written) is None <==> meaningless(scopes, written),
        forall|name: QNameView|
            element_name(scopes, written) == Some(name) <==> #[trigger] element_means(
                scopes,
                written,
                name,
            ),
{
    match written.0 {
        Some(prefix) => {
            lookup_finds(scopes, prefix);
        },
        None => {
            let none = Seq::<char>::empty();
            reveal_strlit("xml");
            assert("xml"@.len() == 3);
            lookup_finds(scopes, none);
            assert forall|uri: Seq<char>|
                lookup(scopes, none) == Some(uri) <==> #[trigger] declared_as(
                    scopes,
                    none,
                    uri,
                ) by {
                assert(lookup(scopes, none) == Some(uri) <==> stands_for(scopes, none, uri));
            }
        },
    }
}

/// The start of an element is told with the name of the element resolved by the declarations in
/// scope, its own included. A prefix stands for the URI of its innermost declaration, whatever
/// else is declared; without a prefix the element is in the innermost default namespace, or in
/// none if none is declared. If the prefix is declared nowhere, the element is refused.
pub proof fn start_is_told_with_the_resolved_name(p: ParserView)
    requires
        p.head is Some,
    ensures
        ({
            let head = p.head->0;
            let scopes = p.scopes.push(head.decls);
            match open_element(p) {
                Ok(q) => {
                    &&& q.queue.len() == p.queue.len() + 1
                    &&& forall|i: int|
                        0 <= i < p.queue.len() ==> #[trigger] q.queue[i] == p.queue[i]
                    &&& q.queue.last() matches EventView::StartElement(name, _)
                    &&& element_means(scopes, head.name, name)
                    &&& !meaningless(scopes, head.name)
                },
                Err(e) => meaningless(scopes, head.name) ==> e
                    == ErrorView::UndeclaredNamesacePrefix(ERRCTX_ELEMENT@),
            }
        }),
        meaningless(p.scopes.push(p.head->0.decls), p.head->0.name) ==> open_element(p) is Err,
{
    let head = p.head->0;
    let scopes = p.scopes.push(head.decls);
    element_name_is_what_it_means(scopes, head.name);
    if let Some(name) = element_name(scopes, head.name) {
        assert(element_means(scopes, head.name, name));
    }
}

/// The attributes that are told: each one that was written, under the name that it means and with
/// the value as it was written, and no others.
pub open spec fn attributes_told(
    scopes: Seq<Scope>,
    written: Seq<AttributeView>,
    told: Map<QNameView, Seq<char>>,
) -> bool {
    &&& told.dom().finite()
    &&& told.len() == written.len()
    &&& forall|i: int, name: QNameView|
        0 <= i < written.len() && #[trigger] attribute_means(scopes, written[i].name, name)
            ==> told.contains_key(name) && told[name] == written[i].value
    &&& forall|name: QNameView| #[trigger]
        told.contains_key(name) ==> exists|i: int|
            {
                &&& 0 <= i < written.len()
                &&& attribute_means(scopes, (#[trigger] written[i]).name, name)
                &&& told[name] == written[i].value
            }
}

/// Two attributes that were written mean the same name.
pub open spec fn mean_the_same(scopes: Seq<Scope>, a: QNameView, b: QNameView) -> bool {
    exists|name: QNameView| #[trigger]
        attribute_means(scopes, a, name) && attribute_means(scopes, b, name)
}

/// The attribute at `i` makes its element unacceptable: its prefix stands for nothing, or it means
/// the same name as one before it.
pub open spec fn unacceptable(scopes: Seq<Scope>, written: Seq<AttributeView>, i: int) -> bool {
    ||| meaningless(scopes, written[i].name)
    ||| exists|j: int|
        0 <= j < i && mean_the_same(scopes, (#[trigger] written[j]).name, written[i].name)
}

proof fn fault_is_lack_of_meaning(scopes: Seq<Scope>, written: Seq<AttributeView>, i: int)
    requires
        0 <= i < written.len(),
    ensures
        at_fault(scopes, written, i) <==> unacceptable(scopes, written, i),
{
    let name = attribute_name(scopes, written[i].name);
    attribute_name_is_what_it_means(scopes, written[i].name);
    assert forall|j: int| 0 <= j < i && name is Some implies (attribute_name(
        scopes,
        #[trigger] written[j].name,
    ) == name <==> mean_the_same(scopes, written[j].name, written[i].name)) by {
        attribute_name_is_what_it_means(scopes, written[j].name);
        if attribute_name(scopes, written[j].name) == name {
            assert(attribute_means(scopes, written[j].name, name->0));
            assert(attribute_means(scopes, written[i].name, name->0));
        }
    }
    if name is Some {
        if at_fault(scopes, written, i) {
            let j = choose|j: int|
                0 <= j < i && attribute_name(scopes, #[trigger] written[j].name) == name;
            assert(mean_the_same(scopes, written[j].name, written[i].name));
        }
        if unacceptable(scopes, written, i) {
            let j = choose|j: int|
                0 <= j < i && mean_the_same(
                    scopes,
                    (#[trigger] written[j]).name,
                    written[i].name,
                );
            assert(attribute_name(scopes, written[j].name) == name);
        }
    }
}

proof fn what_is_resolved_is_acceptable(scopes: Seq<Scope>, written: Seq<AttributeView>, i: int)
    requires
        resolve(scopes, written) is Ok,
        0 <= i < written.len(),
    ensures
        !unacceptable(scopes, written, i),
{
    attributes_are_resolved_one_by_one(scopes, written);
    fault_is_lack_of_meaning(scopes, written, i);
}

proof fn what_is_resolved_is_told(scopes: Seq<Scope>, written: Seq<AttributeView>)
    requires
        resolve(scopes, written) is Ok,
    ensures
        attributes_told(scopes, written, resolve(scopes, written)->Ok_0),
{
    let told = resolve(scopes, written)->Ok_0;
    attributes_are_resolved_one_by_one(scopes, written);
    assert forall|i: int, name: QNameView|
        0 <= i < written.len() && #[trigger] attribute_means(
            scopes,
            written[i].name,
            name,
        ) implies told.contains_key(name) && told[name] == written[i].value by {
        attribute_name_is_what_it_means(scopes, written[i].name);
        assert(attribute_name(scopes, written[i].name) == Some(name));
    }
    assert forall|name: QNameView| #[trigger] told.contains_key(name) implies exists|i: int|
        {
            &&& 0 <= i < written.len()
            &&& attribute_means(scopes, (#[trigger] written[i]).name, name)
            &&& told[name] == written[i].value
        } by {
        let i = choose|i: int|
            0 <= i < written.len() && attribute_name(scopes, (#[trigger] written[i]).name) == Some(
                name,
            );
        attribute_name_is_what_it_means(scopes, written[i].name);
        assert(attribute_means(scopes, written[i].name, name));
    }
}

proof fn what_is_not_resolved_is_unacceptable(scopes: Seq<Scope>, written: Seq<AttributeView>) -> (i:
    int)
    requires
        resolve(scopes, written) is Err,
    ensures
        0 <= i < written.len(),
        unacceptable(scopes, written, i),
        forall|j: int| 0 <= j < i ==> !#[trigger] unacceptable(scopes, written, j),
        resolve(scopes, written)->Err_0 == if meaningless(scopes, written[i].name) {
            ErrorView::UndeclaredNamesacePrefix(ERRCTX_ATTNAME@)
        } else {
            ErrorView::DuplicateAttribute
        },
{
    let e = resolve(scopes, written)->Err_0;
    attributes_are_resolved_one_by_one(scopes, written);
    let i = choose|i: int|
        {
            &&& 0 <= i < written.len()
            &&& #[trigger] at_fault(scopes, written, i)
            &&& forall|j: int| 0 <= j < i ==> !at_fault(scopes, written, j)
            &&& e == if attribute_name(scopes, written[i].name) is None {
                ErrorView::UndeclaredNamesacePrefix(ERRCTX_ATTNAME@)
            } else {
                ErrorView::DuplicateAttribute
            }
        };
    attribute_name_is_what_it_means(scopes, written[i].name);
    fault_is_lack_of_meaning(scopes, written, i);
    assert forall|j: int| 0 <= j < i implies !#[trigger] unacceptable(scopes, written, j) by {
        assert(!at_fault(scopes, written, j));
        fault_is_lack_of_meaning(scopes, written, j);
    }
    i
}

/// The start of an element is told, at whatever depth, with exactly one entry for each attribute
/// that was written in its head, under the name that it means and with the value as it was
/// written, and with no other entry. Attributes whose prefix stands for nothing, or that mean the
/// same name as one before them, are refused, and nothing else is.
pub proof fn start_is_told_with_all_attributes(p: ParserView)
    requires
        p.head is Some,
    ensures
        ({
            let head = p.head->0;
            let scopes = p.scopes.push(head.decls);
            match open_element(p) {
                Ok(q) => {
                    &&& q.queue.len() == p.queue.len() + 1
                    &&& q.queue.last() matches EventView::StartElement(_, told)
                    &&& attributes_told(scopes, head.attributes, told)
                    &&& forall|i: int|
                        0 <= i < head.attributes.len() ==> !#[trigger] unacceptable(
                            scopes,
                            head.attributes,
                            i,
                        )
                },
                Err(e) => {
                    ||| meaningless(scopes, head.name)
                    ||| exists|i: int|
                        {
                            &&& 0 <= i < head.attributes.len()
                            &&& #[trigger] unacceptable(scopes, head.attributes, i)
                            &&& forall|j: int|
                                0 <= j < i ==> !#[trigger] unacceptable(
                                    scopes,
                                    head.attributes,
                                    j,
                                )
                            &&& e == if meaningless(scopes, head.attributes[i].name) {
                                ErrorView::UndeclaredNamesacePrefix(ERRCTX_ATTNAME@)
                            } else {
                                ErrorView::DuplicateAttribute
                            }
                        }
                },
            }
        }),
{
    let head = p.head->0;
    let scopes = p.scopes.push(head.decls);
    element_name_is_what_it_means(scopes, head.name);
    if resolve(scopes, head.attributes) is Ok {
        what_is_resolved_is_told(scopes, head.attributes);
        assert forall|i: int| 0 <= i < head.attributes.len() implies !#[trigger] unacceptable(
            scopes,
            head.attributes,
            i,
        ) by {
            what_is_resolved_is_acceptable(scopes, head.attributes, i);
        }
    } else {
        let i = what_is_not_resolved_is_unacceptable(scopes, head.attributes);
        assert(unacceptable(scopes, head.attributes, i));
    }
}

} // verus!
