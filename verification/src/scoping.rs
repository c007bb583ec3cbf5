//! What holds of the names in a document: of tags, prefixes and attributes.

use vstd::prelude::*;

use crate::error::{ErrorView, ERRCTX_ATTNAME};
use crate::event::EventView;
use crate::grammar::{
    add_attribute, attribute_name, close_element, lookup, open_element, resolve, run, step,
    AttributeView, ParserView, Scope, StateView, XML_NAMESPACE,
};
use crate::laws::run_keeps_wf;
use crate::lexer::{ReadView, TokenView};
use crate::name::{assemble, split, split_is_undone_by_assemble, QNameView};

verus! {

/// A declaration hides those of the same prefix further out, and no others. The prefix `xml` is
/// not open to declaration.
pub proof fn innermost_declaration_wins(scopes: Seq<Scope>, decls: Scope, prefix: Seq<char>)
    ensures
        lookup(scopes.push(decls), prefix) == if prefix == "xml"@ {
            Some(XML_NAMESPACE@)
        } else if decls.contains_key(prefix) {
            Some(decls[prefix])
        } else {
            lookup(scopes, prefix)
        },
{
    assert(scopes.push(decls).drop_last() =~= scopes);
}

/// A prefix other than `xml` stands for a URI exactly if some element in scope declares it so and
/// no element further in declares it at all.
pub proof fn prefix_stands_for_innermost_declaration(
    scopes: Seq<Scope>,
    prefix: Seq<char>,
    uri: Seq<char>,
)
    requires
        prefix != "xml"@,
    ensures
        lookup(scopes, prefix) == Some(uri) <==> exists|i: int|
            {
                &&& 0 <= i < scopes.len()
                &&& #[trigger] scopes[i].contains_key(prefix)
                &&& scopes[i][prefix] == uri
                &&& forall|j: int|
                    i < j < scopes.len() ==> !(#[trigger] scopes[j].contains_key(prefix))
            },
    decreases scopes.len(),
{
    if scopes.len() > 0 {
        let rest = scopes.drop_last();
        let n = rest.len() as int;
        prefix_stands_for_innermost_declaration(rest, prefix, uri);
        assert(scopes[n] == scopes.last());
        if scopes.last().contains_key(prefix) {
        } else if lookup(rest, prefix) == Some(uri) {
            let i = choose|i: int|
                {
                    &&& 0 <= i < rest.len()
                    &&& #[trigger] rest[i].contains_key(prefix)
                    &&& rest[i][prefix] == uri
                    &&& forall|j: int|
                        i < j < rest.len() ==> !(#[trigger] rest[j].contains_key(prefix))
                };
            assert(scopes[i].contains_key(prefix));
            assert forall|j: int| i < j < scopes.len() implies !(
            #[trigger] scopes[j].contains_key(prefix)) by {
                if j < n {
                    assert(rest[j] == scopes[j]);
                }
            }
        } else {
            assert forall|i: int|
                0 <= i < scopes.len() && #[trigger] scopes[i].contains_key(prefix)
                    && scopes[i][prefix] == uri implies exists|j: int|
                i < j < scopes.len() && #[trigger] scopes[j].contains_key(prefix) by {
                assert(rest[i].contains_key(prefix));
                let j = choose|j: int|
                    i < j < rest.len() && #[trigger] rest[j].contains_key(prefix);
                assert(scopes[j].contains_key(prefix));
            }
        }
    }
}

/// An attribute without a prefix is in no namespace, whatever is declared.
pub proof fn unprefixed_attribute_has_no_namespace(scopes: Seq<Scope>, local: Seq<char>)
    ensures
        attribute_name(scopes, (None, local)) == Some((None::<Seq<char>>, local)),
{
}

/// The attribute at `i` cannot be resolved: its prefix is undeclared, or an attribute before it
/// has the same resolved name.
pub open spec fn at_fault(scopes: Seq<Scope>, attributes: Seq<AttributeView>, i: int) -> bool {
    let name = attribute_name(scopes, attributes[i].name);
    ||| name is None
    ||| exists|j: int| 0 <= j < i && attribute_name(scopes, #[trigger] attributes[j].name) == name
}

/// Attributes can be resolved exactly if every prefix is declared and no two of them have the same
/// resolved name. Then each resolved name has the value that was written with it, and there are
/// no other names. Otherwise the first attribute at fault gives the error.
pub proof fn attributes_are_resolved_one_by_one(
    scopes: Seq<Scope>,
    attributes: Seq<AttributeView>,
)
    ensures
        match resolve(scopes, attributes) {
            Ok(map) => {
                &&& forall|i: int| 0 <= i < attributes.len() ==> !at_fault(scopes, attributes, i)
                &&& map.dom().finite()
                &&& map.len() == attributes.len()
                &&& forall|i: int|
                    0 <= i < attributes.len() ==> {
                        let name = attribute_name(scopes, (#[trigger] attributes[i]).name)->0;
                        map.contains_key(name) && map[name] == attributes[i].value
                    }
                &&& forall|name: QNameView| #[trigger]
                    map.contains_key(name) ==> exists|i: int|
                        0 <= i < attributes.len() && attribute_name(
                            scopes,
                            (#[trigger] attributes[i]).name,
                        ) == Some(name)
            },
            Err(e) => exists|i: int|
                {
                    &&& 0 <= i < attributes.len()
                    &&& #[trigger] at_fault(scopes, attributes, i)
                    &&& forall|j: int| 0 <= j < i ==> !at_fault(scopes, attributes, j)
                    &&& e == if attribute_name(scopes, attributes[i].name) is None {
                        ErrorView::UndeclaredNamesacePrefix(ERRCTX_ATTNAME@)
                    } else {
                        ErrorView::DuplicateAttribute
                    }
                },
        },
    decreases attributes.len(),
{
    if attributes.len() > 0 {
        let rest = attributes.drop_last();
        let n = rest.len() as int;
        attributes_are_resolved_one_by_one(scopes, rest);
        assert(forall|i: int| 0 <= i < n ==> rest[i] == #[trigger] attributes[i]);
        assert forall|i: int| 0 <= i < n implies at_fault(scopes, attributes, i) == at_fault(
            scopes,
            rest,
            i,
        ) by {
            let name = attribute_name(scopes, attributes[i].name);
            if exists|j: int|
                0 <= j < i && attribute_name(scopes, #[trigger] attributes[j].name) == name {
                let j = choose|j: int|
                    0 <= j < i && attribute_name(scopes, #[trigger] attributes[j].name) == name;
                assert(attribute_name(scopes, rest[j].name) == name);
            }
            if exists|j: int|
                0 <= j < i && attribute_name(scopes, #[trigger] rest[j].name) == name {
                let j = choose|j: int|
                    0 <= j < i && attribute_name(scopes, #[trigger] rest[j].name) == name;
                assert(attribute_name(scopes, attributes[j].name) == name);
            }
        }
        match resolve(scopes, rest) {
            Err(e) => {
                let i = choose|i: int|
                    {
                        &&& 0 <= i < rest.len()
                        &&& #[trigger] at_fault(scopes, rest, i)
                        &&& forall|j: int| 0 <= j < i ==> !at_fault(scopes, rest, j)
                        &&& e == if attribute_name(scopes, rest[i].name) is None {
                            ErrorView::UndeclaredNamesacePrefix(ERRCTX_ATTNAME@)
                        } else {
                            ErrorView::DuplicateAttribute
                        }
                    };
                assert(at_fault(scopes, attributes, i));
            },
            Ok(map) => {
                let last = attribute_name(scopes, attributes[n].name);
                if let Some(name) = last {
                    if map.contains_key(name) {
                        let j = choose|j: int|
                            0 <= j < n && attribute_name(scopes, (#[trigger] rest[j]).name) == last;
                        assert(attribute_name(scopes, attributes[j].name) == last);
                        assert(at_fault(scopes, attributes, n));
                    } else {
                        if at_fault(scopes, attributes, n) {
                            let j = choose|j: int|
                                0 <= j < n && attribute_name(scopes, #[trigger] attributes[j].name)
                                    == last;
                            assert(map.contains_key(attribute_name(scopes, rest[j].name)->0));
                        }
                        let all = map.insert(name, attributes[n].value);
                        assert forall|i: int| 0 <= i < attributes.len() implies ({
                            let name = attribute_name(scopes, (#[trigger] attributes[i]).name)->0;
                            all.contains_key(name) && all[name] == attributes[i].value
                        }) by {
                            if i < n {
                                assert(!at_fault(scopes, rest, i));
                                let k = attribute_name(scopes, rest[i].name);
                                assert(map.contains_key(k->0));
                            }
                        }
                        assert forall|k: QNameView| #[trigger] all.contains_key(k) implies exists|
                            i: int,
                        |
                            0 <= i < attributes.len() && attribute_name(
                                scopes,
                                (#[trigger] attributes[i]).name,
                            ) == Some(k) by {
                            if k == name {
                                assert(attribute_name(scopes, attributes[n].name) == Some(k));
                            } else {
                                assert(map.contains_key(k));
                                let i = choose|i: int|
                                    0 <= i < n && attribute_name(
                                        scopes,
                                        (#[trigger] rest[i]).name,
                                    ) == Some(k);
                                assert(attribute_name(scopes, attributes[i].name) == Some(k));
                            }
                        }
                    }
                } else {
                    assert(at_fault(scopes, attributes, n));
                }
            },
        }
    }
}

/// A namespace declaration counts for the whole head of its element: it can as well stand before
/// as after an attribute that uses it.
pub proof fn declarations_count_for_the_whole_head(
    p: ParserView,
    name: QNameView,
    value: Seq<char>,
    declared: Seq<char>,
    uri: Seq<char>,
)
    requires
        p.state is AttrName,
        p.head is Some,
        name.0 != Some("xmlns"@),
        name.0 is Some || name.1 != "xmlns"@,
    ensures
        ({
            let declaration = (Some("xmlns"@), declared);
            let attribute_first = match add_attribute(p, name, value) {
                Ok(q) => add_attribute(q, declaration, uri),
                Err(e) => Err(e),
            };
            let declaration_first = match add_attribute(p, declaration, uri) {
                Ok(q) => add_attribute(q, name, value),
                Err(e) => Err(e),
            };
            attribute_first == declaration_first
        }),
        ({
            let declaration = (None, "xmlns"@);
            let attribute_first = match add_attribute(p, name, value) {
                Ok(q) => add_attribute(q, declaration, uri),
                Err(e) => Err(e),
            };
            let declaration_first = match add_attribute(p, declaration, uri) {
                Ok(q) => add_attribute(q, name, value),
                Err(e) => Err(e),
            };
            attribute_first == declaration_first
        }),
{
}

/// No declaration in scope, and none in the head that is being read, is one of a reserved prefix.
pub open spec fn reserved_prefixes_are_free(p: ParserView) -> bool {
    &&& forall|i: int|
        0 <= i < p.scopes.len() ==> !(#[trigger] p.scopes[i]).contains_key("xml"@)
            && !p.scopes[i].contains_key("xmlns"@)
    &&& p.head matches Some(head) ==> !head.decls.contains_key("xml"@)
        && !head.decls.contains_key("xmlns"@)
}

proof fn step_keeps_reserved_prefixes_free(p: ParserView, read: ReadView)
    requires
        reserved_prefixes_are_free(p),
        p.wf(),
    ensures
        step(p, read) matches Ok(q) ==> reserved_prefixes_are_free(q),
{
    reveal_strlit("xml");
    reveal_strlit("xmlns");
    assert("xml"@.len() == 3 && "xmlns"@.len() == 5);
}

/// The prefixes `xml` and `xmlns` are never declared.
pub proof fn reserved_prefixes_are_never_declared(reads: Seq<ReadView>)
    ensures
        run(ParserView::initial(), reads) matches Ok(q) ==> reserved_prefixes_are_free(q),
    decreases reads.len(),
{
    if reads.len() > 0 {
        let rest = reads.drop_last();
        reserved_prefixes_are_never_declared(rest);
        run_keeps_wf(ParserView::initial(), rest);
        if let Ok(m) = run(ParserView::initial(), rest) {
            step_keeps_reserved_prefixes_free(m, reads.last());
        }
    }
}

/// Elements are opened and closed only at the inner end, so as long as `k` of them stay open, those
/// `k` stay what they are, and so do their declarations. In particular, once every element that
/// was opened in between is closed again, the same elements are open and the same declarations
/// are in scope as before.
pub proof fn outer_elements_are_kept(p: ParserView, reads: Seq<ReadView>, k: int)
    requires
        p.wf(),
        0 <= k <= p.names.len(),
        forall|i: int|
            0 <= i <= reads.len() ==> (#[trigger] run(p, reads.take(i)) matches Ok(m)
                && m.names.len() >= k),
    ensures
        run(p, reads) matches Ok(q) && {
            &&& q.names.take(k) == p.names.take(k)
            &&& q.scopes.take(k) == p.scopes.take(k)
            &&& k == p.names.len() && k == q.names.len() ==> q.names == p.names && q.scopes
                == p.scopes
        },
    decreases reads.len(),
{
    let n = reads.len() as int;
    assert(reads.take(n) =~= reads);
    let q = run(p, reads)->Ok_0;
    if n > 0 {
        let rest = reads.drop_last();
        assert forall|i: int| 0 <= i <= rest.len() implies (#[trigger] run(
            p,
            rest.take(i),
        ) matches Ok(m) && m.names.len() >= k) by {
            assert(rest.take(i) =~= reads.take(i));
        }
        outer_elements_are_kept(p, rest, k);
        let m = run(p, rest)->Ok_0;
        assert(rest =~= reads.take(n - 1));
        run_keeps_wf(p, rest);
        run_keeps_wf(p, reads);
        step_works_at_the_inner_end(m, reads.last(), k);
    }
    run_keeps_wf(p, reads);
    if k == p.names.len() && k == q.names.len() {
        assert(q.names.take(k) =~= q.names && p.names.take(k) =~= p.names);
        assert(q.scopes.take(k) =~= q.scopes && p.scopes.take(k) =~= p.scopes);
    }
}

proof fn step_works_at_the_inner_end(p: ParserView, read: ReadView, k: int)
    requires
        p.wf(),
        0 <= k <= p.names.len(),
    ensures
        step(p, read) matches Ok(q) ==> k <= q.names.len() ==> q.names.take(k) == p.names.take(k)
            && q.scopes.take(k) == p.scopes.take(k),
{
    if let Ok(q) = step(p, read) {
        if k <= q.names.len() {
            assert(q.names.take(k) =~= p.names.take(k));
            assert(q.scopes.take(k) =~= p.scopes.take(k));
        }
    }
}

/// As long as the head of an element is read, it keeps the name of its start tag, and no element is
/// opened or closed.
proof fn head_is_read(p: ParserView, name: Seq<char>, reads: Seq<ReadView>, n: int)
    requires
        p.wf(),
        p.head is None,
        1 <= n <= reads.len(),
        reads[0] == ReadView::Ok(Some(TokenView::ElementHeadStart(name))),
        forall|i: int|
            0 < i <= n ==> (#[trigger] run(p, reads.take(i)) matches Ok(m) && m.head is Some),
    ensures
        split(name) is Ok,
        run(p, reads.take(n)) matches Ok(m) && {
            &&& m.head matches Some(head) && head.name == split(name)->Ok_0
            &&& m.names == p.names
            &&& m.wf()
        },
    decreases n,
{
    let reads_n = reads.take(n);
    assert(run(p, reads_n) is Ok);
    assert(reads_n.drop_last() =~= reads.take(n - 1));
    assert(reads_n.last() == reads[n - 1]);
    run_keeps_wf(p, reads_n);
    if n > 1 {
        head_is_read(p, name, reads, n - 1);
    } else {
        assert(reads.take(0).len() == 0);
        assert(run(p, reads.take(0)) == Ok::<ParserView, ErrorView>(p));
    }
}

/// An element is kept under the name that its start tag carries, as it is written there.
pub proof fn open_element_has_the_name_of_its_start_tag(
    p: ParserView,
    name: Seq<char>,
    reads: Seq<ReadView>,
)
    requires
        p.wf(),
        p.head is None,
        reads.len() > 1,
        reads[0] == ReadView::Ok(Some(TokenView::ElementHeadStart(name))),
        reads.last() == ReadView::Ok(Some(TokenView::ElementHFEnd)),
        forall|i: int|
            0 < i < reads.len() ==> (#[trigger] run(p, reads.take(i)) matches Ok(m)
                && m.head is Some),
    ensures
        run(p, reads) matches Ok(q) ==> q.names == p.names.push(name) && q.state is CData,
{
    let n = reads.len() - 1;
    head_is_read(p, name, reads, n);
    split_is_undone_by_assemble(name);
    assert(reads.drop_last() =~= reads.take(n));
}

/// Inside an element, exactly that end tag is accepted which carries the name under which the
/// innermost open element is kept; any other one is a mismatch.
pub proof fn end_tag_must_match(p: ParserView, name: Seq<char>)
    requires
        p.wf(),
        p.state is CData,
    ensures
        ({
            let next = step(p, Ok(Some(TokenView::ElementFootStart(name))));
            if p.names.last() == name {
                next == Ok::<ParserView, ErrorView>(p.at(StateView::ElementFoot))
            } else {
                next == Err::<ParserView, ErrorView>(ErrorView::ElementMismatch)
            }
        }),
{
}

/// An element that is opened and closed again leaves the open elements and the declarations in
/// scope as they were, so every prefix stands for what it stood for before; what is told of it is
/// its start and its end.
pub proof fn closing_undoes_opening(p: ParserView, prefix: Seq<char>)
    requires
        p.wf(),
        p.state is AttrName,
    ensures
        open_element(p) matches Ok(q) ==> {
            let r = close_element(q);
            &&& r.names == p.names
            &&& r.scopes == p.scopes
            &&& lookup(r.scopes, prefix) == lookup(p.scopes, prefix)
            &&& r.head is None
            &&& r.queue == p.queue.push(q.queue.last()).push(EventView::EndElement)
            &&& q.queue.last() is StartElement
            &&& r.state is Eof <==> p.names.len() == 0
        },
{
    if let Ok(q) = open_element(p) {
        let r = close_element(q);
        assert(r.names =~= p.names);
        assert(r.scopes =~= p.scopes);
    }
}

/// An empty-element tag says the same as a start tag that is followed at once by its end tag.
pub proof fn empty_element_tag_stands_for_two_tags(p: ParserView)
    requires
        p.wf(),
        p.state is AttrName,
    ensures
        run(p, seq![Ok(Some(TokenView::ElementHeadClose))]) == run(
            p,
            seq![
                Ok(Some(TokenView::ElementHFEnd)),
                Ok(Some(TokenView::ElementFootStart(assemble(p.head->0.name)))),
                Ok(Some(TokenView::ElementHFEnd)),
            ],
        ),
{
    let short: Seq<ReadView> = seq![Ok(Some(TokenView::ElementHeadClose))];
    let foot = TokenView::ElementFootStart(assemble(p.head->0.name));
    let a: Seq<ReadView> = seq![Ok(Some(TokenView::ElementHFEnd))];
    let ab = a.push(Ok(Some(foot)));
    let abc = ab.push(Ok(Some(TokenView::ElementHFEnd)));
    assert(short.drop_last().len() == 0 && a.drop_last().len() == 0);
    assert(run(p, short.drop_last()) == Ok::<ParserView, ErrorView>(p));
    assert(run(p, a.drop_last()) == Ok::<ParserView, ErrorView>(p));
    assert(ab.drop_last() =~= a);
    assert(abc.drop_last() =~= ab);
    assert(run(p, abc) == run(p, short)) by {
        if let Ok(q) = run(p, a) {
            assert(q.names.last() == assemble(p.head->0.name));
            assert(run(p, ab) == Ok::<ParserView, ErrorView>(q.at(StateView::ElementFoot)));
        } else {
            assert(run(p, ab) is Err);
        }
    }
    assert(abc =~= seq![
        Ok(Some(TokenView::ElementHFEnd)),
        Ok(Some(foot)),
        Ok(Some(TokenView::ElementHFEnd)),
    ]);
}

} // verus!
