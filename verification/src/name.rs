//! Names of elements and attributes, and their parts.

use vstd::prelude::*;

use crate::error::{Error, ErrorView, NWFError, ERRCTX_UNKNOWN};
use crate::text::same_text;

verus! {

/// A name whose prefix has been resolved: the URI of its namespace, if it has one, and the local
/// part.
pub type QName = (Option<String>, String);

/// A [`QName`], or a name split at its colon, as a mathematical value.
pub type QNameView = (Option<Seq<char>>, Seq<char>);

/// An optional string as a mathematical value.
pub open spec fn text_of(s: Option<String>) -> Option<Seq<char>> {
    match s {
        Some(s) => Some(s@),
        None => None,
    }
}

/// A name as a mathematical value.
pub open spec fn qname_of(name: QName) -> QNameView {
    (text_of(name.0), name.1@)
}

/// Compares two names.
pub fn same_qname(a: &QName, b: &QName) -> (same: bool)
    ensures
        same == (qname_of(*a) == qname_of(*b)),
{
    same_text(a.1.as_str(), b.1.as_str()) && match (&a.0, &b.0) {
        (Some(a), Some(b)) => same_text(a.as_str(), b.as_str()),
        (None, None) => true,
        _ => false,
    }
}

/// A copy of a name.
pub fn clone_qname(name: &QName) -> (copy: QName)
    ensures
        qname_of(copy) == qname_of(*name),
{
    let uri: Option<String> = match &name.0 {
        Some(uri) => Some(uri.clone()),
        None => None,
    };
    (uri, name.1.clone())
}

/// The first colon of `name` stands at `i`.
pub open spec fn is_first_colon(name: Seq<char>, i: int) -> bool {
    &&& 0 <= i < name.len()
    &&& name[i] == ':'
    &&& forall|j: int| 0 <= j < i ==> name[j] != ':'
}

/// The prefix and the local part of a name: what stands before and after its only colon. A name
/// without a colon is its own local part.
pub open spec fn split(name: Seq<char>) -> Result<QNameView, ErrorView> {
    if !name.contains(':') {
        Ok((None, name))
    } else {
        let i = choose|i: int| is_first_colon(name, i);
        let local = name.skip(i + 1);
        if i == 0 || i == name.len() - 1 {
            Err(ErrorView::EmptyNamePart(ERRCTX_UNKNOWN@))
        } else if local.contains(':') {
            Err(ErrorView::MultiColonName(ERRCTX_UNKNOWN@))
        } else {
            Ok((Some(name.take(i)), local))
        }
    }
}

/// A name written out: the prefix and a colon, where there is a prefix, and the local part.
pub open spec fn assemble(name: QNameView) -> Seq<char> {
    match name.0 {
        Some(prefix) => prefix + seq![':'] + name.1,
        None => name.1,
    }
}

proof fn first_colon_before(name: Seq<char>, k: int)
    requires
        0 <= k < name.len(),
        name[k] == ':',
    ensures
        exists|i: int| is_first_colon(name, i),
    decreases k,
{
    if forall|j: int| 0 <= j < k ==> name[j] != ':' {
        assert(is_first_colon(name, k));
    } else {
        let j = choose|j: int| 0 <= j < k && name[j] == ':';
        first_colon_before(name, j);
    }
}

/// A name has at most one first colon, and has one if it holds a colon at all.
pub(crate) proof fn first_colon_is_chosen(name: Seq<char>)
    ensures
        name.contains(':') <==> exists|i: int| is_first_colon(name, i),
        forall|i: int| #[trigger]
            is_first_colon(name, i) ==> i == choose|i: int| is_first_colon(name, i),
{
    if name.contains(':') {
        first_colon_before(name, choose|k: int| 0 <= k < name.len() && name[k] == ':');
    }
    if exists|i: int| is_first_colon(name, i) {
        let i = choose|i: int| is_first_colon(name, i);
        assert(name[i] == ':');
    }
}

/// A name can be split exactly when it has no colon, or a single one that neither starts nor ends
/// it; its parts then hold no colon, are not empty where there is a prefix, and give the name back
/// when they are written out.
pub proof fn split_is_undone_by_assemble(name: Seq<char>)
    ensures
        split(name) is Ok <==> forall|i: int, j: int|
            0 <= i < name.len() && #[trigger] name[i] == ':' && 0 <= j < name.len()
                && #[trigger] name[j] == ':' ==> i == j && 0 < i < name.len() - 1,
        split(name) matches Ok(parts) ==> {
            &&& assemble(parts) == name
            &&& !parts.1.contains(':')
            &&& parts.0 matches Some(prefix) ==> !prefix.contains(':') && prefix.len() > 0
                && parts.1.len() > 0
        },
{
    first_colon_is_chosen(name);
    if name.contains(':') {
        let i = choose|i: int| is_first_colon(name, i);
        let local = name.skip(i + 1);
        assert(name.take(i) + seq![':'] + local =~= name);
        assert forall|j: int| i < j < name.len() && name[j] == ':' implies local.contains(':') by {
            assert(local[j - i - 1] == ':');
        }
        if local.contains(':') {
            let k = choose|k: int| 0 <= k < local.len() && local[k] == ':';
            assert(name[i + 1 + k] == ':');
        }
    }
}

/// Parts without colons come back from a split of the name that they make.
pub proof fn assemble_is_undone_by_split(parts: QNameView)
    requires
        !parts.1.contains(':'),
        parts.0 matches Some(prefix) ==> !prefix.contains(':') && prefix.len() > 0
            && parts.1.len() > 0,
    ensures
        split(assemble(parts)) == Ok::<QNameView, ErrorView>(parts),
{
    if let Some(prefix) = parts.0 {
        let name = assemble(parts);
        let i = prefix.len() as int;
        first_colon_is_chosen(name);
        assert forall|j: int| 0 <= j < i implies name[j] != ':' by {
            assert(prefix[j] == name[j]);
        }
        assert(is_first_colon(name, i));
        assert(name.take(i) =~= prefix);
        assert(name.skip(i + 1) =~= parts.1);
    }
}

/// The first colon at or after position `from`, counted in characters.
fn find_colon(name: &str, from: usize) -> (found: Option<usize>)
    requires
        from <= name@.len(),
    ensures
        match found {
            Some(i) => is_first_colon(name@.skip(from as int), i - from),
            None => !name@.skip(from as int).contains(':'),
        },
{
    let len: usize = name.unicode_len();
    let mut i: usize = 0;
    for c in it: name.chars()
        invariant
            it.seq() == name@,
            len == name@.len(),
            i == it.index(),
            forall|j: int| from <= j < i ==> name@[j] != ':',
    {
        if i >= from && c == ':' {
            return Some(i);
        }
        i += 1;
    }
    None
}

/// Splits a name at its colon.
pub fn split_name(name: String) -> (parts: Result<(Option<String>, String), Error>)
    ensures
        match parts {
            Ok(parts) => split(name@) == Ok::<QNameView, ErrorView>(qname_of(parts)),
            Err(e) => split(name@) == Err::<QNameView, ErrorView>(e@),
        },
{
    proof {
        first_colon_is_chosen(name@);
        assert(name@.skip(0) =~= name@);
    }
    let text: &str = name.as_str();
    let colon: usize = match find_colon(text, 0) {
        None => {
            return Ok((None, name));
        },
        Some(i) => i,
    };
    let len: usize = text.unicode_len();
    if colon == 0 || colon == len - 1 {
        return Err(Error::NotNamespaceWellFormed(NWFError::EmptyNamePart(ERRCTX_UNKNOWN)));
    }
    if find_colon(text, colon + 1).is_some() {
        // Namespaces in XML 1.0 (Third Edition), namespace-well-formed criterion 1
        return Err(Error::NotNamespaceWellFormed(NWFError::MultiColonName(ERRCTX_UNKNOWN)));
    }
    let prefix: String = text.substring_char(0, colon).to_owned();
    let local: String = text.substring_char(colon + 1, len).to_owned();
    Ok((Some(prefix), local))
}

} // verus!
