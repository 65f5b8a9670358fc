//! The object graph: the root's direct children refer to each other by
//! identifiers of two separate namespaces.
use vstd::prelude::*;

use crate::element::Element;
use crate::errors::Error;
use crate::text::same_text;

verus! {

/// The namespace an identifier belongs to.
#[derive(Clone, Copy, Debug, PartialEq, Eq, Structural)]
pub enum FindWith {
    /// Local identifiers, in the `ObjectID` attribute.
    ID,
    /// Global identifiers, in the `ObjectUID` attribute.
    UID,
}

/// The attribute that holds identifiers of namespace `ns`.
pub open spec fn id_attr(ns: FindWith) -> Seq<char> {
    match ns {
        FindWith::ID => "ObjectID"@,
        FindWith::UID => "ObjectUID"@,
    }
}

impl FindWith {
    /// The name of the attribute that holds identifiers of this namespace.
    pub fn value(&self) -> (r: &'static str)
        ensures
            r@ == id_attr(*self),
    {
        match self {
            FindWith::ID => "ObjectID",
            FindWith::UID => "ObjectUID",
        }
    }
}

/// Element `e` carries identifier `id` in namespace `ns`.
pub open spec fn has_id(e: Element, id: Seq<char>, ns: FindWith) -> bool {
    e.attr(id_attr(ns)) == Some(id)
}

/// The first of `cs`, from index `i` on, that carries `id` in namespace `ns`.
pub open spec fn find_by_id_from(cs: Seq<Element>, id: Seq<char>, ns: FindWith, i: int) -> Option<
    Element,
>
    decreases cs.len() - i,
{
    if i < 0 || i >= cs.len() {
        None
    } else if has_id(cs[i], id, ns) {
        Some(cs[i])
    } else {
        find_by_id_from(cs, id, ns, i + 1)
    }
}

/// The first of `cs` that carries `id` in namespace `ns`.
pub open spec fn find_by_id(cs: Seq<Element>, id: Seq<char>, ns: FindWith) -> Option<Element> {
    find_by_id_from(cs, id, ns, 0)
}

/// Element `e` carries, in namespace `ns`, one of the identifiers `ids`.
pub open spec fn has_one_of(e: Element, ids: Seq<Seq<char>>, ns: FindWith) -> bool {
    match e.attr(id_attr(ns)) {
        Some(v) => ids.contains(v),
        None => false,
    }
}

/// The elements of `cs` that carry one of `ids` in namespace `ns`, in order.
pub open spec fn select_by_ids(cs: Seq<Element>, ids: Seq<Seq<char>>, ns: FindWith) -> Seq<Element>
    decreases cs.len(),
{
    if cs.len() == 0 {
        seq![]
    } else {
        let rest = select_by_ids(cs.drop_last(), ids, ns);
        if has_one_of(cs.last(), ids, ns) {
            rest.push(cs.last())
        } else {
            rest
        }
    }
}

/// The texts of `v`, in order.
pub open spec fn str_texts(v: Seq<&str>) -> Seq<Seq<char>> {
    v.map_values(|s: &str| s@)
}

/// What the references of `v` point to, in order.
pub open spec fn pointees(v: Seq<&Element>) -> Seq<Element> {
    v.map_values(|e: &Element| *e)
}

/// A found element carries the identifier it was looked up by, in the
/// namespace it was looked up in: a lookup in one namespace never answers
/// with an element that carries the identifier only in the other.
pub proof fn lemma_find_by_id_matches(cs: Seq<Element>, id: Seq<char>, ns: FindWith, i: int)
    requires
        0 <= i,
    ensures
        id_attr(FindWith::ID) != id_attr(FindWith::UID),
        find_by_id_from(cs, id, ns, i) matches Some(e) ==> has_id(e, id, ns),
        find_by_id_from(cs, id, ns, i) is None ==> forall|j: int|
            i <= j < cs.len() ==> !has_id(#[trigger] cs[j], id, ns),
    decreases cs.len() - i,
{
    reveal_strlit("ObjectID");
    reveal_strlit("ObjectUID");
    assert(id_attr(FindWith::ID).len() != id_attr(FindWith::UID).len());
    if 0 <= i < cs.len() && !has_id(cs[i], id, ns) {
        lemma_find_by_id_matches(cs, id, ns, i + 1);
    }
}

/// Whether `e` carries `id` in namespace `ns`.
fn carries_id(e: &Element, id: &str, ns: FindWith) -> (r: bool)
    ensures
        r == has_id(*e, id@, ns),
{
    match e.find_attr(ns.value()) {
        Some(v) => same_text(v, id),
        None => false,
    }
}

/// The first direct child of `root` that carries `identifier` in namespace
/// `find_with`.
pub fn try_get_elem_with_id<'a>(root: &'a Element, identifier: &str, find_with: FindWith) -> (r:
    Option<&'a Element>)
    ensures
        match find_by_id(root.children@, identifier@, find_with) {
            Some(e) => r matches Some(x) && *x == e,
            None => r is None,
        },
{
    let mut i: usize = 0;
    while i < root.children.len()
        invariant
            0 <= i <= root.children@.len(),
            find_by_id(root.children@, identifier@, find_with) == find_by_id_from(
                root.children@,
                identifier@,
                find_with,
                i as int,
            ),
        decreases root.children@.len() - i,
    {
        if carries_id(&root.children[i], identifier, find_with) {
            return Some(&root.children[i]);
        }
        i = i + 1;
    }
    None
}

/// As `try_get_elem_with_id`, failing when no child carries the identifier.
pub fn get_elem_with_id<'a>(root: &'a Element, identifier: &str, find_with: FindWith) -> (r:
    Result<&'a Element, Error>)
    ensures
        match find_by_id(root.children@, identifier@, find_with) {
            Some(e) => r matches Ok(x) && *x == e,
            None => r matches Err(e) && e.is_element_not_found(identifier@, root.name@),
        },
{
    match try_get_elem_with_id(root, identifier, find_with) {
        Some(e) => Ok(e),
        None => Err(Error::element_not_found(identifier, root.name.as_str())),
    }
}

/// Whether `id` is one of `ids`.
fn contains_text(ids: &[&str], id: &str) -> (r: bool)
    ensures
        r == str_texts(ids@).contains(id@),
{
    let mut i: usize = 0;
    while i < ids.len()
        invariant
            0 <= i <= ids@.len(),
            forall|j: int| 0 <= j < i ==> ids@[j]@ != id@,
        decreases ids@.len() - i,
    {
        if same_text(ids[i], id) {
            assert(str_texts(ids@)[i as int] == id@);
            return true;
        }
        i = i + 1;
    }
    proof {
        if str_texts(ids@).contains(id@) {
            let j = choose|j: int| 0 <= j < str_texts(ids@).len() && str_texts(ids@)[j] == id@;
            assert(ids@[j]@ == id@);
        }
    }
    false
}

/// Every direct child of `root` that carries one of `identifiers` in
/// namespace `find_with`, in document order.
pub fn get_elems_with_ids<'a>(root: &'a Element, identifiers: &[&str], find_with: FindWith) -> (r:
    Vec<&'a Element>)
    ensures
        pointees(r@) == select_by_ids(root.children@, str_texts(identifiers@), find_with),
{
    let ghost cs = root.children@;
    let ghost ids = str_texts(identifiers@);
    let mut found: Vec<&Element> = Vec::new();
    let mut i: usize = 0;
    while i < root.children.len()
        invariant
            0 <= i <= cs.len(),
            cs == root.children@,
            ids == str_texts(identifiers@),
            pointees(found@) == select_by_ids(cs.subrange(0, i as int), ids, find_with),
        decreases cs.len() - i,
    {
        let child = &root.children[i];
        proof {
            assert(cs.subrange(0, i + 1).drop_last() =~= cs.subrange(0, i as int));
            assert(cs.subrange(0, i + 1).last() == cs[i as int]);
        }
        let keep = match child.find_attr(find_with.value()) {
            Some(v) => contains_text(identifiers, v),
            None => false,
        };
        if keep {
            let ghost before = found@;
            found.push(child);
            assert(pointees(found@) =~= pointees(before).push(*child));
        }
        i = i + 1;
    }
    proof {
        assert(cs.subrange(0, cs.len() as int) =~= cs);
    }
    found
}

} // verus!
