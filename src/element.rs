//! The parsed markup tree, and lookups that fail explicitly.
use vstd::prelude::*;

use crate::errors::Error;
use crate::text::same_text;

verus! {

/// The first index in `i..n` at which `p` holds.
pub open spec fn first_index(n: int, p: spec_fn(int) -> bool, i: int) -> Option<int>
    decreases n - i,
{
    if i >= n || i < 0 {
        None
    } else if p(i) {
        Some(i)
    } else {
        first_index(n, p, i + 1)
    }
}

/// A node of the markup tree: its name, attributes in document order,
/// child elements in document order, and the text directly inside it.
#[derive(Debug)]
pub struct Element {
    pub name: String,
    pub attributes: Vec<(String, String)>,
    pub children: Vec<Element>,
    pub text: String,
}

impl Element {
    /// The index of the first child named `name`.
    pub open spec fn child_index(self, name: Seq<char>) -> Option<int> {
        first_index(self.children@.len() as int, |i: int| self.children@[i].name@ == name, 0)
    }

    /// The first child named `name`.
    pub open spec fn child(self, name: Seq<char>) -> Option<Element> {
        match self.child_index(name) {
            Some(i) => Some(self.children@[i]),
            None => None,
        }
    }

    /// The value of the attribute `name`.
    pub open spec fn attr(self, name: Seq<char>) -> Option<Seq<char>> {
        match first_index(
            self.attributes@.len() as int,
            |i: int| self.attributes@[i].0@ == name,
            0,
        ) {
            Some(i) => Some(self.attributes@[i].1@),
            None => None,
        }
    }

    /// An element with a name and nothing else.
    pub fn new(name: &str) -> (r: Element)
        ensures
            r.name@ == name@,
            r.attributes@.len() == 0,
            r.children@.len() == 0,
            r.text@.len() == 0,
    {
        Element {
            name: name.to_owned(),
            attributes: Vec::new(),
            children: Vec::new(),
            text: String::new(),
        }
    }

    /// This element with one more attribute, after the others.
    pub fn with_attr(self, key: &str, value: &str) -> (r: Element)
        ensures
            r.name == self.name,
            r.attributes@.len() == self.attributes@.len() + 1,
            r.attributes@.drop_last() == self.attributes@,
            r.attributes@.last().0@ == key@,
            r.attributes@.last().1@ == value@,
            r.children == self.children,
            r.text == self.text,
    {
        let mut e = self;
        e.attributes.push((key.to_owned(), value.to_owned()));
        proof {
            assert(e.attributes@.drop_last() =~= self.attributes@);
        }
        e
    }

    /// This element with one more child, after the others.
    pub fn with_child(self, child: Element) -> (r: Element)
        ensures
            r.name == self.name,
            r.attributes == self.attributes,
            r.children@ == self.children@.push(child),
            r.text == self.text,
    {
        let mut e = self;
        e.children.push(child);
        e
    }

    /// This element with its text replaced.
    pub fn with_text(self, text: &str) -> (r: Element)
        ensures
            r.name == self.name,
            r.attributes == self.attributes,
            r.children == self.children,
            r.text@ == text@,
    {
        let mut e = self;
        e.text = text.to_owned();
        e
    }

    /// The first direct child named `name`.
    pub fn get(&self, name: &str) -> (r: Result<&Element, Error>)
        ensures
            match self.child(name@) {
                Some(c) => r matches Ok(x) && *x == c,
                None => r matches Err(e) && e.is_element_not_found(name@, self.name@),
            },
    {
        let ghost p = |i: int| self.children@[i].name@ == name@;
        let mut i: usize = 0;
        while i < self.children.len()
            invariant
                0 <= i <= self.children@.len(),
                p == (|i: int| self.children@[i].name@ == name@),
                first_index(self.children@.len() as int, p, 0) == first_index(
                    self.children@.len() as int,
                    p,
                    i as int,
                ),
            decreases self.children@.len() - i,
        {
            if same_text(self.children[i].name.as_str(), name) {
                return Ok(&self.children[i]);
            }
            i = i + 1;
        }
        Err(Error::element_not_found(name, self.name.as_str()))
    }

    /// Whether every name of `names` names a child.
    pub open spec fn has_children(self, names: Seq<&str>) -> bool {
        forall|i: int| 0 <= i < names.len() ==> (#[trigger] self.child(names[i]@)) is Some
    }

    /// The first child of each name of `names`, in the order of `names`;
    /// fails on the first name that names no child.
    pub fn get_elems_with_names(&self, names: &[&str]) -> (r: Result<Vec<&Element>, Error>)
        ensures
            match r {
                Ok(v) => self.has_children(names@) && v@.len() == names@.len() && forall|i: int|
                    0 <= i < names@.len() ==> #[trigger] self.child(names@[i]@) == Some(*v@[i]),
                Err(e) => exists|i: int|
                    0 <= i < names@.len() && self.child(names@[i]@) is None
                        && e.is_element_not_found(names@[i]@, self.name@) && forall|j: int|
                        0 <= j < i ==> (#[trigger] self.child(names@[j]@)) is Some,
            },
    {
        let mut found: Vec<&Element> = Vec::new();
        let mut i: usize = 0;
        while i < names.len()
            invariant
                0 <= i <= names@.len(),
                found@.len() == i,
                forall|j: int| 0 <= j < i ==> #[trigger] self.child(names@[j]@) == Some(*found@[j]),
            decreases names@.len() - i,
        {
            match self.get(names[i]) {
                Ok(c) => found.push(c),
                Err(e) => {
                    assert(forall|j: int| 0 <= j < i ==> (#[trigger] self.child(names@[j]@)) is Some);
                    return Err(e);
                },
            }
            i = i + 1;
        }
        Ok(found)
    }

    /// The value of the attribute `name`.
    pub fn get_attr(&self, name: &str) -> (r: Result<&str, Error>)
        ensures
            match self.attr(name@) {
                Some(v) => r matches Ok(x) && x@ == v,
                None => r matches Err(e) && e.is_attribute_not_found(name@, self.name@),
            },
    {
        match self.find_attr(name) {
            Some(v) => Ok(v),
            None => Err(Error::attribute_not_found(name, self.name.as_str())),
        }
    }

    /// The value of the attribute `name`, if it is there.
    pub fn find_attr(&self, name: &str) -> (r: Option<&str>)
        ensures
            match self.attr(name@) {
                Some(v) => r matches Some(x) && x@ == v,
                None => r is None,
            },
    {
        let ghost p = |i: int| self.attributes@[i].0@ == name@;
        let mut i: usize = 0;
        while i < self.attributes.len()
            invariant
                0 <= i <= self.attributes@.len(),
                p == (|i: int| self.attributes@[i].0@ == name@),
                first_index(self.attributes@.len() as int, p, 0) == first_index(
                    self.attributes@.len() as int,
                    p,
                    i as int,
                ),
            decreases self.attributes@.len() - i,
        {
            if same_text(self.attributes[i].0.as_str(), name) {
                return Some(self.attributes[i].1.as_str());
            }
            i = i + 1;
        }
        None
    }
}

} // verus!
