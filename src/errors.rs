//! What can go wrong while reading a project: a required element or
//! attribute is missing, a number cannot be read, or every track group failed.
use vstd::prelude::*;
use vstd::string::StringExecFns;

verus! {

/// An error of the reader.
#[derive(Debug)]
pub enum Error {
    /// Something required is absent.
    NotFound(NotFoundError),
    /// Something is present but cannot be read.
    Malformed(MalformedData),
}

/// A required part of the document is absent.
#[derive(Debug)]
pub enum NotFoundError {
    /// A required child element is absent.
    Element(NotFoundErrorData),
    /// A required attribute is absent.
    Attribute(NotFoundErrorData),
    /// Every track group of a read failed; these are the causes.
    Multiple(MultipleNotFoundErrorData),
}

/// The causes of a read in which every track group failed.
#[derive(Debug)]
pub struct MultipleNotFoundErrorData {
    pub errors: Vec<Error>,
}

impl MultipleNotFoundErrorData {
    pub fn new(errors: Vec<Error>) -> (r: Self)
        ensures
            r.errors == errors,
    {
        Self { errors }
    }
}

/// What was missing, and the name of the element it was looked for in.
#[derive(Debug)]
pub struct NotFoundErrorData {
    pub name_of_not_found: String,
    pub in_elem: String,
}

impl NotFoundErrorData {
    pub fn new(name: String, in_elem: String) -> (r: Self)
        ensures
            r.name_of_not_found == name,
            r.in_elem == in_elem,
    {
        Self { name_of_not_found: name, in_elem }
    }
}

/// The element whose content could not be read, and that content.
#[derive(Debug)]
pub struct MalformedData {
    pub name_of_malformed: String,
    pub text: String,
}

impl Error {
    /// A missing child `name` of the element named `in_elem`.
    pub open spec fn is_element_not_found(self, name: Seq<char>, in_elem: Seq<char>) -> bool {
        self matches Error::NotFound(NotFoundError::Element(d)) && d.name_of_not_found@ == name
            && d.in_elem@ == in_elem
    }

    /// A missing attribute `name` of the element named `in_elem`.
    pub open spec fn is_attribute_not_found(self, name: Seq<char>, in_elem: Seq<char>) -> bool {
        self matches Error::NotFound(NotFoundError::Attribute(d)) && d.name_of_not_found@ == name
            && d.in_elem@ == in_elem
    }

    /// Unreadable content `text` of the element named `name`.
    pub open spec fn is_malformed(self, name: Seq<char>, text: Seq<char>) -> bool {
        self matches Error::Malformed(d) && d.name_of_malformed@ == name && d.text@ == text
    }

    pub fn element_not_found(name: &str, in_elem: &str) -> (r: Error)
        ensures
            r.is_element_not_found(name@, in_elem@),
    {
        Error::NotFound(
            NotFoundError::Element(NotFoundErrorData::new(name.to_owned(), in_elem.to_owned())),
        )
    }

    pub fn attribute_not_found(name: &str, in_elem: &str) -> (r: Error)
        ensures
            r.is_attribute_not_found(name@, in_elem@),
    {
        Error::NotFound(
            NotFoundError::Attribute(NotFoundErrorData::new(name.to_owned(), in_elem.to_owned())),
        )
    }

    pub fn malformed(name: &str, text: &str) -> (r: Error)
        ensures
            r.is_malformed(name@, text@),
    {
        Error::Malformed(MalformedData { name_of_malformed: name.to_owned(), text: text.to_owned() })
    }

    pub fn multiple(errors: Vec<Error>) -> (r: Error)
        ensures
            r matches Error::NotFound(NotFoundError::Multiple(d)) && d.errors == errors,
    {
        Error::NotFound(NotFoundError::Multiple(MultipleNotFoundErrorData::new(errors)))
    }
}

/// The decimal digit `d`.
pub open spec fn digit_char(d: nat) -> char {
    if d == 0 {
        '0'
    } else if d == 1 {
        '1'
    } else if d == 2 {
        '2'
    } else if d == 3 {
        '3'
    } else if d == 4 {
        '4'
    } else if d == 5 {
        '5'
    } else if d == 6 {
        '6'
    } else if d == 7 {
        '7'
    } else if d == 8 {
        '8'
    } else {
        '9'
    }
}

/// `n` written in decimal.
pub open spec fn decimal_text(n: nat) -> Seq<char>
    decreases n,
{
    if n < 10 {
        seq![digit_char(n)]
    } else {
        decimal_text(n / 10).push(digit_char(n % 10))
    }
}

/// What an error says, in words; an aggregate lists its causes one per line.
pub open spec fn message_of(e: Error) -> Seq<char>
    decreases e,
{
    match e {
        Error::NotFound(NotFoundError::Element(d)) => "Element \""@ + d.name_of_not_found@
            + "\" not found in \""@ + d.in_elem@ + "\"!"@,
        Error::NotFound(NotFoundError::Attribute(d)) => "Attribute \""@ + d.name_of_not_found@
            + "\" not found in \""@ + d.in_elem@ + "\"!"@,
        Error::NotFound(NotFoundError::Multiple(d)) => "Multiple errors occurred ("@
            + decimal_text(d.errors@.len()) + "):"@ + messages_of(
            d.errors@,
            d.errors@.len() as int,
        ),
        Error::Malformed(d) => "Cannot read \""@ + d.text@ + "\" in \""@ + d.name_of_malformed@
            + "\"!"@,
    }
}

/// The messages of the first `n` errors of `errs`, each on a line of its own.
pub open spec fn messages_of(errs: Seq<Error>, n: int) -> Seq<char>
    decreases errs, n,
{
    if n <= 0 || n > errs.len() {
        seq![]
    } else {
        messages_of(errs, n - 1) + "\n"@ + message_of(errs[n - 1])
    }
}

/// How many errors `e` holds, itself included.
pub open spec fn error_size(e: Error) -> nat
    decreases e,
{
    match e {
        Error::NotFound(NotFoundError::Multiple(d)) => 1 + sizes_of(
            d.errors@,
            d.errors@.len() as int,
        ),
        _ => 1,
    }
}

/// How many errors the first `n` errors of `errs` hold.
pub open spec fn sizes_of(errs: Seq<Error>, n: int) -> nat
    decreases errs, n,
{
    if n <= 0 || n > errs.len() {
        0
    } else {
        sizes_of(errs, n - 1) + error_size(errs[n - 1])
    }
}

proof fn lemma_size_of_member(errs: Seq<Error>, n: int, i: int)
    requires
        0 <= i < n <= errs.len(),
    ensures
        error_size(errs[i]) <= sizes_of(errs, n),
    decreases n,
{
    if i < n - 1 {
        lemma_size_of_member(errs, n - 1, i);
    }
}

/// The decimal digit `d`, as text.
fn digit_str(d: usize) -> (r: &'static str)
    requires
        d < 10,
    ensures
        r@ == seq![digit_char(d as nat)],
{
    proof {
        reveal_strlit("0");
        reveal_strlit("1");
        reveal_strlit("2");
        reveal_strlit("3");
        reveal_strlit("4");
        reveal_strlit("5");
        reveal_strlit("6");
        reveal_strlit("7");
        reveal_strlit("8");
        reveal_strlit("9");
    }
    if d == 0 {
        "0"
    } else if d == 1 {
        "1"
    } else if d == 2 {
        "2"
    } else if d == 3 {
        "3"
    } else if d == 4 {
        "4"
    } else if d == 5 {
        "5"
    } else if d == 6 {
        "6"
    } else if d == 7 {
        "7"
    } else if d == 8 {
        "8"
    } else {
        "9"
    }
}

/// `n` written in decimal.
pub fn decimal_string(n: usize) -> (r: String)
    ensures
        r@ == decimal_text(n as nat),
    decreases n,
{
    if n < 10 {
        String::from_str(digit_str(n))
    } else {
        let mut s = decimal_string(n / 10);
        s.append(digit_str(n % 10));
        s
    }
}

impl Error {
    /// What the error says, in words.
    pub fn message(&self) -> (r: String)
        ensures
            r@ == message_of(*self),
        decreases error_size(*self),
    {
        match self {
            Error::NotFound(NotFoundError::Element(d)) => {
                let mut s = String::from_str("Element \"");
                s.append(d.name_of_not_found.as_str());
                s.append("\" not found in \"");
                s.append(d.in_elem.as_str());
                s.append("\"!");
                s
            },
            Error::NotFound(NotFoundError::Attribute(d)) => {
                let mut s = String::from_str("Attribute \"");
                s.append(d.name_of_not_found.as_str());
                s.append("\" not found in \"");
                s.append(d.in_elem.as_str());
                s.append("\"!");
                s
            },
            Error::NotFound(NotFoundError::Multiple(d)) => {
                let mut s = String::from_str("Multiple errors occurred (");
                s.append(decimal_string(d.errors.len()).as_str());
                s.append("):");
                let ghost head = s@;
                let mut i: usize = 0;
                while i < d.errors.len()
                    invariant
                        0 <= i <= d.errors@.len(),
                        s@ == head + messages_of(d.errors@, i as int),
                        error_size(*self) == 1 + sizes_of(d.errors@, d.errors@.len() as int),
                    decreases d.errors@.len() - i,
                {
                    proof {
                        lemma_size_of_member(d.errors@, d.errors@.len() as int, i as int);
                    }
                    let m = d.errors[i].message();
                    s.append("\n");
                    s.append(m.as_str());
                    i = i + 1;
                }
                s
            },
            Error::Malformed(d) => {
                let mut s = String::from_str("Cannot read \"");
                s.append(d.text.as_str());
                s.append("\" in \"");
                s.append(d.name_of_malformed.as_str());
                s.append("\"!");
                s
            },
        }
    }
}

} // verus!
