//! An element with its count, such as `H2`.

use vstd::prelude::*;
use vstd::string::*;
use crate::text::{decimal, decimal_text, same_text};

verus! {

/// An element of a formula: the symbol of the element and the number of
/// its atoms.
#[derive(Debug)]
pub struct Element {
    /// Name
    pub name: String,
    /// Count
    pub count: u8,
}

/// An element as plain values.
pub struct ElementView {
    pub name: Seq<char>,
    pub count: nat,
}

/// The views of a list of texts.
pub open spec fn strings(texts: Seq<String>) -> Seq<Seq<char>> {
    texts.map_values(|text: String| text@)
}

/// The list of names with `name` added at its end, unless it is there
/// already.
pub open spec fn with_name(found: Seq<Seq<char>>, name: Seq<char>) -> Seq<Seq<char>> {
    if found.contains(name) {
        found
    } else {
        found.push(name)
    }
}

/// A count written after an element or a group: nothing for 1, else the
/// decimal numeral.
pub open spec fn count_text(count: nat) -> Seq<char> {
    if count == 1 {
        Seq::empty()
    } else {
        decimal(count)
    }
}

impl ElementView {
    /// The number of atoms of the element named `name`.
    pub open spec fn count(self, name: Seq<char>) -> int {
        if self.name == name {
            self.count as int
        } else {
            0
        }
    }

    /// The names found so far, with this element's name added.
    pub open spec fn names(self, found: Seq<Seq<char>>) -> Seq<Seq<char>> {
        with_name(found, self.name)
    }

    /// The canonical text: the name, and the count unless it is 1.
    pub open spec fn text(self) -> Seq<char> {
        self.name + count_text(self.count)
    }

    /// An upper bound of every count of atoms in the element.
    pub open spec fn weight(self) -> nat {
        self.count
    }
}

impl View for Element {
    type V = ElementView;

    open spec fn view(&self) -> ElementView {
        ElementView { name: self.name@, count: self.count as nat }
    }
}

/// Whether `names` holds `name`.
pub fn holds_name(names: &Vec<String>, name: &String) -> (held: bool)
    ensures
        held == strings(names@).contains(name@),
{
    let mut i: usize = 0;
    while i < names.len()
        invariant
            i <= names@.len(),
            forall|k: int| 0 <= k < i ==> strings(names@)[k] != name@,
        decreases names@.len() - i,
    {
        if names[i] == *name {
            assert(strings(names@)[i as int] == name@);
            return true;
        }
        i += 1;
    }
    false
}

/// Adds `name` at the end of `names`, unless it is there already.
pub fn add_name(names: &mut Vec<String>, name: String)
    ensures
        strings(final(names)@) == with_name(strings(old(names)@), name@),
{
    if !holds_name(names, &name) {
        names.push(name);
        assert(strings(names@) =~= strings(old(names)@).push(name@));
    }
}

/// Writes a count after an element or a group.
pub fn append_count(text: &mut String, count: u8)
    ensures
        final(text)@ == old(text)@ + count_text(count as nat),
{
    if count != 1 {
        let numeral = decimal_text(count as u64);
        text.append(numeral.as_str());
    } else {
        assert(text@ =~= text@ + Seq::<char>::empty());
    }
}

impl Element {
    /// Element constructor.
    pub fn new(name: String, count: u8) -> (element: Self)
        requires
            count >= 1,
        ensures
            element.name == name,
            element.count == count,
    {
        Self { name, count }
    }

    /// Adds element name to the list of elements' names.
    pub fn add_to_elements_names(&self, elements_names: &mut Vec<String>)
        ensures
            strings(final(elements_names)@) == self@.names(strings(old(elements_names)@)),
    {
        add_name(elements_names, self.name.clone());
    }

    /// Counts the number of atoms of element by its name.
    pub fn count_element_by_name(&self, element_name: &str) -> (count: i32)
        ensures
            count == self@.count(element_name@),
    {
        if same_text(self.name.as_str(), element_name) {
            self.count as i32
        } else {
            0
        }
    }

    /// Formats an element.
    pub fn format(&self) -> (text: String)
        ensures
            text@ == self@.text(),
    {
        let mut result = self.name.clone();
        append_count(&mut result, self.count);
        result
    }
}

} // verus!
