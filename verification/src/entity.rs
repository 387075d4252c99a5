//! One reactant or product of an equation, with its charge.

use vstd::prelude::*;
use vstd::string::*;
use crate::arithmetic::{abs, integer_abs, LIMIT};
use crate::element::{add_name, strings, with_name};
use crate::item::{
    add_all_names, all_names, all_positive, counts, electron, format_all, item_views, sum_of_counts,
    sum_of_weights, texts, weights, Item, ItemView,
};
use crate::text::{decimal, decimal_text, same_text};

verus! {

/// A reactant or a product: the items of its formula, and its charge. An
/// entity without items and with the charge -1 is an electron.
pub struct Entity {
    /// Items
    pub items: Vec<Item>,
    /// Charge
    pub charge: i8,
}

/// An entity as plain values.
pub struct EntityView {
    pub items: Seq<ItemView>,
    pub charge: int,
}

/// The charge written after an entity: nothing for a charge of 0, 1 or -1,
/// else the magnitude and the sign between braces.
pub open spec fn charge_text(charge: int) -> Seq<char> {
    if charge == 0 || abs(charge) == 1 {
        Seq::empty()
    } else {
        seq!['{'] + decimal(abs(charge)) + seq![if charge > 0 { '+' } else { '\u{2212}' }] + seq!['}']
    }
}

/// The text of an entity with `len` items whose text is `inner`: a bare
/// electron is `e` with a minus sign, anything else its items and its
/// charge.
pub open spec fn entity_text(len: nat, inner: Seq<char>, charge: int) -> Seq<char> {
    if len == 0 && charge == -1 {
        seq!['e', '\u{2212}']
    } else {
        inner + charge_text(charge)
    }
}

impl EntityView {
    /// The number of atoms of the element named `name`; for the electron,
    /// the charge negated.
    pub open spec fn count(self, name: Seq<char>) -> int {
        if name == electron() {
            -self.charge
        } else {
            counts(self.items, name)
        }
    }

    /// The names found so far, with the electron and then those of the
    /// items added.
    pub open spec fn names(self, found: Seq<Seq<char>>) -> Seq<Seq<char>> {
        all_names(self.items, with_name(found, electron()))
    }

    /// The canonical text.
    pub open spec fn text(self) -> Seq<char> {
        entity_text(self.items.len(), texts(self.items), self.charge)
    }

    /// An upper bound of the magnitude of every count under the entity.
    pub open spec fn weight(self) -> nat {
        abs(self.charge) + weights(self.items)
    }

    /// Every count under the entity is at least 1, and its weight is at
    /// most `LIMIT`.
    pub open spec fn countable(self) -> bool {
        all_positive(self.items) && self.weight() <= LIMIT
    }

    /// The entity holds an item, or it is a bare electron.
    pub open spec fn valid(self) -> bool {
        self.items.len() > 0 || self.charge == -1
    }
}

impl View for Entity {
    type V = EntityView;

    open spec fn view(&self) -> EntityView {
        EntityView { items: item_views(self.items@), charge: self.charge as int }
    }
}

impl Entity {
    /// Entity constructor.
    pub fn new(items: Vec<Item>, charge: i8) -> (entity: Entity)
        requires
            items@.len() > 0 || charge == -1,
        ensures
            entity.items == items,
            entity.charge == charge,
    {
        Entity { items, charge }
    }

    /// Adds the electron and the names of the elements of the entity to the
    /// list of elements' names.
    pub fn add_to_elements_names(&self, elements_names: &mut Vec<String>)
        ensures
            strings(final(elements_names)@) == self@.names(strings(old(elements_names)@)),
        decreases self,
    {
        proof {
            reveal_strlit("e");
        }
        let name = String::from_str("e");
        assert(name@ =~= electron());
        add_name(elements_names, name);
        add_all_names(&self.items, elements_names);
    }

    /// Counts the number of atoms of element by its name.
    pub fn count_element_by_name(&self, element_name: &str) -> (count: i32)
        requires
            self@.countable(),
        ensures
            count == self@.count(element_name@),
        decreases self,
    {
        proof {
            reveal_strlit("e");
            assert("e"@ =~= electron());
        }
        if same_text(element_name, "e") {
            return -(self.charge as i32);
        }
        sum_of_counts(&self.items, element_name)
    }

    /// Formats an entity.
    pub fn format(&self) -> (text: String)
        ensures
            text@ == self@.text(),
        decreases self,
    {
        proof {
            reveal_strlit("e\u{2212}");
            reveal_strlit("{");
            reveal_strlit("+");
            reveal_strlit("\u{2212}");
            reveal_strlit("}");
            crate::item::lemma_item_views(self.items@);
        }
        if self.items.len() == 0 && self.charge == -1 {
            let electron_text = String::from_str("e\u{2212}");
            assert(electron_text@ =~= self@.text());
            return electron_text;
        }
        let mut result = format_all(&self.items);
        let ghost inner = result@;
        if self.charge != 0 {
            let charge_without_sign: u8 = if self.charge == -128 {
                128
            } else {
                integer_abs(self.charge) as u8
            };
            if charge_without_sign != 1 {
                result.append("{");
                let numeral = decimal_text(charge_without_sign as u64);
                result.append(numeral.as_str());
                result.append(if self.charge > 0 { "+" } else { "\u{2212}" });
                result.append("}");
                assert(result@ =~= inner + charge_text(self.charge as int));
            } else {
                assert(result@ =~= inner + charge_text(self.charge as int));
            }
        } else {
            assert(result@ =~= inner + charge_text(self.charge as int));
        }
        result
    }

    /// The weight of the entity, if the entity is countable.
    pub fn weight(&self) -> (weight: Option<i32>)
        ensures
            match weight {
                Some(w) => self@.countable() && w == self@.weight(),
                None => !self@.countable(),
            },
        decreases self,
    {
        match sum_of_weights(&self.items) {
            None => None,
            Some(total) => {
                let magnitude: i32 = if self.charge < 0 {
                    -(self.charge as i32)
                } else {
                    self.charge as i32
                };
                if magnitude > LIMIT - total {
                    None
                } else {
                    Some(magnitude + total)
                }
            },
        }
    }
}

} // verus!
