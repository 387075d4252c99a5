//! A parenthesized part of a formula with its count, such as `(SO4)3`.

use vstd::prelude::*;
use vstd::string::*;
use crate::arithmetic::LIMIT;
use crate::element::{append_count, count_text, strings};
use crate::item::{
    add_all_names, all_names, all_positive, counts, format_all, item_views, lemma_group_weight,
    sum_of_counts, sum_of_weights, texts, weights, Item, ItemView,
};

verus! {

/// A part of a formula between parentheses, taken as often as its count
/// says.
pub struct Group {
    /// Items
    pub items: Vec<Item>,
    /// Count
    pub count: u8,
}

/// A group as plain values.
pub struct GroupView {
    pub items: Seq<ItemView>,
    pub count: nat,
}

/// The text of a group whose items have the text `inner`.
pub open spec fn group_text(inner: Seq<char>, count: nat) -> Seq<char> {
    seq!['('] + inner + seq![')'] + count_text(count)
}

impl GroupView {
    /// The number of atoms of the element named `name`: the count of the
    /// group times the sum over its items.
    pub open spec fn count(self, name: Seq<char>) -> int {
        self.count * counts(self.items, name)
    }

    /// The names found so far, with those of the items added.
    pub open spec fn names(self, found: Seq<Seq<char>>) -> Seq<Seq<char>> {
        all_names(self.items, found)
    }

    /// The canonical text: the items between parentheses, and the count
    /// unless it is 1.
    pub open spec fn text(self) -> Seq<char> {
        group_text(texts(self.items), self.count)
    }

    /// An upper bound of the magnitude of every count under the group.
    pub open spec fn weight(self) -> nat {
        self.count * weights(self.items)
    }

    /// The count of the group and every count under it is at least 1, and
    /// its weight is at most `LIMIT`.
    pub open spec fn countable(self) -> bool {
        self.count >= 1 && all_positive(self.items) && self.weight() <= LIMIT
    }
}

impl View for Group {
    type V = GroupView;

    open spec fn view(&self) -> GroupView {
        GroupView { items: item_views(self.items@), count: self.count as nat }
    }
}

impl Group {
    /// Group constructor.
    pub fn new(items: Vec<Item>, count: u8) -> (group: Self)
        requires
            count >= 1,
        ensures
            group.items == items,
            group.count == count,
    {
        Self { items, count }
    }

    /// Adds the names of the elements of the group to the list of elements'
    /// names.
    pub fn add_to_elements_names(&self, elements_names: &mut Vec<String>)
        ensures
            strings(final(elements_names)@) == self@.names(strings(old(elements_names)@)),
        decreases self,
    {
        add_all_names(&self.items, elements_names);
    }

    /// Counts the number of atoms of element by its name.
    pub fn count_element_by_name(&self, element_name: &str) -> (count: i32)
        requires
            self@.countable(),
        ensures
            count == self@.count(element_name@),
        decreases self,
    {
        let ghost w = weights(self@.items);
        proof {
            lemma_group_weight(self.count as nat, w);
        }
        let total = sum_of_counts(&self.items, element_name);
        proof {
            crate::item::lemma_counts_bound(self@.items, element_name@);
            assert(-(self.count * w) <= self.count * total <= self.count * w)
                by (nonlinear_arith)
                requires
                    -w <= total <= w,
                    0 <= self.count,
            ;
        }
        (self.count as i32) * total
    }

    /// Formats a group.
    pub fn format(&self) -> (text: String)
        ensures
            text@ == self@.text(),
        decreases self,
    {
        proof {
            reveal_strlit("(");
            reveal_strlit(")");
        }
        let mut result = String::from_str("(");
        let inner = format_all(&self.items);
        result.append(inner.as_str());
        result.append(")");
        append_count(&mut result, self.count);
        assert(result@ =~= self@.text());
        result
    }

    /// The weight of the group, if the group is countable.
    pub fn weight(&self) -> (weight: Option<i32>)
        ensures
            match weight {
                Some(w) => self@.countable() && w == self@.weight(),
                None => !self@.countable(),
            },
        decreases self,
    {
        if self.count == 0 {
            return None;
        }
        let ghost w = weights(self@.items);
        proof {
            lemma_group_weight(self.count as nat, w);
        }
        match sum_of_weights(&self.items) {
            None => None,
            Some(total) => {
                let count: i64 = self.count as i64;
                assert(0 <= count * total <= 255 * 2147483647) by (nonlinear_arith)
                    requires
                        0 <= count <= 255,
                        0 <= total <= 2147483647,
                ;
                let product: i64 = count * (total as i64);
                if product > LIMIT as i64 {
                    None
                } else {
                    Some(product as i32)
                }
            },
        }
    }
}

} // verus!
