//! The building blocks of a formula: elements, groups and entities.

use vstd::prelude::*;
use vstd::string::*;
use crate::arithmetic::{abs, LIMIT};
use crate::element::{strings, with_name, Element, ElementView};
use crate::entity::{Entity, EntityView};
use crate::group::{Group, GroupView};

verus! {

/// A building block of a formula. Every item counts the atoms of an
/// element under it, names the elements under it, and has a canonical text.
pub enum Item {
    Element(Element),
    Group(Group),
    Entity(Entity),
}

/// An item as plain values.
pub enum ItemView {
    Element(ElementView),
    Group(GroupView),
    Entity(EntityView),
}

/// The name under which the electrons of an entity are counted.
pub open spec fn electron() -> Seq<char> {
    seq!['e']
}

/// The views of a list of items.
pub open spec fn item_views(items: Seq<Item>) -> Seq<ItemView>
    decreases items,
{
    if items.len() == 0 {
        Seq::empty()
    } else {
        item_views(items.drop_last()).push(items.last()@)
    }
}

/// The sum of the counts of `name` over a list of items.
pub open spec fn counts(items: Seq<ItemView>, name: Seq<char>) -> int
    decreases items,
{
    if items.len() == 0 {
        0
    } else {
        counts(items.drop_last(), name) + items.last().count(name)
    }
}

/// The names found so far, with those of a list of items added in the order
/// in which they occur.
pub open spec fn all_names(items: Seq<ItemView>, found: Seq<Seq<char>>) -> Seq<Seq<char>>
    decreases items,
{
    if items.len() == 0 {
        found
    } else {
        all_names(items.drop_first(), items[0].names(found))
    }
}

/// The texts of a list of items, one after the other.
pub open spec fn texts(items: Seq<ItemView>) -> Seq<char>
    decreases items,
{
    if items.len() == 0 {
        Seq::empty()
    } else {
        texts(items.drop_last()) + items.last().text()
    }
}

/// The sum of the weights of a list of items.
pub open spec fn weights(items: Seq<ItemView>) -> nat
    decreases items,
{
    if items.len() == 0 {
        0
    } else {
        weights(items.drop_last()) + items.last().weight()
    }
}

impl ItemView {
    /// The number of atoms of the element named `name` under the item. The
    /// counts of nested groups multiply; an entity counts as many electrons
    /// as its charge is negative.
    pub open spec fn count(self, name: Seq<char>) -> int
        decreases self,
    {
        match self {
            ItemView::Element(element) => element.count(name),
            ItemView::Group(group) => group.count * counts(group.items, name),
            ItemView::Entity(entity) => if name == electron() {
                -entity.charge
            } else {
                counts(entity.items, name)
            },
        }
    }

    /// The names found so far, with those under the item added. An entity
    /// adds the electron before its items.
    pub open spec fn names(self, found: Seq<Seq<char>>) -> Seq<Seq<char>>
        decreases self,
    {
        match self {
            ItemView::Element(element) => element.names(found),
            ItemView::Group(group) => all_names(group.items, found),
            ItemView::Entity(entity) => all_names(entity.items, with_name(found, electron())),
        }
    }

    /// The canonical text of the item.
    pub open spec fn text(self) -> Seq<char>
        decreases self,
    {
        match self {
            ItemView::Element(element) => element.text(),
            ItemView::Group(group) => crate::group::group_text(texts(group.items), group.count),
            ItemView::Entity(entity) => crate::entity::entity_text(
                entity.items.len(),
                texts(entity.items),
                entity.charge,
            ),
        }
    }

    /// An upper bound of the magnitude of every count under the item, and,
    /// where every count of an element or a group is positive, of every sum
    /// that the counting goes through.
    pub open spec fn weight(self) -> nat
        decreases self,
    {
        match self {
            ItemView::Element(element) => element.weight(),
            ItemView::Group(group) => group.count * weights(group.items),
            ItemView::Entity(entity) => abs(entity.charge) + weights(entity.items),
        }
    }

    /// Every element and every group under the item has a count of at
    /// least 1.
    pub open spec fn positive(self) -> bool
        decreases self,
    {
        match self {
            ItemView::Element(element) => element.count >= 1,
            ItemView::Group(group) => group.count >= 1 && all_positive(group.items),
            ItemView::Entity(entity) => all_positive(entity.items),
        }
    }

    /// The counts under the item are positive, and its weight is at most
    /// `LIMIT`, so that every count of atoms under it fits 32 bits.
    pub open spec fn countable(self) -> bool {
        self.positive() && self.weight() <= LIMIT
    }
}

/// Every element and every group under the items has a count of at least
/// 1.
pub open spec fn all_positive(items: Seq<ItemView>) -> bool
    decreases items,
{
    items.len() == 0 || (all_positive(items.drop_last()) && items.last().positive())
}

impl View for Item {
    type V = ItemView;

    open spec fn view(&self) -> ItemView
        decreases self,
    {
        match self {
            Item::Element(element) => ItemView::Element(element@),
            Item::Group(group) => ItemView::Group(
                GroupView { items: item_views(group.items@), count: group.count as nat },
            ),
            Item::Entity(entity) => ItemView::Entity(
                EntityView { items: item_views(entity.items@), charge: entity.charge as int },
            ),
        }
    }
}

/// The view of an item is the view of what it holds.
pub proof fn lemma_item_view(item: Item)
    ensures
        item@ == match item {
            Item::Element(element) => ItemView::Element(element@),
            Item::Group(group) => ItemView::Group(group@),
            Item::Entity(entity) => ItemView::Entity(entity@),
        },
{
}

/// The views of a list of items are as many as the items, each the view of
/// the item in its place.
pub proof fn lemma_item_views(items: Seq<Item>)
    ensures
        item_views(items).len() == items.len(),
        forall|i: int| 0 <= i < items.len() ==> (#[trigger] item_views(items)[i]) == items[i]@,
    decreases items.len(),
{
    if items.len() > 0 {
        lemma_item_views(items.drop_last());
        assert(item_views(items) == item_views(items.drop_last()).push(items.last()@));
        assert(item_views(items).len() == items.len());
    } else {
        assert(item_views(items) == Seq::<ItemView>::empty());
    }
}

/// A list of items with one more at its end.
pub proof fn lemma_item_views_push(items: Seq<Item>, item: Item)
    ensures
        item_views(items.push(item)) == item_views(items).push(item@),
{
    assert(items.push(item).drop_last() =~= items);
}

/// The sums over the first items of a list do not exceed the sum over all.
pub proof fn lemma_weights_take(items: Seq<ItemView>, k: int)
    requires
        0 <= k <= items.len(),
    ensures
        weights(items.take(k)) <= weights(items),
        k < items.len() ==> weights(items.take(k)) + items[k].weight() <= weights(items),
    decreases items.len(),
{
    if k == items.len() {
        assert(items.take(k) =~= items);
    } else {
        assert(items.drop_last().take(k) =~= items.take(k));
        lemma_weights_take(items.drop_last(), k);
        if k == items.len() - 1 {
            assert(items.drop_last().take(k) =~= items.drop_last());
        }
    }
}

/// The items of a list with positive counts have positive counts, and so
/// have its first items.
pub proof fn lemma_all_positive(items: Seq<ItemView>, k: int)
    requires
        all_positive(items),
        0 <= k <= items.len(),
    ensures
        all_positive(items.take(k)),
        k < items.len() ==> items[k].positive(),
    decreases items.len(),
{
    if k == items.len() {
        assert(items.take(k) =~= items);
    } else {
        assert(items.drop_last().take(k) =~= items.take(k));
        if k < items.len() - 1 {
            lemma_all_positive(items.drop_last(), k);
            assert(items.drop_last()[k] == items[k]);
        } else {
            assert(items.drop_last().take(k) =~= items.drop_last());
        }
    }
}

/// No count under an item exceeds the weight of the item.
pub proof fn lemma_count_bound(item: ItemView, name: Seq<char>)
    ensures
        -item.weight() <= item.count(name) <= item.weight(),
    decreases item,
{
    match item {
        ItemView::Element(element) => {},
        ItemView::Group(group) => {
            lemma_counts_bound(group.items, name);
            let c = counts(group.items, name);
            let w = weights(group.items);
            assert(-(group.count * w) <= group.count * c <= group.count * w)
                by (nonlinear_arith)
                requires
                    -w <= c <= w,
                    0 <= group.count,
            ;
        },
        ItemView::Entity(entity) => {
            lemma_counts_bound(entity.items, name);
        },
    }
}

/// No sum of counts over a list of items exceeds the sum of their weights.
pub proof fn lemma_counts_bound(items: Seq<ItemView>, name: Seq<char>)
    ensures
        -weights(items) <= counts(items, name) <= weights(items),
    decreases items,
{
    if items.len() > 0 {
        lemma_counts_bound(items.drop_last(), name);
        lemma_count_bound(items.last(), name);
    }
}

/// The items of a group with a positive count weigh no more than the
/// group.
pub proof fn lemma_group_weight(count: nat, inner: nat)
    requires
        count >= 1,
    ensures
        inner <= count * inner,
{
    assert(inner <= count * inner) by (nonlinear_arith)
        requires
            count >= 1,
            inner >= 0,
    ;
}

impl Item {
    /// Adds the names of the elements under the item to the list of
    /// elements' names.
    pub fn add_to_elements_names(&self, elements_names: &mut Vec<String>)
        ensures
            strings(final(elements_names)@) == self@.names(strings(old(elements_names)@)),
        decreases self,
    {
        proof {
            lemma_item_view(*self);
        }
        match self {
            Item::Element(element) => element.add_to_elements_names(elements_names),
            Item::Group(group) => group.add_to_elements_names(elements_names),
            Item::Entity(entity) => entity.add_to_elements_names(elements_names),
        }
    }

    /// Counts the number of atoms of element by its name.
    pub fn count_element_by_name(&self, element_name: &str) -> (count: i32)
        requires
            self@.countable(),
        ensures
            count == self@.count(element_name@),
        decreases self,
    {
        proof {
            lemma_item_view(*self);
        }
        match self {
            Item::Element(element) => element.count_element_by_name(element_name),
            Item::Group(group) => group.count_element_by_name(element_name),
            Item::Entity(entity) => entity.count_element_by_name(element_name),
        }
    }

    /// Formats an item.
    pub fn format(&self) -> (text: String)
        ensures
            text@ == self@.text(),
        decreases self,
    {
        proof {
            lemma_item_view(*self);
        }
        match self {
            Item::Element(element) => element.format(),
            Item::Group(group) => group.format(),
            Item::Entity(entity) => entity.format(),
        }
    }

    /// The weight of the item, if the item is countable.
    pub fn weight(&self) -> (weight: Option<i32>)
        ensures
            match weight {
                Some(w) => self@.countable() && w == self@.weight(),
                None => !self@.countable(),
            },
        decreases self,
    {
        proof {
            lemma_item_view(*self);
        }
        match self {
            Item::Element(element) => if element.count == 0 {
                None
            } else {
                Some(element.count as i32)
            },
            Item::Group(group) => group.weight(),
            Item::Entity(entity) => entity.weight(),
        }
    }
}

/// The sum of the weights of a list of items, if their counts are positive
/// and the sum is at most `LIMIT`.
pub fn sum_of_weights(items: &Vec<Item>) -> (total: Option<i32>)
    ensures
        match total {
            Some(w) => all_positive(item_views(items@)) && w == weights(item_views(items@)),
            None => !all_positive(item_views(items@)) || weights(item_views(items@)) > LIMIT,
        },
    decreases items,
{
    let ghost views = item_views(items@);
    proof {
        lemma_item_views(items@);
    }
    let mut total: i32 = 0;
    let mut i: usize = 0;
    while i < items.len()
        invariant
            i <= items@.len(),
            views == item_views(items@),
            views.len() == items@.len(),
            forall|k: int| 0 <= k < items@.len() ==> (#[trigger] views[k]) == items@[k]@,
            0 <= total <= LIMIT,
            total == weights(views.take(i as int)),
            all_positive(views.take(i as int)),
        decreases items@.len() - i,
    {
        proof {
            lemma_weights_take(views, i as int);
            assert(views.take(i + 1).drop_last() =~= views.take(i as int));
            assert(views.take(i + 1).last() == views[i as int]);
            if all_positive(views) {
                lemma_all_positive(views, i as int);
            }
        }
        match items[i].weight() {
            None => {
                return None;
            },
            Some(w) => {
                if w > LIMIT - total {
                    return None;
                }
                total = total + w;
            },
        }
        i += 1;
    }
    assert(views.take(i as int) =~= views);
    Some(total)
}

/// The sum of the counts of an element over a list of items.
pub fn sum_of_counts(items: &Vec<Item>, element_name: &str) -> (total: i32)
    requires
        all_positive(item_views(items@)),
        weights(item_views(items@)) <= LIMIT,
    ensures
        total == counts(item_views(items@), element_name@),
    decreases items,
{
    let ghost views = item_views(items@);
    proof {
        lemma_item_views(items@);
    }
    let mut total: i32 = 0;
    let mut i: usize = 0;
    while i < items.len()
        invariant
            i <= items@.len(),
            views == item_views(items@),
            views.len() == items@.len(),
            forall|k: int| 0 <= k < items@.len() ==> (#[trigger] views[k]) == items@[k]@,
            all_positive(views),
            weights(views) <= LIMIT,
            total == counts(views.take(i as int), element_name@),
        decreases items@.len() - i,
    {
        proof {
            lemma_all_positive(views, i as int);
            lemma_weights_take(views, i as int);
            lemma_weights_take(views, i + 1);
            assert(views.take(i + 1).drop_last() =~= views.take(i as int));
            assert(views.take(i + 1).last() == views[i as int]);
            lemma_counts_bound(views.take(i as int), element_name@);
            lemma_counts_bound(views.take(i + 1), element_name@);
        }
        let count = items[i].count_element_by_name(element_name);
        total = total + count;
        i += 1;
    }
    assert(views.take(i as int) =~= views);
    total
}

/// Adds the names of the elements under a list of items to the list of
/// elements' names.
pub fn add_all_names(items: &Vec<Item>, elements_names: &mut Vec<String>)
    ensures
        strings(final(elements_names)@) == all_names(
            item_views(items@),
            strings(old(elements_names)@),
        ),
    decreases items,
{
    let ghost views = item_views(items@);
    proof {
        lemma_item_views(items@);
    }
    let ghost goal = all_names(views, strings(elements_names@));
    assert(views.skip(0) =~= views);
    let mut i: usize = 0;
    while i < items.len()
        invariant
            i <= items@.len(),
            views == item_views(items@),
            views.len() == items@.len(),
            forall|k: int| 0 <= k < items@.len() ==> (#[trigger] views[k]) == items@[k]@,
            all_names(views.skip(i as int), strings(elements_names@)) == goal,
        decreases items@.len() - i,
    {
        proof {
            assert(views.skip(i as int).drop_first() =~= views.skip(i + 1));
            assert(views.skip(i as int)[0] == views[i as int]);
        }
        items[i].add_to_elements_names(elements_names);
        i += 1;
    }
    assert(views.skip(i as int).len() == 0);
}

/// Formats a list of items, one after the other.
pub fn format_all(items: &Vec<Item>) -> (text: String)
    ensures
        text@ == texts(item_views(items@)),
    decreases items,
{
    let ghost views = item_views(items@);
    proof {
        lemma_item_views(items@);
    }
    let mut result = String::new();
    let mut i: usize = 0;
    while i < items.len()
        invariant
            i <= items@.len(),
            views == item_views(items@),
            views.len() == items@.len(),
            forall|k: int| 0 <= k < items@.len() ==> (#[trigger] views[k]) == items@[k]@,
            result@ == texts(views.take(i as int)),
        decreases items@.len() - i,
    {
        proof {
            assert(views.take(i + 1).drop_last() =~= views.take(i as int));
            assert(views.take(i + 1).last() == views[i as int]);
        }
        let part = items[i].format();
        result.append(part.as_str());
        i += 1;
    }
    assert(views.take(i as int) =~= views);
    result
}

} // verus!
