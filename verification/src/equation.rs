//! An equation: its reactants and its products.

use vstd::prelude::*;
use vstd::slice::slice_subrange;
use vstd::string::*;
use crate::arithmetic::LIMIT;
use crate::element::strings;
use crate::entity::{Entity, EntityView};
use crate::matrix::ints;
use crate::text::{signed_decimal, signed_decimal_text};

verus! {

/// An equation: the entities on its left and those on its right.
pub struct Equation {
    /// Reactants
    pub reactants: Vec<Entity>,
    /// Products
    pub products: Vec<Entity>,
}

/// An equation as plain values.
pub struct EquationView {
    pub reactants: Seq<EntityView>,
    pub products: Seq<EntityView>,
}

/// The views of a list of entities.
pub open spec fn entity_views(entities: Seq<Entity>) -> Seq<EntityView> {
    entities.map_values(|entity: Entity| entity@)
}

/// The names found so far, with those of a list of entities added in the
/// order in which they occur.
pub open spec fn entity_names(entities: Seq<EntityView>, found: Seq<Seq<char>>) -> Seq<Seq<char>>
    decreases entities.len(),
{
    if entities.len() == 0 {
        found
    } else {
        entity_names(entities.drop_first(), entities[0].names(found))
    }
}

/// The coefficient of the entity at `index`: 1 where the list of
/// coefficients is too short.
pub open spec fn coefficient_at(coefficients: Seq<int>, index: int) -> int {
    if 0 <= index < coefficients.len() {
        coefficients[index]
    } else {
        1
    }
}

/// Whether one of the first `count` entities has a coefficient other than
/// zero, so that it is shown.
pub open spec fn any_shown(coefficients: Seq<int>, count: int) -> bool {
    exists|i: int| 0 <= i < count && coefficient_at(coefficients, i) != 0
}

/// An entity with its coefficient before it: nothing before it for 1, else
/// the numeral and a no-break space.
pub open spec fn term_text(coefficient: int, entity: EntityView) -> Seq<char> {
    if coefficient == 1 {
        entity.text()
    } else {
        signed_decimal(coefficient) + seq!['\u{a0}'] + entity.text()
    }
}

/// One side of an equation: the entities whose coefficient is not zero,
/// each with its coefficient, joined by ` + `.
pub open spec fn terms_text(coefficients: Seq<int>, entities: Seq<EntityView>) -> Seq<char>
    decreases entities.len(),
{
    if entities.len() == 0 {
        Seq::empty()
    } else {
        let index = entities.len() - 1;
        let before = terms_text(coefficients, entities.drop_last());
        let coefficient = coefficient_at(coefficients, index);
        if coefficient == 0 {
            before
        } else if any_shown(coefficients, index) {
            before + seq![' ', '+', ' '] + term_text(coefficient, entities.last())
        } else {
            before + term_text(coefficient, entities.last())
        }
    }
}

impl EquationView {
    /// The reactants and then the products.
    pub open spec fn entities(self) -> Seq<EntityView> {
        self.reactants + self.products
    }

    /// The number of columns of the matrix of the equation: one for each
    /// entity, and one for the solution.
    pub open spec fn columns(self) -> int {
        self.entities().len() as int + 1
    }

    /// The names of the elements of the equation, each once, in the order
    /// in which they occur; the electron comes first.
    pub open spec fn names(self) -> Seq<Seq<char>> {
        entity_names(self.products, entity_names(self.reactants, Seq::empty()))
    }

    /// The text of the equation with the coefficients before its entities:
    /// the first of them for the reactants, the following for the products.
    pub open spec fn text(self, coefficients: Seq<int>) -> Seq<char> {
        terms_text(coefficients, self.reactants) + seq![' ', '=', ' '] + terms_text(
            coefficients.skip(self.reactants.len() as int),
            self.products,
        )
    }

    /// Every count of an element or a group is at least 1, and no entity
    /// weighs more than `LIMIT`, so that every count of atoms fits 32 bits;
    /// and the numbers of names and of entities leave room for one more
    /// row and column.
    pub open spec fn countable(self) -> bool {
        &&& self.names().len() < usize::MAX
        &&& self.entities().len() < usize::MAX
        &&& forall|i: int|
            0 <= i < self.entities().len() ==> (#[trigger] self.entities()[i]).countable()
    }
}

impl View for Equation {
    type V = EquationView;

    open spec fn view(&self) -> EquationView {
        EquationView {
            reactants: entity_views(self.reactants@),
            products: entity_views(self.products@),
        }
    }
}

/// Adds the names of the elements of a list of entities to the list of
/// elements' names.
fn add_entity_names(entities: &Vec<Entity>, elements_names: &mut Vec<String>)
    ensures
        strings(final(elements_names)@) == entity_names(
            entity_views(entities@),
            strings(old(elements_names)@),
        ),
{
    let ghost views = entity_views(entities@);
    let ghost goal = entity_names(views, strings(elements_names@));
    assert(views.skip(0) =~= views);
    let mut i: usize = 0;
    while i < entities.len()
        invariant
            i <= entities@.len(),
            views == entity_views(entities@),
            entity_names(views.skip(i as int), strings(elements_names@)) == goal,
        decreases entities@.len() - i,
    {
        proof {
            assert(views.skip(i as int).drop_first() =~= views.skip(i + 1));
            assert(views.skip(i as int)[0] == views[i as int]);
        }
        entities[i].add_to_elements_names(elements_names);
        i += 1;
    }
    assert(views.skip(i as int).len() == 0);
}

/// Whether no entity of the list weighs more than `LIMIT`.
fn all_countable(entities: &Vec<Entity>) -> (countable: bool)
    ensures
        countable == (forall|i: int|
            0 <= i < entities@.len() ==> (#[trigger] entity_views(entities@)[i]).countable()),
{
    let mut i: usize = 0;
    while i < entities.len()
        invariant
            i <= entities@.len(),
            forall|k: int| 0 <= k < i ==> (#[trigger] entity_views(entities@)[k]).countable(),
        decreases entities@.len() - i,
    {
        if entities[i].weight().is_none() {
            assert(entity_views(entities@)[i as int].countable() == false);
            return false;
        }
        i += 1;
    }
    true
}

impl Equation {
    /// Equation constructor.
    pub fn new(reactants: Vec<Entity>, products: Vec<Entity>) -> (equation: Equation)
        ensures
            equation.reactants == reactants,
            equation.products == products,
    {
        Equation { reactants, products }
    }

    /// Returns the elements names.
    pub fn get_elements_names(&self) -> (elements_names: Vec<String>)
        ensures
            strings(elements_names@) == self@.names(),
            strings(elements_names@).no_duplicates(),
    {
        proof {
            crate::names::lemma_equation_names_distinct(self@);
        }
        let mut elements_names: Vec<String> = Vec::new();
        assert(strings(elements_names@) =~= Seq::<Seq<char>>::empty());
        add_entity_names(&self.reactants, &mut elements_names);
        add_entity_names(&self.products, &mut elements_names);
        elements_names
    }

    /// Whether every count of atoms in the equation fits 32 bits, and its
    /// matrix has a size that a machine integer holds.
    pub fn is_countable(&self) -> (countable: bool)
        ensures
            countable == self@.countable(),
    {
        let elements_names = self.get_elements_names();
        assert(strings(elements_names@).len() == elements_names@.len());
        if elements_names.len() == usize::MAX || self.reactants.len() >= usize::MAX
            - self.products.len() {
            return false;
        }
        let reactants = all_countable(&self.reactants);
        let products = all_countable(&self.products);
        proof {
            let all = self@.entities();
            if reactants && products {
                assert forall|i: int| 0 <= i < all.len() implies (#[trigger] all[i]).countable() by {
                    if i < self@.reactants.len() {
                        assert(all[i] == entity_views(self.reactants@)[i]);
                    } else {
                        assert(all[i] == entity_views(self.products@)[i - self@.reactants.len()]);
                    }
                }
            } else if !reactants {
                let i = choose|i: int|
                    0 <= i < self.reactants@.len() && (#[trigger] entity_views(
                        self.reactants@,
                    )[i]).countable() == false;
                assert(all[i] == entity_views(self.reactants@)[i]);
            } else {
                let i = choose|i: int|
                    0 <= i < self.products@.len() && (#[trigger] entity_views(
                        self.products@,
                    )[i]).countable() == false;
                assert(all[i + self@.reactants.len()] == entity_views(self.products@)[i]);
            }
        }
        reactants && products
    }

    /// Formats the entities.
    pub fn format_entities(&self, coefficients: &[i32], entities: &[Entity]) -> (text: String)
        ensures
            text@ == terms_text(ints(coefficients@), entity_views(entities@)),
    {
        let ghost numbers = ints(coefficients@);
        let ghost views = entity_views(entities@);
        let mut result = String::new();
        let mut is_head = true;
        let mut i: usize = 0;
        while i < entities.len()
            invariant
                i <= entities@.len(),
                numbers == ints(coefficients@),
                views == entity_views(entities@),
                is_head == !any_shown(numbers, i as int),
                result@ == terms_text(numbers, views.take(i as int)),
            decreases entities@.len() - i,
        {
            let coefficient = if i < coefficients.len() {
                coefficients[i]
            } else {
                1
            };
            proof {
                reveal_strlit(" + ");
                reveal_strlit("\u{a0}");
                assert(views.take(i + 1).drop_last() =~= views.take(i as int));
                assert(views.take(i + 1).last() == views[i as int]);
                assert(coefficient == coefficient_at(numbers, i as int));
                if coefficient == 0 {
                    if any_shown(numbers, i + 1) {
                        let k = choose|k: int| 0 <= k < i + 1 && coefficient_at(numbers, k) != 0;
                        assert(0 <= k < i && coefficient_at(numbers, k) != 0);
                    }
                } else {
                    assert(0 <= i < i + 1 && coefficient_at(numbers, i as int) != 0);
                }
            }
            if coefficient != 0 {
                let ghost before = result@;
                if is_head {
                    is_head = false;
                } else {
                    result.append(" + ");
                }
                if coefficient != 1 {
                    let numeral = signed_decimal_text(coefficient);
                    result.append(numeral.as_str());
                    result.append("\u{a0}");
                }
                let formula = entities[i].format();
                result.append(formula.as_str());
                assert(result@ =~= terms_text(numbers, views.take(i + 1)));
            }
            i += 1;
        }
        assert(views.take(i as int) =~= views);
        result
    }

    /// Formats an equation.
    pub fn format(&self, coefficients: &[i32]) -> (text: String)
        requires
            coefficients@.len() >= self.reactants@.len(),
        ensures
            text@ == self@.text(ints(coefficients@)),
    {
        proof {
            reveal_strlit(" = ");
        }
        let mut result = self.format_entities(coefficients, self.reactants.as_slice());
        result.append(" = ");
        let rest = slice_subrange(coefficients, self.reactants.len(), coefficients.len());
        assert(ints(rest@) =~= ints(coefficients@).skip(self@.reactants.len() as int));
        let products = self.format_entities(rest, self.products.as_slice());
        result.append(products.as_str());
        assert(result@ =~= self@.text(ints(coefficients@)));
        result
    }
}

} // verus!
