//! Allergen bookkeeping: ingredients with an occurrence count and the set
//! of allergens they might carry; safe food carries none.

use vstd::prelude::*;

verus! {

/// One ingredient: its name, how many food lines mention it, and which
/// allergens it may contain.
pub struct Ingredient {
    pub name: Vec<char>,
    pub count: usize,
    pub potential_allergen: Vec<Vec<char>>,
}

impl Ingredient {
    /// A fresh ingredient with no occurrences and no suspected allergens.
    pub fn new(name: &Vec<char>) -> (r: Ingredient)
        ensures
            r.name@ == name@,
            r.count == 0,
            r.potential_allergen@.len() == 0,
    {
        let mut n: Vec<char> = Vec::new();
        let mut i: usize = 0;
        let len = name.len();
        while i < len
            invariant
                i <= len,
                len == name@.len(),
                n@ == name@.subrange(0, i as int),
            decreases len - i,
        {
            n.push(name[i]);
            proof {
                assert(n@ =~= name@.subrange(0, i + 1));
            }
            i = i + 1;
        }
        proof {
            assert(n@ =~= name@);
        }
        Ingredient { name: n, count: 0, potential_allergen: Vec::new() }
    }

    /// The indices of the ingredients that can carry no allergen at all.
    pub fn search_safe_food(ingredients: &Vec<Ingredient>) -> (r: Vec<usize>)
        ensures
            forall|k: int|
                0 <= k < r@.len() ==> (#[trigger] r@[k]) < ingredients@.len()
                    && ingredients@[r@[k] as int].potential_allergen@.len() == 0,
            forall|i: int|
                0 <= i < ingredients@.len() && (#[trigger] ingredients@[i]).potential_allergen@.len()
                    == 0 ==> r@.contains(i as usize),
    {
        let mut r: Vec<usize> = Vec::new();
        let mut i: usize = 0;
        let n = ingredients.len();
        while i < n
            invariant
                i <= n,
                n == ingredients@.len(),
                forall|k: int|
                    0 <= k < r@.len() ==> (#[trigger] r@[k]) < ingredients@.len()
                        && ingredients@[r@[k] as int].potential_allergen@.len() == 0,
                forall|j: int|
                    0 <= j < i && (#[trigger] ingredients@[j]).potential_allergen@.len() == 0
                        ==> r@.contains(j as usize),
            decreases n - i,
        {
            if ingredients[i].potential_allergen.len() == 0 {
                let ghost prev = r@;
                r.push(i);
                proof {
                    assert(r@[r@.len() - 1] == i);
                    assert forall|j: int|
                        0 <= j < i + 1 && (#[trigger] ingredients@[j]).potential_allergen@.len()
                            == 0 implies r@.contains(j as usize) by {
                        if j < i {
                            assert(prev.contains(j as usize));
                            let w = choose|w: int| 0 <= w < prev.len() && prev[w] == j as usize;
                            assert(r@[w] == j as usize);
                        } else {
                            assert(r@[r@.len() - 1] == j as usize);
                        }
                    }
                }
            }
            i = i + 1;
        }
        r
    }
}

} // verus!
