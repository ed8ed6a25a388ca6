//! What a formula means, and why unification does not change it.
//!
//! An assignment is the set of the variables that it makes true. The
//! theorems say that the satisfying assignments of a unified formula are,
//! seen through the renaming, those of the formula it was made from, with
//! every padded variable false.
use crate::cnf::{named_pairs, remap_clause, remap_literal, variable, Formula};
use crate::theorems::{fully_named, lemma_global_id_of_name, lemma_padding_ids};
use crate::unify::{
    covered, global_id, lemma_local_to_global, local_to_global, padding_clause, padding_of,
    unified,
};
use vstd::prelude::*;

verus! {

/// The literal is true under the assignment. The literal zero, which names
/// no variable, is never true.
pub open spec fn holds(truths: Set<nat>, lit: i32) -> bool {
    if lit > 0 {
        truths.contains(variable(lit))
    } else if lit < 0 {
        !truths.contains(variable(lit))
    } else {
        false
    }
}

/// Some literal of the clause is true under the assignment.
pub open spec fn satisfies_clause(truths: Set<nat>, clause: Seq<i32>) -> bool {
    exists|j: int| 0 <= j < clause.len() && holds(truths, #[trigger] clause[j])
}

/// Every clause is satisfied by the assignment.
pub open spec fn satisfies(truths: Set<nat>, clauses: Seq<Seq<i32>>) -> bool {
    forall|c: int| 0 <= c < clauses.len() ==> satisfies_clause(truths, #[trigger] clauses[c])
}

/// The variable that renaming makes of `var`.
pub open spec fn renamed(ids: Map<usize, usize>, var: nat) -> nat {
    if var <= usize::MAX && ids.contains_key(var as usize) {
        ids[var as usize] as nat
    } else {
        var
    }
}

/// The assignment to the variables before renaming that `truths` stands
/// for: a variable is true if what renaming makes of it is true.
pub open spec fn seen_through(truths: Set<nat>, ids: Map<usize, usize>) -> Set<nat> {
    Set::new(|var: nat| truths.contains(renamed(ids, var)))
}

/// Every new id is a variable that fits a literal.
pub open spec fn ids_are_variables(ids: Map<usize, usize>) -> bool {
    forall|local: usize| ids.contains_key(local) ==> 1 <= #[trigger] ids[local] <= i32::MAX
}

/// A name is given to one id only.
pub open spec fn names_are_distinct(pairs: Seq<(usize, Seq<char>)>) -> bool {
    forall|j: int, k: int|
        0 <= j < pairs.len() && 0 <= k < pairs.len() && (#[trigger] pairs[j]).1
            == (#[trigger] pairs[k]).1 ==> pairs[j].0 == pairs[k].0
}

/// A renamed literal is true exactly if the literal was true before
/// renaming.
pub proof fn lemma_renamed_literal(truths: Set<nat>, ids: Map<usize, usize>, lit: i32)
    requires
        ids_are_variables(ids),
    ensures
        holds(truths, remap_literal(ids, lit)) == holds(seen_through(truths, ids), lit),
{
    let var = variable(lit) as usize;
    if ids.contains_key(var) {
        assert(1 <= ids[var] <= i32::MAX);
    }
}

/// A renamed clause is satisfied exactly if the clause was satisfied before
/// renaming.
pub proof fn lemma_renamed_clause(truths: Set<nat>, ids: Map<usize, usize>, clause: Seq<i32>)
    requires
        ids_are_variables(ids),
    ensures
        satisfies_clause(truths, remap_clause(ids, clause)) == satisfies_clause(
            seen_through(truths, ids),
            clause,
        ),
{
    let after = remap_clause(ids, clause);
    let seen = seen_through(truths, ids);
    if satisfies_clause(truths, after) {
        let j = choose|j: int| 0 <= j < after.len() && holds(truths, #[trigger] after[j]);
        lemma_renamed_literal(truths, ids, clause[j]);
        assert(holds(seen, clause[j]));
    }
    if satisfies_clause(seen, clause) {
        let j = choose|j: int| 0 <= j < clause.len() && holds(seen, #[trigger] clause[j]);
        lemma_renamed_literal(truths, ids, clause[j]);
        assert(holds(truths, after[j]));
    }
}

/// The map from local to global ids sends every id to one of `1..=n`.
pub proof fn lemma_global_ids_are_variables(f: Formula, names: Seq<Seq<char>>)
    requires
        names.len() <= i32::MAX,
        forall|k: int|
            0 <= k < named_pairs(f.comments).len() ==> names.contains(
                (#[trigger] named_pairs(f.comments)[k]).1,
            ),
    ensures
        ids_are_variables(local_to_global(named_pairs(f.comments), names)),
        forall|local: usize| #[trigger]
            local_to_global(named_pairs(f.comments), names).contains_key(local) ==> covered(
                named_pairs(f.comments),
                names,
            ).contains(local_to_global(named_pairs(f.comments), names)[local]),
{
    let pairs = named_pairs(f.comments);
    let ids = local_to_global(pairs, names);
    lemma_local_to_global(pairs, names);
    assert forall|local: usize| #[trigger] ids.contains_key(local) implies 1 <= ids[local]
        <= i32::MAX && covered(pairs, names).contains(ids[local]) by {
        let k = choose|k: int|
            0 <= k < pairs.len() && pairs[k].0 == local && ids[local] == global_id(
                names,
                #[trigger] pairs[k].1,
            );
        lemma_global_id_of_name(names, pairs[k].1);
        assert(ids[pairs[k].0] == ids[local]);
    }
}

/// An assignment satisfies a unified formula exactly if, seen through the
/// renaming, it satisfies the formula that was unified, and it makes every
/// padded variable false.
pub proof fn theorem_unification_keeps_the_models(
    f: Formula,
    names: Seq<Seq<char>>,
    truths: Set<nat>,
)
    requires
        names.len() <= i32::MAX,
        forall|k: int|
            0 <= k < named_pairs(f.comments).len() ==> names.contains(
                (#[trigger] named_pairs(f.comments)[k]).1,
            ),
    ensures
        satisfies(truths, unified(f, names).clauses) <==> (satisfies(
            seen_through(truths, local_to_global(named_pairs(f.comments), names)),
            f.clauses,
        ) && forall|k: int|
            0 <= k < padding_of(f, names).len() ==> !truths.contains(
                (#[trigger] padding_of(f, names)[k]) as nat,
            )),
{
    let pairs = named_pairs(f.comments);
    let ids = local_to_global(pairs, names);
    let pads = padding_of(f, names);
    let after = unified(f, names).clauses;
    let seen = seen_through(truths, ids);
    let m = f.clauses.len() as int;
    lemma_global_ids_are_variables(f, names);
    lemma_padding_ids(covered(pairs, names), names.len());
    assert forall|c: int| 0 <= c < m implies satisfies_clause(truths, #[trigger] after[c])
        == satisfies_clause(seen, f.clauses[c]) by {
        lemma_renamed_clause(truths, ids, f.clauses[c]);
    }
    assert forall|k: int| 0 <= k < pads.len() implies satisfies_clause(truths, after[m + k])
        == !truths.contains((#[trigger] pads[k]) as nat) by {
        let unit = padding_clause(pads[k]);
        assert(after[m + k] == unit);
        assert(1 <= pads[k] <= names.len());
        assert(variable(unit[0]) == pads[k]);
        if satisfies_clause(truths, unit) {
            let j = choose|j: int| 0 <= j < unit.len() && holds(truths, #[trigger] unit[j]);
            assert(j == 0);
        }
        if !truths.contains(pads[k] as nat) {
            assert(holds(truths, unit[0]));
        }
    }
    if satisfies(truths, after) {
        assert forall|c: int| 0 <= c < m implies satisfies_clause(seen, #[trigger] f.clauses[c]) by {
            assert(satisfies_clause(truths, after[c]));
        }
        assert forall|k: int| 0 <= k < pads.len() implies !truths.contains(
            (#[trigger] pads[k]) as nat,
        ) by {
            assert(satisfies_clause(truths, after[m + k]));
        }
    }
    if satisfies(seen, f.clauses) && forall|k: int|
        0 <= k < pads.len() ==> !truths.contains((#[trigger] pads[k]) as nat) {
        assert forall|c: int| 0 <= c < after.len() implies satisfies_clause(
            truths,
            #[trigger] after[c],
        ) by {
            if c < m {
                assert(satisfies_clause(seen, f.clauses[c]));
            } else {
                assert(!truths.contains(pads[c - m] as nat));
                assert(satisfies_clause(truths, after[m + (c - m)]));
            }
        }
    }
}

/// The assignment to the global ids that stands for `model`: a global id is
/// true if it is what renaming makes of a named variable that is true.
pub open spec fn carried_over(model: Set<nat>, f: Formula, names: Seq<Seq<char>>) -> Set<nat> {
    Set::new(
        |id: nat|
            exists|k: int|
                0 <= k < named_pairs(f.comments).len() && model.contains(
                    (#[trigger] named_pairs(f.comments)[k]).0 as nat,
                ) && local_to_global(named_pairs(f.comments), names)[named_pairs(f.comments)[k].0]
                    == id,
    )
}

/// Every satisfying assignment of a formula comes back after unification:
/// where every variable of the clauses is named and no name is given to two
/// ids, the assignment carried over to the global ids satisfies the unified
/// formula, and gives each named variable the value it had.
pub proof fn theorem_models_carry_over(f: Formula, names: Seq<Seq<char>>, model: Set<nat>)
    requires
        names.len() <= i32::MAX,
        forall|k: int|
            0 <= k < named_pairs(f.comments).len() ==> names.contains(
                (#[trigger] named_pairs(f.comments)[k]).1,
            ),
        fully_named(f),
        names_are_distinct(named_pairs(f.comments)),
        satisfies(model, f.clauses),
    ensures
        satisfies(carried_over(model, f, names), unified(f, names).clauses),
        forall|k: int|
            0 <= k < named_pairs(f.comments).len() ==> carried_over(model, f, names).contains(
                renamed(
                    local_to_global(named_pairs(f.comments), names),
                    (#[trigger] named_pairs(f.comments)[k]).0 as nat,
                ),
            ) == model.contains(named_pairs(f.comments)[k].0 as nat),
{
    let pairs = named_pairs(f.comments);
    let ids = local_to_global(pairs, names);
    let pads = padding_of(f, names);
    let carried = carried_over(model, f, names);
    let seen = seen_through(carried, ids);
    lemma_local_to_global(pairs, names);
    lemma_global_ids_are_variables(f, names);
    lemma_padding_ids(covered(pairs, names), names.len());

    // the renaming sends different named variables to different global ids
    assert forall|a: usize, b: usize|
        ids.contains_key(a) && ids.contains_key(b) && #[trigger] ids[a]
            == #[trigger] ids[b] implies a == b by {
        let ka = choose|k: int|
            0 <= k < pairs.len() && pairs[k].0 == a && ids[a] == global_id(
                names,
                #[trigger] pairs[k].1,
            );
        let kb = choose|k: int|
            0 <= k < pairs.len() && pairs[k].0 == b && ids[b] == global_id(
                names,
                #[trigger] pairs[k].1,
            );
        lemma_global_id_of_name(names, pairs[ka].1);
        lemma_global_id_of_name(names, pairs[kb].1);
        assert(pairs[ka].1 == pairs[kb].1);
    }
    assert forall|k: int| 0 <= k < pairs.len() implies carried.contains(
        renamed(ids, (#[trigger] pairs[k]).0 as nat),
    ) == model.contains(pairs[k].0 as nat) by {
        let local = pairs[k].0;
        assert(ids.contains_key(local));
        if carried.contains(ids[local] as nat) {
            let w = choose|w: int|
                0 <= w < pairs.len() && model.contains((#[trigger] pairs[w]).0 as nat)
                    && ids[pairs[w].0] == ids[local] as nat;
            assert(ids.contains_key(pairs[w].0));
            assert(pairs[w].0 == local);
        }
    }
    assert forall|c: int| 0 <= c < f.clauses.len() implies satisfies_clause(
        seen,
        #[trigger] f.clauses[c],
    ) by {
        let clause = f.clauses[c];
        assert(satisfies_clause(model, clause));
        let j = choose|j: int| 0 <= j < clause.len() && holds(model, #[trigger] clause[j]);
        let k = choose|k: int|
            0 <= k < pairs.len() && (#[trigger] pairs[k]).0 == variable(
                #[trigger] f.clauses[c][j],
            );
        assert(carried.contains(renamed(ids, pairs[k].0 as nat)) == model.contains(
            pairs[k].0 as nat,
        ));
        assert(holds(seen, clause[j]));
    }
    assert forall|k: int| 0 <= k < pads.len() implies !carried.contains(
        (#[trigger] pads[k]) as nat,
    ) by {
        if carried.contains(pads[k] as nat) {
            let w = choose|w: int|
                0 <= w < pairs.len() && model.contains((#[trigger] pairs[w]).0 as nat)
                    && ids[pairs[w].0] == pads[k] as nat;
            assert(covered(pairs, names).contains(ids[pairs[w].0]));
        }
    }
    theorem_unification_keeps_the_models(f, names, carried);
}

/// Two satisfying assignments of a unified formula that agree on what
/// renaming makes of the named variables agree on every global id: the
/// padded variables carry no choice.
pub proof fn theorem_padding_adds_no_models(
    f: Formula,
    names: Seq<Seq<char>>,
    first: Set<nat>,
    second: Set<nat>,
    id: nat,
)
    requires
        names.len() <= i32::MAX,
        forall|k: int|
            0 <= k < named_pairs(f.comments).len() ==> names.contains(
                (#[trigger] named_pairs(f.comments)[k]).1,
            ),
        satisfies(first, unified(f, names).clauses),
        satisfies(second, unified(f, names).clauses),
        forall|k: int|
            0 <= k < named_pairs(f.comments).len() ==> first.contains(
                renamed(
                    local_to_global(named_pairs(f.comments), names),
                    (#[trigger] named_pairs(f.comments)[k]).0 as nat,
                ),
            ) == second.contains(
                renamed(
                    local_to_global(named_pairs(f.comments), names),
                    named_pairs(f.comments)[k].0 as nat,
                ),
            ),
        1 <= id <= names.len(),
    ensures
        first.contains(id) == second.contains(id),
{
    let pairs = named_pairs(f.comments);
    let ids = local_to_global(pairs, names);
    let pads = padding_of(f, names);
    lemma_local_to_global(pairs, names);
    lemma_padding_ids(covered(pairs, names), names.len());
    theorem_unification_keeps_the_models(f, names, first);
    theorem_unification_keeps_the_models(f, names, second);
    if covered(pairs, names).contains(id as usize) {
        let k = choose|k: int| 0 <= k < pairs.len() && #[trigger] ids[pairs[k].0] == id as usize;
        assert(ids.contains_key(pairs[k].0));
        assert(renamed(ids, pairs[k].0 as nat) == id);
    } else {
        assert(pads.contains(id as usize));
        let k = pads.index_of(id as usize);
        assert(0 <= k < pads.len() && pads[k] == id);
        assert(!first.contains(pads[k] as nat));
        assert(!second.contains(pads[k] as nat));
    }
}

} // verus!
