//! What unification guarantees, stated over the models of [`crate::unify`]
//! and proved from their definitions.
use crate::cnf::{
    named_pair, named_pairs, naming_comment, remap_comment, remap_literal, variable, Formula,
};
use crate::text::{
    decimal, is_digit, lemma_decimal_digits, lemma_decimal_round_trip, lemma_first_position,
};
use crate::unify::{
    covered, global_id, global_names, is_unification, lemma_index_of_unique, lemma_local_to_global,
    lemma_names_after, local_to_global, name_table, padding_clause, padding_ids, padding_of,
    unified,
};
use vstd::seq_lib::seq_to_set_is_finite;
use vstd::prelude::*;

verus! {

/// Some name of `table` has the id `id`.
pub open spec fn has_id(table: Map<Seq<char>, usize>, id: usize) -> bool {
    exists|name: Seq<char>| table.contains_key(name) && #[trigger] table[name] == id
}

/// The ids of `table` are dense: there are finitely many names, and their
/// ids are exactly `1..=n` for `n` names, each id used once.
pub open spec fn is_dense(table: Map<Seq<char>, usize>) -> bool {
    &&& table.dom().finite()
    &&& forall|name: Seq<char>|
        table.contains_key(name) ==> 1 <= #[trigger] table[name] <= table.dom().len()
    &&& forall|id: usize| 1 <= id <= table.dom().len() ==> #[trigger] has_id(table, id)
    &&& forall|a: Seq<char>, b: Seq<char>|
        table.contains_key(a) && table.contains_key(b) && #[trigger] table[a] == #[trigger] table[b]
            ==> a == b
}

/// Naming comment `k` is the last one that uses its id.
pub open spec fn decides(pairs: Seq<(usize, Seq<char>)>, k: int) -> bool {
    &&& 0 <= k < pairs.len()
    &&& forall|j: int| k < j < pairs.len() ==> (#[trigger] pairs[j]).0 != pairs[k].0
}

/// No two naming comments use the same id.
pub open spec fn ids_are_distinct(pairs: Seq<(usize, Seq<char>)>) -> bool {
    forall|j: int, k: int|
        0 <= j < k < pairs.len() ==> (#[trigger] pairs[j]).0 != (#[trigger] pairs[k]).0
}

/// Every variable that occurs in a clause has a naming comment.
pub open spec fn fully_named(f: Formula) -> bool {
    forall|c: int, j: int|
        0 <= c < f.clauses.len() && 0 <= j < f.clauses[c].len() ==> exists|k: int|
            0 <= k < named_pairs(f.comments).len() && (#[trigger] named_pairs(f.comments)[k]).0
                == variable(#[trigger] f.clauses[c][j])
}

/// The number of positions of `items` that hold `item`.
pub open spec fn occurrences<A>(items: Seq<A>, item: A) -> nat
    decreases items.len(),
{
    if items.len() == 0 {
        0
    } else {
        occurrences(items.drop_last(), item) + if items.last() == item {
            1nat
        } else {
            0nat
        }
    }
}

/// The name at position `i` has the id `i + 1`.
pub proof fn lemma_global_id(names: Seq<Seq<char>>, i: int)
    requires
        names.no_duplicates(),
        names.len() <= usize::MAX,
        0 <= i < names.len(),
    ensures
        global_id(names, names[i]) == i + 1,
{
    lemma_index_of_unique(names, i);
}

/// The id of a name that is there lies in `1..=n`, and leads back to the
/// name.
pub proof fn lemma_global_id_of_name(names: Seq<Seq<char>>, name: Seq<char>)
    requires
        names.len() <= usize::MAX,
        names.contains(name),
    ensures
        1 <= global_id(names, name) <= names.len(),
        names[global_id(names, name) - 1] == name,
{
    let i = names.index_of(name);
    assert(0 <= i < names.len() && names[i] == name);
}

/// Two runs of unification on the same formulas agree: in the naming, in
/// every formula, and so in every padding clause.
pub proof fn theorem_unification_is_determined(
    before: Seq<Formula>,
    first: Seq<Formula>,
    first_table: Map<Seq<char>, usize>,
    second: Seq<Formula>,
    second_table: Map<Seq<char>, usize>,
)
    requires
        is_unification(before, first, first_table),
        is_unification(before, second, second_table),
    ensures
        first == second,
        first_table == second_table,
{
    assert(first =~= second);
}

/// The naming is dense: with `n` distinct names the ids are exactly
/// `1..=n`, so the size of the table is its largest id.
pub proof fn theorem_naming_is_dense(models: Seq<Formula>)
    requires
        global_names(models).len() <= usize::MAX,
    ensures
        is_dense(name_table(global_names(models))),
        name_table(global_names(models)).dom().len() == global_names(models).len(),
{
    let names = global_names(models);
    let table = name_table(names);
    lemma_names_after(models, models.len(), models.len());
    assert(table.dom() =~= names.to_set());
    names.unique_seq_to_set();
    seq_to_set_is_finite(names);
    assert forall|name: Seq<char>| table.contains_key(name) implies 1 <= #[trigger] table[name]
        <= table.dom().len() by {
        lemma_global_id_of_name(names, name);
    }
    assert forall|id: usize| 1 <= id <= table.dom().len() implies #[trigger] has_id(
        table,
        id,
    ) by {
        let name = names[id - 1];
        lemma_global_id(names, id - 1);
        assert(names.contains(name));
        assert(table.contains_key(name) && table[name] == id);
    }
    assert forall|a: Seq<char>, b: Seq<char>|
        table.contains_key(a) && table.contains_key(b) && #[trigger] table[a]
            == #[trigger] table[b] implies a == b by {
        lemma_global_id_of_name(names, a);
        lemma_global_id_of_name(names, b);
    }
}

/// The naming comment that decides an id sends that id to the global id of
/// its name.
pub proof fn lemma_deciding_pair(pairs: Seq<(usize, Seq<char>)>, names: Seq<Seq<char>>, k: int)
    requires
        decides(pairs, k),
    ensures
        local_to_global(pairs, names).contains_key(pairs[k].0),
        local_to_global(pairs, names)[pairs[k].0] == global_id(names, pairs[k].1),
    decreases pairs.len(),
{
    if k < pairs.len() - 1 {
        let front = pairs.drop_last();
        assert(front[k] == pairs[k]);
        assert forall|j: int| k < j < front.len() implies (#[trigger] front[j]).0 != front[k].0 by {
            assert(front[j] == pairs[j]);
        }
        lemma_deciding_pair(front, names, k);
        assert(pairs[pairs.len() - 1].0 != pairs[k].0);
    }
}

/// Where two formulas give the same name to a variable each, and no later
/// comment of either gives that variable's id another name, unification
/// sends the literals of both variables to the same global id, each with
/// its sign.
pub proof fn theorem_shared_names_share_an_id(
    a: Formula,
    b: Formula,
    names: Seq<Seq<char>>,
    ka: int,
    kb: int,
    lit_a: i32,
    lit_b: i32,
)
    requires
        names.len() <= i32::MAX,
        decides(named_pairs(a.comments), ka),
        decides(named_pairs(b.comments), kb),
        named_pairs(a.comments)[ka].1 == named_pairs(b.comments)[kb].1,
        names.contains(named_pairs(a.comments)[ka].1),
        lit_a != 0,
        lit_b != 0,
        variable(lit_a) == named_pairs(a.comments)[ka].0,
        variable(lit_b) == named_pairs(b.comments)[kb].0,
    ensures
        ({
            let id = global_id(names, named_pairs(a.comments)[ka].1);
            let new_a = remap_literal(local_to_global(named_pairs(a.comments), names), lit_a);
            let new_b = remap_literal(local_to_global(named_pairs(b.comments), names), lit_b);
            &&& variable(new_a) == id
            &&& variable(new_b) == id
            &&& (new_a > 0) == (lit_a > 0)
            &&& (new_b > 0) == (lit_b > 0)
        }),
{
    let name = named_pairs(a.comments)[ka].1;
    lemma_deciding_pair(named_pairs(a.comments), names, ka);
    lemma_deciding_pair(named_pairs(b.comments), names, kb);
    lemma_global_id_of_name(names, name);
}

/// The ids that are padded are those of `1..=n` that are not covered, each
/// once, in increasing order.
pub proof fn lemma_padding_ids(covered: Set<usize>, n: nat)
    requires
        n <= usize::MAX,
    ensures
        forall|k: int|
            0 <= k < padding_ids(covered, n).len() ==> 1 <= (#[trigger] padding_ids(covered, n)[k])
                <= n && !covered.contains(padding_ids(covered, n)[k]),
        forall|j: int, k: int|
            0 <= j < k < padding_ids(covered, n).len() ==> (#[trigger] padding_ids(covered, n)[j])
                < (#[trigger] padding_ids(covered, n)[k]),
        forall|id: usize|
            1 <= id <= n && !covered.contains(id) ==> #[trigger] padding_ids(covered, n).contains(
                id,
            ),
    decreases n,
{
    if n > 0 {
        let before = padding_ids(covered, (n - 1) as nat);
        let after = padding_ids(covered, n);
        lemma_padding_ids(covered, (n - 1) as nat);
        assert forall|id: usize| 1 <= id <= n && !covered.contains(id) implies #[trigger] after.contains(
            id,
        ) by {
            if id < n {
                assert(before.contains(id));
                let k = before.index_of(id);
                assert(after[k] == id);
            } else {
                assert(after[after.len() - 1] == id);
            }
        }
    }
}

/// An item that stands at exactly one position occurs once.
pub proof fn lemma_occurs_once<A>(items: Seq<A>, item: A, at: int)
    requires
        0 <= at < items.len(),
        items[at] == item,
        forall|k: int| 0 <= k < items.len() && #[trigger] items[k] == item ==> k == at,
    ensures
        occurrences(items, item) == 1,
    decreases items.len(),
{
    let front = items.drop_last();
    if at == items.len() - 1 {
        lemma_occurs_never(front, item);
    } else {
        assert(items[items.len() - 1] != item);
        assert forall|k: int| 0 <= k < front.len() && #[trigger] front[k] == item implies k
            == at by {
            assert(items[k] == item);
        }
        lemma_occurs_once(front, item, at);
    }
}

/// An item that stands nowhere occurs zero times.
pub proof fn lemma_occurs_never<A>(items: Seq<A>, item: A)
    requires
        forall|k: int| 0 <= k < items.len() ==> #[trigger] items[k] != item,
    ensures
        occurrences(items, item) == 0,
    decreases items.len(),
{
    if items.len() > 0 {
        let front = items.drop_last();
        assert forall|k: int| 0 <= k < front.len() implies #[trigger] front[k] != item by {
            assert(items[k] != item);
        }
        lemma_occurs_never(front, item);
        assert(items[items.len() - 1] != item);
    }
}

/// A naming comment says what it was made from.
pub proof fn lemma_naming_comment_parses(id: usize, name: Seq<char>)
    ensures
        named_pair(naming_comment(id, name)) == Some((id, name)),
{
    let digits = decimal(id as nat);
    let comment = naming_comment(id, name);
    lemma_decimal_digits(id as nat);
    lemma_decimal_round_trip(id as nat);
    assert forall|j: int| 0 <= j < digits.len() implies comment[j] != ' ' by {
        assert(comment[j] == digits[j]);
        assert(is_digit(digits[j]));
    }
    assert(comment[digits.len() as int] == ' ');
    lemma_first_position(comment, ' ', digits.len() as int);
    assert(comment.take(digits.len() as int) =~= digits);
    assert(comment.skip(digits.len() as int + 1) =~= name);
}

/// After unification a formula is declared over all global ids, and for
/// every global id that none of its names reaches it holds the naming
/// comment of that id exactly once. If every variable of its clauses is
/// named, it also holds the unit clause that pins that id to false exactly
/// once.
pub proof fn theorem_padding_is_exact(f: Formula, names: Seq<Seq<char>>, id: usize)
    requires
        names.len() <= i32::MAX,
        forall|k: int|
            0 <= k < named_pairs(f.comments).len() ==> names.contains(
                (#[trigger] named_pairs(f.comments)[k]).1,
            ),
        1 <= id <= names.len(),
        !covered(named_pairs(f.comments), names).contains(id),
    ensures
        unified(f, names).num_vars == names.len(),
        occurrences(padding_of(f, names), id) == 1,
        occurrences(unified(f, names).comments, naming_comment(id, names[id - 1])) == 1,
        fully_named(f) ==> occurrences(unified(f, names).clauses, padding_clause(id)) == 1,
{
    let pairs = named_pairs(f.comments);
    let ids = local_to_global(pairs, names);
    let cover = covered(pairs, names);
    let pads = padding_of(f, names);
    let after = unified(f, names);
    lemma_padding_ids(cover, names.len());
    lemma_local_to_global(pairs, names);
    assert(pads.contains(id));
    let at = pads.index_of(id);
    assert(0 <= at < pads.len() && pads[at] == id);
    lemma_occurs_once(pads, id, at);

    // every value of the renaming is a covered id
    assert forall|local: usize| #[trigger] ids.contains_key(local) implies cover.contains(
        ids[local],
    ) && ids[local] != id by {
        let k = choose|k: int|
            0 <= k < pairs.len() && pairs[k].0 == local && ids[local] == global_id(
                names,
                #[trigger] pairs[k].1,
            );
        assert(ids[pairs[k].0] == ids[local]);
    }

    // the comments
    let wanted = naming_comment(id, names[id - 1]);
    let n = f.comments.len() as int;
    lemma_naming_comment_parses(id, names[id - 1]);
    assert(after.comments[n + at] == wanted);
    assert forall|k: int| 0 <= k < after.comments.len() && #[trigger] after.comments[k]
        == wanted implies k == n + at by {
        if k < n {
            let old = f.comments[k];
            assert(after.comments[k] == remap_comment(ids, old));
            match named_pair(old) {
                Some((local, name)) => {
                    if ids.contains_key(local) {
                        lemma_naming_comment_parses(ids[local], name);
                    } else {
                        lemma_named_pairs_hold(f.comments, k);
                    }
                },
                None => {},
            }
        } else {
            let j = k - n;
            assert(after.comments[k] == naming_comment(pads[j], names[pads[j] - 1]));
            lemma_naming_comment_parses(pads[j], names[pads[j] - 1]);
        }
    }
    lemma_occurs_once(after.comments, wanted, n + at);

    // the clauses
    if fully_named(f) {
        let unit = padding_clause(id);
        let m = f.clauses.len() as int;
        assert(after.clauses[m + at] == unit);
        assert forall|k: int| 0 <= k < after.clauses.len() && #[trigger] after.clauses[k]
            == unit implies k == m + at by {
            if k < m {
                let old = f.clauses[k];
                assert(after.clauses[k].len() == old.len());
                assert(old.len() == 1);
                let lit = old[0];
                let j = choose|j: int|
                    0 <= j < pairs.len() && (#[trigger] pairs[j]).0 == variable(
                        #[trigger] f.clauses[k][0],
                    );
                assert(ids.contains_key(pairs[j].0));
                assert(after.clauses[k][0] == remap_literal(ids, lit));
                assert(cover.contains(ids[variable(lit) as usize]));
                assert(ids[variable(lit) as usize] <= names.len()) by {
                    let w = choose|w: int|
                        0 <= w < pairs.len() && pairs[w].0 == variable(lit) as usize
                            && ids[variable(lit) as usize] == global_id(
                            names,
                            #[trigger] pairs[w].1,
                        );
                    lemma_global_id_of_name(names, pairs[w].1);
                }
                assert(unit[0] == -(id as int));
                assert(false);
            } else {
                let j = k - m;
                assert(after.clauses[k] == padding_clause(pads[j]));
                assert(after.clauses[k][0] == unit[0]);
            }
        }
        lemma_occurs_once(after.clauses, unit, m + at);
    }
}

/// Every naming comment gives one of the pairs.
pub proof fn lemma_named_pairs_hold(comments: Seq<Seq<char>>, c: int)
    requires
        0 <= c < comments.len(),
        named_pair(comments[c]) is Some,
    ensures
        exists|k: int|
            0 <= k < named_pairs(comments).len() && #[trigger] named_pairs(comments)[k]
                == named_pair(comments[c])->0,
    decreases comments.len(),
{
    let pairs = named_pairs(comments);
    let front = comments.drop_last();
    if c == comments.len() - 1 {
        assert(pairs[pairs.len() - 1] == named_pair(comments[c])->0);
    } else {
        assert(front[c] == comments[c]);
        lemma_named_pairs_hold(front, c);
        let k = choose|k: int|
            0 <= k < named_pairs(front).len() && #[trigger] named_pairs(front)[k] == named_pair(
                front[c],
            )->0;
        assert(pairs[k] == named_pairs(front)[k]);
    }
}

/// A formula that already names every global name, each with an id of its
/// own, is not padded: unification adds no clause and no comment to it.
pub proof fn theorem_unified_formula_gets_no_padding(f: Formula, names: Seq<Seq<char>>)
    requires
        names.no_duplicates(),
        names.len() <= usize::MAX,
        ids_are_distinct(named_pairs(f.comments)),
        forall|i: int|
            0 <= i < names.len() ==> exists|k: int|
                0 <= k < named_pairs(f.comments).len() && (#[trigger] named_pairs(f.comments)[k]).1
                    == #[trigger] names[i],
    ensures
        padding_of(f, names).len() == 0,
        unified(f, names).clauses.len() == f.clauses.len(),
        unified(f, names).comments.len() == f.comments.len(),
        unified(f, names).num_clauses == f.num_clauses,
{
    let pairs = named_pairs(f.comments);
    let cover = covered(pairs, names);
    let pads = padding_of(f, names);
    lemma_padding_ids(cover, names.len());
    if pads.len() > 0 {
        let id = pads[0];
        assert(1 <= id <= names.len() && !cover.contains(id));
        let k = choose|k: int|
            0 <= k < pairs.len() && (#[trigger] pairs[k]).1 == #[trigger] names[id - 1];
        assert(decides(pairs, k));
        lemma_deciding_pair(pairs, names, k);
        lemma_global_id(names, id - 1);
        assert(local_to_global(pairs, names)[pairs[k].0] == id);
        assert(false);
    }
}

/// Unifying again adds nothing: a formula of a collection that names every
/// global name of the collection, each with an id of its own, gets no new
/// clause and no new comment.
pub proof fn theorem_unifying_again_adds_nothing(models: Seq<Formula>, i: int)
    requires
        global_names(models).len() <= usize::MAX,
        0 <= i < models.len(),
        ids_are_distinct(named_pairs(models[i].comments)),
        forall|g: int|
            0 <= g < global_names(models).len() ==> exists|k: int|
                0 <= k < named_pairs(models[i].comments).len() && (#[trigger] named_pairs(
                    models[i].comments,
                )[k]).1 == #[trigger] global_names(models)[g],
    ensures
        unified(models[i], global_names(models)).clauses.len() == models[i].clauses.len(),
        unified(models[i], global_names(models)).comments.len() == models[i].comments.len(),
        unified(models[i], global_names(models)).num_clauses == models[i].num_clauses,
{
    lemma_names_after(models, models.len(), models.len());
    theorem_unified_formula_gets_no_padding(models[i], global_names(models));
}

} // verus!
