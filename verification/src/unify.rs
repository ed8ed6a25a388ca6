//! Unification of variable ids across formulas.
//!
//! Every name that a naming comment of any formula gives gets one global id.
//! The ids are `1..=N`, handed out in the order in which the names are first
//! seen: formula by formula, comment by comment. Each formula is then renamed
//! to the global ids and widened to `N` variables; a global id that none of
//! its names reaches is pinned to false by a unit clause of its own.
use crate::cnf::{named_pairs, naming_comment, remap_clauses, remap_comments, Formula, CNF};
use crate::text::push_decimal;
use crate::theorems::{is_dense, theorem_naming_is_dense};
use std::collections::HashMap;
use std::collections::HashSet;
use vstd::hash_map::StringHashMap;
use vstd::prelude::*;

verus! {

broadcast use vstd::std_specs::hash::group_hash_axioms;

/// The formulas that a slice of `CNF` holds.
pub open spec fn formulas(cnfs: Seq<CNF>) -> Seq<Formula> {
    Seq::new(cnfs.len(), |i: int| cnfs[i]@)
}

/// The names seen so far, after one more name.
pub open spec fn absorb_name(names: Seq<Seq<char>>, name: Seq<char>) -> Seq<Seq<char>> {
    if names.contains(name) {
        names
    } else {
        names.push(name)
    }
}

/// The names seen so far, after the names of `pairs` in order.
pub open spec fn absorb_names(names: Seq<Seq<char>>, pairs: Seq<(usize, Seq<char>)>) -> Seq<
    Seq<char>,
>
    decreases pairs.len(),
{
    if pairs.len() == 0 {
        names
    } else {
        absorb_name(absorb_names(names, pairs.drop_last()), pairs.last().1)
    }
}

/// The distinct names of the first `n` formulas, in first-seen order.
pub open spec fn names_after(models: Seq<Formula>, n: nat) -> Seq<Seq<char>>
    decreases n,
{
    if n == 0 {
        Seq::empty()
    } else {
        absorb_names(names_after(models, (n - 1) as nat), named_pairs(models[n - 1].comments))
    }
}

/// The distinct names of all formulas, in first-seen order. The name at
/// position `k` has the global id `k + 1`.
pub open spec fn global_names(models: Seq<Formula>) -> Seq<Seq<char>> {
    names_after(models, models.len())
}

/// The global id of `name`: one more than its position in `names`.
pub open spec fn global_id(names: Seq<Seq<char>>, name: Seq<char>) -> usize {
    (names.index_of(name) + 1) as usize
}

/// The map from each name in `names` to its global id.
pub open spec fn name_table(names: Seq<Seq<char>>) -> Map<Seq<char>, usize> {
    Map::new(|name: Seq<char>| names.contains(name), |name: Seq<char>| global_id(names, name))
}

/// The map from a formula's own ids to global ids: each naming comment sends
/// its id to the global id of its name; where two comments use one id, the
/// later one decides.
pub open spec fn local_to_global(pairs: Seq<(usize, Seq<char>)>, names: Seq<Seq<char>>) -> Map<
    usize,
    usize,
>
    decreases pairs.len(),
{
    if pairs.len() == 0 {
        Map::empty()
    } else {
        local_to_global(pairs.drop_last(), names).insert(
            pairs.last().0,
            global_id(names, pairs.last().1),
        )
    }
}

/// The global ids that a formula's naming comments reach.
pub open spec fn covered(pairs: Seq<(usize, Seq<char>)>, names: Seq<Seq<char>>) -> Set<usize> {
    Set::new(
        |id: usize|
            exists|k: int|
                0 <= k < pairs.len() && #[trigger] local_to_global(pairs, names)[pairs[k].0] == id,
    )
}

/// The ids in `1..=n` that are not in `covered`, in increasing order.
pub open spec fn padding_ids(covered: Set<usize>, n: nat) -> Seq<usize>
    decreases n,
{
    if n == 0 {
        Seq::empty()
    } else {
        let before = padding_ids(covered, (n - 1) as nat);
        if covered.contains(n as usize) {
            before
        } else {
            before.push(n as usize)
        }
    }
}

/// The unit clause that pins variable `id` to false.
pub open spec fn padding_clause(id: usize) -> Seq<i32> {
    seq![(-(id as int)) as i32]
}

/// The padding clauses for `pads`, in order.
pub open spec fn padding_clauses(pads: Seq<usize>) -> Seq<Seq<i32>> {
    Seq::new(pads.len(), |k: int| padding_clause(pads[k]))
}

/// The naming comments for `pads`, in order.
pub open spec fn padding_comments(pads: Seq<usize>, names: Seq<Seq<char>>) -> Seq<Seq<char>> {
    Seq::new(pads.len(), |k: int| naming_comment(pads[k], names[pads[k] - 1]))
}

/// The ids that `f` is padded with under the global names `names`.
pub open spec fn padding_of(f: Formula, names: Seq<Seq<char>>) -> Seq<usize> {
    padding_ids(covered(named_pairs(f.comments), names), names.len())
}

/// A formula after unification under the global names `names`: renamed,
/// declared over all global ids, and padded.
pub open spec fn unified(f: Formula, names: Seq<Seq<char>>) -> Formula {
    let ids = local_to_global(named_pairs(f.comments), names);
    let pads = padding_of(f, names);
    Formula {
        num_vars: names.len(),
        num_clauses: f.num_clauses + pads.len(),
        clauses: remap_clauses(ids, f.clauses) + padding_clauses(pads),
        comments: remap_comments(ids, f.comments) + padding_comments(pads, names),
    }
}

/// `after` and `table` are what unification makes of the formulas `before`:
/// the table of the global names, and each formula unified under them.
pub open spec fn is_unification(
    before: Seq<Formula>,
    after: Seq<Formula>,
    table: Map<Seq<char>, usize>,
) -> bool {
    &&& after.len() == before.len()
    &&& table == name_table(global_names(before))
    &&& forall|i: int|
        0 <= i < before.len() ==> #[trigger] after[i] == unified(before[i], global_names(before))
}

/// In a sequence without duplicates, an element is found where it stands.
pub proof fn lemma_index_of_unique(s: Seq<Seq<char>>, i: int)
    requires
        s.no_duplicates(),
        0 <= i < s.len(),
    ensures
        s.index_of(s[i]) == i,
{
    let j = s.index_of(s[i]);
    assert(0 <= j < s.len() && s[j] == s[i]);
}

/// A new name gets the next id and disturbs no other.
pub proof fn lemma_name_table_push(names: Seq<Seq<char>>, name: Seq<char>)
    requires
        names.no_duplicates(),
        !names.contains(name),
    ensures
        names.push(name).no_duplicates(),
        name_table(names.push(name)) == name_table(names).insert(
            name,
            (names.len() + 1) as usize,
        ),
{
    let after = names.push(name);
    assert(after.no_duplicates()) by {
        assert forall|i: int, j: int| 0 <= i < after.len() && 0 <= j < after.len() && i != j implies after[i]
            != after[j] by {
            if i < names.len() {
                assert(names.contains(after[i]));
            }
            if j < names.len() {
                assert(names.contains(after[j]));
            }
        }
    }
    let lhs = name_table(after);
    let rhs = name_table(names).insert(name, (names.len() + 1) as usize);
    assert(after[names.len() as int] == name);
    assert forall|n: Seq<char>| lhs.contains_key(n) <==> rhs.contains_key(n) by {
        if names.contains(n) {
            let i = names.index_of(n);
            assert(after[i] == n);
        }
        if after.contains(n) {
            let i = after.index_of(n);
            if i < names.len() {
                assert(names[i] == n);
            }
        }
    }
    assert forall|n: Seq<char>| lhs.contains_key(n) implies lhs[n] == rhs[n] by {
        let i = after.index_of(n);
        if n == name {
            lemma_index_of_unique(after, names.len() as int);
        } else {
            assert(names[i] == n);
            lemma_index_of_unique(names, i);
        }
    }
    assert(lhs =~= rhs);
}

/// Absorbing names keeps the names that were there, in their places, adds
/// nothing twice, and leaves every absorbed name in the table.
pub proof fn lemma_absorb_names(names: Seq<Seq<char>>, pairs: Seq<(usize, Seq<char>)>)
    requires
        names.no_duplicates(),
    ensures
        absorb_names(names, pairs).no_duplicates(),
        names.len() <= absorb_names(names, pairs).len(),
        forall|i: int| 0 <= i < names.len() ==> absorb_names(names, pairs)[i] == names[i],
        forall|k: int|
            0 <= k < pairs.len() ==> absorb_names(names, pairs).contains(#[trigger] pairs[k].1),
        forall|i: int|
            #![trigger absorb_names(names, pairs)[i]]
            names.len() <= i < absorb_names(names, pairs).len() ==> exists|k: int|
                0 <= k < pairs.len() && (#[trigger] pairs[k]).1 == absorb_names(names, pairs)[i],
    decreases pairs.len(),
{
    if pairs.len() > 0 {
        let before = absorb_names(names, pairs.drop_last());
        let name = pairs.last().1;
        let after = absorb_names(names, pairs);
        lemma_absorb_names(names, pairs.drop_last());
        if !before.contains(name) {
            lemma_name_table_push(before, name);
            assert(after[before.len() as int] == name);
        }
        assert forall|k: int| 0 <= k < pairs.len() implies after.contains(
            #[trigger] pairs[k].1,
        ) by {
            if k < pairs.len() - 1 {
                assert(pairs.drop_last()[k] == pairs[k]);
                let i = before.index_of(pairs[k].1);
                assert(after[i] == pairs[k].1);
            } else if before.contains(name) {
                let i = before.index_of(name);
                assert(after[i] == name);
            }
        }
        assert forall|i: int| #![trigger after[i]] names.len() <= i < after.len() implies exists|
            k: int,
        |
            0 <= k < pairs.len() && (#[trigger] pairs[k]).1 == after[i] by {
            if i < before.len() {
                assert(before[i] == after[i]);
                let k = choose|k: int|
                    0 <= k < pairs.drop_last().len() && (#[trigger] pairs.drop_last()[k]).1
                        == before[i];
                assert(pairs[k].1 == after[i]);
            } else {
                assert(pairs[pairs.len() - 1].1 == after[i]);
            }
        }
    }
}

/// The names after `m` formulas stay in place when more formulas are read,
/// and every name of a formula that was read is among them.
pub proof fn lemma_names_after(models: Seq<Formula>, m: nat, n: nat)
    requires
        m <= n <= models.len(),
    ensures
        names_after(models, n).no_duplicates(),
        names_after(models, m).len() <= names_after(models, n).len(),
        forall|i: int|
            0 <= i < names_after(models, m).len() ==> names_after(models, n)[i] == names_after(
                models,
                m,
            )[i],
        m >= 1 ==> forall|k: int|
            0 <= k < named_pairs(models[m - 1].comments).len() ==> names_after(models, n).contains(
                #[trigger] named_pairs(models[m - 1].comments)[k].1,
            ),
    decreases n,
{
    if n == 0 {
    } else if m == n {
        lemma_names_after(models, (n - 1) as nat, (n - 1) as nat);
        lemma_absorb_names(names_after(models, (n - 1) as nat), named_pairs(models[n - 1].comments));
    } else {
        lemma_names_after(models, m, (n - 1) as nat);
        let before = names_after(models, (n - 1) as nat);
        let after = names_after(models, n);
        lemma_absorb_names(before, named_pairs(models[n - 1].comments));
        if m >= 1 {
            let pairs = named_pairs(models[m - 1].comments);
            assert forall|k: int| 0 <= k < pairs.len() implies after.contains(
                #[trigger] pairs[k].1,
            ) by {
                let i = before.index_of(pairs[k].1);
                assert(after[i] == pairs[k].1);
            }
        }
    }
}

/// Every id that a naming comment carries has an entry in the map from local
/// to global ids, and every entry is the global id of one of the names.
pub proof fn lemma_local_to_global(pairs: Seq<(usize, Seq<char>)>, names: Seq<Seq<char>>)
    ensures
        forall|k: int|
            0 <= k < pairs.len() ==> local_to_global(pairs, names).contains_key(
                #[trigger] pairs[k].0,
            ),
        forall|id: usize| #[trigger]
            local_to_global(pairs, names).contains_key(id) ==> exists|k: int|
                0 <= k < pairs.len() && pairs[k].0 == id && local_to_global(pairs, names)[id]
                    == global_id(names, #[trigger] pairs[k].1),
    decreases pairs.len(),
{
    if pairs.len() > 0 {
        let front = pairs.drop_last();
        lemma_local_to_global(front, names);
        let m = local_to_global(pairs, names);
        assert forall|k: int| 0 <= k < pairs.len() implies m.contains_key(
            #[trigger] pairs[k].0,
        ) by {
            if k < pairs.len() - 1 {
                assert(front[k] == pairs[k]);
            }
        }
        assert forall|id: usize| #[trigger] m.contains_key(id) implies exists|k: int|
            0 <= k < pairs.len() && pairs[k].0 == id && m[id] == global_id(
                names,
                #[trigger] pairs[k].1,
            ) by {
            if id == pairs.last().0 {
                let k = pairs.len() - 1;
                assert(pairs[k].0 == id && m[id] == global_id(names, pairs[k].1));
            } else {
                let k = choose|k: int|
                    0 <= k < front.len() && front[k].0 == id && local_to_global(front, names)[id]
                        == global_id(names, #[trigger] front[k].1);
                assert(pairs[k].0 == id && m[id] == global_id(names, pairs[k].1));
            }
        }
    }
}

/// Of a longer range of ids, at least as many are padded.
pub proof fn lemma_padding_ids_grow(covered: Set<usize>, m: nat, n: nat)
    requires
        m <= n,
    ensures
        padding_ids(covered, m).len() <= padding_ids(covered, n).len(),
    decreases n,
{
    if m < n {
        lemma_padding_ids_grow(covered, m, (n - 1) as nat);
    }
}

/// The global naming while it is being built: the names in first-seen order,
/// and the id of each.
pub struct NameMapping {
    pub ids: StringHashMap<usize>,
    pub names: Vec<String>,
}

impl NameMapping {
    /// The names in id order: the name at position `k` has id `k + 1`.
    pub open spec fn names(&self) -> Seq<Seq<char>> {
        self.names.deep_view()
    }

    /// No name occurs twice, and the two directions agree.
    pub open spec fn wf(&self) -> bool {
        &&& self.names().no_duplicates()
        &&& self.ids@ == name_table(self.names())
    }

    /// The naming that knows no name.
    pub fn new() -> (mapping: NameMapping)
        ensures
            mapping.wf(),
            mapping.names() == Seq::<Seq<char>>::empty(),
    {
        let mapping = NameMapping { ids: StringHashMap::new(), names: Vec::new() };
        proof {
            assert(mapping.names() =~= Seq::<Seq<char>>::empty());
            assert(mapping.ids@ =~= name_table(mapping.names()));
        }
        mapping
    }

    /// The number of names, which is also the largest id.
    pub fn len(&self) -> (n: usize)
        ensures
            n == self.names().len(),
    {
        self.names.len()
    }

    /// Gives `name` the next unused id unless it has one.
    pub fn intern(&mut self, name: &str)
        requires
            old(self).wf(),
        ensures
            final(self).wf(),
            final(self).names() == absorb_name(old(self).names(), name@),
    {
        if !self.ids.contains_key(name) {
            let ghost before = self.names();
            self.names.push(String::from_str(name));
            let id = self.names.len();
            self.ids.insert(String::from_str(name), id);
            proof {
                lemma_name_table_push(before, name@);
                assert(self.names() =~= before.push(name@));
            }
        }
    }

    /// The id of `name`, if it has one.
    pub fn id_of(&self, name: &str) -> (id: Option<usize>)
        requires
            self.wf(),
        ensures
            id is Some <==> self.names().contains(name@),
            id is Some ==> id->0 == global_id(self.names(), name@) && 1 <= id->0
                <= self.names().len() && self.names()[id->0 - 1] == name@,
    {
        let count = self.names.len();
        proof {
            let names = self.names();
            assert(names.len() == count);
            if names.contains(name@) {
                let i = names.index_of(name@);
                assert(0 <= i < names.len() && names[i] == name@);
                assert(self.ids@.contains_key(name@));
                assert(self.ids@[name@] == global_id(names, name@));
            }
        }
        match self.ids.get(name) {
            Some(id) => Some(*id),
            None => None,
        }
    }

    /// The name with the given id.
    pub fn name_of(&self, id: usize) -> (name: &String)
        requires
            1 <= id <= self.names().len(),
        ensures
            name@ == self.names()[id - 1],
    {
        &self.names[id - 1]
    }
}

/// The part of unification that concerns one formula: renames it to the
/// global ids of `mapping`, declares it over all of them, and pins to false
/// each global id that none of its names reaches.
pub fn unify_one(cnf: &mut CNF, mapping: &NameMapping)
    requires
        mapping.wf(),
        mapping.names().len() <= i32::MAX,
        forall|k: int|
            0 <= k < named_pairs(old(cnf)@.comments).len() ==> mapping.names().contains(
                #[trigger] named_pairs(old(cnf)@.comments)[k].1,
            ),
        unified(old(cnf)@, mapping.names()).num_clauses <= usize::MAX,
    ensures
        final(cnf)@ == unified(old(cnf)@, mapping.names()),
{
    let ghost names = mapping.names();
    let ghost start = cnf@;
    let max_var = mapping.len();
    let own = cnf.get_names_from_comments();
    let ghost pairs = own.deep_view();

    let mut local_ids: HashMap<usize, usize> = HashMap::new();
    let mut k: usize = 0;
    while k < own.len()
        invariant
            k <= own.len(),
            mapping.wf(),
            names == mapping.names(),
            pairs == own.deep_view(),
            forall|j: int| 0 <= j < pairs.len() ==> names.contains(#[trigger] pairs[j].1),
            local_ids@ == local_to_global(pairs.take(k as int), names),
            forall|id: usize| local_ids@.contains_key(id) ==> #[trigger] local_ids@[id] <= names.len(),
        decreases own.len() - k,
    {
        proof {
            assert(pairs.take(k + 1).drop_last() =~= pairs.take(k as int));
            assert(pairs.take(k + 1).last() == pairs[k as int]);
            assert(names.contains(pairs[k as int].1));
        }
        let global = mapping.id_of(own[k].1.as_str()).unwrap();
        local_ids.insert(own[k].0, global);
        k = k + 1;
    }
    proof {
        assert(pairs.take(own.len() as int) =~= pairs);
        lemma_local_to_global(pairs, names);
    }
    let ghost ids = local_ids@;

    cnf.remap_variable_ids(&local_ids);
    cnf.num_vars = max_var;

    let mut reached: HashSet<usize> = HashSet::new();
    let mut k: usize = 0;
    while k < own.len()
        invariant
            k <= own.len(),
            pairs == own.deep_view(),
            ids == local_ids@,
            forall|j: int| 0 <= j < pairs.len() ==> ids.contains_key(#[trigger] pairs[j].0),
            forall|id: usize|
                reached@.contains(id) <==> exists|j: int|
                    0 <= j < k && #[trigger] ids[pairs[j].0] == id,
        decreases own.len() - k,
    {
        proof {
            assert(ids.contains_key(pairs[k as int].0));
        }
        let global = *local_ids.get(&own[k].0).unwrap();
        reached.insert(global);
        proof {
            assert(ids[pairs[k as int].0] == global);
        }
        k = k + 1;
    }
    let ghost cover = covered(pairs, names);
    proof {
        assert(reached@ =~= cover);
    }

    let ghost base = cnf@;
    let mut new_var: usize = 0;
    while new_var < max_var
        invariant
            new_var <= max_var == names.len() <= i32::MAX,
            mapping.wf(),
            names == mapping.names(),
            reached@ == cover,
            cover == covered(named_pairs(start.comments), names),
            start.num_clauses + padding_ids(cover, names.len()).len() <= usize::MAX,
            cnf@.num_vars == names.len(),
            cnf@.num_clauses == start.num_clauses + padding_ids(cover, new_var as nat).len(),
            cnf@.clauses == base.clauses + padding_clauses(padding_ids(cover, new_var as nat)),
            cnf@.comments == base.comments + padding_comments(
                padding_ids(cover, new_var as nat),
                names,
            ),
        decreases max_var - new_var,
    {
        new_var = new_var + 1;
        let ghost before = padding_ids(cover, (new_var - 1) as nat);
        if !reached.contains(&new_var) {
            proof {
                lemma_padding_ids_grow(cover, new_var as nat, names.len());
            }
            let literal: i32 = -(new_var as i32);
            let clause: Vec<i32> = vec![literal];
            proof {
                assert(clause@ =~= padding_clause(new_var));
            }
            cnf.add_clause(clause);
            let mut comment = String::new();
            push_decimal(&mut comment, new_var as u64);
            comment.push(' ');
            comment.append(mapping.name_of(new_var).as_str());
            proof {
                assert(comment@ =~= naming_comment(new_var, names[new_var - 1]));
            }
            cnf.add_comment(comment);
            proof {
                let after = before.push(new_var);
                assert(padding_clauses(after) =~= padding_clauses(before).push(
                    padding_clause(new_var),
                ));
                assert(padding_comments(after, names) =~= padding_comments(before, names).push(
                    naming_comment(new_var, names[new_var - 1]),
                ));
                assert(cnf@.clauses =~= base.clauses + padding_clauses(after));
                assert(cnf@.comments =~= base.comments + padding_comments(after, names));
            }
        }
    }
}

/// Gives every name of every formula one global id, and rewrites each
/// formula over the global ids.
///
/// The ids are `1..=N` for `N` distinct names, in first-seen order. Each
/// formula is renamed, declared over `N` variables, and padded: for every
/// global id that none of its names reaches it gets the unit clause that
/// pins that variable to false, and the comment that names it. The result
/// maps each name to its global id.
///
/// Global ids must fit a literal, and the clause counts must fit a `usize`.
pub fn unify_variable_mappings(cnfs: &mut [CNF]) -> (name_to_global_id: StringHashMap<usize>)
    requires
        global_names(formulas(old(cnfs)@)).len() <= i32::MAX,
        forall|i: int|
            0 <= i < old(cnfs)@.len() ==> (#[trigger] unified(
                formulas(old(cnfs)@)[i],
                global_names(formulas(old(cnfs)@)),
            )).num_clauses <= usize::MAX,
    ensures
        final(cnfs)@.len() == old(cnfs)@.len(),
        name_to_global_id@ == name_table(global_names(formulas(old(cnfs)@))),
        forall|i: int|
            0 <= i < old(cnfs)@.len() ==> (#[trigger] final(cnfs)@[i])@ == unified(
                old(cnfs)@[i]@,
                global_names(formulas(old(cnfs)@)),
            ),
        is_unification(formulas(old(cnfs)@), formulas(final(cnfs)@), name_to_global_id@),
        is_dense(name_to_global_id@),
        name_to_global_id@.dom().len() == global_names(formulas(old(cnfs)@)).len(),
{
    let ghost models = formulas(cnfs@);
    let count = cnfs.len();
    let mut mapping = NameMapping::new();
    let mut i: usize = 0;
    while i < count
        invariant
            i <= count == cnfs@.len(),
            cnfs@ == old(cnfs)@,
            models == formulas(cnfs@),
            mapping.wf(),
            mapping.names() == names_after(models, i as nat),
        decreases count - i,
    {
        let own = cnfs[i].get_names_from_comments();
        let ghost pairs = own.deep_view();
        let ghost before = mapping.names();
        let mut k: usize = 0;
        while k < own.len()
            invariant
                k <= own.len(),
                pairs == own.deep_view(),
                mapping.wf(),
                mapping.names() == absorb_names(before, pairs.take(k as int)),
            decreases own.len() - k,
        {
            proof {
                assert(pairs.take(k + 1).drop_last() =~= pairs.take(k as int));
                assert(pairs.take(k + 1).last() == pairs[k as int]);
            }
            mapping.intern(own[k].1.as_str());
            k = k + 1;
        }
        proof {
            assert(pairs.take(own.len() as int) =~= pairs);
            assert(models[i as int] == cnfs@[i as int]@);
        }
        i = i + 1;
    }
    let ghost names = global_names(models);

    let mut i: usize = 0;
    while i < count
        invariant
            i <= count == cnfs@.len(),
            count == old(cnfs)@.len(),
            models == formulas(old(cnfs)@),
            names == global_names(models),
            mapping.wf(),
            mapping.names() == names,
            names.len() <= i32::MAX,
            forall|j: int|
                0 <= j < count ==> (#[trigger] unified(models[j], names)).num_clauses <= usize::MAX,
            forall|j: int| 0 <= j < i ==> (#[trigger] cnfs@[j])@ == unified(old(cnfs)@[j]@, names),
            forall|j: int| i <= j < count ==> cnfs@[j] == old(cnfs)@[j],
        decreases count - i,
    {
        proof {
            lemma_names_after(models, (i + 1) as nat, models.len());
            assert(models[i as int] == cnfs@[i as int]@);
            assert(unified(models[i as int], names).num_clauses <= usize::MAX);
        }
        unify_one(&mut cnfs[i], &mapping);
        i = i + 1;
    }
    proof {
        theorem_naming_is_dense(models);
        assert(formulas(cnfs@) =~= Seq::new(models.len(), |j: int| unified(models[j], names)));
    }
    mapping.ids
}

/// The number of comments in the first `n` formulas.
pub open spec fn comment_count(models: Seq<Formula>, n: nat) -> nat
    decreases n,
{
    if n == 0 {
        0
    } else {
        comment_count(models, (n - 1) as nat) + models[n - 1].comments.len()
    }
}

/// There is room to unify the formulas whatever their comments say: were
/// each comment a name of its own, the ids would still fit a literal, and
/// with one more clause for each the clause counts would still fit a
/// `usize`.
pub open spec fn has_room(models: Seq<Formula>) -> bool {
    let total = comment_count(models, models.len());
    &&& total <= i32::MAX
    &&& forall|i: int|
        0 <= i < models.len() ==> (#[trigger] models[i]).num_clauses + total <= usize::MAX
}

/// There are no more naming comments than comments.
pub proof fn lemma_named_pairs_len(comments: Seq<Seq<char>>)
    ensures
        named_pairs(comments).len() <= comments.len(),
    decreases comments.len(),
{
    if comments.len() > 0 {
        lemma_named_pairs_len(comments.drop_last());
    }
}

/// Absorbing names adds at most one name for each.
pub proof fn lemma_absorb_names_len(names: Seq<Seq<char>>, pairs: Seq<(usize, Seq<char>)>)
    ensures
        absorb_names(names, pairs).len() <= names.len() + pairs.len(),
    decreases pairs.len(),
{
    if pairs.len() > 0 {
        lemma_absorb_names_len(names, pairs.drop_last());
    }
}

/// There are no more names than comments.
pub proof fn lemma_names_after_len(models: Seq<Formula>, n: nat)
    ensures
        names_after(models, n).len() <= comment_count(models, n),
    decreases n,
{
    if n > 0 {
        lemma_names_after_len(models, (n - 1) as nat);
        lemma_named_pairs_len(models[n - 1].comments);
        lemma_absorb_names_len(
            names_after(models, (n - 1) as nat),
            named_pairs(models[n - 1].comments),
        );
    }
}

/// Of `n` ids at most `n` are padded.
pub proof fn lemma_padding_ids_len(covered: Set<usize>, n: nat)
    ensures
        padding_ids(covered, n).len() <= n,
    decreases n,
{
    if n > 0 {
        lemma_padding_ids_len(covered, (n - 1) as nat);
    }
}

/// Formulas with room can be unified: the global ids fit a literal and the
/// clause counts fit a `usize`.
pub proof fn lemma_room_suffices(models: Seq<Formula>)
    requires
        has_room(models),
    ensures
        global_names(models).len() <= i32::MAX,
        forall|i: int|
            0 <= i < models.len() ==> (#[trigger] unified(
                models[i],
                global_names(models),
            )).num_clauses <= usize::MAX,
{
    let names = global_names(models);
    lemma_names_after_len(models, models.len());
    assert forall|i: int| 0 <= i < models.len() implies (#[trigger] unified(
        models[i],
        names,
    )).num_clauses <= usize::MAX by {
        lemma_padding_ids_len(covered(named_pairs(models[i].comments), names), names.len());
    }
}

/// Decides whether the formulas have room to be unified, by counting their
/// comments. Formulas with room meet what [`unify_variable_mappings`] asks.
pub fn has_room_for_unification(cnfs: &[CNF]) -> (ok: bool)
    ensures
        ok == has_room(formulas(cnfs@)),
        ok ==> global_names(formulas(cnfs@)).len() <= i32::MAX,
        ok ==> forall|i: int|
            0 <= i < cnfs@.len() ==> (#[trigger] unified(
                formulas(cnfs@)[i],
                global_names(formulas(cnfs@)),
            )).num_clauses <= usize::MAX,
{
    let ghost models = formulas(cnfs@);
    let count = cnfs.len();
    let mut total: usize = 0;
    let mut i: usize = 0;
    while i < count
        invariant
            i <= count == cnfs@.len(),
            models == formulas(cnfs@),
            total == comment_count(models, i as nat),
            total <= i32::MAX,
        decreases count - i,
    {
        let more = cnfs[i].comments.len();
        proof {
            assert(models[i as int].comments.len() == more);
            lemma_comment_count_grows(models, (i + 1) as nat, count as nat);
        }
        if more > 0x7fff_ffff - total {
            return false;
        }
        total = total + more;
        i = i + 1;
    }
    let mut i: usize = 0;
    while i < count
        invariant
            i <= count == cnfs@.len(),
            models == formulas(cnfs@),
            total == comment_count(models, count as nat),
            total <= i32::MAX,
            forall|j: int| 0 <= j < i ==> (#[trigger] models[j]).num_clauses + total <= usize::MAX,
        decreases count - i,
    {
        proof {
            assert(models[i as int].num_clauses == cnfs@[i as int].num_clauses);
        }
        if cnfs[i].num_clauses > usize::MAX - total {
            return false;
        }
        i = i + 1;
    }
    proof {
        lemma_room_suffices(models);
    }
    true
}

/// More formulas have at least as many comments.
pub proof fn lemma_comment_count_grows(models: Seq<Formula>, m: nat, n: nat)
    requires
        m <= n,
    ensures
        comment_count(models, m) <= comment_count(models, n),
    decreases n,
{
    if m < n {
        lemma_comment_count_grows(models, m, (n - 1) as nat);
    }
}

} // verus!
