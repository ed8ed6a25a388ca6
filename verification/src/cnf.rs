//! The in-memory CNF formula and its primitive mutations.
//!
//! A formula is modelled by [`Formula`]: plain sequences of clauses and of
//! comment texts. A comment of the form `"<id> <name>"` gives the variable
//! `<id>` the name `<name>`; [`named_pair`] says exactly which comments have
//! that form.
use crate::text::{
    chars_of, decimal, first_position, lemma_first_position, parse_usize, push_chars,
    push_decimal, usize_of,
};
use std::collections::HashMap;
use vstd::prelude::*;

verus! {

broadcast use vstd::std_specs::hash::group_hash_axioms;

/// The mathematical content of a [`CNF`].
pub struct Formula {
    pub num_vars: nat,
    pub num_clauses: nat,
    pub clauses: Seq<Seq<i32>>,
    pub comments: Seq<Seq<char>>,
}

/// A formula in conjunctive normal form, with the comments of its source.
#[derive(Debug, Clone, PartialEq, Eq)]
pub struct CNF {
    pub num_vars: usize,
    pub num_clauses: usize,
    pub clauses: Vec<Vec<i32>>,
    pub comments: Vec<String>,
}

impl View for CNF {
    type V = Formula;

    open spec fn view(&self) -> Formula {
        Formula {
            num_vars: self.num_vars as nat,
            num_clauses: self.num_clauses as nat,
            clauses: self.clauses.deep_view(),
            comments: self.comments.deep_view(),
        }
    }
}

impl Formula {
    /// The declared clause count agrees with the clauses that are there.
    pub open spec fn counts_agree(self) -> bool {
        self.num_clauses == self.clauses.len()
    }
}

/// The variable of a literal: its absolute value.
pub open spec fn variable(lit: i32) -> nat {
    if lit < 0 {
        (-(lit as int)) as nat
    } else {
        lit as nat
    }
}

/// `n` is the largest variable among the literals of `clauses`, or 0 if there
/// is no literal.
pub open spec fn is_max_variable(clauses: Seq<Seq<i32>>, n: nat) -> bool {
    &&& forall|c: int, j: int|
        0 <= c < clauses.len() && 0 <= j < clauses[c].len() ==> variable(#[trigger] clauses[c][j])
            <= n
    &&& n == 0 || exists|c: int, j: int|
        0 <= c < clauses.len() && 0 <= j < clauses[c].len() && variable(#[trigger] clauses[c][j])
            == n
}

/// What a comment says if it has the form `"<id> <name>"`: the text before
/// the first space is an unsigned decimal number that fits a `usize`, and
/// the name is everything after that space. Any other comment says nothing.
pub open spec fn named_pair(comment: Seq<char>) -> Option<(usize, Seq<char>)> {
    let k = first_position(comment, ' ');
    if k < comment.len() {
        match usize_of(comment.take(k)) {
            Some(id) => Some((id, comment.skip(k + 1))),
            None => None,
        }
    } else {
        None
    }
}

/// The `(id, name)` pairs that the comments give, in comment order.
pub open spec fn named_pairs(comments: Seq<Seq<char>>) -> Seq<(usize, Seq<char>)>
    decreases comments.len(),
{
    if comments.len() == 0 {
        Seq::empty()
    } else {
        let before = named_pairs(comments.drop_last());
        match named_pair(comments.last()) {
            Some(p) => before.push(p),
            None => before,
        }
    }
}

/// The comment that gives variable `id` the name `name`.
pub open spec fn naming_comment(id: usize, name: Seq<char>) -> Seq<char> {
    decimal(id as nat) + seq![' '] + name
}

/// A literal after renaming: a variable with an entry in `ids` is replaced
/// by its entry and keeps its sign; any other literal stays as it is.
pub open spec fn remap_literal(ids: Map<usize, usize>, lit: i32) -> i32 {
    let var = variable(lit) as usize;
    if ids.contains_key(var) {
        if lit < 0 {
            (-(ids[var] as int)) as i32
        } else if lit > 0 {
            ids[var] as i32
        } else {
            0i32
        }
    } else {
        lit
    }
}

/// A clause after renaming, literal by literal.
pub open spec fn remap_clause(ids: Map<usize, usize>, clause: Seq<i32>) -> Seq<i32> {
    Seq::new(clause.len(), |j: int| remap_literal(ids, clause[j]))
}

/// All clauses after renaming.
pub open spec fn remap_clauses(ids: Map<usize, usize>, clauses: Seq<Seq<i32>>) -> Seq<Seq<i32>> {
    Seq::new(clauses.len(), |c: int| remap_clause(ids, clauses[c]))
}

/// A comment after renaming: a naming comment whose id has an entry in `ids`
/// is rewritten with the new id; any other comment stays as it is.
pub open spec fn remap_comment(ids: Map<usize, usize>, comment: Seq<char>) -> Seq<char> {
    match named_pair(comment) {
        Some((id, name)) => if ids.contains_key(id) {
            naming_comment(ids[id], name)
        } else {
            comment
        },
        None => comment,
    }
}

/// All comments after renaming.
pub open spec fn remap_comments(ids: Map<usize, usize>, comments: Seq<Seq<char>>) -> Seq<
    Seq<char>,
> {
    Seq::new(comments.len(), |c: int| remap_comment(ids, comments[c]))
}

/// Every new id that renaming puts into a clause fits a literal.
pub open spec fn renaming_fits(ids: Map<usize, usize>, clauses: Seq<Seq<i32>>) -> bool {
    forall|c: int, j: int|
        0 <= c < clauses.len() && 0 <= j < clauses[c].len() && ids.contains_key(
            variable(#[trigger] clauses[c][j]) as usize,
        ) ==> ids[variable(clauses[c][j]) as usize] <= i32::MAX
}

/// `n` is the largest value in `ids`, or 0 if `ids` is empty.
pub open spec fn is_max_value(ids: Map<usize, usize>, n: nat) -> bool {
    &&& forall|k: usize| ids.contains_key(k) ==> #[trigger] ids[k] <= n
    &&& (n == 0 && forall|k: usize| !ids.contains_key(k)) || exists|k: usize|
        ids.contains_key(k) && #[trigger] ids[k] == n
}

/// The variable of a literal, as a machine integer.
pub fn variable_of(lit: i32) -> (var: usize)
    ensures
        var == variable(lit),
{
    if lit < 0 {
        (-(lit as i64)) as usize
    } else {
        lit as usize
    }
}

/// Splits a comment of the form `"<id> <name>"` into its two parts.
pub fn split_naming_comment(comment: &str) -> (r: Option<(usize, String)>)
    ensures
        match r {
            Some(p) => named_pair(comment@) == Some((p.0, p.1@)),
            None => named_pair(comment@) is None,
        },
{
    let v = chars_of(comment);
    let n = v.len();
    let mut k: usize = 0;
    while k < n && v[k] != ' '
        invariant
            k <= n == v.len(),
            forall|j: int| 0 <= j < k ==> v@[j] != ' ',
        decreases n - k,
    {
        k = k + 1;
    }
    proof {
        lemma_first_position(v@, ' ', k as int);
    }
    if k == n {
        return None;
    }
    match parse_usize(&v, 0, k) {
        None => None,
        Some(id) => {
            let mut name = String::new();
            push_chars(&mut name, &v, k + 1, n);
            proof {
                assert(name@ =~= comment@.skip(k + 1));
            }
            Some((id, name))
        },
    }
}

/// Renames the variable of one comment.
pub fn remap_one_comment(comment: &String, id_mapping: &HashMap<usize, usize>) -> (r: String)
    ensures
        r@ == remap_comment(id_mapping@, comment@),
{
    match split_naming_comment(comment.as_str()) {
        None => comment.clone(),
        Some((id, name)) => {
            match id_mapping.get(&id) {
                None => comment.clone(),
                Some(new_id) => {
                    let mut out = String::new();
                    push_decimal(&mut out, *new_id as u64);
                    out.push(' ');
                    out.append(name.as_str());
                    proof {
                        assert(out@ =~= naming_comment(*new_id, name@));
                    }
                    out
                },
            }
        },
    }
}

/// Renames the variable of one literal.
pub fn remap_one_literal(lit: i32, id_mapping: &HashMap<usize, usize>) -> (r: i32)
    requires
        id_mapping@.contains_key(variable(lit) as usize) ==> id_mapping@[variable(lit) as usize]
            <= i32::MAX,
    ensures
        r == remap_literal(id_mapping@, lit),
{
    let var = variable_of(lit);
    match id_mapping.get(&var) {
        None => lit,
        Some(new_id) => {
            if lit < 0 {
                -(*new_id as i32)
            } else if lit > 0 {
                *new_id as i32
            } else {
                0
            }
        },
    }
}

impl CNF {
    /// A formula over the given clauses, without comments, declared over as
    /// many variables as its largest literal needs.
    pub fn from_clauses(clauses: Vec<Vec<i32>>) -> (cnf: CNF)
        ensures
            cnf@.clauses == clauses.deep_view(),
            cnf@.comments == Seq::<Seq<char>>::empty(),
            cnf@.counts_agree(),
            is_max_variable(cnf@.clauses, cnf@.num_vars),
    {
        let mut max_var: usize = 0;
        let ghost view = clauses.deep_view();
        let ghost mut at: (int, int) = (0, 0);
        let mut c: usize = 0;
        while c < clauses.len()
            invariant
                c <= clauses.len(),
                view == clauses.deep_view(),
                forall|a: int, b: int|
                    0 <= a < c && 0 <= b < view[a].len() ==> variable(#[trigger] view[a][b])
                        <= max_var,
                max_var == 0 || (0 <= at.0 < c && 0 <= at.1 < view[at.0].len() && variable(
                    view[at.0][at.1],
                ) == max_var),
            decreases clauses.len() - c,
        {
            let clause = &clauses[c];
            let ghost before = max_var;
            let mut j: usize = 0;
            while j < clause.len()
                invariant
                    j <= clause.len(),
                    c < clauses.len(),
                    clause == &clauses[c as int],
                    view == clauses.deep_view(),
                    before <= max_var,
                    forall|b: int| 0 <= b < j ==> variable(#[trigger] view[c as int][b]) <= max_var,
                    max_var == 0 || (0 <= at.0 <= c && 0 <= at.1 < view[at.0].len() && variable(
                        view[at.0][at.1],
                    ) == max_var),
                decreases clause.len() - j,
            {
                proof {
                    assert(view[c as int][j as int] == clause@[j as int]);
                }
                let var = variable_of(clause[j]);
                if var > max_var {
                    max_var = var;
                    proof {
                        at = (c as int, j as int);
                    }
                }
                j = j + 1;
            }
            c = c + 1;
        }
        proof {
            if max_var != 0 {
                assert(variable(view[at.0][at.1]) == max_var);
            }
        }
        CNF { num_vars: max_var, num_clauses: clauses.len(), clauses, comments: Vec::new() }
    }

    /// The `(id, name)` pairs of the naming comments, in comment order.
    pub fn get_names_from_comments(&self) -> (names: Vec<(usize, String)>)
        ensures
            names.deep_view() == named_pairs(self@.comments),
    {
        let mut names: Vec<(usize, String)> = Vec::new();
        let ghost comments = self@.comments;
        let mut i: usize = 0;
        while i < self.comments.len()
            invariant
                i <= self.comments.len(),
                comments == self@.comments,
                names.deep_view() == named_pairs(comments.take(i as int)),
            decreases self.comments.len() - i,
        {
            let ghost before = names.deep_view();
            proof {
                assert(comments.take(i + 1).drop_last() =~= comments.take(i as int));
                assert(comments.take(i + 1).last() == self.comments[i as int]@);
            }
            match split_naming_comment(self.comments[i].as_str()) {
                Some(p) => {
                    let ghost pv = (p.0, p.1@);
                    names.push(p);
                    proof {
                        assert(names.deep_view() =~= before.push(pv));
                    }
                },
                None => {},
            }
            i = i + 1;
        }
        proof {
            assert(comments.take(self.comments.len() as int) =~= comments);
        }
        names
    }

    /// Appends a clause.
    pub fn add_clause(&mut self, clause: Vec<i32>)
        requires
            forall|j: int| 0 <= j < clause@.len() ==> variable(#[trigger] clause@[j]) <= old(
                self,
            ).num_vars,
            old(self).num_clauses < usize::MAX,
        ensures
            final(self)@.clauses == old(self)@.clauses.push(clause@),
            final(self)@.num_clauses == old(self)@.num_clauses + 1,
            final(self)@.num_vars == old(self)@.num_vars,
            final(self)@.comments == old(self)@.comments,
    {
        self.clauses.push(clause);
        self.num_clauses = self.num_clauses + 1;
        proof {
            assert(clause.deep_view() =~= clause@);
            assert(self@.clauses =~= old(self)@.clauses.push(clause@));
        }
    }

    /// Appends a comment, whatever its form.
    pub fn add_comment(&mut self, comment: String)
        ensures
            final(self)@.comments == old(self)@.comments.push(comment@),
            final(self)@.clauses == old(self)@.clauses,
            final(self)@.num_clauses == old(self)@.num_clauses,
            final(self)@.num_vars == old(self)@.num_vars,
    {
        self.comments.push(comment);
        proof {
            assert(self@.comments =~= old(self)@.comments.push(comment@));
        }
    }

    /// Renames variables in clauses and in naming comments by `id_mapping`,
    /// and declares the formula over the largest new id.
    pub fn remap_variable_ids(&mut self, id_mapping: &HashMap<usize, usize>)
        requires
            renaming_fits(id_mapping@, old(self)@.clauses),
        ensures
            is_max_value(id_mapping@, final(self)@.num_vars),
            final(self)@.num_clauses == old(self)@.num_clauses,
            final(self)@.clauses == remap_clauses(id_mapping@, old(self)@.clauses),
            final(self)@.comments == remap_comments(id_mapping@, old(self)@.comments),
    {
        let ghost ids = id_mapping@;
        let ghost clauses = self@.clauses;
        let ghost comments = self@.comments;

        let mut max_id: usize = 0;
        for v in it: id_mapping.values()
            invariant
                ids == id_mapping@,
                it.seq().unref().to_set() == ids.values(),
                forall|j: int| 0 <= j < it.index() ==> *it.seq()[j] <= max_id,
                max_id == 0 || ids.values().contains(max_id),
        {
            if *v > max_id {
                max_id = *v;
                proof {
                    assert(it.seq().unref()[it.index() as int] == max_id);
                    assert(it.seq().unref().contains(max_id));
                }
            }
        }
        proof {
            assert forall|k: usize| ids.contains_key(k) implies #[trigger] ids[k] <= max_id by {
                assert(ids.values().contains(ids[k]));
            }
            if max_id == 0 && exists|k: usize| ids.contains_key(k) {
                let k = choose|k: usize| ids.contains_key(k);
                assert(ids[k] <= max_id);
            }
        }
        self.num_vars = max_id;

        let mut new_clauses: Vec<Vec<i32>> = Vec::new();
        let mut c: usize = 0;
        while c < self.clauses.len()
            invariant
                c <= self.clauses.len(),
                ids == id_mapping@,
                clauses == self.clauses.deep_view(),
                renaming_fits(ids, clauses),
                new_clauses.deep_view() == remap_clauses(ids, clauses).take(c as int),
            decreases self.clauses.len() - c,
        {
            let ghost before = new_clauses.deep_view();
            let clause = &self.clauses[c];
            let mut renamed: Vec<i32> = Vec::new();
            let mut j: usize = 0;
            while j < clause.len()
                invariant
                    j <= clause.len(),
                    c < self.clauses.len(),
                    clause == &self.clauses[c as int],
                    ids == id_mapping@,
                    clauses == self.clauses.deep_view(),
                    renaming_fits(ids, clauses),
                    renamed@ == remap_clause(ids, clause@).take(j as int),
                decreases clause.len() - j,
            {
                proof {
                    assert(clauses[c as int][j as int] == clause@[j as int]);
                }
                renamed.push(remap_one_literal(clause[j], id_mapping));
                proof {
                    assert(renamed@ =~= remap_clause(ids, clause@).take(j + 1));
                }
                j = j + 1;
            }
            proof {
                assert(renamed@ =~= remap_clause(ids, clauses[c as int]));
                assert(renamed.deep_view() =~= renamed@);
            }
            new_clauses.push(renamed);
            proof {
                assert(new_clauses.deep_view() =~= before.push(remap_clause(ids, clauses[c as int])));
                assert(new_clauses.deep_view() =~= remap_clauses(ids, clauses).take(c + 1));
            }
            c = c + 1;
        }
        self.clauses = new_clauses;

        let mut new_comments: Vec<String> = Vec::new();
        let mut i: usize = 0;
        while i < self.comments.len()
            invariant
                i <= self.comments.len(),
                ids == id_mapping@,
                comments == self.comments.deep_view(),
                new_comments.deep_view() == remap_comments(ids, comments).take(i as int),
            decreases self.comments.len() - i,
        {
            let ghost before = new_comments.deep_view();
            let renamed = remap_one_comment(&self.comments[i], id_mapping);
            new_comments.push(renamed);
            proof {
                assert(new_comments.deep_view() =~= before.push(
                    remap_comment(ids, comments[i as int]),
                ));
                assert(new_comments.deep_view() =~= remap_comments(ids, comments).take(i + 1));
            }
            i = i + 1;
        }
        self.comments = new_comments;
        proof {
            assert(self@.clauses =~= remap_clauses(ids, clauses));
            assert(self@.comments =~= remap_comments(ids, comments));
        }
    }
}

} // verus!
