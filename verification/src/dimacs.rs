//! The DIMACS text codec: [`parse_dimacs`] reads a formula from text, and
//! [`CNF::write_dimacs`] writes one out.
//!
//! The text is read line by line. A line is trimmed first. A line that then
//! begins with `c` is a comment; one that begins with `p cnf` is the problem
//! header; any other line that is not empty is a clause.
use crate::cnf::{Formula, CNF};
use crate::text::{
    chars_of, decimal, first_position, i32_of, lemma_first_position, parse_i32, parse_usize,
    push_chars, push_decimal, push_signed_decimal, ranges_text, ranges_within, signed_decimal,
    token_ranges, tokens, trim, trim_range, usize_of,
};
use vstd::prelude::*;

verus! {

/// Why a text is not a DIMACS formula.
#[derive(Debug, Clone, Copy, PartialEq, Eq, Structural)]
pub enum FormatError {
    /// A problem header lacks one of its two numbers, or one of them is not
    /// an unsigned decimal number that fits a `usize`.
    MalformedHeader,
    /// A token of a clause line, at or before the terminating zero, is not a
    /// signed decimal number that fits an `i32`.
    MalformedLiteral,
}

impl FormatError {
    /// A one-line description of the error.
    pub fn message(&self) -> (text: String)
        ensures
            text@ == match self {
                FormatError::MalformedHeader => "malformed problem header"@,
                FormatError::MalformedLiteral => "malformed literal in clause"@,
            },
    {
        match self {
            FormatError::MalformedHeader => String::from_str("malformed problem header"),
            FormatError::MalformedLiteral => String::from_str("malformed literal in clause"),
        }
    }
}

/// The formula without variables, clauses and comments, from which parsing
/// starts.
pub open spec fn empty_formula() -> Formula {
    Formula { num_vars: 0, num_clauses: 0, clauses: Seq::empty(), comments: Seq::empty() }
}

/// The literals that the tokens of a clause line give: each token is a
/// literal, up to and without the first token that reads as zero. Tokens
/// behind that zero are not looked at.
pub open spec fn literals_of(tokens: Seq<Seq<char>>) -> Option<Seq<i32>>
    decreases tokens.len(),
{
    if tokens.len() == 0 {
        Some(Seq::empty())
    } else {
        match i32_of(tokens[0]) {
            None => None,
            Some(lit) => if lit == 0 {
                Some(Seq::empty())
            } else {
                match literals_of(tokens.drop_first()) {
                    None => None,
                    Some(rest) => Some(seq![lit] + rest),
                }
            },
        }
    }
}

/// The literals `front`, followed by those that are still to come, if they
/// can be read.
pub open spec fn literals_after(front: Seq<i32>, rest: Option<Seq<i32>>) -> Option<Seq<i32>> {
    match rest {
        Some(r) => Some(front + r),
        None => None,
    }
}

/// A trimmed line is a problem header if it begins with `p cnf`.
pub open spec fn is_header(line: Seq<char>) -> bool {
    line.len() >= 5 && line[0] == 'p' && line[1] == ' ' && line[2] == 'c' && line[3] == 'n'
        && line[4] == 'f'
}

/// The two numbers of a problem header: its third and fourth token.
pub open spec fn header_of(line: Seq<char>) -> Option<(usize, usize)> {
    let parts = tokens(line);
    if parts.len() >= 4 {
        match (usize_of(parts[2]), usize_of(parts[3])) {
            (Some(num_vars), Some(num_clauses)) => Some((num_vars, num_clauses)),
            _ => None,
        }
    } else {
        None
    }
}

/// The formula after one more line of text.
pub open spec fn absorb_line(f: Formula, raw: Seq<char>) -> Result<Formula, FormatError> {
    let line = trim(raw);
    if line.len() > 0 && line[0] == 'c' {
        Ok(Formula { comments: f.comments.push(trim(line.skip(1))), ..f })
    } else if is_header(line) {
        match header_of(line) {
            Some((num_vars, num_clauses)) => Ok(
                Formula { num_vars: num_vars as nat, num_clauses: num_clauses as nat, ..f },
            ),
            None => Err(FormatError::MalformedHeader),
        }
    } else if line.len() > 0 {
        match literals_of(tokens(line)) {
            Some(clause) => Ok(Formula { clauses: f.clauses.push(clause), ..f }),
            None => Err(FormatError::MalformedLiteral),
        }
    } else {
        Ok(f)
    }
}

/// The formula after the lines of `text`, with `f` read so far. Lines end at
/// a line feed; the first line that cannot be read decides the error.
pub open spec fn parse_from(text: Seq<char>, f: Formula) -> Result<Formula, FormatError>
    decreases text.len(),
{
    if text.len() == 0 {
        Ok(f)
    } else {
        let end = first_position(text, '\n');
        if 0 <= end <= text.len() {
            match absorb_line(f, text.take(end)) {
                Err(e) => Err(e),
                Ok(next) => if end < text.len() {
                    parse_from(text.skip(end + 1), next)
                } else {
                    Ok(next)
                },
            }
        } else {
            Ok(f)
        }
    }
}

/// What a DIMACS text says: the formula that its lines build up, or the error
/// of its first malformed line.
pub open spec fn parse_text(text: Seq<char>) -> Result<Formula, FormatError> {
    parse_from(text, empty_formula())
}

/// The line that carries one comment.
pub open spec fn comment_line(comment: Seq<char>) -> Seq<char> {
    seq!['c', ' '] + comment + seq!['\n']
}

/// The lines that carry the comments, in order.
pub open spec fn comment_lines(comments: Seq<Seq<char>>) -> Seq<char>
    decreases comments.len(),
{
    if comments.len() == 0 {
        Seq::empty()
    } else {
        comment_lines(comments.drop_last()) + comment_line(comments.last())
    }
}

/// The problem header for `num_vars` variables and `count` clauses.
pub open spec fn header_line(num_vars: nat, count: nat) -> Seq<char> {
    seq!['p', ' ', 'c', 'n', 'f', ' '] + decimal(num_vars) + seq![' '] + decimal(count)
        + seq!['\n']
}

/// The literals of a clause, each followed by one space.
pub open spec fn literals_text(clause: Seq<i32>) -> Seq<char>
    decreases clause.len(),
{
    if clause.len() == 0 {
        Seq::empty()
    } else {
        literals_text(clause.drop_last()) + signed_decimal(clause.last() as int) + seq![' ']
    }
}

/// The line that carries one clause: its literals, a space, and the
/// terminating zero.
pub open spec fn clause_line(clause: Seq<i32>) -> Seq<char> {
    if clause.len() == 0 {
        seq![' ', '0', '\n']
    } else {
        literals_text(clause) + seq!['0', '\n']
    }
}

/// The lines that carry the clauses, in order.
pub open spec fn clause_lines(clauses: Seq<Seq<i32>>) -> Seq<char>
    decreases clauses.len(),
{
    if clauses.len() == 0 {
        Seq::empty()
    } else {
        clause_lines(clauses.drop_last()) + clause_line(clauses.last())
    }
}

/// The DIMACS text of a formula: its comments, the problem header with the
/// number of clauses that are there, and its clauses.
pub open spec fn dimacs_text(f: Formula) -> Seq<char> {
    comment_lines(f.comments) + header_line(f.num_vars, f.clauses.len()) + clause_lines(f.clauses)
}

/// Reads the literals of a clause line from its tokens.
pub fn read_clause(v: &Vec<char>, ranges: &Vec<(usize, usize)>) -> (r: Option<Vec<i32>>)
    requires
        ranges_within(ranges@, 0, v@.len() as int),
    ensures
        match r {
            Some(clause) => literals_of(ranges_text(v@, ranges@)) == Some(clause@),
            None => literals_of(ranges_text(v@, ranges@)) is None,
        },
{
    let ghost parts = ranges_text(v@, ranges@);
    let mut clause: Vec<i32> = Vec::new();
    let mut k: usize = 0;
    proof {
        assert(parts.skip(0) =~= parts);
        assert(clause@ + literals_of(parts)->0 =~= literals_of(parts)->0);
    }
    while k < ranges.len()
        invariant
            k <= ranges.len(),
            parts == ranges_text(v@, ranges@),
            ranges_within(ranges@, 0, v@.len() as int),
            literals_of(parts) == literals_after(clause@, literals_of(parts.skip(k as int))),
        decreases ranges.len() - k,
    {
        let ghost front = clause@;
        proof {
            assert(parts.skip(k as int)[0] == parts[k as int]);
            assert(parts.skip(k as int).drop_first() =~= parts.skip(k + 1));
            assert(0 <= ranges@[k as int].0 <= ranges@[k as int].1 <= v@.len());
        }
        match parse_i32(v, ranges[k].0, ranges[k].1) {
            None => {
                return None;
            },
            Some(lit) => {
                if lit == 0 {
                    proof {
                        assert(front + Seq::<i32>::empty() =~= front);
                    }
                    return Some(clause);
                }
                clause.push(lit);
                proof {
                    let rest = literals_of(parts.skip(k + 1));
                    if rest is Some {
                        assert(front + (seq![lit] + rest->0) =~= front.push(lit) + rest->0);
                    }
                }
            },
        }
        k = k + 1;
    }
    proof {
        assert(parts.skip(ranges.len() as int) =~= Seq::<Seq<char>>::empty());
        assert(clause@ + Seq::<i32>::empty() =~= clause@);
    }
    Some(clause)
}

/// Reads the two numbers of a problem header from its tokens.
pub fn read_header(v: &Vec<char>, ranges: &Vec<(usize, usize)>) -> (r: Option<(usize, usize)>)
    requires
        ranges_within(ranges@, 0, v@.len() as int),
    ensures
        r == {
            let parts = ranges_text(v@, ranges@);
            if parts.len() >= 4 {
                match (usize_of(parts[2]), usize_of(parts[3])) {
                    (Some(num_vars), Some(num_clauses)) => Some((num_vars, num_clauses)),
                    _ => None,
                }
            } else {
                None
            }
        },
{
    if ranges.len() < 4 {
        return None;
    }
    proof {
        assert(0 <= ranges@[2].0 <= ranges@[2].1 <= v@.len());
        assert(0 <= ranges@[3].0 <= ranges@[3].1 <= v@.len());
    }
    match parse_usize(v, ranges[2].0, ranges[2].1) {
        None => None,
        Some(num_vars) => match parse_usize(v, ranges[3].0, ranges[3].1) {
            None => None,
            Some(num_clauses) => Some((num_vars, num_clauses)),
        },
    }
}

/// Parses a DIMACS text.
///
/// Comments are kept without the `c` and without white space around them.
/// The header's two numbers are recorded as they stand. Each clause line
/// gives one clause; a line may do without the terminating zero. The first
/// line that cannot be read decides the error.
pub fn parse_dimacs(text: &str) -> (r: Result<CNF, FormatError>)
    ensures
        match r {
            Ok(cnf) => parse_text(text@) == Ok::<Formula, FormatError>(cnf@),
            Err(e) => parse_text(text@) == Err::<Formula, FormatError>(e),
        },
{
    let v = chars_of(text);
    let n = v.len();
    let mut cnf = CNF { num_vars: 0, num_clauses: 0, clauses: Vec::new(), comments: Vec::new() };
    let mut pos: usize = 0;
    proof {
        assert(cnf@.clauses =~= Seq::<Seq<i32>>::empty());
        assert(cnf@.comments =~= Seq::<Seq<char>>::empty());
        assert(cnf@ == empty_formula());
        assert(v@.skip(0) =~= v@);
    }
    while pos < n
        invariant
            pos <= n == v@.len(),
            v@ == text@,
            parse_text(text@) == parse_from(v@.skip(pos as int), cnf@),
        decreases n - pos,
    {
        let ghost rest = v@.skip(pos as int);
        let ghost before = cnf@;
        let mut end: usize = pos;
        while end < n && v[end] != '\n'
            invariant
                pos <= end <= n == v@.len(),
                forall|j: int| pos <= j < end ==> v@[j] != '\n',
            decreases n - end,
        {
            end = end + 1;
        }
        proof {
            lemma_first_position(rest, '\n', end - pos);
            assert(rest.take(end - pos) =~= v@.subrange(pos as int, end as int));
            if end < n {
                assert(rest.skip(end - pos + 1) =~= v@.skip(end + 1));
            }
        }
        let (a, b) = trim_range(&v, pos, end);
        let ghost line = v@.subrange(a as int, b as int);
        if a < b && v[a] == 'c' {
            let (ca, cb) = trim_range(&v, a + 1, b);
            let mut comment = String::new();
            push_chars(&mut comment, &v, ca, cb);
            proof {
                assert(line.skip(1) =~= v@.subrange(a + 1, b as int));
                assert(comment@ =~= trim(line.skip(1)));
            }
            cnf.comments.push(comment);
            proof {
                assert(cnf@.comments =~= before.comments.push(comment@));
                assert(cnf@.clauses =~= before.clauses);
            }
        } else if b - a >= 5 && v[a] == 'p' && v[a + 1] == ' ' && v[a + 2] == 'c' && v[a + 3] == 'n'
            && v[a + 4] == 'f' {
            let ranges = token_ranges(&v, a, b);
            match read_header(&v, &ranges) {
                None => {
                    return Err(FormatError::MalformedHeader);
                },
                Some((num_vars, num_clauses)) => {
                    cnf.num_vars = num_vars;
                    cnf.num_clauses = num_clauses;
                },
            }
        } else if a < b {
            let ranges = token_ranges(&v, a, b);
            match read_clause(&v, &ranges) {
                None => {
                    return Err(FormatError::MalformedLiteral);
                },
                Some(clause) => {
                    proof {
                        assert(clause.deep_view() =~= clause@);
                    }
                    cnf.clauses.push(clause);
                    proof {
                        assert(cnf@.clauses =~= before.clauses.push(clause@));
                        assert(cnf@.comments =~= before.comments);
                    }
                },
            }
        }
        proof {
            assert(absorb_line(before, rest.take(end - pos)) == Ok::<Formula, FormatError>(cnf@));
        }
        if end < n {
            pos = end + 1;
        } else {
            pos = n;
            proof {
                assert(v@.skip(n as int).len() == 0);
            }
        }
    }
    Ok(cnf)
}

impl CNF {
    /// Appends the DIMACS text of the formula to `out`: one line for each
    /// comment, the problem header with the number of clauses that are
    /// there, and one line for each clause.
    pub fn write_dimacs(&self, out: &mut String)
        ensures
            final(out)@ == old(out)@ + dimacs_text(self@),
    {
        let ghost start = out@;
        let ghost comments = self@.comments;
        let ghost clauses = self@.clauses;
        let mut i: usize = 0;
        proof {
            assert(comments.take(0) =~= Seq::<Seq<char>>::empty());
            assert(start + comment_lines(comments.take(0)) =~= start);
        }
        while i < self.comments.len()
            invariant
                i <= self.comments.len(),
                comments == self@.comments,
                out@ == start + comment_lines(comments.take(i as int)),
            decreases self.comments.len() - i,
        {
            let ghost before = out@;
            out.push('c');
            out.push(' ');
            out.append(self.comments[i].as_str());
            out.push('\n');
            proof {
                assert(comments.take(i + 1).drop_last() =~= comments.take(i as int));
                assert(comments.take(i + 1).last() == comments[i as int]);
                assert(out@ =~= before + comment_line(comments[i as int]));
                assert(out@ =~= start + comment_lines(comments.take(i + 1)));
            }
            i = i + 1;
        }
        proof {
            assert(comments.take(self.comments.len() as int) =~= comments);
        }
        let ghost after_comments = out@;
        out.push('p');
        out.push(' ');
        out.push('c');
        out.push('n');
        out.push('f');
        out.push(' ');
        push_decimal(out, self.num_vars as u64);
        out.push(' ');
        push_decimal(out, self.clauses.len() as u64);
        out.push('\n');
        let ghost after_header = out@;
        proof {
            assert(after_header =~= after_comments + header_line(
                self@.num_vars,
                self@.clauses.len(),
            ));
            assert(clauses.take(0) =~= Seq::<Seq<i32>>::empty());
            assert(after_header + clause_lines(clauses.take(0)) =~= after_header);
        }
        let mut c: usize = 0;
        while c < self.clauses.len()
            invariant
                c <= self.clauses.len(),
                clauses == self@.clauses,
                out@ == after_header + clause_lines(clauses.take(c as int)),
            decreases self.clauses.len() - c,
        {
            let ghost before = out@;
            let clause = &self.clauses[c];
            if clause.len() == 0 {
                out.push(' ');
            } else {
                let mut j: usize = 0;
                proof {
                    assert(clause@.take(0) =~= Seq::<i32>::empty());
                    assert(before + literals_text(clause@.take(0)) =~= before);
                }
                while j < clause.len()
                    invariant
                        j <= clause.len(),
                        out@ == before + literals_text(clause@.take(j as int)),
                    decreases clause.len() - j,
                {
                    push_signed_decimal(out, clause[j]);
                    out.push(' ');
                    proof {
                        assert(clause@.take(j + 1).drop_last() =~= clause@.take(j as int));
                        assert(clause@.take(j + 1).last() == clause@[j as int]);
                        assert(out@ =~= before + literals_text(clause@.take(j + 1)));
                    }
                    j = j + 1;
                }
            }
            out.push('0');
            out.push('\n');
            proof {
                assert(clause@.take(clause.len() as int) =~= clause@);
                assert(clauses[c as int] =~= clause@);
                assert(out@ =~= before + clause_line(clauses[c as int]));
                assert(clauses.take(c + 1).drop_last() =~= clauses.take(c as int));
                assert(clauses.take(c + 1).last() == clauses[c as int]);
                assert(out@ =~= after_header + clause_lines(clauses.take(c + 1)));
            }
            c = c + 1;
        }
        proof {
            assert(clauses.take(self.clauses.len() as int) =~= clauses);
            assert(out@ =~= start + dimacs_text(self@));
        }
    }
}

} // verus!
