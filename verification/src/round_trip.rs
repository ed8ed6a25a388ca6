//! What is written can be read back: parsing the DIMACS text of a formula
//! gives its variables, its clauses and its comments again.
use crate::cnf::Formula;
use crate::dimacs::{
    absorb_line, clause_line, clause_lines, comment_line, comment_lines, dimacs_text,
    empty_formula, header_line, header_of, is_header, literals_of, literals_text, parse_from,
    parse_text, FormatError,
};
use crate::text::{
    decimal, digits_value, first_position, i32_of, is_digit, is_space, lemma_decimal_digits,
    lemma_decimal_round_trip, lemma_first_position, lemma_signed_decimal_round_trip,
    signed_decimal, split_tokens, tokens, trim, trim_end, trim_start, usize_of,
};
use vstd::prelude::*;

verus! {

/// No character of `s` is a line feed.
pub open spec fn no_newline(s: Seq<char>) -> bool {
    forall|i: int| 0 <= i < s.len() ==> #[trigger] s[i] != '\n'
}

/// No character of `s` is white space.
pub open spec fn no_space(s: Seq<char>) -> bool {
    forall|i: int| 0 <= i < s.len() ==> !is_space(#[trigger] s[i])
}

/// `s` is empty or ends with a line feed: it is made of whole lines.
pub open spec fn whole_lines(s: Seq<char>) -> bool {
    s.len() == 0 || s.last() == '\n'
}

/// A comment that survives writing and reading: it is one line, and has no
/// white space at its ends.
pub open spec fn is_clean(comment: Seq<char>) -> bool {
    &&& no_newline(comment)
    &&& comment.len() == 0 || (!is_space(comment[0]) && !is_space(comment.last()))
}

/// A formula that survives writing and reading: its counts fit a `usize`,
/// its comments are clean, and no clause holds the literal zero.
pub open spec fn can_be_read_back(f: Formula) -> bool {
    &&& f.num_vars <= usize::MAX
    &&& f.clauses.len() <= usize::MAX
    &&& forall|k: int| 0 <= k < f.comments.len() ==> is_clean(#[trigger] f.comments[k])
    &&& forall|c: int, j: int|
        0 <= c < f.clauses.len() && 0 <= j < f.clauses[c].len() ==> #[trigger] f.clauses[c][j]
            != 0
}

/// What reading gives back of a formula: everything, with the number of
/// clauses that are there as the declared number.
pub open spec fn read_back(f: Formula) -> Formula {
    Formula {
        num_vars: f.num_vars,
        num_clauses: f.clauses.len(),
        clauses: f.clauses,
        comments: f.comments,
    }
}

/// `first_position` lies within the text, has no `c` before it, and holds
/// `c` unless it is the end.
pub proof fn lemma_first_position_is_first(s: Seq<char>, c: char)
    ensures
        0 <= first_position(s, c) <= s.len(),
        forall|j: int| 0 <= j < first_position(s, c) ==> #[trigger] s[j] != c,
        first_position(s, c) < s.len() ==> s[first_position(s, c)] == c,
    decreases s.len(),
{
    if s.len() == 0 || s[0] == c {
    } else {
        let rest = s.drop_first();
        lemma_first_position_is_first(rest, c);
        assert forall|j: int| 0 <= j < first_position(s, c) implies #[trigger] s[j] != c by {
            if j > 0 {
                assert(rest[j - 1] == s[j]);
            }
        }
        if first_position(s, c) < s.len() {
            assert(rest[first_position(rest, c)] == s[first_position(s, c)]);
        }
    }
}

/// Reading whole lines and then more text is reading the lines first and
/// going on from there.
pub proof fn lemma_parse_concat(a: Seq<char>, b: Seq<char>, f: Formula)
    requires
        whole_lines(a),
    ensures
        parse_from(a + b, f) == match parse_from(a, f) {
            Ok(g) => parse_from(b, g),
            Err(e) => Err(e),
        },
    decreases a.len(),
{
    if a.len() == 0 {
        assert(a + b =~= b);
    } else {
        let end = first_position(a, '\n');
        lemma_first_position_is_first(a, '\n');
        assert(end < a.len()) by {
            if end == a.len() {
                assert(a[a.len() - 1] != '\n');
            }
        }
        let whole = a + b;
        assert forall|j: int| 0 <= j < end implies whole[j] != '\n' by {
            assert(whole[j] == a[j]);
        }
        assert(whole[end] == '\n');
        lemma_first_position(whole, '\n', end);
        assert(whole.take(end) =~= a.take(end));
        let rest = a.skip(end + 1);
        assert(whole.skip(end + 1) =~= rest + b);
        assert(whole_lines(rest)) by {
            if rest.len() > 0 {
                assert(rest.last() == a.last());
            }
        }
        match absorb_line(f, a.take(end)) {
            Ok(next) => {
                lemma_parse_concat(rest, b, next);
            },
            Err(e) => {},
        }
    }
}

/// Reading one line is absorbing it.
pub proof fn lemma_parse_line(content: Seq<char>, f: Formula)
    requires
        no_newline(content),
    ensures
        parse_from(content + seq!['\n'], f) == absorb_line(f, content),
        whole_lines(content + seq!['\n']),
{
    let line = content + seq!['\n'];
    let end = content.len() as int;
    assert forall|j: int| 0 <= j < end implies line[j] != '\n' by {
        assert(line[j] == content[j]);
    }
    assert(line[end] == '\n');
    lemma_first_position(line, '\n', end);
    assert(line.take(end) =~= content);
    assert(line.skip(end + 1) =~= Seq::<char>::empty());
    assert(line.last() == '\n');
    match absorb_line(f, content) {
        Ok(next) => {
            assert(parse_from(Seq::<char>::empty(), next) == Ok::<Formula, FormatError>(next));
        },
        Err(e) => {},
    }
}

/// Text without leading white space is its own `trim_start`, and text
/// without trailing white space its own `trim_end`.
pub proof fn lemma_trim_nothing(s: Seq<char>)
    requires
        s.len() == 0 || (!is_space(s[0]) && !is_space(s.last())),
    ensures
        trim(s) == s,
        trim_start(s) == s,
        trim_end(s) == s,
{
}

/// A comment line gives its comment.
pub proof fn lemma_absorb_comment(f: Formula, comment: Seq<char>)
    requires
        is_clean(comment),
    ensures
        absorb_line(f, seq!['c', ' '] + comment) == Ok::<Formula, FormatError>(
            Formula { comments: f.comments.push(comment), ..f },
        ),
        no_newline(seq!['c', ' '] + comment),
{
    let raw = seq!['c', ' '] + comment;
    assert(raw[0] == 'c');
    assert(raw[1] == ' ');
    assert(!is_space('c'));
    assert(is_space(' '));
    assert(trim_start(raw) == raw);
    assert forall|i: int| 0 <= i < raw.len() implies #[trigger] raw[i] != '\n' by {
        if i >= 2 {
            assert(raw[i] == comment[i - 2]);
        }
    }
    if comment.len() == 0 {
        assert(raw.drop_last() =~= seq!['c']);
        assert(trim_end(raw) == trim_end(seq!['c']));
        assert(seq!['c'].last() == 'c');
        assert(trim_end(seq!['c']) == seq!['c']);
        let line = trim(raw);
        assert(line == seq!['c']);
        assert(line.skip(1) =~= Seq::<char>::empty());
        assert(trim(line.skip(1)) =~= comment);
    } else {
        assert(raw.last() == comment.last());
        assert(trim_end(raw) == raw);
        let line = trim(raw);
        assert(line == raw);
        let tail = line.skip(1);
        assert(tail[0] == ' ');
        assert(tail.drop_first() =~= comment);
        assert(trim_start(tail) == trim_start(comment));
        lemma_trim_nothing(comment);
        assert(trim(tail) == comment);
    }
}

/// A word in front of more text is taken into the token that has been
/// begun.
pub proof fn lemma_tokens_word(word: Seq<char>, rest: Seq<char>, cur: Seq<char>)
    requires
        no_space(word),
    ensures
        split_tokens(word + rest, cur) == split_tokens(rest, cur + word),
    decreases word.len(),
{
    if word.len() == 0 {
        assert(word + rest =~= rest);
        assert(cur + word =~= cur);
    } else {
        let whole = word + rest;
        assert(whole[0] == word[0]);
        assert(!is_space(word[0]));
        assert(whole.drop_first() =~= word.drop_first() + rest);
        assert forall|i: int| 0 <= i < word.drop_first().len() implies !is_space(
            #[trigger] word.drop_first()[i],
        ) by {
            assert(word.drop_first()[i] == word[i + 1]);
        }
        lemma_tokens_word(word.drop_first(), rest, cur.push(word[0]));
        assert(cur.push(word[0]) + word.drop_first() =~= cur + word);
    }
}

/// A word, a space and more text: the word is the first token.
pub proof fn lemma_tokens_first_word(word: Seq<char>, rest: Seq<char>)
    requires
        no_space(word),
        word.len() > 0,
    ensures
        tokens(word + seq![' '] + rest) == seq![word] + tokens(rest),
{
    let tail = seq![' '] + rest;
    assert(word + seq![' '] + rest =~= word + tail);
    lemma_tokens_word(word, tail, Seq::empty());
    assert(Seq::<char>::empty() + word =~= word);
    assert(tail[0] == ' ');
    assert(is_space(' '));
    assert(tail.drop_first() =~= rest);
}

/// A word alone is the only token.
pub proof fn lemma_tokens_last_word(word: Seq<char>)
    requires
        no_space(word),
        word.len() > 0,
    ensures
        tokens(word) == seq![word],
{
    lemma_tokens_word(word, Seq::empty(), Seq::empty());
    assert(word + Seq::<char>::empty() =~= word);
    assert(Seq::<char>::empty() + word =~= word);
}

/// Decimal notation holds neither white space nor a line feed.
pub proof fn lemma_decimal_is_a_word(n: nat)
    ensures
        no_space(decimal(n)),
        no_newline(decimal(n)),
        decimal(n).len() > 0,
        is_digit(decimal(n)[0]),
        is_digit(decimal(n).last()),
{
    lemma_decimal_digits(n);
    let d = decimal(n);
    assert forall|i: int| 0 <= i < d.len() implies !is_space(#[trigger] d[i]) && d[i] != '\n' by {
        assert(is_digit(d[i]));
    }
    assert(is_digit(d[0]));
    assert(is_digit(d[d.len() - 1]));
}

/// Signed decimal notation holds neither white space nor a line feed, and
/// begins with a digit or a minus sign.
pub proof fn lemma_signed_decimal_is_a_word(n: int)
    ensures
        no_space(signed_decimal(n)),
        no_newline(signed_decimal(n)),
        signed_decimal(n).len() > 0,
        is_digit(signed_decimal(n)[0]) || signed_decimal(n)[0] == '-',
        is_digit(signed_decimal(n).last()),
{
    let s = signed_decimal(n);
    if n < 0 {
        let d = decimal((-n) as nat);
        lemma_decimal_is_a_word((-n) as nat);
        assert(!is_space('-'));
        assert forall|i: int| 0 <= i < s.len() implies !is_space(#[trigger] s[i]) && s[i]
            != '\n' by {
            if i > 0 {
                assert(s[i] == d[i - 1]);
            }
        }
        assert(s.last() == d.last());
    } else {
        lemma_decimal_is_a_word(n as nat);
    }
}

/// The header line gives its two numbers.
pub proof fn lemma_absorb_header(f: Formula, num_vars: nat, count: nat)
    requires
        num_vars <= usize::MAX,
        count <= usize::MAX,
    ensures
        absorb_line(
            f,
            seq!['p', ' ', 'c', 'n', 'f', ' '] + decimal(num_vars) + seq![' '] + decimal(count),
        ) == Ok::<Formula, FormatError>(Formula { num_vars: num_vars, num_clauses: count, ..f }),
        no_newline(
            seq!['p', ' ', 'c', 'n', 'f', ' '] + decimal(num_vars) + seq![' '] + decimal(count),
        ),
{
    let dv = decimal(num_vars);
    let dc = decimal(count);
    let raw = seq!['p', ' ', 'c', 'n', 'f', ' '] + dv + seq![' '] + dc;
    lemma_decimal_is_a_word(num_vars);
    lemma_decimal_is_a_word(count);
    lemma_decimal_round_trip(num_vars);
    lemma_decimal_round_trip(count);
    assert(raw[0] == 'p' && raw[1] == ' ' && raw[2] == 'c' && raw[3] == 'n' && raw[4] == 'f');
    assert(raw.last() == dc.last());
    assert(!is_space('p'));
    lemma_trim_nothing(raw);
    assert forall|i: int| 0 <= i < raw.len() implies #[trigger] raw[i] != '\n' by {
        if i < 6 {
        } else if i < 6 + dv.len() {
            assert(raw[i] == dv[i - 6]);
        } else if i == 6 + dv.len() {
            assert(raw[i] == ' ');
        } else {
            assert(raw[i] == dc[i - 7 - dv.len()]);
        }
    }
    let p = seq!['p'];
    let cnf = seq!['c', 'n', 'f'];
    assert(!is_space('c') && !is_space('n') && !is_space('f'));
    let after_cnf = dv + seq![' '] + dc;
    let after_p = cnf + seq![' '] + after_cnf;
    assert(raw =~= p + seq![' '] + after_p);
    lemma_tokens_first_word(p, after_p);
    lemma_tokens_first_word(cnf, after_cnf);
    lemma_tokens_first_word(dv, dc);
    lemma_tokens_last_word(dc);
    let parts = tokens(raw);
    assert(parts =~= seq![p, cnf, dv, dc]);
    assert(parts[2] == dv && parts[3] == dc);
    assert(usize_of(dv) == Some(num_vars as usize));
    assert(usize_of(dc) == Some(count as usize));
    assert(is_header(raw));
    assert(header_of(raw) == Some((num_vars as usize, count as usize)));
}

/// The text of the literals begins with the first literal and a space.
pub proof fn lemma_literals_text_front(clause: Seq<i32>)
    requires
        clause.len() > 0,
    ensures
        literals_text(clause) == signed_decimal(clause[0] as int) + seq![' '] + literals_text(
            clause.drop_first(),
        ),
    decreases clause.len(),
{
    if clause.len() == 1 {
        assert(clause.drop_last() =~= Seq::<i32>::empty());
        assert(clause.drop_first() =~= Seq::<i32>::empty());
        assert(literals_text(clause) =~= signed_decimal(clause[0] as int) + seq![' ']
            + literals_text(clause.drop_first()));
    } else {
        let front = clause.drop_last();
        lemma_literals_text_front(front);
        assert(front.drop_first() =~= clause.drop_first().drop_last());
        assert(front[0] == clause[0]);
        assert(clause.drop_first().last() == clause.last());
        assert(literals_text(clause) =~= signed_decimal(clause[0] as int) + seq![' ']
            + literals_text(clause.drop_first()));
    }
}

/// The text of the literals holds no line feed and ends, if it is not
/// empty, with a space.
pub proof fn lemma_literals_text_shape(clause: Seq<i32>)
    ensures
        no_newline(literals_text(clause)),
        clause.len() > 0 ==> literals_text(clause).len() > 0 && (is_digit(literals_text(clause)[0])
            || literals_text(clause)[0] == '-'),
    decreases clause.len(),
{
    if clause.len() > 0 {
        let front = literals_text(clause.drop_last());
        let word = signed_decimal(clause.last() as int);
        let text = literals_text(clause);
        lemma_literals_text_shape(clause.drop_last());
        lemma_signed_decimal_is_a_word(clause.last() as int);
        assert forall|i: int| 0 <= i < text.len() implies #[trigger] text[i] != '\n' by {
            if i < front.len() {
                assert(text[i] == front[i]);
            } else if i < front.len() + word.len() {
                assert(text[i] == word[i - front.len()]);
            } else {
                assert(text[i] == ' ');
            }
        }
        if clause.len() == 1 {
            assert(clause.drop_last() =~= Seq::<i32>::empty());
            assert(text[0] == word[0]);
        } else {
            assert(text[0] == front[0]);
        }
    }
}

/// The tokens of the literals and the final zero give the clause.
pub proof fn lemma_clause_tokens(clause: Seq<i32>)
    requires
        forall|j: int| 0 <= j < clause.len() ==> #[trigger] clause[j] != 0,
    ensures
        literals_of(tokens(literals_text(clause) + seq!['0'])) == Some(clause),
    decreases clause.len(),
{
    let zero = seq!['0'];
    if clause.len() == 0 {
        assert(literals_text(clause) + zero =~= zero);
        assert(!is_space('0'));
        lemma_tokens_last_word(zero);
        assert(is_digit('0'));
        assert(zero.drop_last() =~= Seq::<char>::empty());
        assert(digits_value(zero) == 0) by {
            assert(digits_value(zero.drop_last()) == 0);
        }
        assert(i32_of(zero) == Some(0i32));
        assert(literals_of(seq![zero]) == Some(Seq::<i32>::empty()));
        assert(clause =~= Seq::<i32>::empty());
    } else {
        let lit = clause[0];
        let word = signed_decimal(lit as int);
        let rest = clause.drop_first();
        let tail = literals_text(rest) + zero;
        lemma_literals_text_front(clause);
        assert(literals_text(clause) + zero =~= word + seq![' '] + tail);
        lemma_signed_decimal_is_a_word(lit as int);
        lemma_tokens_first_word(word, tail);
        lemma_signed_decimal_round_trip(lit as int);
        assert(i32_of(word) == Some(lit));
        assert forall|j: int| 0 <= j < rest.len() implies #[trigger] rest[j] != 0 by {
            assert(rest[j] == clause[j + 1]);
        }
        lemma_clause_tokens(rest);
        let parts = tokens(literals_text(clause) + zero);
        assert(parts[0] == word);
        assert(parts.drop_first() =~= tokens(tail));
        assert(seq![lit] + rest =~= clause);
    }
}

/// The text of a clause line, without its line feed.
pub open spec fn clause_text(clause: Seq<i32>) -> Seq<char> {
    if clause.len() == 0 {
        seq![' ', '0']
    } else {
        literals_text(clause) + seq!['0']
    }
}

/// A clause line gives its clause.
pub proof fn lemma_absorb_clause(f: Formula, clause: Seq<i32>)
    requires
        forall|j: int| 0 <= j < clause.len() ==> #[trigger] clause[j] != 0,
    ensures
        absorb_line(f, clause_text(clause)) == Ok::<Formula, FormatError>(
            Formula { clauses: f.clauses.push(clause), ..f },
        ),
        no_newline(clause_text(clause)),
        clause_line(clause) == clause_text(clause) + seq!['\n'],
{
    let zero = seq!['0'];
    let raw = clause_text(clause);
    lemma_clause_tokens(clause);
    lemma_literals_text_shape(clause);
    assert(!is_space('0') && is_space(' ') && !is_space('-'));
    assert(clause_line(clause) =~= raw + seq!['\n']);
    if clause.len() == 0 {
        assert(raw[0] == ' ');
        assert(raw.drop_first() =~= zero);
        assert(trim_start(raw) == trim_start(zero));
        assert(zero[0] == '0');
        lemma_trim_nothing(zero);
        assert(trim(raw) == zero);
        assert(literals_text(clause) + zero =~= zero);
        assert(!is_header(zero));
    } else {
        let text = literals_text(clause);
        assert(raw[0] == text[0]);
        assert(raw.last() == '0');
        assert(!is_space(raw[0])) by {
            if is_digit(raw[0]) {
            }
        }
        lemma_trim_nothing(raw);
        assert forall|i: int| 0 <= i < raw.len() implies #[trigger] raw[i] != '\n' by {
            if i < text.len() {
                assert(raw[i] == text[i]);
            }
        }
        assert(raw[0] != 'c' && raw[0] != 'p');
    }
}

/// Reading the comment lines gives the comments.
pub proof fn lemma_parse_comments(comments: Seq<Seq<char>>, f: Formula)
    requires
        forall|k: int| 0 <= k < comments.len() ==> is_clean(#[trigger] comments[k]),
    ensures
        parse_from(comment_lines(comments), f) == Ok::<Formula, FormatError>(
            Formula { comments: f.comments + comments, ..f },
        ),
        whole_lines(comment_lines(comments)),
    decreases comments.len(),
{
    if comments.len() == 0 {
        assert(f.comments + comments =~= f.comments);
    } else {
        let front = comments.drop_last();
        let last = comments.last();
        let content = seq!['c', ' '] + last;
        assert forall|k: int| 0 <= k < front.len() implies is_clean(#[trigger] front[k]) by {
            assert(front[k] == comments[k]);
        }
        lemma_parse_comments(front, f);
        let middle = Formula { comments: f.comments + front, ..f };
        assert(comment_line(last) =~= content + seq!['\n']);
        lemma_absorb_comment(middle, last);
        lemma_parse_line(content, middle);
        lemma_parse_concat(comment_lines(front), content + seq!['\n'], f);
        assert((f.comments + front).push(last) =~= f.comments + comments);
        assert(comment_lines(comments).last() == '\n');
    }
}

/// Reading the clause lines gives the clauses.
pub proof fn lemma_parse_clauses(clauses: Seq<Seq<i32>>, f: Formula)
    requires
        forall|c: int, j: int|
            0 <= c < clauses.len() && 0 <= j < clauses[c].len() ==> #[trigger] clauses[c][j] != 0,
    ensures
        parse_from(clause_lines(clauses), f) == Ok::<Formula, FormatError>(
            Formula { clauses: f.clauses + clauses, ..f },
        ),
        whole_lines(clause_lines(clauses)),
    decreases clauses.len(),
{
    if clauses.len() == 0 {
        assert(f.clauses + clauses =~= f.clauses);
    } else {
        let front = clauses.drop_last();
        let last = clauses.last();
        assert forall|c: int, j: int|
            0 <= c < front.len() && 0 <= j < front[c].len() implies #[trigger] front[c][j]
            != 0 by {
            assert(front[c] == clauses[c]);
            assert(clauses[c][j] != 0);
        }
        lemma_parse_clauses(front, f);
        let middle = Formula { clauses: f.clauses + front, ..f };
        assert forall|j: int| 0 <= j < last.len() implies #[trigger] last[j] != 0 by {
            assert(clauses[clauses.len() - 1][j] != 0);
        }
        lemma_absorb_clause(middle, last);
        lemma_parse_line(clause_text(last), middle);
        lemma_parse_concat(clause_lines(front), clause_text(last) + seq!['\n'], f);
        assert((f.clauses + front).push(last) =~= f.clauses + clauses);
        assert(clause_lines(clauses).last() == '\n');
    }
}

/// Writing a formula and parsing the text gives the formula back: its
/// number of variables, its clauses literal for literal and in order, and
/// its comments. The declared number of clauses comes back as the number of
/// clauses that are there.
pub proof fn theorem_round_trip(f: Formula)
    requires
        can_be_read_back(f),
    ensures
        parse_text(dimacs_text(f)) == Ok::<Formula, FormatError>(read_back(f)),
{
    let start = empty_formula();
    let comments = comment_lines(f.comments);
    let content = seq!['p', ' ', 'c', 'n', 'f', ' '] + decimal(f.num_vars) + seq![' '] + decimal(
        f.clauses.len(),
    );
    let header = header_line(f.num_vars, f.clauses.len());
    let clauses = clause_lines(f.clauses);
    lemma_parse_comments(f.comments, start);
    let with_comments = Formula { comments: start.comments + f.comments, ..start };
    assert(header =~= content + seq!['\n']);
    lemma_absorb_header(with_comments, f.num_vars, f.clauses.len());
    lemma_parse_line(content, with_comments);
    lemma_parse_concat(comments, header, start);
    let with_header = Formula {
        num_vars: f.num_vars,
        num_clauses: f.clauses.len(),
        ..with_comments
    };
    assert(parse_from(comments + header, start) == Ok::<Formula, FormatError>(with_header));
    assert(whole_lines(comments + header)) by {
        assert((comments + header).last() == '\n');
    }
    lemma_parse_clauses(f.clauses, with_header);
    lemma_parse_concat(comments + header, clauses, start);
    assert(start.comments + f.comments =~= f.comments);
    assert(with_header.clauses + f.clauses =~= f.clauses);
}

} // verus!
