//! Conjunctive normal forms in the DIMACS text format: a problem line
//! `p cnf <variables> <clauses>`, comments, and clauses of signed numbers,
//! each closed by `0`.

use vstd::prelude::*;
use vstd::string::*;
use crate::logic::propositional::{
    and_of, is_formula, not_of, or_of, var_of, PLogic, PropositionalTree,
};
use crate::tree::builder::{
    lemma_planted_above, lemma_planted_links, lemma_planted_reads, planted, size_of, top_of,
};
use crate::tree::reading::{lemma_reads_unique, reads, well_linked, Reading};
use crate::tree::{Addr, Mapping, Node, NodeValue, Tree};

verus! {

/// The problem line: `p cnf`, the number of variables, the number of
/// clauses.
pub const PROBLEM_LINE: &'static str =
    r"(?:^|\b)(?i:p)\s+(?i:cnf)\s+(?<vars>\d+)\s+(?<clauses>\d+)(?:$|\b)";

/// A comment: from a letter that stands before white space to the end of
/// the line.
pub const COMMENT: &'static str = r"(\p{L}\s.+)";

/// A literal: a number, with a minus sign or without.
pub const LITERAL: &'static str = r"(?:^|[^-\w])(?<id>-?\d+)\b";

/// The end of a clause: a zero that stands alone.
pub const CLAUSE_END: &'static str = r"\b+0\b+";

/// What the group `group` of the first match of `pattern` in `text` holds;
/// nothing if `pattern` is no regular expression, does not match, or has no
/// such group in the match.
pub uninterp spec fn captured(pattern: Seq<char>, text: Seq<char>, group: Seq<char>) -> Option<
    Seq<char>,
>;

/// `text` with every match of `pattern` replaced by `with`; nothing if
/// `pattern` is no regular expression.
pub uninterp spec fn replaced(pattern: Seq<char>, text: Seq<char>, with: Seq<char>) -> Option<
    Seq<char>,
>;

/// The pieces of `text` between the matches of `pattern`; nothing if
/// `pattern` is no regular expression.
pub uninterp spec fn pieces(pattern: Seq<char>, text: Seq<char>) -> Option<Seq<Seq<char>>>;

/// What the group `group` holds in each match of `pattern` in `text`, match
/// by match; nothing if `pattern` is no regular expression or a match has
/// no such group.
pub uninterp spec fn all_captured(
    pattern: Seq<char>,
    text: Seq<char>,
    group: Seq<char>,
) -> Option<Seq<Seq<char>>>;

/// The texts of strings.
pub open spec fn texts(list: Seq<String>) -> Seq<Seq<char>> {
    Seq::new(list.len(), |i: int| list[i]@)
}

/// `regex::Regex::new` and `captures`, and `Captures::name` on what they
/// find: the text of the named group in the first match.  Taken on trust:
/// that the result depends on the three texts alone.
#[verifier::external_body]
fn capture(pattern: &str, text: &str, group: &str) -> (r: Option<String>)
    ensures
        match r {
            Some(s) => captured(pattern@, text@, group@) == Some(s@),
            None => captured(pattern@, text@, group@) is None,
        },
{
    match regex::Regex::new(pattern) {
        Ok(re) => re.captures(text).and_then(|c| c.name(group).map(|m| m.as_str().to_string())),
        Err(_) => None,
    }
}

/// `regex::Regex::new` and `replace_all`: the text with every match
/// replaced.  Taken on trust: that the result depends on the three texts
/// alone.
#[verifier::external_body]
fn replace_all(pattern: &str, text: &str, with: &str) -> (r: Option<String>)
    ensures
        match r {
            Some(s) => replaced(pattern@, text@, with@) == Some(s@),
            None => replaced(pattern@, text@, with@) is None,
        },
{
    match regex::Regex::new(pattern) {
        Ok(re) => Some(re.replace_all(text, with).into_owned()),
        Err(_) => None,
    }
}

/// `regex::Regex::new` and `split`: the pieces between the matches.  Taken
/// on trust: that the result depends on the two texts alone.
#[verifier::external_body]
fn split(pattern: &str, text: &str) -> (r: Option<Vec<String>>)
    ensures
        match r {
            Some(v) => pieces(pattern@, text@) == Some(texts(v@)),
            None => pieces(pattern@, text@) is None,
        },
{
    match regex::Regex::new(pattern) {
        Ok(re) => Some(re.split(text).map(|s| s.to_string()).collect()),
        Err(_) => None,
    }
}

/// `regex::Regex::new` and `captures_iter`, and `Captures::name` on each
/// match: the text of the named group, match by match.  Taken on trust:
/// that the result depends on the three texts alone.
#[verifier::external_body]
fn capture_all(pattern: &str, text: &str, group: &str) -> (r: Option<Vec<String>>)
    ensures
        match r {
            Some(v) => all_captured(pattern@, text@, group@) == Some(texts(v@)),
            None => all_captured(pattern@, text@, group@) is None,
        },
{
    match regex::Regex::new(pattern) {
        Ok(re) => re.captures_iter(text).map(
            |c| c.name(group).map(|m| m.as_str().to_string()),
        ).collect(),
        Err(_) => None,
    }
}

/// The value of a decimal digit; nothing for another character.
pub open spec fn digit_of(c: char) -> Option<nat> {
    if c == '0' {
        Some(0)
    } else if c == '1' {
        Some(1)
    } else if c == '2' {
        Some(2)
    } else if c == '3' {
        Some(3)
    } else if c == '4' {
        Some(4)
    } else if c == '5' {
        Some(5)
    } else if c == '6' {
        Some(6)
    } else if c == '7' {
        Some(7)
    } else if c == '8' {
        Some(8)
    } else if c == '9' {
        Some(9)
    } else {
        None
    }
}

/// The number that a text of decimal digits stands for; nothing if the text
/// is empty or holds another character.
pub open spec fn number(text: Seq<char>) -> Option<nat>
    decreases text.len(),
{
    if text.len() == 0 {
        None
    } else if digit_of(text.last()) is None {
        None
    } else if text.len() == 1 {
        digit_of(text.last())
    } else {
        match number(text.drop_last()) {
            Some(n) => Some(n * 10 + digit_of(text.last())->0),
            None => None,
        }
    }
}

/// The number that a text of decimal digits with or without a minus sign in
/// front stands for.
pub open spec fn signed_number(text: Seq<char>) -> Option<int> {
    if text.len() > 0 && text[0] == '-' {
        match number(text.skip(1)) {
            Some(n) => Some(-(n as int)),
            None => None,
        }
    } else {
        match number(text) {
            Some(n) => Some(n as int),
            None => None,
        }
    }
}

/// The value of a decimal digit.
fn digit(c: char) -> (d: Option<u8>)
    ensures
        match d {
            Some(v) => digit_of(c) == Some(v as nat),
            None => digit_of(c) is None,
        },
{
    if c == '0' {
        Some(0)
    } else if c == '1' {
        Some(1)
    } else if c == '2' {
        Some(2)
    } else if c == '3' {
        Some(3)
    } else if c == '4' {
        Some(4)
    } else if c == '5' {
        Some(5)
    } else if c == '6' {
        Some(6)
    } else if c == '7' {
        Some(7)
    } else if c == '8' {
        Some(8)
    } else if c == '9' {
        Some(9)
    } else {
        None
    }
}

/// A number grows with its digits.
proof fn lemma_number_grows(text: Seq<char>, k: int)
    requires
        1 <= k <= text.len(),
        number(text) is Some,
    ensures
        number(text.take(k)) is Some,
        number(text.take(k))->0 <= number(text)->0,
    decreases text.len() - k,
{
    if k == text.len() {
        assert(text.take(k) =~= text);
    } else {
        assert(text.drop_last().take(k) =~= text.take(k));
        lemma_number_grows(text.drop_last(), k);
    }
}

/// Where some front part of a text is no number, the text is none.
proof fn lemma_number_fails(text: Seq<char>, k: int)
    requires
        1 <= k <= text.len(),
        number(text.take(k)) is None,
    ensures
        number(text) is None,
    decreases text.len() - k,
{
    if k == text.len() {
        assert(text.take(k) =~= text);
    } else {
        assert(text.drop_last().take(k) =~= text.take(k));
        lemma_number_fails(text.drop_last(), k);
    }
}

/// The number that the text stands for from its character `from` on, if it
/// is one and at most `limit`.
fn parse_from(text: &str, from: usize, limit: u64) -> (r: Option<u64>)
    requires
        from <= text@.len(),
        limit <= u64::MAX / 16,
    ensures
        match r {
            Some(v) => number(text@.skip(from as int)) == Some(v as nat) && v <= limit,
            None => number(text@.skip(from as int)) is None || number(
                text@.skip(from as int),
            )->0 > limit,
        },
{
    let ghost digits = text@.skip(from as int);
    let n: usize = text.unicode_len();
    if from >= n {
        return None;
    }
    let mut value: u64 = 0;
    let mut i: usize = from;
    while i < n
        invariant
            from <= i <= n,
            n == text@.len(),
            digits == text@.skip(from as int),
            limit <= u64::MAX / 16,
            value <= limit,
            i > from ==> number(digits.take(i - from)) == Some(value as nat),
            i == from ==> value == 0,
        decreases n - i,
    {
        let c = text.get_char(i);
        let ghost part = digits.take(i - from + 1);
        proof {
            assert(part.last() == text@[i as int]);
            assert(part.drop_last() =~= digits.take(i - from));
        }
        match digit(c) {
            Some(d) => {
                value = value * 10 + d as u64;
                if value > limit {
                    proof {
                        lemma_number_bound(digits, i - from + 1, value as nat);
                    }
                    return None;
                }
            },
            None => {
                proof {
                    lemma_number_fails(digits, i - from + 1);
                }
                return None;
            },
        }
        i += 1;
    }
    assert(digits.take(n - from) =~= digits);
    Some(value)
}

/// A text whose front part stands for `value` stands for no less, if it
/// stands for a number at all.
proof fn lemma_number_bound(text: Seq<char>, k: int, value: nat)
    requires
        1 <= k <= text.len(),
        number(text.take(k)) == Some(value),
    ensures
        number(text) is Some ==> number(text)->0 >= value,
{
    if number(text) is Some {
        lemma_number_grows(text, k);
    }
}

/// The number that a text of decimal digits stands for, if a machine word
/// holds it.
pub fn parse_count(text: &str) -> (r: Option<usize>)
    ensures
        match r {
            Some(v) => number(text@) == Some(v as nat) && v <= count_limit(),
            None => number(text@) is None || number(text@)->0 > count_limit(),
        },
{
    assert(text@.skip(0) =~= text@);
    let limit: u64 = if usize::MAX as u64 > u64::MAX / 16 {
        u64::MAX / 16
    } else {
        usize::MAX as u64
    };
    match parse_from(text, 0, limit) {
        Some(v) => Some(v as usize),
        None => None,
    }
}

/// The largest count that `parse_count` reads: the largest machine word, or
/// a sixteenth of the largest number of sixty-four bits where that is less.
pub open spec fn count_limit() -> nat {
    if usize::MAX > u64::MAX / 16 {
        (u64::MAX / 16) as nat
    } else {
        usize::MAX as nat
    }
}

/// The literal that a text of decimal digits with or without a minus sign
/// in front stands for, if thirty-two bits hold it.
pub fn parse_literal(text: &str) -> (r: Option<i32>)
    ensures
        match r {
            Some(v) => signed_number(text@) == Some(v as int),
            None => signed_number(text@) is None || signed_number(text@)->0 > i32::MAX
                || signed_number(text@)->0 < i32::MIN,
        },
{
    let n: usize = text.unicode_len();
    if n > 0 && text.get_char(0) == '-' {
        match parse_from(text, 1, 0x8000_0000) {
            Some(v) => {
                if v == 0x8000_0000 {
                    Some(i32::MIN)
                } else {
                    Some(-(v as i32))
                }
            },
            None => None,
        }
    } else {
        assert(text@.skip(0) =~= text@);
        match parse_from(text, 0, 0x7FFF_FFFF) {
            Some(v) => Some(v as i32),
            None => None,
        }
    }
}

/// The vector itself if it holds something; nothing otherwise.
#[inline]
pub fn not_empty_ok<T>(vec: Vec<T>) -> (r: Option<Vec<T>>)
    ensures
        r == (if vec@.len() == 0 {
            None
        } else {
            Some(vec)
        }),
{
    if vec.len() == 0 {
        None
    } else {
        Some(vec)
    }
}

/// The address of the variable of a literal: literal `k` and literal `-k`
/// speak of the variable at address `k - 1`.
pub open spec fn variable_of(literal: i32) -> Addr {
    if literal == 0 {
        Addr::nil()
    } else if literal > 0 {
        Addr { addr: (literal - 1) as usize }
    } else {
        Addr { addr: (-(literal as int) - 1) as usize }
    }
}

/// The formula of a literal: its variable if it is positive, the negation
/// of its variable if it is not.
pub open spec fn literal_formula(literal: i32) -> Reading<PLogic> {
    if literal > 0 {
        var_of(variable_of(literal))
    } else {
        not_of(var_of(variable_of(literal)))
    }
}

/// The formula of a clause with at least one literal: the disjunction of
/// its literals, associated to the right.
pub open spec fn clause_formula(literals: Seq<i32>) -> Reading<PLogic>
    decreases literals.len(),
{
    if literals.len() == 0 {
        Reading::Empty
    } else if literals.len() == 1 {
        literal_formula(literals[0])
    } else {
        or_of(literal_formula(literals[0]), clause_formula(literals.skip(1)))
    }
}

/// The clauses as sequences.
pub open spec fn clause_seqs(clauses: Seq<Vec<i32>>) -> Seq<Seq<i32>> {
    Seq::new(clauses.len(), |i: int| clauses[i]@)
}

/// The formula of at least one clause: the conjunction of the clauses,
/// associated to the right.
pub open spec fn cnf_formula(clauses: Seq<Seq<i32>>) -> Reading<PLogic>
    decreases clauses.len(),
{
    if clauses.len() == 0 {
        Reading::Empty
    } else if clauses.len() == 1 {
        clause_formula(clauses[0])
    } else {
        and_of(clause_formula(clauses[0]), cnf_formula(clauses.skip(1)))
    }
}

/// Every clause has a literal.
pub open spec fn all_filled(clauses: Seq<Seq<i32>>) -> bool {
    forall|i: int| 0 <= i < clauses.len() ==> (#[trigger] clauses[i]).len() > 0
}

/// The formula of a clause with a literal is a formula.
pub proof fn lemma_clause_is_formula(literals: Seq<i32>)
    requires
        literals.len() > 0,
    ensures
        is_formula(clause_formula(literals)),
    decreases literals.len(),
{
    reveal_with_fuel(is_formula, 3);
    if literals.len() > 1 {
        lemma_clause_is_formula(literals.skip(1));
    }
}

/// The formula of clauses that each have a literal is a formula.
pub proof fn lemma_cnf_is_formula(clauses: Seq<Seq<i32>>)
    requires
        clauses.len() > 0,
        all_filled(clauses),
    ensures
        is_formula(cnf_formula(clauses)),
    decreases clauses.len(),
{
    lemma_clause_is_formula(clauses[0]);
    if clauses.len() > 1 {
        let rest = clauses.skip(1);
        assert forall|i: int| 0 <= i < rest.len() implies (#[trigger] rest[i]).len() > 0 by {
            assert(rest[i] == clauses[i + 1]);
        }
        lemma_cnf_is_formula(rest);
    }
}

/// Builds the formula of the literal `var`.
#[inline]
fn add_var(builder: &mut PropositionalTree, var: i32) -> (a: Addr)
    ensures
        a == top_of(old(builder).nodes().len(), literal_formula(var)),
        final(builder).nodes() == planted(old(builder).nodes(), literal_formula(var)),
        final(builder).nodes().len() == old(builder).nodes().len() + size_of(literal_formula(var)),
        !(literal_formula(var) is Empty),
        final(builder).symbols() == old(builder).symbols(),
        final(builder).root() == old(builder).root(),
{
    let ghost start = builder.nodes();
    let index: usize = if var == 0 {
        usize::MAX
    } else if var > 0 {
        (var - 1) as usize
    } else {
        (-(var as i64) - 1) as usize
    };
    let var_addr = Addr::new(index);
    let leaf = builder.plant_leaf(PLogic::Variable { id: var_addr });
    if var > 0 {
        leaf
    } else {
        builder.plant_over(PLogic::Not, leaf, Ghost(start), Ghost(var_of(var_addr)))
    }
}

/// Builds the formula of the clause `vars` from its literal `from` on.
fn add_clause(builder: &mut PropositionalTree, vars: &Vec<i32>, from: usize) -> (a: Addr)
    requires
        from < vars@.len(),
    ensures
        a == top_of(old(builder).nodes().len(), clause_formula(vars@.skip(from as int))),
        final(builder).nodes() == planted(
            old(builder).nodes(),
            clause_formula(vars@.skip(from as int)),
        ),
        final(builder).nodes().len() == old(builder).nodes().len() + size_of(
            clause_formula(vars@.skip(from as int)),
        ),
        !(clause_formula(vars@.skip(from as int)) is Empty),
        final(builder).symbols() == old(builder).symbols(),
        final(builder).root() == old(builder).root(),
    decreases vars@.len() - from,
{
    let ghost start = builder.nodes();
    let ghost these = vars@.skip(from as int);
    proof {
        assert(these[0] == vars@[from as int]);
        assert(these.skip(1) =~= vars@.skip(from + 1));
    }
    if vars.len() - from == 1 {
        add_var(builder, vars[from])
    } else {
        let left = add_var(builder, vars[from]);
        let right = add_clause(builder, vars, from + 1);
        builder.plant_join(
            PLogic::Or,
            left,
            right,
            Ghost(start),
            Ghost(literal_formula(vars@[from as int])),
            Ghost(clause_formula(vars@.skip(from + 1))),
        )
    }
}

/// Builds the formula of the clauses `clauses` from the clause `from` on.
fn add_clauses(builder: &mut PropositionalTree, clauses: &Vec<Vec<i32>>, from: usize) -> (a: Addr)
    requires
        from < clauses@.len(),
        all_filled(clause_seqs(clauses@)),
    ensures
        a == top_of(
            old(builder).nodes().len(),
            cnf_formula(clause_seqs(clauses@).skip(from as int)),
        ),
        final(builder).nodes() == planted(
            old(builder).nodes(),
            cnf_formula(clause_seqs(clauses@).skip(from as int)),
        ),
        final(builder).nodes().len() == old(builder).nodes().len() + size_of(
            cnf_formula(clause_seqs(clauses@).skip(from as int)),
        ),
        !(cnf_formula(clause_seqs(clauses@).skip(from as int)) is Empty),
        final(builder).symbols() == old(builder).symbols(),
        final(builder).root() == old(builder).root(),
    decreases clauses@.len() - from,
{
    let ghost start = builder.nodes();
    let ghost all = clause_seqs(clauses@);
    let ghost these = all.skip(from as int);
    proof {
        assert(these[0] == clauses@[from as int]@);
        assert(these.skip(1) =~= all.skip(from + 1));
        assert(all[from as int].len() > 0);
        assert(clauses@[from as int]@.skip(0) =~= clauses@[from as int]@);
    }
    if clauses.len() - from == 1 {
        add_clause(builder, &clauses[from], 0)
    } else {
        let left = add_clause(builder, &clauses[from], 0);
        let right = add_clauses(builder, clauses, from + 1);
        builder.plant_join(
            PLogic::And,
            left,
            right,
            Ghost(start),
            Ghost(clause_formula(clauses@[from as int]@)),
            Ghost(cnf_formula(all.skip(from + 1))),
        )
    }
}

/// The tree of a conjunctive normal form over `n_vars` anonymous variables:
/// the conjunction of the clauses, each the disjunction of its literals,
/// both associated to the right.  Without clauses the tree has no output.
pub fn build_cnf(n_vars: usize, clauses: &Vec<Vec<i32>>) -> (tree: PropositionalTree)
    requires
        all_filled(clause_seqs(clauses@)),
    ensures
        tree.wf(),
        tree.table() == Seq::new(n_vars as nat, |i: int| None::<Seq<char>>),
        tree.nodes() == planted(Seq::empty(), cnf_formula(clause_seqs(clauses@))),
        tree.root() == top_of(0, cnf_formula(clause_seqs(clauses@))),
        well_linked(tree.nodes()),
        clauses@.len() > 0 ==> tree.is_formula() && tree.formula() == cnf_formula(
            clause_seqs(clauses@),
        ),
{
    let mut tree: PropositionalTree = Tree::new();
    let mut i: usize = 0;
    while i < n_vars
        invariant
            i <= n_vars,
            tree.wf(),
            tree.table() == Seq::new(i as nat, |k: int| None::<Seq<char>>),
            tree.nodes() == Seq::<NodeValue<Node<2>, PLogic>>::empty(),
            tree.root() == Addr::nil(),
        decreases n_vars - i,
    {
        tree.add_anon();
        assert(tree.table() =~= Seq::new((i + 1) as nat, |k: int| None::<Seq<char>>));
        i += 1;
    }
    let ghost f = cnf_formula(clause_seqs(clauses@));
    let ghost empty = Seq::<NodeValue<Node<2>, PLogic>>::empty();
    if clauses.len() > 0 {
        assert(clause_seqs(clauses@).skip(0) =~= clause_seqs(clauses@));
        let root = add_clauses(&mut tree, clauses, 0);
        tree.set_output(root);
        let n: usize = tree.len();
        proof {
            lemma_cnf_is_formula(clause_seqs(clauses@));
            lemma_planted_above(empty, f);
            lemma_planted_reads(empty, f);
            lemma_planted_links(empty, f);
            lemma_reads_unique(tree.nodes(), tree.root(), f, tree.formula());
        }
    } else {
        assert(f is Empty);
        assert(well_linked(empty));
    }
    tree
}

/// What can be wrong with the text of a conjunctive normal form.
pub enum Flaw {
    /// There is no problem line, or its numbers cannot be read.
    NoProblemLine,
    /// The clauses cannot be read, or there are more or fewer of them than
    /// the problem line says.
    ClauseCount,
}

/// The message of a flaw.
pub open spec fn flaw_text(f: Flaw) -> Seq<char> {
    match f {
        Flaw::NoProblemLine => "Cannot find the problem line"@,
        Flaw::ClauseCount => "Inconsistent number of clauses"@,
    }
}

/// The literals of the piece `piece`: nothing if one of them cannot be
/// read.
pub open spec fn literals_of(found: Seq<Seq<char>>) -> Option<Seq<i32>>
    decreases found.len(),
{
    if found.len() == 0 {
        Some(Seq::empty())
    } else {
        match (literals_of(found.drop_last()), signed_number(found.last())) {
            (Some(front), Some(v)) => if i32::MIN <= v <= i32::MAX {
                Some(front.push(v as i32))
            } else {
                None
            },
            _ => None,
        }
    }
}

/// The clauses that stand in the pieces `parts`: for each piece the
/// literals found in it, pieces without literals left out; nothing if the
/// literals of a piece cannot be found or read.
pub open spec fn clauses_of(parts: Seq<Seq<char>>) -> Option<Seq<Seq<i32>>>
    decreases parts.len(),
{
    if parts.len() == 0 {
        Some(Seq::empty())
    } else {
        match (
            clauses_of(parts.drop_last()),
            all_captured(LITERAL@, parts.last(), "id"@),
        ) {
            (Some(front), Some(found)) => match literals_of(found) {
                Some(literals) => if literals.len() == 0 {
                    Some(front)
                } else {
                    Some(front.push(literals))
                },
                None => None,
            },
            _ => None,
        }
    }
}

/// What a text holds: the number of variables and the clauses; or what is
/// wrong with it.
pub open spec fn parsed(cnf: Seq<char>) -> Result<(nat, Seq<Seq<i32>>), Flaw> {
    match (captured(PROBLEM_LINE@, cnf, "vars"@), captured(PROBLEM_LINE@, cnf, "clauses"@)) {
        (Some(vars), Some(count)) => match (number(vars), number(count)) {
            (Some(n_vars), Some(n_clauses)) => if n_vars > count_limit() || n_clauses
                > count_limit() {
                Err(Flaw::NoProblemLine)
            } else {
                match replaced(COMMENT@, cnf, ""@) {
                    Some(cleaned) => match pieces(CLAUSE_END@, cleaned) {
                        Some(parts) => match clauses_of(parts) {
                            Some(clauses) => if clauses.len() == n_clauses && n_clauses > 0 {
                                Ok((n_vars, clauses))
                            } else {
                                Err(Flaw::ClauseCount)
                            },
                            None => Err(Flaw::ClauseCount),
                        },
                        None => Err(Flaw::ClauseCount),
                    },
                    None => Err(Flaw::ClauseCount),
                }
            },
            _ => Err(Flaw::NoProblemLine),
        },
        _ => Err(Flaw::NoProblemLine),
    }
}

/// The texts of the strings of each list.
pub open spec fn texts_of(found: Seq<Vec<String>>) -> Seq<Seq<Seq<char>>> {
    Seq::new(found.len(), |i: int| texts(found[i]@))
}

/// The clauses whose literals were found as the texts `found`, piece by
/// piece: pieces without literals are left out; nothing if a literal cannot
/// be read.
pub open spec fn clauses_in(found: Seq<Seq<Seq<char>>>) -> Option<Seq<Seq<i32>>>
    decreases found.len(),
{
    if found.len() == 0 {
        Some(Seq::empty())
    } else {
        match (clauses_in(found.drop_last()), literals_of(found.last())) {
            (Some(front), Some(literals)) => if literals.len() == 0 {
                Some(front)
            } else {
                Some(front.push(literals))
            },
            _ => None,
        }
    }
}

/// Where the literals of a front part cannot be read, those of the whole
/// cannot.
proof fn lemma_literals_fail(found: Seq<Seq<char>>, k: int)
    requires
        0 <= k <= found.len(),
        literals_of(found.take(k)) is None,
    ensures
        literals_of(found) is None,
    decreases found.len() - k,
{
    if k == found.len() {
        assert(found.take(k) =~= found);
    } else {
        assert(found.drop_last().take(k) =~= found.take(k));
        lemma_literals_fail(found.drop_last(), k);
    }
}

/// Where the clauses of a front part cannot be read, those of the whole
/// cannot.
proof fn lemma_clauses_fail(parts: Seq<Seq<char>>, k: int)
    requires
        0 <= k <= parts.len(),
        clauses_of(parts.take(k)) is None,
    ensures
        clauses_of(parts) is None,
    decreases parts.len() - k,
{
    if k == parts.len() {
        assert(parts.take(k) =~= parts);
    } else {
        assert(parts.drop_last().take(k) =~= parts.take(k));
        lemma_clauses_fail(parts.drop_last(), k);
    }
}

/// Where the literals found in a front part cannot be read, those of the
/// whole cannot.
proof fn lemma_found_fail(found: Seq<Seq<Seq<char>>>, k: int)
    requires
        0 <= k <= found.len(),
        clauses_in(found.take(k)) is None,
    ensures
        clauses_in(found) is None,
    decreases found.len() - k,
{
    if k == found.len() {
        assert(found.take(k) =~= found);
    } else {
        assert(found.drop_last().take(k) =~= found.take(k));
        lemma_found_fail(found.drop_last(), k);
    }
}

/// The clauses of pieces are the clauses of the literals found in them.
proof fn lemma_clauses_found(parts: Seq<Seq<char>>, found: Seq<Seq<Seq<char>>>)
    requires
        parts.len() == found.len(),
        forall|k: int|
            0 <= k < parts.len() ==> all_captured(LITERAL@, #[trigger] parts[k], "id"@) == Some(
                found[k],
            ),
    ensures
        clauses_of(parts) == clauses_in(found),
    decreases parts.len(),
{
    if parts.len() > 0 {
        let front = parts.drop_last();
        assert forall|k: int| 0 <= k < front.len() implies all_captured(
            LITERAL@,
            #[trigger] front[k],
            "id"@,
        ) == Some(found.drop_last()[k]) by {
            assert(front[k] == parts[k]);
        }
        lemma_clauses_found(front, found.drop_last());
        assert(all_captured(LITERAL@, parts[parts.len() - 1], "id"@) == Some(found.last()));
    }
}

/// The literals whose texts are `found`, in their order; nothing if one of
/// the texts is no number that thirty-two bits hold.
#[verifier::loop_isolation(false)]
pub fn read_literals(found: &Vec<String>) -> (r: Option<Vec<i32>>)
    ensures
        match r {
            Some(v) => literals_of(texts(found@)) == Some(v@),
            None => literals_of(texts(found@)) is None,
        },
{
    let ghost all = texts(found@);
    let mut literals: Vec<i32> = Vec::new();
    let mut i: usize = 0;
    assert(all.take(0) =~= Seq::<Seq<char>>::empty());
    while i < found.len()
        invariant
            i <= found@.len(),
            all == texts(found@),
            literals_of(all.take(i as int)) == Some(literals@),
        decreases found@.len() - i,
    {
        proof {
            let next = all.take(i + 1);
            assert(next.drop_last() =~= all.take(i as int));
            assert(next.last() == found@[i as int]@);
        }
        match parse_literal(found[i].as_str()) {
            Some(v) => {
                literals.push(v);
            },
            None => {
                proof {
                    lemma_literals_fail(all, i + 1);
                }
                return None;
            },
        }
        i += 1;
    }
    assert(all.take(found@.len() as int) =~= all);
    Some(literals)
}

/// The clauses whose literals were found as the texts `found`, piece by
/// piece, without the pieces that hold no literal; nothing if a literal
/// cannot be read.
#[verifier::loop_isolation(false)]
pub fn read_clauses(found: &Vec<Vec<String>>) -> (r: Option<Vec<Vec<i32>>>)
    ensures
        match r {
            Some(v) => clauses_in(texts_of(found@)) == Some(clause_seqs(v@)) && all_filled(
                clause_seqs(v@),
            ),
            None => clauses_in(texts_of(found@)) is None,
        },
{
    let ghost all = texts_of(found@);
    let mut clauses: Vec<Vec<i32>> = Vec::new();
    let mut i: usize = 0;
    assert(all.take(0) =~= Seq::<Seq<Seq<char>>>::empty());
    assert(clause_seqs(clauses@) =~= Seq::<Seq<i32>>::empty());
    while i < found.len()
        invariant
            i <= found@.len(),
            all == texts_of(found@),
            clauses_in(all.take(i as int)) == Some(clause_seqs(clauses@)),
            all_filled(clause_seqs(clauses@)),
        decreases found@.len() - i,
    {
        proof {
            let next = all.take(i + 1);
            assert(next.drop_last() =~= all.take(i as int));
            assert(next.last() == texts(found@[i as int]@));
        }
        let ghost before = clause_seqs(clauses@);
        match read_literals(&found[i]) {
            Some(literals) => {
                match not_empty_ok(literals) {
                    Some(filled) => {
                        let ghost these = filled@;
                        clauses.push(filled);
                        proof {
                            assert(clause_seqs(clauses@) =~= before.push(these));
                        }
                    },
                    None => {},
                }
            },
            None => {
                proof {
                    lemma_found_fail(all, i + 1);
                }
                return None;
            },
        }
        i += 1;
    }
    assert(all.take(found@.len() as int) =~= all);
    Some(clauses)
}

/// What the numbers of a problem line and the literals found piece by
/// piece hold: the clauses, if every literal can be read and there are as
/// many clauses as announced, and at least one.
pub open spec fn assembled(n_clauses: nat, found: Seq<Seq<Seq<char>>>) -> Result<
    Seq<Seq<i32>>,
    Flaw,
> {
    match clauses_in(found) {
        Some(clauses) => if clauses.len() == n_clauses && n_clauses > 0 {
            Ok(clauses)
        } else {
            Err(Flaw::ClauseCount)
        },
        None => Err(Flaw::ClauseCount),
    }
}

/// The tree of the conjunctive normal form over `n_vars` anonymous
/// variables whose literals were found as the texts `found`, piece by
/// piece.  Fails if a literal cannot be read, if the clauses are not the
/// `n_clauses` that were announced, or if there is none.
pub fn assemble(n_vars: usize, n_clauses: usize, found: &Vec<Vec<String>>) -> (r: Result<
    PropositionalTree,
    &'static str,
>)
    ensures
        match r {
            Ok(tree) => {
                &&& assembled(n_clauses as nat, texts_of(found@)) matches Ok(clauses)
                &&& tree.wf()
                &&& tree.table() == Seq::new(n_vars as nat, |i: int| None::<Seq<char>>)
                &&& tree.is_formula()
                &&& tree.formula() == cnf_formula(clauses)
                &&& tree.nodes() == planted(Seq::empty(), cnf_formula(clauses))
                &&& tree.root() == top_of(0, cnf_formula(clauses))
                &&& well_linked(tree.nodes())
            },
            Err(e) => assembled(n_clauses as nat, texts_of(found@)) is Err && e@ == flaw_text(
                Flaw::ClauseCount,
            ),
        },
{
    match read_clauses(found) {
        Some(clauses) => {
            if clauses.len() != n_clauses || n_clauses == 0 {
                Err("Inconsistent number of clauses")
            } else {
                Ok(build_cnf(n_vars, &clauses))
            }
        },
        None => Err("Inconsistent number of clauses"),
    }
}

/// The tree of the conjunctive normal form that `cnf` holds in the DIMACS
/// format: one anonymous variable for each variable that the problem line
/// announces, and the conjunction of the clauses.
#[verifier::loop_isolation(false)]
pub fn load_string(cnf: String) -> (r: Result<PropositionalTree, &'static str>)
    ensures
        match r {
            Ok(tree) => {
                &&& parsed(cnf@) is Ok
                &&& tree.wf()
                &&& tree.table() == Seq::new(parsed(cnf@)->Ok_0.0, |i: int| None::<Seq<char>>)
                &&& tree.is_formula()
                &&& tree.formula() == cnf_formula(parsed(cnf@)->Ok_0.1)
                &&& tree.nodes() == planted(Seq::empty(), cnf_formula(parsed(cnf@)->Ok_0.1))
                &&& well_linked(tree.nodes())
            },
            Err(e) => parsed(cnf@) is Err && e@ == flaw_text(parsed(cnf@)->Err_0),
        },
{
    let text = cnf.as_str();
    let (vars_text, count_text) = match (
        capture(PROBLEM_LINE, text, "vars"),
        capture(PROBLEM_LINE, text, "clauses"),
    ) {
        (Some(v), Some(c)) => (v, c),
        _ => {
            return Err("Cannot find the problem line");
        },
    };
    let (n_vars, n_clauses) = match (
        parse_count(vars_text.as_str()),
        parse_count(count_text.as_str()),
    ) {
        (Some(v), Some(c)) => (v, c),
        _ => {
            return Err("Cannot find the problem line");
        },
    };
    let cleaned = match replace_all(COMMENT, text, "") {
        Some(c) => c,
        None => {
            return Err("Inconsistent number of clauses");
        },
    };
    let parts = match split(CLAUSE_END, cleaned.as_str()) {
        Some(p) => p,
        None => {
            return Err("Inconsistent number of clauses");
        },
    };
    let ghost all = texts(parts@);
    let mut found: Vec<Vec<String>> = Vec::new();
    let mut i: usize = 0;
    while i < parts.len()
        invariant
            i <= parts@.len(),
            all == texts(parts@),
            found@.len() == i,
            forall|k: int|
                0 <= k < i ==> all_captured(LITERAL@, #[trigger] all[k], "id"@) == Some(
                    texts(found@[k]@),
                ),
        decreases parts@.len() - i,
    {
        match capture_all(LITERAL, parts[i].as_str(), "id") {
            Some(literals) => {
                found.push(literals);
            },
            None => {
                proof {
                    let next = all.take(i + 1);
                    assert(next.last() == all[i as int]);
                    lemma_clauses_fail(all, i + 1);
                }
                return Err("Inconsistent number of clauses");
            },
        }
        i += 1;
    }
    proof {
        lemma_clauses_found(all, texts_of(found@));
    }
    assemble(n_vars, n_clauses, &found)
}

} // verus!
