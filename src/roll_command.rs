use vstd::prelude::*;
use vstd::string::{StrSliceExecFns, StringExecFns};

use crate::lexer::{
    lemma_digit_run_bounds, lemma_space_run_bounds, space_at_pos, space_run, uint_at,
    uint_at_pos, ParseError,
};
use crate::roll::{
    contribution_of, display, expr_at, join_values, law_filter_sums, sum, expr_at_pos, Filter, RollError, RollExpression,
    RollExpressionResult,
};
use crate::text::{dec, digit_char, push_char, push_signed_decimal, signed_dec};

verus! {

/// Whether a term's contribution is added to the total or taken from it.
#[derive(Debug, Clone, Copy, PartialEq, Eq)]
pub enum Operator {
    Add,
    Subtract,
}

/// A parsed command: how many times to evaluate it, and its signed terms in order.
#[derive(Debug)]
pub struct RollCommand {
    batches: u128,
    expressions: Vec<(Operator, RollExpression)>,
}

impl View for RollCommand {
    type V = (u128, Seq<(Operator, RollExpression)>);

    closed spec fn view(&self) -> (u128, Seq<(Operator, RollExpression)>) {
        (self.batches, self.expressions@)
    }
}

/// Why a command text was not accepted.
#[derive(Debug, Clone, PartialEq, Eq)]
pub enum CommandError {
    /// No term could be read; holds the text from where the first term should stand.
    Malformed(String),
    /// A command was read but text is left after it; holds that text.
    TrailingInput(String),
}

/// The results of one term as plain values: the values drawn and the filter.
pub type TermResult = (Seq<u128>, Option<Filter>);

pub open spec fn operator_at(s: Seq<char>, i: int) -> Option<Operator> {
    if 0 <= i < s.len() && s[i] == '+' {
        Some(Operator::Add)
    } else if 0 <= i < s.len() && s[i] == '-' {
        Some(Operator::Subtract)
    } else {
        None
    }
}

/// The signed terms that follow position `i`, each an operator and a term with
/// whitespace around both, and the position after the last one read.
pub open spec fn rest_terms(s: Seq<char>, i: int) -> (int, Seq<(Operator, RollExpression)>)
    decreases s.len() - i,
{
    if 0 <= i <= s.len() {
        let a = i + space_run(s, i);
        match operator_at(s, a) {
            Some(op) => {
                let c = a + 1 + space_run(s, a + 1);
                match expr_at(s, c) {
                    Some((n, e)) => {
                        let d = c + n;
                        let next = d + space_run(s, d);
                        if next <= s.len() {
                            let (end, rest) = rest_terms(s, next);
                            (end, seq![(op, e)] + rest)
                        } else {
                            (i, Seq::empty())
                        }
                    },
                    None => (i, Seq::empty()),
                }
            },
            None => (i, Seq::empty()),
        }
    } else {
        (i, Seq::empty())
    }
}

/// Where the first term of a command starts, and the batch count: a count must be
/// followed by whitespace, else it is read as a term and the count is 1.
pub open spec fn batch_prefix(s: Seq<char>) -> (int, u128) {
    let p = space_run(s, 0) as int;
    match uint_at(s, p) {
        Some((n, v)) => if space_run(s, p + n) > 0 {
            (p + n + space_run(s, p + n), v as u128)
        } else {
            (p, 1)
        },
        None => (p, 1),
    }
}

/// A command at the start of `s`: the position after it, its batch count and its
/// terms, the first one added; or the position where the first term was missing.
pub open spec fn command_at(s: Seq<char>) -> Result<(int, u128, Seq<(Operator, RollExpression)>), int> {
    let (q, batches) = batch_prefix(s);
    match expr_at(s, q) {
        Some((n, e)) => {
            let d = q + n;
            let (end, rest) = rest_terms(s, d + space_run(s, d));
            Ok((end, batches, seq![(Operator::Add, e)] + rest))
        },
        None => Err(q),
    }
}

/// What is wrong with a term before anything is drawn.
pub open spec fn term_error(e: RollExpression) -> Option<RollError> {
    match e {
        RollExpression::Constant(_) => None,
        RollExpression::Roll(r) => if r.faces == 0 {
            Some(RollError::InvalidDie)
        } else {
            match r.filter {
                Some(Filter::Drop(k)) => if k > r.dice_count {
                    Some(RollError::FilterOutOfRange)
                } else {
                    None
                },
                Some(Filter::Keep(k)) => if k > r.dice_count {
                    Some(RollError::FilterOutOfRange)
                } else {
                    None
                },
                None => None,
            }
        },
    }
}

/// The error of the first of the first `k` terms that has one.
pub open spec fn first_error(es: Seq<(Operator, RollExpression)>, k: int) -> Option<RollError>
    decreases k,
{
    if k <= 0 {
        None
    } else {
        match first_error(es, k - 1) {
            Some(e) => Some(e),
            None => term_error(es[k - 1].1),
        }
    }
}

/// Whether `r` is a possible outcome of evaluating the term `e`.
pub open spec fn fits(e: RollExpression, r: TermResult) -> bool {
    match e {
        RollExpression::Constant(v) => r == (seq![v], None::<Filter>),
        RollExpression::Roll(roll) => r.1 == roll.filter && r.0.len() == roll.dice_count
            && forall|i: int| 0 <= i < r.0.len() ==> 1 <= #[trigger] r.0[i] <= roll.faces,
    }
}

/// Whether `rs` is a possible outcome of evaluating each of the terms once.
pub open spec fn batch_fits(es: Seq<(Operator, RollExpression)>, rs: Seq<TermResult>) -> bool {
    rs.len() == es.len() && forall|i: int| 0 <= i < es.len() ==> #[trigger] fits(es[i].1, rs[i])
}

/// The running total over the first `k` terms, kept in `i128` and checked at each step.
pub open spec fn batch_total(es: Seq<(Operator, RollExpression)>, rs: Seq<TermResult>, k: int) -> Result<int, RollError>
    decreases k,
{
    if k <= 0 {
        Ok(0)
    } else {
        match batch_total(es, rs, k - 1) {
            Err(e) => Err(e),
            Ok(t) => match contribution_of(rs[k - 1].0, rs[k - 1].1) {
                Err(e) => Err(e),
                Ok(c) => {
                    let t2 = match es[k - 1].0 {
                        Operator::Add => t + c,
                        Operator::Subtract => t - c,
                    };
                    if i128::MIN <= t2 <= i128::MAX {
                        Ok(t2)
                    } else {
                        Err(RollError::Overflow)
                    }
                },
            },
        }
    }
}

/// The displays of the dice groups among the first `k` terms; constants are not shown.
pub open spec fn shown(es: Seq<(Operator, RollExpression)>, rs: Seq<TermResult>, k: int) -> Seq<char>
    decreases k,
{
    if k <= 0 {
        Seq::empty()
    } else if es[k - 1].1 is Roll {
        shown(es, rs, k - 1) + display(rs[k - 1].0)
    } else {
        shown(es, rs, k - 1)
    }
}

pub open spec fn result_label() -> Seq<char> {
    seq!['`', ' ', 'R', 'e', 's', 'u', 'l', 't', ':', ' ', '`']
}

/// One line of output: `` `<displays>` Result: `<total>` ``.
pub open spec fn batch_line(es: Seq<(Operator, RollExpression)>, rs: Seq<TermResult>) -> Result<Seq<char>, RollError> {
    match batch_total(es, rs, es.len() as int) {
        Ok(t) => Ok(seq!['`'] + shown(es, rs, es.len() as int) + result_label() + signed_dec(t) + seq!['`']),
        Err(e) => Err(e),
    }
}

/// The lines of the first `k` batches joined by newlines, or the first error.
pub open spec fn command_text(es: Seq<(Operator, RollExpression)>, draws: Seq<Seq<TermResult>>, k: int) -> Result<Seq<char>, RollError>
    decreases k,
{
    if k <= 0 {
        Ok(Seq::empty())
    } else {
        match command_text(es, draws, k - 1) {
            Err(e) => Err(e),
            Ok(t) => match batch_line(es, draws[k - 1]) {
                Err(e) => Err(e),
                Ok(l) => Ok(if k == 1 { l } else { t + seq!['\n'] + l }),
            },
        }
    }
}

fn operator_at_pos(s: &str, pos: usize, len: usize) -> (r: Option<Operator>)
    requires
        len == s@.len(),
    ensures
        r == operator_at(s@, pos as int),
{
    if pos >= len {
        return None;
    }
    let c = s.get_char(pos);
    if c == '+' {
        Some(Operator::Add)
    } else if c == '-' {
        Some(Operator::Subtract)
    } else {
        None
    }
}

/// Reads the signed terms from position `pos` on into `out`, returning the position
/// after the last one read.
fn read_rest_terms(s: &str, pos: usize, len: usize, out: &mut Vec<(Operator, RollExpression)>) -> (r: usize)
    requires
        len == s@.len(),
        pos <= len,
    ensures
        r == rest_terms(s@, pos as int).0,
        final(out)@ == old(out)@ + rest_terms(s@, pos as int).1,
{
    let mut i: usize = pos;
    let ghost start = out@;
    assert(out@ =~= start + Seq::<(Operator, RollExpression)>::empty());
    loop
        invariant
            len == s@.len(),
            pos <= i <= len,
            rest_terms(s@, pos as int).0 == rest_terms(s@, i as int).0,
            rest_terms(s@, pos as int).1 == (out@.subrange(start.len() as int, out@.len() as int)) + rest_terms(s@, i as int).1,
            out@.subrange(0, start.len() as int) == start,
            out@.len() >= start.len(),
        ensures
            pos <= i <= len,
            rest_terms(s@, pos as int).0 == rest_terms(s@, i as int).0,
            rest_terms(s@, pos as int).1 == (out@.subrange(start.len() as int, out@.len() as int)) + rest_terms(s@, i as int).1,
            out@.subrange(0, start.len() as int) == start,
            out@.len() >= start.len(),
            rest_terms(s@, i as int) == (i as int, Seq::<(Operator, RollExpression)>::empty()),
        decreases len - i,
    {
        let a = i + space_at_pos(s, i, len);
        let op = match operator_at_pos(s, a, len) {
            Some(op) => op,
            None => {
                assert(rest_terms(s@, i as int) == (i as int, Seq::<(Operator, RollExpression)>::empty()));
                break;
            },
        };
        let c = a + 1 + space_at_pos(s, a + 1, len);
        let (n, e) = match expr_at_pos(s, c, len) {
            Some(found) => found,
            None => {
                assert(rest_terms(s@, i as int) == (i as int, Seq::<(Operator, RollExpression)>::empty()));
                break;
            },
        };
        let d = c + n;
        let next = d + space_at_pos(s, d, len);
        let ghost before = out@;
        out.push((op, e));
        proof {
            assert(rest_terms(s@, i as int).1 == seq![(op, e)] + rest_terms(s@, next as int).1);
            assert(out@.subrange(start.len() as int, out@.len() as int) =~= before.subrange(start.len() as int, before.len() as int) + seq![(op, e)]);
            assert(out@.subrange(0, start.len() as int) =~= before.subrange(0, start.len() as int));
        }
        i = next;
    }
    assert(out@ =~= start + out@.subrange(start.len() as int, out@.len() as int));
    i
}

/// Parses a command at the start of `input`: an optional batch count followed by
/// whitespace, then a term, then any number of `+` or `-` and a term, with
/// whitespace allowed around each. Returns what is left after the command.
pub fn parse_roll_command(input: &str) -> (r: Result<(&str, RollCommand), ParseError>)
    ensures
        match command_at(input@) {
            Ok((end, batches, es)) => r is Ok && r->Ok_0.1@ == (batches, es) && r->Ok_0.0@ == input@.subrange(end, input@.len() as int),
            Err(p) => r == Err::<(&str, RollCommand), ParseError>(ParseError { position: p as usize }),
        },
        r is Err ==> r->Err_0.position <= input@.len(),
        match command_at(input@) {
            Ok((end, _, _)) => 0 <= end <= input@.len(),
            Err(p) => 0 <= p <= input@.len(),
        },
{
    let len = input.unicode_len();
    let (q, batches) = batch_prefix_pos(input, len);
    match expr_at_pos(input, q, len) {
        Some((n, e)) => {
            let mut expressions: Vec<(Operator, RollExpression)> = Vec::new();
            expressions.push((Operator::Add, e));
            let d = q + n;
            let w = space_at_pos(input, d, len);
            let end = read_rest_terms(input, d + w, len, &mut expressions);
            proof {
                lemma_rest_terms_bounds(input@, (d + w) as int);
            }
            Ok((input.substring_char(end, len), RollCommand { batches, expressions }))
        },
        None => Err(ParseError { position: q }),
    }
}

fn batch_prefix_pos(s: &str, len: usize) -> (r: (usize, u128))
    requires
        len == s@.len(),
    ensures
        r.0 as int == batch_prefix(s@).0,
        r.1 == batch_prefix(s@).1,
        r.0 <= len,
{
    let p = space_at_pos(s, 0, len);
    proof {
        lemma_digit_run_bounds(s@, p as int);
    }
    match uint_at_pos(s, p, len) {
        Some((n, v)) => {
            let w = space_at_pos(s, p + n, len);
            if w > 0 {
                (p + n + w, v)
            } else {
                (p, 1)
            }
        },
        None => (p, 1),
    }
}

pub proof fn lemma_rest_terms_bounds(s: Seq<char>, i: int)
    requires
        0 <= i <= s.len(),
    ensures
        i <= rest_terms(s, i).0 <= s.len(),
    decreases s.len() - i,
{
    let a = i + space_run(s, i);
    lemma_space_run_bounds(s, i);
    if let Some(op) = operator_at(s, a) {
        let c = a + 1 + space_run(s, a + 1);
        lemma_space_run_bounds(s, a + 1);
        if let Some((n, e)) = expr_at(s, c) {
            let d = c + n;
            let next = d + space_run(s, d);
            if next <= s.len() {
                lemma_rest_terms_bounds(s, next);
            }
        }
    }
}

/// Parses a whole command text: it fails where no term can be read, or where text
/// is left after the command.
pub fn parse_command(input: &str) -> (r: Result<RollCommand, CommandError>)
    ensures
        match command_at(input@) {
            Ok((end, batches, es)) => if end < input@.len() {
                r is Err && r->Err_0 is TrailingInput && r->Err_0->TrailingInput_0@ == input@.subrange(end, input@.len() as int)
            } else {
                r is Ok && r->Ok_0@ == (batches, es)
            },
            Err(p) => r is Err && r->Err_0 is Malformed && r->Err_0->Malformed_0@ == input@.subrange(p, input@.len() as int),
        },
{
    match parse_roll_command(input) {
        Ok((rest, command)) => {
            if rest.unicode_len() > 0 {
                Err(CommandError::TrailingInput(String::from_str(rest)))
            } else {
                Ok(command)
            }
        },
        Err(e) => {
            let len = input.unicode_len();
            Err(CommandError::Malformed(String::from_str(input.substring_char(e.position, len))))
        },
    }
}

/// Adds `c` to or takes it from `t`, where the result stays in the `i128` range.
pub fn apply_operator(t: i128, c: u128, op: Operator) -> (r: Option<i128>)
    ensures
        ({
            let t2 = match op {
                Operator::Add => t + c,
                Operator::Subtract => t - c,
            };
            if i128::MIN <= t2 <= i128::MAX {
                r == Some(t2 as i128)
            } else {
                r is None
            }
        }),
{
    let half: u128 = (i128::MAX as u128) + 1;
    match op {
        Operator::Add => {
            if c < half {
                let ci = c as i128;
                if t > i128::MAX - ci {
                    None
                } else {
                    Some(t + ci)
                }
            } else {
                let h = (c - half) as i128;
                if t >= 0 {
                    None
                } else {
                    let u = t + h;
                    if u >= 0 {
                        None
                    } else {
                        Some(u + i128::MAX + 1)
                    }
                }
            }
        },
        Operator::Subtract => {
            if c < half {
                let ci = c as i128;
                if t < i128::MIN + ci {
                    None
                } else {
                    Some(t - ci)
                }
            } else {
                let h = (c - half) as i128;
                if t < 0 {
                    None
                } else {
                    let u = t - h;
                    if u < 0 {
                        None
                    } else {
                        Some(u - i128::MAX - 1)
                    }
                }
            }
        },
    }
}

pub proof fn lemma_batch_total_error_stays(es: Seq<(Operator, RollExpression)>, rs: Seq<TermResult>, k: int, n: int)
    requires
        0 <= k <= n,
        batch_total(es, rs, k) is Err,
    ensures
        batch_total(es, rs, n) == batch_total(es, rs, k),
    decreases n - k,
{
    if k < n {
        lemma_batch_total_error_stays(es, rs, k, n - 1);
    }
}

pub proof fn lemma_command_text_error_stays(es: Seq<(Operator, RollExpression)>, draws: Seq<Seq<TermResult>>, k: int, n: int)
    requires
        0 <= k <= n,
        command_text(es, draws, k) is Err,
    ensures
        command_text(es, draws, n) == command_text(es, draws, k),
    decreases n - k,
{
    if k < n {
        lemma_command_text_error_stays(es, draws, k, n - 1);
    }
}

pub proof fn lemma_no_first_error(es: Seq<(Operator, RollExpression)>, k: int, i: int)
    requires
        0 <= i < k,
        first_error(es, k) is None,
    ensures
        term_error(es[i].1) is None,
    decreases k,
{
    if i < k - 1 {
        lemma_no_first_error(es, k - 1, i);
    }
}

fn term_error_of(e: RollExpression) -> (r: Option<RollError>)
    ensures
        r == term_error(e),
{
    match e {
        RollExpression::Constant(_) => None,
        RollExpression::Roll(roll) => {
            if roll.faces == 0 {
                Some(RollError::InvalidDie)
            } else {
                match roll.filter {
                    Some(Filter::Drop(k)) | Some(Filter::Keep(k)) => if k > roll.dice_count {
                        Some(RollError::FilterOutOfRange)
                    } else {
                        None
                    },
                    None => None,
                }
            }
        },
    }
}

impl RollCommand {
    /// How many times the terms are evaluated.
    pub fn batch_count(&self) -> (r: u128)
        ensures
            r == self@.0,
    {
        self.batches
    }

    /// The signed terms, in order; the first one is added.
    pub fn expressions(&self) -> (r: &Vec<(Operator, RollExpression)>)
        ensures
            r@ == self@.1,
    {
        &self.expressions
    }

    /// The error of the first term that cannot be evaluated, before anything is drawn.
    pub fn check_terms(&self) -> (r: Option<RollError>)
        ensures
            r == first_error(self@.1, self@.1.len() as int),
    {
        let mut i: usize = 0;
        while i < self.expressions.len()
            invariant
                i <= self.expressions@.len(),
                first_error(self.expressions@, i as int) is None,
            decreases self.expressions@.len() - i,
        {
            let e = term_error_of(self.expressions[i].1);
            if e.is_some() {
                proof {
                    lemma_first_error_stays(self.expressions@, i + 1, self.expressions@.len() as int);
                }
                return e;
            }
            i = i + 1;
        }
        None
    }

    /// Renders one batch from the results of its terms: the running total and the
    /// displays of the dice groups.
    pub fn render_batch(&self, results: &Vec<RollExpressionResult>) -> (r: Result<String, RollError>)
        requires
            results@.len() == self@.1.len(),
        ensures
            text_of(r) == batch_line(self@.1, views(results@)),
    {
        let ghost es = self.expressions@;
        let ghost rs = views(results@);
        let n = self.expressions.len();
        let mut total: i128 = 0;
        let mut out = String::new();
        push_char(&mut out, '`');
        let mut i: usize = 0;
        while i < n
            invariant
                n == es.len(),
                es == self.expressions@,
                rs == views(results@),
                results@.len() == n,
                i <= n,
                batch_total(es, rs, i as int) == Ok::<int, RollError>(total as int),
                out@ == seq!['`'] + shown(es, rs, i as int),
            decreases n - i,
        {
            let (op, e) = self.expressions[i];
            let res = &results[i];
            assert(rs[i as int] == res@);
            let c = match res.contribution() {
                Ok(c) => c,
                Err(err) => {
                    proof {
                        lemma_batch_total_error_stays(es, rs, i + 1, n as int);
                    }
                    return Err(err);
                },
            };
            total = match apply_operator(total, c, op) {
                Some(t) => t,
                None => {
                    proof {
                        lemma_batch_total_error_stays(es, rs, i + 1, n as int);
                    }
                    return Err(RollError::Overflow);
                },
            };
            if matches!(e, RollExpression::Roll(_)) {
                let d = res.to_string();
                out.append(d.as_str());
            }
            assert(out@ =~= seq!['`'] + shown(es, rs, i + 1));
            i = i + 1;
        }
        proof {
            reveal_strlit("` Result: `");
        }
        out.append("` Result: `");
        push_signed_decimal(&mut out, total);
        push_char(&mut out, '`');
        assert(out@ =~= seq!['`'] + shown(es, rs, n as int) + result_label() + signed_dec(total as int) + seq!['`']);
        Ok(out)
    }

    /// Evaluates the command: each batch evaluates every term afresh and gives one
    /// line; the lines are joined by newlines. A term that cannot be evaluated fails
    /// the command before anything is drawn. The running total is an `i128` and each
    /// step is checked: one that leaves its range fails with `Overflow`.
    pub fn evaluate(&self) -> (r: Result<String, RollError>)
        ensures
            first_error(self@.1, self@.1.len() as int) is Some ==> r == Err::<String, RollError>(
                first_error(self@.1, self@.1.len() as int)->Some_0,
            ),
            first_error(self@.1, self@.1.len() as int) is None ==> exists|draws: Seq<Seq<TermResult>>|
                draws.len() == self@.0 && (forall|b: int|
                    0 <= b < draws.len() ==> batch_fits(self@.1, #[trigger] draws[b]))
                    && text_of(r) == #[trigger] command_text(self@.1, draws, draws.len() as int),
    {
        if let Some(e) = self.check_terms() {
            return Err(e);
        }
        let ghost es = self.expressions@;
        let n = self.expressions.len();
        let mut out = String::new();
        let ghost mut draws: Seq<Seq<TermResult>> = Seq::empty();
        let mut b: u128 = 0;
        while b < self.batches
            invariant
                es == self.expressions@,
                n == es.len(),
                first_error(es, n as int) is None,
                b <= self.batches,
                draws.len() == b,
                forall|k: int| 0 <= k < draws.len() ==> batch_fits(es, #[trigger] draws[k]),
                command_text(es, draws, b as int) == Ok::<Seq<char>, RollError>(out@),
            decreases self.batches - b,
        {
            let mut results: Vec<RollExpressionResult> = Vec::new();
            let mut i: usize = 0;
            while i < n
                invariant
                    es == self.expressions@,
                    n == es.len(),
                    first_error(es, n as int) is None,
                    i <= n,
                    results@.len() == i,
                    forall|k: int| 0 <= k < i ==> fits(es[k].1, #[trigger] results@[k]@),
                decreases n - i,
            {
                proof {
                    lemma_no_first_error(es, n as int, i as int);
                }
                let e = self.expressions[i].1;
                match e.evaluate() {
                    Ok(res) => {
                        results.push(res);
                    },
                    Err(_) => {
                        // every term passed `check_terms`, so none fails here
                        assert(false);
                    },
                }
                i = i + 1;
            }
            let ghost rs = views(results@);
            assert(batch_fits(es, rs)) by {
                assert forall|k: int| 0 <= k < es.len() implies #[trigger] fits(es[k].1, rs[k]) by {
                    assert(rs[k] == results@[k]@);
                }
            }
            let ghost next = draws.push(rs);
            assert(next[b as int] == rs);
            assert(next.subrange(0, b as int) =~= draws);
            assert(command_text(es, next, b as int) == command_text(es, draws, b as int)) by {
                lemma_command_text_prefix(es, draws, next, b as int);
            }
            let ghost prev = out@;
            match self.render_batch(&results) {
                Ok(line) => {
                    if b > 0 {
                        push_char(&mut out, '\n');
                    }
                    out.append(line.as_str());
                    assert(out@ =~= if b == 0 {
                        line@
                    } else {
                        prev + seq!['\n'] + line@
                    });
                },
                Err(err) => {
                    proof {
                        lemma_command_text_error_stays(es, next, b + 1, next.len() as int);
                        assert(command_text(es, next, next.len() as int) == Err::<Seq<char>, RollError>(err));
                        let full = Seq::new(self.batches as nat, |j: int| if j <= b { next[j] } else { rs });
                        lemma_command_text_prefix(es, next, full, b + 1);
                        lemma_command_text_error_stays(es, full, b + 1, self.batches as int);
                        assert forall|k: int| 0 <= k < full.len() implies batch_fits(es, #[trigger] full[k]) by {
                            if k < b {
                                assert(full[k] == draws[k]);
                            } else {
                                assert(full[k] == rs);
                            }
                        }
                        assert(text_of(Err(err)) == command_text(self@.1, full, full.len() as int));
                    }
                    return Err(err);
                },
            }
            proof {
                assert forall|k: int| 0 <= k < next.len() implies batch_fits(es, #[trigger] next[k]) by {
                    if k < b {
                        assert(next[k] == draws[k]);
                    }
                }
                draws = next;
            }
            b = b + 1;
        }
        assert(command_text(es, draws, draws.len() as int) == Ok::<Seq<char>, RollError>(out@));
        Ok(out)
    }
}

pub proof fn lemma_first_error_stays(es: Seq<(Operator, RollExpression)>, k: int, n: int)
    requires
        0 <= k <= n,
        first_error(es, k) is Some,
    ensures
        first_error(es, n) == first_error(es, k),
    decreases n - k,
{
    if k < n {
        lemma_first_error_stays(es, k, n - 1);
    }
}

/// The text of the first `k` batches depends on those batches alone.
pub proof fn lemma_command_text_prefix(es: Seq<(Operator, RollExpression)>, d1: Seq<Seq<TermResult>>, d2: Seq<Seq<TermResult>>, k: int)
    requires
        0 <= k <= d1.len(),
        k <= d2.len(),
        forall|j: int| 0 <= j < k ==> d1[j] == d2[j],
    ensures
        command_text(es, d1, k) == command_text(es, d2, k),
    decreases k,
{
    if k > 0 {
        lemma_command_text_prefix(es, d1, d2, k - 1);
    }
}

/// The number of newline characters in `s`.
pub open spec fn newlines(s: Seq<char>) -> nat
    decreases s.len(),
{
    if s.len() == 0 {
        0
    } else {
        newlines(s.drop_last()) + if s.last() == '\n' {
            1nat
        } else {
            0nat
        }
    }
}

pub open spec fn no_newline(s: Seq<char>) -> bool {
    forall|i: int| 0 <= i < s.len() ==> s[i] != '\n'
}

pub proof fn lemma_newlines_concat(a: Seq<char>, b: Seq<char>)
    ensures
        newlines(a + b) == newlines(a) + newlines(b),
    decreases b.len(),
{
    if b.len() > 0 {
        lemma_newlines_concat(a, b.drop_last());
        assert((a + b).drop_last() =~= a + b.drop_last());
    } else {
        assert(a + b =~= a);
    }
}

pub proof fn lemma_newlines_none(s: Seq<char>)
    requires
        no_newline(s),
    ensures
        newlines(s) == 0,
    decreases s.len(),
{
    if s.len() > 0 {
        lemma_newlines_none(s.drop_last());
    }
}

pub proof fn lemma_dec_no_newline(n: nat)
    ensures
        no_newline(dec(n)),
    decreases n,
{
    if n >= 10 {
        lemma_dec_no_newline(n / 10);
    }
    let d = n % 10;
    assert(digit_char(d) != '\n');
}

pub proof fn lemma_join_values_no_newline(s: Seq<u128>)
    ensures
        no_newline(join_values(s)),
    decreases s.len(),
{
    if s.len() == 1 {
        lemma_dec_no_newline(s[0] as nat);
    } else if s.len() > 1 {
        lemma_join_values_no_newline(s.drop_last());
        lemma_dec_no_newline(s.last() as nat);
    }
}

pub proof fn lemma_shown_no_newline(es: Seq<(Operator, RollExpression)>, rs: Seq<TermResult>, k: int)
    ensures
        no_newline(shown(es, rs, k)),
    decreases k,
{
    if k > 0 {
        lemma_shown_no_newline(es, rs, k - 1);
        lemma_join_values_no_newline(rs[k - 1].0);
    }
}

/// No line of output holds a newline.
pub proof fn lemma_line_no_newline(es: Seq<(Operator, RollExpression)>, rs: Seq<TermResult>)
    requires
        batch_line(es, rs) is Ok,
    ensures
        no_newline(batch_line(es, rs)->Ok_0),
{
    let t = batch_total(es, rs, es.len() as int)->Ok_0;
    lemma_shown_no_newline(es, rs, es.len() as int);
    if t < 0 {
        lemma_dec_no_newline((-t) as nat);
    } else {
        lemma_dec_no_newline(t as nat);
    }
}

/// Evaluating a command of `b` batches gives `b` lines: `b - 1` newlines, and
/// nothing at all for no batch.
pub proof fn law_one_line_per_batch(es: Seq<(Operator, RollExpression)>, draws: Seq<Seq<TermResult>>, b: int)
    requires
        0 <= b <= draws.len(),
        command_text(es, draws, b) is Ok,
    ensures
        b == 0 ==> command_text(es, draws, b)->Ok_0.len() == 0,
        b >= 1 ==> newlines(command_text(es, draws, b)->Ok_0) == b - 1,
    decreases b,
{
    if b >= 1 {
        let l = batch_line(es, draws[b - 1])->Ok_0;
        lemma_line_no_newline(es, draws[b - 1]);
        lemma_newlines_none(l);
        if b > 1 {
            law_one_line_per_batch(es, draws, b - 1);
            let t = command_text(es, draws, b - 1)->Ok_0;
            lemma_newlines_concat(t, seq!['\n']);
            lemma_newlines_concat(t + seq!['\n'], l);
            assert(newlines(seq!['\n']) == 1) by {
                assert(seq!['\n'].drop_last() =~= Seq::<char>::empty());
                assert(newlines(Seq::<char>::empty()) == 0);
            }
        }
    }
}

/// The shown text depends only on the first `k` terms and their results.
pub proof fn lemma_shown_prefix(
    es1: Seq<(Operator, RollExpression)>,
    rs1: Seq<TermResult>,
    es2: Seq<(Operator, RollExpression)>,
    rs2: Seq<TermResult>,
    k: int,
)
    requires
        forall|j: int| 0 <= j < k ==> es1[j] == es2[j] && rs1[j] == rs2[j],
    ensures
        shown(es1, rs1, k) == shown(es2, rs2, k),
    decreases k,
{
    if k > 0 {
        lemma_shown_prefix(es1, rs1, es2, rs2, k - 1);
    }
}

/// A constant counts in the total with its value, but is not shown: the shown text
/// is what it would be without that term.
pub proof fn law_constants_counted_not_shown(
    es: Seq<(Operator, RollExpression)>,
    rs: Seq<TermResult>,
    i: int,
    k: int,
)
    requires
        batch_fits(es, rs),
        0 <= i < k <= es.len(),
        es[i].1 is Constant,
    ensures
        contribution_of(rs[i].0, rs[i].1) == Ok::<u128, RollError>(es[i].1->Constant_0),
        shown(es, rs, k) == shown(es.remove(i), rs.remove(i), k - 1),
    decreases k,
{
    let v = es[i].1->Constant_0;
    assert(fits(es[i].1, rs[i]));
    law_filter_sums(seq![v], 0);
    assert(sum(seq![v]) == v) by {
        assert(seq![v].drop_last() =~= Seq::<u128>::empty());
        assert(sum(Seq::<u128>::empty()) == 0);
    }
    if k - 1 > i {
        law_constants_counted_not_shown(es, rs, i, k - 1);
        assert(es.remove(i)[k - 2] == es[k - 1]);
        assert(rs.remove(i)[k - 2] == rs[k - 1]);
    } else {
        lemma_shown_prefix(es, rs, es.remove(i), rs.remove(i), i);
    }
}

/// The running total depends only on the first `k` terms and their results.
pub proof fn lemma_batch_total_prefix(
    es1: Seq<(Operator, RollExpression)>,
    rs1: Seq<TermResult>,
    es2: Seq<(Operator, RollExpression)>,
    rs2: Seq<TermResult>,
    k: int,
)
    requires
        forall|j: int| 0 <= j < k ==> es1[j] == es2[j] && rs1[j] == rs2[j],
    ensures
        batch_total(es1, rs1, k) == batch_total(es2, rs2, k),
    decreases k,
{
    if k > 0 {
        lemma_batch_total_prefix(es1, rs1, es2, rs2, k - 1);
    }
}

/// A constant term moves the total by its value: with the term, the total is the
/// total without it plus the value where it is added, minus the value where it is
/// taken away (where neither total leaves the `i128` range).
pub proof fn law_constant_moves_total(
    es: Seq<(Operator, RollExpression)>,
    rs: Seq<TermResult>,
    i: int,
    k: int,
)
    requires
        batch_fits(es, rs),
        0 <= i < k <= es.len(),
        es[i].1 is Constant,
        batch_total(es, rs, k) is Ok,
        batch_total(es.remove(i), rs.remove(i), k - 1) is Ok,
    ensures
        batch_total(es, rs, k)->Ok_0 == batch_total(es.remove(i), rs.remove(i), k - 1)->Ok_0
            + match es[i].0 {
            Operator::Add => es[i].1->Constant_0 as int,
            Operator::Subtract => -(es[i].1->Constant_0 as int),
        },
    decreases k,
{
    let er = es.remove(i);
    let rr = rs.remove(i);
    law_constants_counted_not_shown(es, rs, i, k);
    if k - 1 > i {
        if batch_total(es, rs, k - 1) is Err {
            lemma_batch_total_error_stays(es, rs, k - 1, k);
        }
        if batch_total(er, rr, k - 2) is Err {
            lemma_batch_total_error_stays(er, rr, k - 2, k - 1);
        }
        assert(er[k - 2] == es[k - 1]);
        assert(rr[k - 2] == rs[k - 1]);
        law_constant_moves_total(es, rs, i, k - 1);
    } else {
        lemma_batch_total_prefix(es, rs, er, rr, i);
        if batch_total(es, rs, i) is Err {
            lemma_batch_total_error_stays(es, rs, i, k);
        }
    }
}

pub open spec fn text_of(r: Result<String, RollError>) -> Result<Seq<char>, RollError> {
    match r {
        Ok(s) => Ok(s@),
        Err(e) => Err(e),
    }
}

pub open spec fn views(rs: Seq<RollExpressionResult>) -> Seq<TermResult> {
    rs.map_values(|r: RollExpressionResult| r@)
}

} // verus!
