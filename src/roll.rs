use vstd::prelude::*;
use vstd::relations::{sorted_by, total_ordering};
use vstd::string::StrSliceExecFns;

use crate::lexer::{
    digit_run, lemma_digit_run_bounds, space_at_pos, space_run,
    uint_at, uint_at_pos, ParseError,
};
use crate::text::{dec, push_char, push_decimal};

verus! {

/// Which of the sorted results a dice group counts.
#[derive(Debug, Clone, Copy, PartialEq, Eq)]
pub enum Filter {
    /// Leave out this many of the lowest results.
    Drop(u128),
    /// Count only this many of the highest results.
    Keep(u128),
}

/// One dice group: `dice_count` dice of `faces` faces each.
#[derive(Debug, Clone, Copy)]
pub struct Roll {
    pub dice_count: u128,
    pub faces: u128,
    pub filter: Option<Filter>,
}

/// One term of a command.
#[derive(Debug, Clone, Copy)]
pub enum RollExpression {
    Constant(u128),
    Roll(Roll),
}

/// Why a term could not be evaluated.
#[derive(Debug, Clone, Copy, PartialEq, Eq)]
pub enum RollError {
    /// A die with no faces.
    InvalidDie,
    /// A drop or keep count larger than the number of dice.
    FilterOutOfRange,
    /// A sum that leaves the range of the numbers it is kept in.
    Overflow,
}

/// The results of one evaluated term: the values in the order they were drawn,
/// and the filter of the term.
#[derive(Debug, Clone)]
pub struct RollExpressionResult {
    rolls: Vec<u128>,
    filter: Option<Filter>,
}

impl View for RollExpressionResult {
    type V = (Seq<u128>, Option<Filter>);

    closed spec fn view(&self) -> (Seq<u128>, Option<Filter>) {
        (self.rolls@, self.filter)
    }
}

pub open spec fn ascending_order() -> spec_fn(u128, u128) -> bool {
    |a: u128, b: u128| a <= b
}

/// The values of `s` from lowest to highest.
pub open spec fn ascending(s: Seq<u128>) -> Seq<u128> {
    s.sort_by(ascending_order())
}

pub open spec fn sum(s: Seq<u128>) -> int
    decreases s.len(),
{
    if s.len() == 0 {
        0
    } else {
        sum(s.drop_last()) + s.last()
    }
}

/// The sorted values that a filter counts; none where its count exceeds the values.
pub open spec fn selected(rolls: Seq<u128>, filter: Option<Filter>) -> Option<Seq<u128>> {
    let t = ascending(rolls);
    match filter {
        None => Some(t),
        Some(Filter::Drop(k)) => if k <= t.len() {
            Some(t.subrange(k as int, t.len() as int))
        } else {
            None
        },
        Some(Filter::Keep(k)) => if k <= t.len() {
            Some(t.subrange(t.len() - k, t.len() as int))
        } else {
            None
        },
    }
}

/// What a term adds to (or takes from) the total.
pub open spec fn contribution_of(rolls: Seq<u128>, filter: Option<Filter>) -> Result<u128, RollError> {
    match selected(rolls, filter) {
        None => Err(RollError::FilterOutOfRange),
        Some(p) => if sum(p) <= u128::MAX {
            Ok(sum(p) as u128)
        } else {
            Err(RollError::Overflow)
        },
    }
}

/// The values separated by `, `.
pub open spec fn join_values(s: Seq<u128>) -> Seq<char>
    decreases s.len(),
{
    if s.len() == 0 {
        Seq::empty()
    } else if s.len() == 1 {
        dec(s[0] as nat)
    } else {
        join_values(s.drop_last()) + seq![',', ' '] + dec(s.last() as nat)
    }
}

/// How a term's results are shown: `[v1, v2, ...]`, in the order drawn.
pub open spec fn display(s: Seq<u128>) -> Seq<char> {
    seq!['['] + join_values(s) + seq![']']
}

pub open spec fn is_die_letter(c: char) -> bool {
    c == 'd' || c == 'D'
}

pub open spec fn is_keep_letter(c: char) -> bool {
    c == 'k' || c == 'K'
}

/// A filter at position `i`: its length and value.
pub open spec fn filter_at(s: Seq<char>, i: int) -> Option<(nat, Filter)> {
    if 0 <= i < s.len() && (is_die_letter(s[i]) || is_keep_letter(s[i])) {
        match uint_at(s, i + 1) {
            Some((n, v)) => Some(
                (
                    n + 1,
                    if is_die_letter(s[i]) {
                        Filter::Drop(v as u128)
                    } else {
                        Filter::Keep(v as u128)
                    },
                ),
            ),
            None => None,
        }
    } else {
        None
    }
}

/// A dice group `[count]d<faces>[ filter]` at position `i`: its length and value.
/// The count is 1 where it is left out; the filter needs whitespace before it.
pub open spec fn roll_at(s: Seq<char>, i: int) -> Option<(nat, Roll)> {
    let (cn, count) = match uint_at(s, i) {
        Some((n, v)) => (n, v),
        None => (0nat, 1nat),
    };
    let j = i + cn;
    if 0 <= j < s.len() && is_die_letter(s[j]) {
        match uint_at(s, j + 1) {
            Some((fl, faces)) => {
                let k = j + 1 + fl;
                let w = space_run(s, k);
                let f = if w > 0 {
                    filter_at(s, k + w)
                } else {
                    None
                };
                match f {
                    Some((n, filter)) => Some(
                        (
                            (k + w + n - i) as nat,
                            Roll { dice_count: count as u128, faces: faces as u128, filter: Some(filter) },
                        ),
                    ),
                    None => Some(
                        ((k - i) as nat, Roll { dice_count: count as u128, faces: faces as u128, filter: None }),
                    ),
                }
            },
            None => None,
        }
    } else {
        None
    }
}

/// A term at position `i`: a dice group where one stands there, else a constant.
pub open spec fn expr_at(s: Seq<char>, i: int) -> Option<(nat, RollExpression)> {
    match roll_at(s, i) {
        Some((n, r)) => Some((n, RollExpression::Roll(r))),
        None => match uint_at(s, i) {
            Some((n, v)) => Some((n, RollExpression::Constant(v as u128))),
            None => None,
        },
    }
}

/// Relies on `slice::sort` (std): afterwards the same values, in ascending order.
#[verifier::external_body]
fn sort_ascending(v: &mut Vec<u128>)
    ensures
        final(v)@.to_multiset() == old(v)@.to_multiset(),
        sorted_by(final(v)@, ascending_order()),
{
    v.sort();
}

/// Relies on `rand::Rng::gen_range` over `rand::thread_rng`: a value drawn from
/// `1..=faces`; it panics only on an empty range, which `requires` rules out.
#[verifier::external_body]
fn draw_face(faces: u128) -> (r: u128)
    requires
        faces >= 1,
    ensures
        1 <= r <= faces,
{
    rand::Rng::gen_range(&mut rand::thread_rng(), 1..=faces)
}

pub proof fn lemma_ascending_total_ordering()
    ensures
        total_ordering(ascending_order()),
{
}

pub proof fn lemma_sum_push(s: Seq<u128>, lo: int, j: int)
    requires
        0 <= lo <= j < s.len(),
    ensures
        sum(s.subrange(lo, j + 1)) == sum(s.subrange(lo, j)) + s[j],
{
    assert(s.subrange(lo, j + 1).drop_last() =~= s.subrange(lo, j));
}

pub proof fn lemma_sum_monotone(s: Seq<u128>, lo: int, j: int, hi: int)
    requires
        0 <= lo <= j <= hi <= s.len(),
    ensures
        sum(s.subrange(lo, j)) <= sum(s.subrange(lo, hi)),
    decreases hi - j,
{
    if j < hi {
        lemma_sum_monotone(s, lo, j, hi - 1);
        lemma_sum_push(s, lo, hi - 1);
    }
}

pub proof fn lemma_sum_nonneg(s: Seq<u128>)
    ensures
        sum(s) >= 0,
    decreases s.len(),
{
    if s.len() > 0 {
        lemma_sum_nonneg(s.drop_last());
    }
}

pub proof fn lemma_sum_concat(a: Seq<u128>, b: Seq<u128>)
    ensures
        sum(a + b) == sum(a) + sum(b),
    decreases b.len(),
{
    if b.len() > 0 {
        lemma_sum_concat(a, b.drop_last());
        assert((a + b).drop_last() =~= a + b.drop_last());
    } else {
        assert(a + b =~= a);
    }
}

pub proof fn lemma_sum_split(s: Seq<u128>, k: int)
    requires
        0 <= k <= s.len(),
    ensures
        sum(s.subrange(0, k)) + sum(s.subrange(k, s.len() as int)) == sum(s),
{
    lemma_sum_concat(s.subrange(0, k), s.subrange(k, s.len() as int));
    assert(s.subrange(0, k) + s.subrange(k, s.len() as int) =~= s);
}

/// Reordering values does not change their sum.
pub proof fn lemma_sum_permutation(a: Seq<u128>, b: Seq<u128>)
    requires
        a.to_multiset() == b.to_multiset(),
    ensures
        sum(a) == sum(b),
    decreases a.len(),
{
    broadcast use vstd::seq_lib::group_to_multiset_ensures;

    assert(a.to_multiset().len() == a.len());
    assert(b.to_multiset().len() == b.len());
    if a.len() == 0 {
        assert(b.len() == 0);
    } else {
        let x = a.last();
        assert(a.drop_last().push(x) =~= a);
        assert(a.to_multiset().count(x) > 0);
        assert(b.contains(x));
        let i = choose|i: int| 0 <= i < b.len() && b[i] == x;
        let rest = b.remove(i);
        assert(rest.to_multiset() =~= b.to_multiset().remove(x));
        assert(a.drop_last().to_multiset() =~= a.to_multiset().remove(x));
        lemma_sum_permutation(a.drop_last(), rest);
        lemma_sum_concat(b.subrange(0, i), b.subrange(i + 1, b.len() as int));
        assert(rest =~= b.subrange(0, i) + b.subrange(i + 1, b.len() as int));
        lemma_sum_split(b, i);
        let tail = b.subrange(i, b.len() as int);
        lemma_sum_split(tail, 1);
        assert(tail.subrange(1, tail.len() as int) =~= b.subrange(i + 1, b.len() as int));
        assert(tail.subrange(0, 1).drop_last() =~= Seq::<u128>::empty());
        assert(tail.subrange(0, 1).last() == x);
        assert(sum(Seq::<u128>::empty()) == 0);
        assert(sum(tail.subrange(0, 1).drop_last()) == 0);
        assert(sum(tail.subrange(0, 1)) == x);
        assert(sum(a) == sum(a.drop_last()) + x);
    }
}

/// The filters as sums over all values: dropping the `k` lowest leaves the whole
/// sum less those `k`; keeping the `n - k` highest leaves the same; no filter
/// leaves the whole sum.
pub proof fn law_filter_sums(rolls: Seq<u128>, k: u128)
    requires
        k <= rolls.len() <= u128::MAX,
    ensures
        ({
            let low = sum(ascending(rolls).subrange(0, k as int));
            let n = rolls.len();
            &&& selected(rolls, Some(Filter::Drop(k))) is Some
            &&& sum(selected(rolls, Some(Filter::Drop(k)))->Some_0) + low == sum(rolls)
            &&& selected(rolls, Some(Filter::Keep((n - k) as u128))) is Some
            &&& sum(selected(rolls, Some(Filter::Keep((n - k) as u128)))->Some_0) + low == sum(rolls)
            &&& sum(selected(rolls, None)->Some_0) == sum(rolls)
            &&& sum(rolls) <= u128::MAX ==> {
                &&& contribution_of(rolls, Some(Filter::Drop(k))) == Ok::<u128, RollError>((sum(rolls) - low) as u128)
                &&& contribution_of(rolls, Some(Filter::Keep((n - k) as u128))) == Ok::<u128, RollError>((sum(rolls) - low) as u128)
                &&& contribution_of(rolls, None) == Ok::<u128, RollError>(sum(rolls) as u128)
            }
        }),
{
    let t = ascending(rolls);
    lemma_ascending_total_ordering();
    rolls.lemma_sort_by_ensures(ascending_order());
    lemma_sum_permutation(rolls, t);
    assert(t.len() == rolls.len()) by {
        broadcast use vstd::seq_lib::group_to_multiset_ensures;

        assert(t.to_multiset().len() == t.len());
        assert(rolls.to_multiset().len() == rolls.len());
    }
    lemma_sum_split(t, k as int);
    lemma_sum_nonneg(t.subrange(0, k as int));
    lemma_sum_nonneg(t.subrange(k as int, t.len() as int));
}

/// Where the count of dice is left out (the group starts with its `d`), it is one.
pub proof fn law_count_defaults_to_one(s: Seq<char>, i: int)
    requires
        0 <= i < s.len(),
        is_die_letter(s[i]),
        roll_at(s, i) is Some,
    ensures
        roll_at(s, i)->Some_0.1.dice_count == 1,
{
    assert(digit_run(s, i) == 0);
}

/// Sums `s[lo..hi]`, failing where the sum exceeds the `u128` range.
fn sum_range(s: &Vec<u128>, lo: usize, hi: usize) -> (r: Result<u128, RollError>)
    requires
        lo <= hi <= s@.len(),
    ensures
        sum(s@.subrange(lo as int, hi as int)) <= u128::MAX ==> r == Ok::<u128, RollError>(
            sum(s@.subrange(lo as int, hi as int)) as u128,
        ),
        sum(s@.subrange(lo as int, hi as int)) > u128::MAX ==> r == Err::<u128, RollError>(
            RollError::Overflow,
        ),
{
    let mut acc: u128 = 0;
    let mut j: usize = lo;
    assert(s@.subrange(lo as int, lo as int) =~= Seq::<u128>::empty());
    while j < hi
        invariant
            lo <= j <= hi <= s@.len(),
            acc == sum(s@.subrange(lo as int, j as int)),
        decreases hi - j,
    {
        proof {
            lemma_sum_push(s@, lo as int, j as int);
        }
        if acc > u128::MAX - s[j] {
            proof {
                lemma_sum_monotone(s@, lo as int, j + 1, hi as int);
            }
            return Err(RollError::Overflow);
        }
        acc = acc + s[j];
        j = j + 1;
    }
    Ok(acc)
}

fn is_die_letter_char(c: char) -> (r: bool)
    ensures
        r == is_die_letter(c),
{
    c == 'd' || c == 'D'
}

fn is_keep_letter_char(c: char) -> (r: bool)
    ensures
        r == is_keep_letter(c),
{
    c == 'k' || c == 'K'
}

fn filter_at_pos(s: &str, pos: usize, len: usize) -> (r: Option<(usize, Filter)>)
    requires
        len == s@.len(),
        pos <= len,
    ensures
        match filter_at(s@, pos as int) {
            Some((n, f)) => r == Some((n as usize, f)) && pos + n <= len,
            None => r is None,
        },
{
    if pos >= len {
        return None;
    }
    let c = s.get_char(pos);
    let drop = is_die_letter_char(c);
    if !drop && !is_keep_letter_char(c) {
        return None;
    }
    proof {
        lemma_digit_run_bounds(s@, pos + 1);
    }
    match uint_at_pos(s, pos + 1, len) {
        Some((n, v)) => if drop {
            Some((n + 1, Filter::Drop(v)))
        } else {
            Some((n + 1, Filter::Keep(v)))
        },
        None => None,
    }
}

fn roll_at_pos(s: &str, pos: usize, len: usize) -> (r: Option<(usize, Roll)>)
    requires
        len == s@.len(),
        pos <= len,
    ensures
        match roll_at(s@, pos as int) {
            Some((n, roll)) => r == Some((n as usize, roll)) && pos + n <= len,
            None => r is None,
        },
{
    proof {
        lemma_digit_run_bounds(s@, pos as int);
    }
    let (j, count) = match uint_at_pos(s, pos, len) {
        Some((n, v)) => (pos + n, v),
        None => (pos, 1u128),
    };
    if j >= len || !is_die_letter_char(s.get_char(j)) {
        return None;
    }
    proof {
        lemma_digit_run_bounds(s@, j + 1);
    }
    match uint_at_pos(s, j + 1, len) {
        Some((fl, faces)) => {
            let k = j + 1 + fl;
            let w = space_at_pos(s, k, len);
            if w > 0 {
                match filter_at_pos(s, k + w, len) {
                    Some((n, filter)) => {
                        return Some(
                            (k + w + n - pos, Roll { dice_count: count, faces, filter: Some(filter) }),
                        );
                    },
                    None => {},
                }
            }
            Some((k - pos, Roll { dice_count: count, faces, filter: None }))
        },
        None => None,
    }
}

/// Reads a term at position `pos`: its length and value.
pub fn expr_at_pos(s: &str, pos: usize, len: usize) -> (r: Option<(usize, RollExpression)>)
    requires
        len == s@.len(),
        pos <= len,
    ensures
        match expr_at(s@, pos as int) {
            Some((n, e)) => r == Some((n as usize, e)) && pos + n <= len,
            None => r is None,
        },
{
    match roll_at_pos(s, pos, len) {
        Some((n, roll)) => Some((n, RollExpression::Roll(roll))),
        None => {
            proof {
                lemma_digit_run_bounds(s@, pos as int);
            }
            match uint_at_pos(s, pos, len) {
                Some((n, v)) => Some((n, RollExpression::Constant(v))),
                None => None,
            }
        },
    }
}

/// Parses one term at the start of `input`: a dice group where one stands there,
/// else a constant. Returns what is left after the term.
pub fn parse_roll_expression(input: &str) -> (r: Result<(&str, RollExpression), ParseError>)
    ensures
        match expr_at(input@, 0) {
            Some((n, e)) => r is Ok && r->Ok_0.1 == e && r->Ok_0.0@ == input@.subrange(
                n as int,
                input@.len() as int,
            ),
            None => r == Err::<(&str, RollExpression), ParseError>(ParseError { position: 0 }),
        },
{
    let len = input.unicode_len();
    match expr_at_pos(input, 0, len) {
        Some((n, e)) => Ok((input.substring_char(n, len), e)),
        None => Err(ParseError { position: 0 }),
    }
}

impl RollExpressionResult {
    pub fn new(rolls: Vec<u128>, filter: Option<Filter>) -> (r: Self)
        ensures
            r@ == (rolls@, filter),
    {
        Self { rolls, filter }
    }

    /// The values in the order they were drawn.
    pub fn rolls(&self) -> (r: &Vec<u128>)
        ensures
            r@ == self@.0,
    {
        &self.rolls
    }

    pub fn filter(&self) -> (r: Option<Filter>)
        ensures
            r == self@.1,
    {
        self.filter
    }

    /// The sum of the values that the filter selects from the sorted values.
    pub fn contribution(&self) -> (r: Result<u128, RollError>)
        ensures
            r == contribution_of(self@.0, self@.1),
    {
        let mut t: Vec<u128> = Vec::new();
        let mut i: usize = 0;
        while i < self.rolls.len()
            invariant
                i <= self.rolls@.len(),
                t@ == self.rolls@.subrange(0, i as int),
            decreases self.rolls@.len() - i,
        {
            t.push(self.rolls[i]);
            i = i + 1;
            assert(t@ =~= self.rolls@.subrange(0, i as int));
        }
        assert(t@ =~= self.rolls@);
        sort_ascending(&mut t);
        proof {
            lemma_ascending_total_ordering();
            self.rolls@.lemma_sort_by_ensures(ascending_order());
            vstd::seq_lib::lemma_sorted_unique(t@, ascending(self.rolls@), ascending_order());
            assert(t@ == ascending(self.rolls@));
        }
        let n = t.len();
        match self.filter {
            None => {
                assert(t@.subrange(0, n as int) =~= t@);
                sum_range(&t, 0, n)
            },
            Some(Filter::Drop(k)) => {
                if k > n as u128 {
                    Err(RollError::FilterOutOfRange)
                } else {
                    sum_range(&t, k as usize, n)
                }
            },
            Some(Filter::Keep(k)) => {
                if k > n as u128 {
                    Err(RollError::FilterOutOfRange)
                } else {
                    sum_range(&t, n - k as usize, n)
                }
            },
        }
    }

    /// Shows the values as `[v1, v2, ...]` in the order they were drawn, whatever the filter.
    pub fn to_string(&self) -> (r: String)
        ensures
            r@ == display(self@.0),
    {
        let mut out = String::new();
        push_char(&mut out, '[');
        let mut i: usize = 0;
        while i < self.rolls.len()
            invariant
                i <= self.rolls@.len(),
                out@ == seq!['['] + join_values(self.rolls@.subrange(0, i as int)),
            decreases self.rolls@.len() - i,
        {
            let ghost before = out@;
            if i > 0 {
                push_char(&mut out, ',');
                push_char(&mut out, ' ');
            }
            push_decimal(&mut out, self.rolls[i]);
            proof {
                let p = self.rolls@.subrange(0, i + 1);
                assert(p.drop_last() =~= self.rolls@.subrange(0, i as int));
                if i == 0 {
                    assert(join_values(p) == dec(p[0] as nat));
                }
                assert(out@ =~= seq!['['] + join_values(p));
            }
            i = i + 1;
        }
        push_char(&mut out, ']');
        assert(self.rolls@.subrange(0, i as int) =~= self.rolls@);
        assert(out@ =~= display(self@.0));
        out
    }
}

/// Whether `draws` can be what the dice of the term `e` showed: one value in
/// `1..=faces` per die. A constant draws nothing.
pub open spec fn draws_fit(e: RollExpression, draws: Seq<u128>) -> bool {
    match e {
        RollExpression::Constant(_) => draws.len() == 0,
        RollExpression::Roll(roll) => draws.len() == roll.dice_count && forall|i: int|
            0 <= i < draws.len() ==> 1 <= #[trigger] draws[i] <= roll.faces,
    }
}

/// The result of the term `e` whose dice showed `draws`.
pub open spec fn evaluated(e: RollExpression, draws: Seq<u128>) -> Result<(Seq<u128>, Option<Filter>), RollError> {
    match e {
        RollExpression::Constant(v) => Ok((seq![v], None)),
        RollExpression::Roll(roll) => if roll.faces == 0 {
            Err(RollError::InvalidDie)
        } else {
            Ok((draws, roll.filter))
        },
    }
}

impl RollExpression {
    /// Evaluates the term with the values its dice showed, in the order drawn: a
    /// constant gives its value alone, with no filter; a dice group gives the
    /// values and keeps its filter; a die with no faces is an error.
    pub fn evaluate_with(self, draws: Vec<u128>) -> (r: Result<RollExpressionResult, RollError>)
        requires
            self is Roll && self->Roll_0.faces >= 1 ==> draws_fit(self, draws@),
        ensures
            match evaluated(self, draws@) {
                Ok(v) => r is Ok && r->Ok_0@ == v,
                Err(e) => r == Err::<RollExpressionResult, RollError>(e),
            },
    {
        match self {
            RollExpression::Constant(v) => {
                let rolls = vec![v];
                Ok(RollExpressionResult::new(rolls, None))
            },
            RollExpression::Roll(roll) => {
                if roll.faces == 0 {
                    return Err(RollError::InvalidDie);
                }
                Ok(RollExpressionResult::new(draws, roll.filter))
            },
        }
    }

    /// Evaluates the term, drawing each die afresh from `1..=faces`: a constant
    /// gives its value alone, with no filter; a dice group gives `dice_count`
    /// values and keeps its filter.
    pub fn evaluate(self) -> (r: Result<RollExpressionResult, RollError>)
        ensures
            match self {
                RollExpression::Constant(v) => r is Ok && r->Ok_0@ == (seq![v], None::<Filter>),
                RollExpression::Roll(roll) => if roll.faces == 0 {
                    r == Err::<RollExpressionResult, RollError>(RollError::InvalidDie)
                } else {
                    r is Ok && r->Ok_0@.1 == roll.filter && r->Ok_0@.0.len() == roll.dice_count
                        && forall|i: int|
                        0 <= i < roll.dice_count ==> 1 <= #[trigger] r->Ok_0@.0[i] <= roll.faces
                },
            },
    {
        let mut draws: Vec<u128> = Vec::new();
        if let RollExpression::Roll(roll) = self {
            if roll.faces >= 1 {
                let mut i: u128 = 0;
                while i < roll.dice_count
                    invariant
                        roll.faces >= 1,
                        i <= roll.dice_count,
                        draws@.len() == i,
                        forall|j: int| 0 <= j < i ==> 1 <= #[trigger] draws@[j] <= roll.faces,
                    decreases roll.dice_count - i,
                {
                    let v = draw_face(roll.faces);
                    draws.push(v);
                    i = i + 1;
                }
            }
        }
        self.evaluate_with(draws)
    }
}

} // verus!
