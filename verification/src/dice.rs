//! Adapter to the dice-expression evaluator, the `caith` crate.  The core
//! treats it as an opaque capability: a stored expression that can be
//! evaluated to a formatted result string or a failure.
//!
//! The evaluator does not return on every expression its grammar accepts:
//! it unwraps the integer parses of its number tokens, its infinite
//! reroll and explode options can loop forever, a huge dice count makes
//! it allocate without bound, and multiplication can overflow its 64-bit
//! totals.  `safe_roll_expr` names a domain on which none of that can
//! happen; the dispatcher evaluates only expressions in it and reports
//! every other line as a failed roll.
use vstd::prelude::*;
use vstd::string::StrSliceExecFns;
use crate::chess::is_digit;

verus! {

/// Length of the expression part of a roll line: everything before the
/// first colon, which starts the evaluator's free-text reason.
pub open spec fn roll_body_len(s: Seq<char>) -> nat
    decreases s.len(),
{
    if s.len() == 0 || s[0] == ':' {
        0
    } else {
        1 + roll_body_len(s.drop_first())
    }
}

/// Length of the run of digits the string ends with.
pub open spec fn digit_tail_len(s: Seq<char>) -> nat
    decreases s.len(),
{
    if s.len() == 0 || !is_digit(s.last()) {
        0
    } else {
        1 + digit_tail_len(s.drop_last())
    }
}

/// Whether the evaluator is known to return on this expression, neither
/// panicking nor looping nor allocating beyond tens of megabytes.  Each
/// clause, over the part before any reason text, excludes one way the
/// evaluator fails to return:
/// - at most 500 characters: bounds the leaves and option steps at 250
///   and keeps the parser's recursion into parentheses shallow;
/// - every digit run at most five characters: every number token then
///   fits the type the evaluator unwraps it into (it would panic on a
///   twenty-digit numeral), and a roll allocates at most 99999 dice.
///   Six digits would already be unsound: each keep or reroll option
///   records the whole roll again in the evaluator's history, so 250
///   option steps over a six-digit dice count build gigabytes, where
///   five digits stay near a hundred megabytes;
/// - no `*`: the evaluator multiplies its running 64-bit totals, and
///   whether a product overflows depends on the evaluated subtotals —
///   already `9999d9999 * 9999d9999` can exceed them.  No screen over
///   the text can bound a product without redoing the evaluator's
///   arithmetic, so products are left out wholesale; sums are safe, as
///   250 leaves of at most 99999 dice of 99999 sides, rolled again by
///   at most 250 option steps, total below 2^50;
/// - no `!` and no `ie`/`ir` digraph: the infinite explode and reroll
///   options loop forever when their threshold covers the die (`1d1!`,
///   `1d6 ir6`), and even below it they only terminate with probability
///   one, with no bound on their running time.
pub open spec fn safe_roll_expr(s: Seq<char>) -> bool {
    let b = roll_body_len(s) as int;
    &&& b <= 500
    &&& forall|q: int| 0 <= q <= b ==> digit_tail_len(s.take(q)) <= 5
    &&& forall|i: int| 0 <= i < b ==> s[i] != '*' && s[i] != '!'
    &&& forall|i: int|
        0 <= i && i + 1 < b ==> !((#[trigger] s[i]) == 'i' && (s[i + 1] == 'r' || s[i + 1]
            == 'e'))
}

proof fn lemma_roll_body_len_char(s: Seq<char>, k: int)
    requires
        0 <= k <= s.len(),
        forall|i: int| 0 <= i < k ==> s[i] != ':',
        k == s.len() || s[k] == ':',
    ensures
        roll_body_len(s) == k,
    decreases s.len(),
{
    if k > 0 {
        lemma_roll_body_len_char(s.drop_first(), k - 1);
    }
}

proof fn lemma_digit_tail_step(s: Seq<char>, p: int)
    requires
        0 <= p < s.len(),
    ensures
        digit_tail_len(s.take(p + 1)) == if is_digit(s[p]) {
            digit_tail_len(s.take(p)) + 1
        } else {
            0
        },
{
    assert(s.take(p + 1).drop_last() =~= s.take(p));
    assert(s.take(p + 1).last() == s[p]);
}

/// Decides `safe_roll_expr` in one pass over the expression.
pub fn roll_expr_safe(expr: &str) -> (r: bool)
    ensures
        r == safe_roll_expr(expr@),
{
    let n = expr.unicode_len();
    let ghost s: Seq<char> = expr@;
    // Find where the reason text starts.
    let mut b: usize = 0;
    loop
        invariant_except_break
            b <= n,
            n == s.len(),
            s == expr@,
            forall|i: int| 0 <= i < b ==> s[i] != ':',
        ensures
            b <= n,
            n == s.len(),
            forall|i: int| 0 <= i < b ==> s[i] != ':',
            b == n || s[b as int] == ':',
        decreases n - b,
    {
        if b >= n {
            break;
        }
        if expr.get_char(b) as u32 == 58 {
            break;
        }
        b += 1;
    }
    proof {
        lemma_roll_body_len_char(s, b as int);
    }
    if b > 500 {
        return false;
    }
    let mut p: usize = 0;
    let mut run: usize = 0;
    let mut prev_i = false;
    proof {
        assert(s.take(0) =~= Seq::<char>::empty());
    }
    while p < b
        invariant
            p <= b <= n,
            n == s.len(),
            s == expr@,
            b == roll_body_len(s),
            b <= 500,
            run == digit_tail_len(s.take(p as int)),
            run <= 5,
            forall|q: int| 0 <= q <= p ==> digit_tail_len(s.take(q)) <= 5,
            forall|i: int| 0 <= i < p ==> s[i] != '*' && s[i] != '!',
            forall|i: int|
                0 <= i && i + 1 < p ==> !((#[trigger] s[i]) == 'i' && (s[i + 1] == 'r' || s[i + 1]
                    == 'e')),
            prev_i <==> (p >= 1 && s[p - 1] == 'i'),
        decreases b - p,
    {
        let c = expr.get_char(p);
        let cu = c as u32;
        if cu == 42 || cu == 33 {
            return false;
        }
        if prev_i && (cu == 114 || cu == 101) {
            return false;
        }
        proof {
            lemma_digit_tail_step(s, p as int);
        }
        if 48 <= cu && cu <= 57 {
            run = run + 1;
            if run > 5 {
                return false;
            }
        } else {
            run = 0;
        }
        prev_i = cu == 105;
        p += 1;
    }
    true
}

#[verifier::external_type_specification]
#[verifier::external_body]
pub struct ExRoller(caith::Roller);

/// Relies on `caith::Roller::new`, which only stores the expression for
/// later evaluation and, in this version, always returns `Ok`.
#[verifier::external_body]
pub(crate) fn roller_new(expr: &str) -> (r: Result<caith::Roller, String>)
    ensures
        r is Ok,
{
    match caith::Roller::new(expr) {
        Ok(roller) => Ok(roller),
        Err(e) => Err(format!("{}", e)),
    }
}

/// Relies on `caith::Roller::new` and `caith::Roller::roll`: the
/// expression is parsed and evaluated with a random number generator, so
/// nothing is promised of the outcome.  The precondition keeps to the
/// domain on which the evaluator returns (see `safe_roll_expr`): outside
/// it, the evaluator's unwrapped number parses panic, its infinite
/// reroll and explode options can loop forever, a huge dice count
/// exhausts memory, and multiplication overflows its totals.  One
/// wrapper holds both calls because the precondition speaks of the
/// expression text, which the stored `Roller` hides.
#[verifier::external_body]
pub(crate) fn roll_expr(expr: &str) -> (r: Result<String, String>)
    requires
        safe_roll_expr(expr@),
{
    match caith::Roller::new(expr) {
        Ok(roller) => match roller.roll() {
            Ok(res) => Ok(format!("{}", res)),
            Err(e) => Err(format!("{}", e)),
        },
        Err(e) => Err(format!("{}", e)),
    }
}

} // verus!
