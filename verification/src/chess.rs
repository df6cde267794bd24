//! Conversion between chess-style cell names ("A1", "AB12") and zero-based
//! (column, row) grid indices.
//!
//! The letter part is a bijective base-26 numeral (A=1, ..., Z=26, AA=27, ...)
//! stored zero-based, so the representable columns are 0..702 (at most two
//! letters).  The digit part is the row written one-based in decimal.
use vstd::prelude::*;
use vstd::string::StrSliceExecFns;
use vstd::arithmetic::div_mod::lemma_fundamental_div_mod_converse;
use crate::text::string_push;

verus! {

/// Why a chess-notation string failed to convert to grid indices.
#[derive(Clone, Copy, PartialEq, Eq, Structural, Debug)]
pub enum ParseError {
    /// The string does not match `^[A-Z]+\d+$`.
    NoMatch,
    /// The letter or digit part denotes a number too large for `i32`.
    BadNumber,
}

pub open spec fn is_upper(c: char) -> bool {
    65 <= c as int <= 90
}

pub open spec fn is_digit(c: char) -> bool {
    48 <= c as int <= 57
}

/// Value of one column letter: A=1, ..., Z=26.
pub open spec fn letter_val(c: char) -> int {
    c as int - 64
}

/// Value of one decimal digit character.
pub open spec fn digit_val(c: char) -> int {
    c as int - 48
}

/// The column letter with the given zero-based value: 0 -> 'A', ..., 25 -> 'Z'.
pub open spec fn letter_char(i: int) -> char {
    (65 + i) as char
}

/// The character for one decimal digit.
pub open spec fn digit_char(d: int) -> char {
    (48 + d) as char
}

/// Value of a letter string read as a bijective base-26 numeral.
pub open spec fn letters_value(s: Seq<char>) -> int
    decreases s.len(),
{
    if s.len() == 0 {
        0
    } else {
        letters_value(s.drop_last()) * 26 + letter_val(s.last())
    }
}

/// Value of a digit string read as a decimal numeral.
pub open spec fn digits_value(s: Seq<char>) -> int
    decreases s.len(),
{
    if s.len() == 0 {
        0
    } else {
        digits_value(s.drop_last()) * 10 + digit_val(s.last())
    }
}

pub open spec fn all_upper(s: Seq<char>) -> bool {
    forall|i: int| 0 <= i < s.len() ==> is_upper(s[i])
}

pub open spec fn all_digits(s: Seq<char>) -> bool {
    forall|i: int| 0 <= i < s.len() ==> is_digit(s[i])
}

/// Length of the longest prefix of uppercase letters.
pub open spec fn upper_prefix_len(s: Seq<char>) -> nat
    decreases s.len(),
{
    if s.len() == 0 || !is_upper(s[0]) {
        0
    } else {
        1 + upper_prefix_len(s.drop_first())
    }
}

/// The letter part of a chess-notation string.
pub open spec fn letters_part(s: Seq<char>) -> Seq<char> {
    s.take(upper_prefix_len(s) as int)
}

/// The digit part of a chess-notation string.
pub open spec fn digits_part(s: Seq<char>) -> Seq<char> {
    s.skip(upper_prefix_len(s) as int)
}

/// Whether the string matches `^[A-Z]+\d+$`.
pub open spec fn is_chess_notation(s: Seq<char>) -> bool {
    1 <= upper_prefix_len(s) < s.len() && all_digits(digits_part(s))
}

/// What converting a chess-notation string to zero-based grid indices yields.
pub open spec fn to_map_spec(s: Seq<char>) -> Result<(i32, i32), ParseError> {
    if !is_chess_notation(s) {
        Err(ParseError::NoMatch)
    } else if letters_value(letters_part(s)) > i32::MAX || digits_value(digits_part(s))
        > i32::MAX {
        Err(ParseError::BadNumber)
    } else {
        Ok(((letters_value(letters_part(s)) - 1) as i32, (digits_value(digits_part(s)) - 1) as i32))
    }
}

/// The one- or two-letter bijective base-26 numeral for a zero-based column.
pub open spec fn letters_repr(col: int) -> Seq<char> {
    if col < 26 {
        seq![letter_char(col)]
    } else {
        seq![letter_char(col / 26 - 1), letter_char(col % 26)]
    }
}

/// The decimal digits of a non-negative number.
pub open spec fn dec_digits(n: int) -> Seq<char>
    decreases n,
{
    if n <= 9 {
        seq![digit_char(n)]
    } else {
        dec_digits(n / 10).push(digit_char(n % 10))
    }
}

/// The decimal representation of a number, with a sign when negative.
pub open spec fn dec_repr(n: int) -> Seq<char> {
    if n < 0 {
        seq!['-'] + dec_digits(-n)
    } else {
        dec_digits(n)
    }
}

/// The chess-notation string for zero-based (column, row) grid indices.
pub open spec fn to_chess_spec(col: int, row: int) -> Seq<char> {
    letters_repr(col) + dec_repr(row + 1)
}

/// One-past-`i32::MAX`, the saturation sentinel for the accumulators below.
const OVER: i64 = 0x8000_0000;

proof fn lemma_upper_prefix_len_char(s: Seq<char>, k: int)
    requires
        0 <= k <= s.len(),
        forall|i: int| 0 <= i < k ==> is_upper(s[i]),
        k == s.len() || !is_upper(s[k]),
    ensures
        upper_prefix_len(s) == k,
    decreases s.len(),
{
    if k == 0 {
    } else {
        lemma_upper_prefix_len_char(s.drop_first(), k - 1);
    }
}

proof fn lemma_letters_value_step(s: Seq<char>, i: int)
    requires
        0 <= i < s.len(),
    ensures
        letters_value(s.take(i + 1)) == letters_value(s.take(i)) * 26 + letter_val(s[i]),
{
    assert(s.take(i + 1).drop_last() =~= s.take(i));
    assert(s.take(i + 1).last() == s[i]);
}

proof fn lemma_digits_value_step(s: Seq<char>, k: int, j: int)
    requires
        0 <= k <= j < s.len(),
    ensures
        digits_value(s.subrange(k, j + 1)) == digits_value(s.subrange(k, j)) * 10 + digit_val(
            s[j],
        ),
{
    assert(s.subrange(k, j + 1).drop_last() =~= s.subrange(k, j));
    assert(s.subrange(k, j + 1).last() == s[j]);
}

proof fn lemma_letters_value_pos(s: Seq<char>)
    requires
        all_upper(s),
    ensures
        letters_value(s) >= 0,
        s.len() >= 1 ==> letters_value(s) >= 1,
    decreases s.len(),
{
    if s.len() > 0 {
        assert(all_upper(s.drop_last()));
        lemma_letters_value_pos(s.drop_last());
    }
}

proof fn lemma_digits_value_nonneg(s: Seq<char>)
    requires
        all_digits(s),
    ensures
        digits_value(s) >= 0,
    decreases s.len(),
{
    if s.len() > 0 {
        assert(all_digits(s.drop_last()));
        lemma_digits_value_nonneg(s.drop_last());
    }
}

/// Reads a chess-notation string as zero-based (column, row) grid indices.
///
/// The letter part is decoded as a bijective base-26 numeral and the digit
/// part as a decimal numeral; each is decremented by one to become
/// zero-based.
pub fn to_map_coordinates(chess_coords: &str) -> (r: Result<(i32, i32), ParseError>)
    ensures
        r == to_map_spec(chess_coords@),
{
    let n = chess_coords.unicode_len();
    let ghost s: Seq<char> = chess_coords@;
    // Measure the uppercase-letter prefix.
    let mut k: usize = 0;
    loop
        invariant_except_break
            k <= n,
            n == s.len(),
            s == chess_coords@,
            forall|i: int| 0 <= i < k ==> is_upper(s[i]),
        ensures
            k <= n,
            n == s.len(),
            forall|i: int| 0 <= i < k ==> is_upper(s[i]),
            k == n || !is_upper(s[k as int]),
        decreases n - k,
    {
        if k >= n {
            break;
        }
        let c = chess_coords.get_char(k);
        let cu = c as u32;
        if !(65 <= cu && cu <= 90) {
            break;
        }
        k += 1;
    }
    proof {
        lemma_upper_prefix_len_char(s, k as int);
    }
    if k == 0 || k >= n {
        return Err(ParseError::NoMatch);
    }
    // Scan the rest as decimal digits, saturating past i32::MAX.
    let mut j: usize = k;
    let mut dacc: i64 = 0;
    while j < n
        invariant
            k <= j <= n,
            1 <= k < n,
            n == s.len(),
            s == chess_coords@,
            upper_prefix_len(s) == k,
            forall|i: int| k <= i < j ==> is_digit(s[i]),
            0 <= dacc <= OVER,
            digits_value(s.subrange(k as int, j as int)) <= i32::MAX ==> dacc == digits_value(
                s.subrange(k as int, j as int),
            ),
            digits_value(s.subrange(k as int, j as int)) > i32::MAX ==> dacc == OVER,
        decreases n - j,
    {
        let c = chess_coords.get_char(j);
        let cu = c as u32;
        if !(48 <= cu && cu <= 57) {
            proof {
                assert(digits_part(s)[j - k] == s[j as int]);
                assert(!all_digits(digits_part(s)));
            }
            return Err(ParseError::NoMatch);
        }
        let dv = (cu - 48) as i64;
        let ghost prev: int = digits_value(s.subrange(k as int, j as int));
        let next = dacc * 10 + dv;
        proof {
            lemma_digits_value_step(s, k as int, j as int);
            if prev > i32::MAX {
                assert(prev * 10 + digit_val(s[j as int]) > i32::MAX) by (nonlinear_arith)
                    requires
                        prev > i32::MAX,
                        digit_val(s[j as int]) >= 0,
                ;
            }
        }
        dacc = if next > 0x7fff_ffff {
            OVER
        } else {
            next
        };
        j += 1;
    }
    proof {
        assert(all_digits(digits_part(s))) by {
            assert(forall|i: int|
                0 <= i < digits_part(s).len() ==> digits_part(s)[i] == s[k + i] && is_digit(
                    s[k + i],
                ));
        }
        assert(s.subrange(k as int, n as int) =~= digits_part(s));
    }
    // Decode the letter prefix, saturating past i32::MAX.
    let mut i: usize = 0;
    let mut lacc: i64 = 0;
    while i < k
        invariant
            0 <= i <= k,
            1 <= k < n,
            n == s.len(),
            s == chess_coords@,
            forall|m: int| 0 <= m < k ==> is_upper(s[m]),
            0 <= lacc <= OVER,
            letters_value(s.take(i as int)) <= i32::MAX ==> lacc == letters_value(
                s.take(i as int),
            ),
            letters_value(s.take(i as int)) > i32::MAX ==> lacc == OVER,
        decreases k - i,
    {
        let c = chess_coords.get_char(i);
        let cu = c as u32;
        let lv = (cu - 64) as i64;
        let ghost prev: int = letters_value(s.take(i as int));
        let next = lacc * 26 + lv;
        proof {
            lemma_letters_value_step(s, i as int);
            if prev > i32::MAX {
                assert(prev * 26 + letter_val(s[i as int]) > i32::MAX) by (nonlinear_arith)
                    requires
                        prev > i32::MAX,
                        letter_val(s[i as int]) >= 1,
                ;
            }
        }
        lacc = if next > 0x7fff_ffff {
            OVER
        } else {
            next
        };
        i += 1;
    }
    proof {
        assert(s.take(k as int) =~= letters_part(s));
        lemma_letters_value_pos(letters_part(s));
        lemma_digits_value_nonneg(digits_part(s));
    }
    if lacc > 0x7fff_ffff || dacc > 0x7fff_ffff {
        return Err(ParseError::BadNumber);
    }
    Ok(((lacc - 1) as i32, (dacc - 1) as i32))
}

/// Appends the decimal digits of `n` to `s`.
fn push_dec_digits(s: &mut String, n: u32)
    ensures
        final(s)@ == old(s)@ + dec_digits(n as int),
    decreases n,
{
    if n <= 9 {
        string_push(s, ((48 + n) as u8) as char);
        proof {
            assert(old(s)@.push(digit_char(n as int)) =~= old(s)@ + dec_digits(n as int));
        }
    } else {
        push_dec_digits(s, n / 10);
        string_push(s, ((48 + n % 10) as u8) as char);
        proof {
            assert((old(s)@ + dec_digits(n as int / 10)).push(digit_char(n as int % 10)) =~= old(
                s,
            )@ + dec_digits(n as int));
        }
    }
}

/// Writes zero-based (column, row) grid indices as chess notation.
///
/// Columns from 702 on are not representable in at most two letters; calling
/// with such a column is a contract violation, so they are excluded here.
pub fn from_map_coordinates(column: i32, row: i32) -> (r: String)
    requires
        0 <= column < 702,
        row < i32::MAX,
    ensures
        r@ == to_chess_spec(column as int, row as int),
{
    let mut s = String::new();
    if column < 26 {
        string_push(&mut s, ((65 + column) as u8) as char);
    } else {
        string_push(&mut s, ((64 + column / 26) as u8) as char);
        string_push(&mut s, ((65 + column % 26) as u8) as char);
    }
    proof {
        assert(s@ =~= letters_repr(column as int));
    }
    let ghost letters: Seq<char> = s@;
    let n: i32 = row + 1;
    if n < 0 {
        string_push(&mut s, '-');
        let m: u32 = (-(n as i64)) as u32;
        push_dec_digits(&mut s, m);
        proof {
            assert(letters.push('-') + dec_digits(m as int) =~= letters + dec_repr(n as int));
        }
    } else {
        push_dec_digits(&mut s, n as u32);
    }
    s
}

proof fn lemma_upper_prefix_len_props(s: Seq<char>)
    ensures
        upper_prefix_len(s) <= s.len(),
        forall|i: int| 0 <= i < upper_prefix_len(s) ==> is_upper(s[i]),
    decreases s.len(),
{
    if s.len() > 0 && is_upper(s[0]) {
        lemma_upper_prefix_len_props(s.drop_first());
        assert forall|i: int| 0 <= i < upper_prefix_len(s) implies is_upper(s[i]) by {
            if i > 0 {
                assert(is_upper(s.drop_first()[i - 1]));
            }
        }
    }
}

proof fn lemma_letters_value_singleton(c: char)
    ensures
        letters_value(seq![c]) == letter_val(c),
{
    assert(seq![c].drop_last() =~= Seq::<char>::empty());
    assert(letters_value(Seq::<char>::empty()) == 0);
}

proof fn lemma_digits_value_singleton(c: char)
    ensures
        digits_value(seq![c]) == digit_val(c),
{
    assert(seq![c].drop_last() =~= Seq::<char>::empty());
    assert(digits_value(Seq::<char>::empty()) == 0);
}

proof fn lemma_letters_repr(col: int)
    requires
        0 <= col < 702,
    ensures
        all_upper(letters_repr(col)),
        1 <= letters_repr(col).len() <= 2,
        letters_value(letters_repr(col)) == col + 1,
{
    if col < 26 {
        let r = letters_repr(col);
        lemma_letters_value_singleton(letter_char(col));
        assert(letter_val(letter_char(col)) == col + 1);
    } else {
        let r = letters_repr(col);
        assert(r.drop_last() =~= seq![letter_char(col / 26 - 1)]);
        assert(r.last() == letter_char(col % 26));
        lemma_letters_value_singleton(letter_char(col / 26 - 1));
        assert(1 <= col / 26 <= 26);
        assert(0 <= col % 26 < 26);
        assert(letters_value(r) == (col / 26) * 26 + col % 26 + 1);
        assert((col / 26) * 26 + col % 26 == col) by {
            vstd::arithmetic::div_mod::lemma_fundamental_div_mod(col, 26);
        }
    }
}

proof fn lemma_dec_digits(n: int)
    requires
        n >= 0,
    ensures
        all_digits(dec_digits(n)),
        dec_digits(n).len() >= 1,
        digits_value(dec_digits(n)) == n,
        dec_digits(n)[0] != '0' || n == 0,
    decreases n,
{
    if n <= 9 {
        lemma_digits_value_singleton(digit_char(n));
        assert(digit_val(digit_char(n)) == n);
    } else {
        lemma_dec_digits(n / 10);
        let d = dec_digits(n);
        assert(d.drop_last() =~= dec_digits(n / 10));
        assert(d.last() == digit_char(n % 10));
        assert(digit_val(digit_char(n % 10)) == n % 10);
        assert(digits_value(d) == (n / 10) * 10 + n % 10);
        assert((n / 10) * 10 + n % 10 == n) by {
            vstd::arithmetic::div_mod::lemma_fundamental_div_mod(n, 10);
        }
        assert(n / 10 >= 1);
        assert(d[0] == dec_digits(n / 10)[0]);
    }
}

proof fn lemma_letters_value_min(s: Seq<char>)
    requires
        all_upper(s),
    ensures
        letters_value(s) >= 0,
        s.len() >= 1 ==> letters_value(s) >= 1,
        s.len() >= 2 ==> letters_value(s) >= 27,
        s.len() >= 3 ==> letters_value(s) >= 703,
    decreases s.len(),
{
    if s.len() > 0 {
        assert(all_upper(s.drop_last()));
        lemma_letters_value_min(s.drop_last());
    }
}

proof fn lemma_digits_value_first_nonzero(s: Seq<char>)
    requires
        all_digits(s),
        s.len() >= 1,
        s[0] != '0',
    ensures
        digits_value(s) >= 1,
        s.len() >= 2 ==> digits_value(s) >= 10,
    decreases s.len(),
{
    if s.len() == 1 {
        assert(s =~= seq![s[0]]);
        lemma_digits_value_singleton(s[0]);
        assert(digit_val(s[0]) >= 1);
    } else {
        assert(all_digits(s.drop_last()));
        assert(s.drop_last()[0] == s[0]);
        lemma_digits_value_first_nonzero(s.drop_last());
    }
}

proof fn lemma_letters_canonical(s: Seq<char>)
    requires
        all_upper(s),
        s.len() >= 1,
        letters_value(s) <= 702,
    ensures
        letters_repr(letters_value(s) - 1) == s,
{
    let v = letters_value(s);
    lemma_letters_value_pos(s);
    lemma_letters_value_min(s);
    if s.len() == 1 {
        assert(s =~= seq![s[0]]);
        lemma_letters_value_singleton(s[0]);
        assert(v == letter_val(s[0]));
        assert(letter_char(v - 1) == s[0]);
        assert(letters_repr(v - 1) =~= s);
    } else if s.len() == 2 {
        let v1 = letter_val(s[0]);
        let v2 = letter_val(s[1]);
        assert(s.drop_last() =~= seq![s[0]]);
        assert(s.last() == s[1]);
        lemma_letters_value_singleton(s[0]);
        assert(v == v1 * 26 + v2);
        let col = v - 1;
        assert(col == v1 * 26 + (v2 - 1));
        lemma_fundamental_div_mod_converse(col, 26, v1, v2 - 1);
        assert(col >= 26) by (nonlinear_arith)
            requires
                col == v1 * 26 + (v2 - 1),
                v1 >= 1,
                v2 >= 1,
        ;
        assert(letter_char(col / 26 - 1) == s[0]);
        assert(letter_char(col % 26) == s[1]);
        assert(letters_repr(col) =~= s);
    } else {
        assert(letters_value(s) >= 703);
    }
}

proof fn lemma_digits_canonical(s: Seq<char>)
    requires
        all_digits(s),
        s.len() >= 1,
        s.len() == 1 || s[0] != '0',
    ensures
        dec_digits(digits_value(s)) == s,
    decreases s.len(),
{
    let v = digits_value(s);
    lemma_digits_value_nonneg(s);
    if s.len() == 1 {
        assert(s =~= seq![s[0]]);
        lemma_digits_value_singleton(s[0]);
        assert(v == digit_val(s[0]));
        assert(digit_char(v) == s[0]);
        assert(dec_digits(v) =~= s);
    } else {
        let p = s.drop_last();
        let d = digit_val(s.last());
        assert(all_digits(p));
        assert(p[0] == s[0]);
        lemma_digits_value_first_nonzero(p);
        let vp = digits_value(p);
        assert(v == vp * 10 + d);
        lemma_fundamental_div_mod_converse(v, 10, vp, d);
        assert(v >= 10) by (nonlinear_arith)
            requires
                v == vp * 10 + d,
                vp >= 1,
                d >= 0,
        ;
        lemma_digits_canonical(p);
        assert(dec_digits(v) == dec_digits(vp).push(digit_char(d)));
        assert(dec_digits(vp).push(digit_char(d)) =~= s);
    }
}

/// Law: converting zero-based grid indices to chess notation and back yields
/// the same indices, for every representable column and every non-negative
/// row whose one-based form fits in `i32`.
pub proof fn lemma_map_round_trip(col: int, row: int)
    requires
        0 <= col < 702,
        0 <= row < i32::MAX,
    ensures
        to_map_spec(to_chess_spec(col, row)) == Ok::<(i32, i32), ParseError>((
            col as i32,
            row as i32,
        )),
{
    let letters = letters_repr(col);
    let digits = dec_digits(row + 1);
    let s = to_chess_spec(col, row);
    lemma_letters_repr(col);
    lemma_dec_digits(row + 1);
    assert(s == letters + digits);
    assert forall|i: int| 0 <= i < letters.len() implies is_upper(s[i]) by {
        assert(s[i] == letters[i]);
    }
    assert(!is_upper(s[letters.len() as int])) by {
        assert(s[letters.len() as int] == digits[0]);
        assert(is_digit(digits[0]));
    }
    lemma_upper_prefix_len_char(s, letters.len() as int);
    assert(letters_part(s) =~= letters);
    assert(digits_part(s) =~= digits);
    assert(is_chess_notation(s));
    assert(letters_value(letters_part(s)) == col + 1);
    assert(digits_value(digits_part(s)) == row + 1);
}

/// Law: a chess-notation string survives a round trip through grid indices
/// whenever its column is representable in at most two letters and its digit
/// part carries no superfluous leading zero and fits in `i32`.
pub proof fn lemma_chess_round_trip(s: Seq<char>)
    requires
        is_chess_notation(s),
        letters_value(letters_part(s)) <= 702,
        digits_part(s).len() == 1 || digits_part(s)[0] != '0',
        digits_value(digits_part(s)) <= i32::MAX,
    ensures
        to_map_spec(s) matches Ok(p) && to_chess_spec(p.0 as int, p.1 as int) == s,
{
    let letters = letters_part(s);
    let digits = digits_part(s);
    lemma_upper_prefix_len_props(s);
    assert forall|i: int| 0 <= i < letters.len() implies is_upper(letters[i]) by {
        assert(letters[i] == s[i]);
    }
    lemma_letters_value_pos(letters);
    lemma_digits_value_nonneg(digits);
    let lv = letters_value(letters);
    let dv = digits_value(digits);
    let p = ((lv - 1) as i32, (dv - 1) as i32);
    assert(to_map_spec(s) == Ok::<(i32, i32), ParseError>(p));
    lemma_letters_canonical(letters);
    lemma_digits_canonical(digits);
    assert(to_chess_spec(p.0 as int, p.1 as int) == letters_repr(lv - 1) + dec_repr(dv));
    assert(to_chess_spec(p.0 as int, p.1 as int) =~= s);
}

/// Law: the decoder fails exactly on the strings that do not match
/// `^[A-Z]+\d+$` — it returns `NoMatch` on every such string and on no
/// other, so every successful decode is of a matching string.
pub proof fn lemma_no_match_fails(s: Seq<char>)
    ensures
        !is_chess_notation(s) <==> to_map_spec(s) == Err::<(i32, i32), ParseError>(
            ParseError::NoMatch,
        ),
{
}

/// Law: a column numeral of at most two letters denotes a one-based value
/// of at most 702.  No cell name the encoder could emit denotes a column
/// of 702 or more, so the encoder owes no output there and fails loudly:
/// such a call is a programming-contract violation, which the encoder's
/// precondition rejects rather than answering with any string.
pub proof fn lemma_encoder_column_bound(s: Seq<char>)
    requires
        all_upper(s),
        1 <= s.len() <= 2,
    ensures
        1 <= letters_value(s) <= 702,
{
    lemma_letters_value_pos(s);
    if s.len() == 1 {
        assert(s =~= seq![s[0]]);
        lemma_letters_value_singleton(s[0]);
    } else {
        assert(s.drop_last() =~= seq![s[0]]);
        lemma_letters_value_singleton(s[0]);
        assert(letters_value(s) == letter_val(s[0]) * 26 + letter_val(s.last()));
        assert(letter_val(s[0]) * 26 <= 676) by (nonlinear_arith)
            requires
                letter_val(s[0]) <= 26,
        ;
    }
}

/// A cell address, written either as a chess-notation string or as a
/// zero-based (column, row) pair.
#[derive(Clone, PartialEq, Eq, Debug)]
pub enum Coordinates {
    Chess(String),
    Grid(i32, i32),
}

/// The mathematical value of a `Coordinates`: the notation string's
/// characters, or the pair of indices.
pub enum CoordinatesView {
    Chess(Seq<char>),
    Grid(int, int),
}

impl View for Coordinates {
    type V = CoordinatesView;

    open spec fn view(&self) -> CoordinatesView {
        match self {
            Coordinates::Chess(s) => CoordinatesView::Chess(s@),
            Coordinates::Grid(c, r) => CoordinatesView::Grid(*c as int, *r as int),
        }
    }
}

/// What converting a coordinate to the zero-based pair form yields: a pair
/// stays itself, a chess string is decoded.
pub open spec fn coord_to_map_spec(v: CoordinatesView) -> Result<CoordinatesView, ParseError> {
    match v {
        CoordinatesView::Grid(c, r) => Ok(CoordinatesView::Grid(c, r)),
        CoordinatesView::Chess(s) => match to_map_spec(s) {
            Ok(p) => Ok(CoordinatesView::Grid(p.0 as int, p.1 as int)),
            Err(e) => Err(e),
        },
    }
}

/// Whether a coordinate may be written in chess notation: a chess string
/// always, a pair when its column is representable and its row is not the
/// largest `i32`.
pub open spec fn coord_chess_ok(v: CoordinatesView) -> bool {
    match v {
        CoordinatesView::Chess(s) => true,
        CoordinatesView::Grid(c, r) => 0 <= c < 702 && r < i32::MAX,
    }
}

/// What converting a coordinate to chess notation yields.
pub open spec fn coord_to_chess_spec(v: CoordinatesView) -> CoordinatesView {
    match v {
        CoordinatesView::Chess(s) => CoordinatesView::Chess(s),
        CoordinatesView::Grid(c, r) => CoordinatesView::Chess(to_chess_spec(c, r)),
    }
}

impl Coordinates {
    /// Converts to the zero-based pair form; a pair is returned unchanged.
    pub fn to_map(&self) -> (r: Result<Coordinates, ParseError>)
        ensures
            r matches Ok(c) ==> coord_to_map_spec(self@) == Ok::<CoordinatesView, ParseError>(c@),
            r matches Err(e) ==> coord_to_map_spec(self@) == Err::<CoordinatesView, ParseError>(e),
    {
        match self {
            Coordinates::Grid(c, r) => Ok(Coordinates::Grid(*c, *r)),
            Coordinates::Chess(s) => match to_map_coordinates(s.as_str()) {
                Ok(p) => Ok(Coordinates::Grid(p.0, p.1)),
                Err(e) => Err(e),
            },
        }
    }

    /// Converts to the chess-notation form; a chess string is returned
    /// unchanged.  A pair column outside `[0, 702)` is not representable,
    /// so such pairs are excluded.
    pub fn to_chess(&self) -> (r: Coordinates)
        requires
            coord_chess_ok(self@),
        ensures
            r@ == coord_to_chess_spec(self@),
    {
        match self {
            Coordinates::Chess(s) => Coordinates::Chess(s.clone()),
            Coordinates::Grid(c, r) => Coordinates::Chess(from_map_coordinates(*c, *r)),
        }
    }
}

} // verus!
