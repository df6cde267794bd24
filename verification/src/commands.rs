//! The command grammar: a line of text is split on whitespace into a verb
//! and arguments, and becomes a typed command or a structured error.
use vstd::prelude::*;
use vstd::string::StrSliceExecFns;
use vstd::string::StringExecFns;
use crate::chess::{all_digits, digits_value, is_digit};
use crate::dice::roller_new;
use crate::text::str_eq;

verus! {

/// Whether the character has Unicode's White_Space property, the separator
/// set lines are split on.
pub open spec fn is_space(c: char) -> bool {
    let u = c as int;
    (9 <= u <= 13) || u == 32 || u == 133 || u == 160 || u == 5760 || (8192 <= u <= 8202) || u
        == 8232 || u == 8233 || u == 8239 || u == 8287 || u == 12288
}

fn is_space_char(c: char) -> (r: bool)
    ensures
        r == is_space(c),
{
    let u = c as u32;
    (9 <= u && u <= 13) || u == 32 || u == 133 || u == 160 || u == 5760 || (8192 <= u && u
        <= 8202) || u == 8232 || u == 8233 || u == 8239 || u == 8287 || u == 12288
}

/// Length of the longest prefix free of whitespace.
pub open spec fn nonspace_prefix_len(s: Seq<char>) -> nat
    decreases s.len(),
{
    if s.len() == 0 || is_space(s[0]) {
        0
    } else {
        1 + nonspace_prefix_len(s.drop_first())
    }
}

/// Length of the longest prefix of whitespace.
pub open spec fn space_prefix_len(s: Seq<char>) -> nat
    decreases s.len(),
{
    if s.len() == 0 || !is_space(s[0]) {
        0
    } else {
        1 + space_prefix_len(s.drop_first())
    }
}

proof fn lemma_nonspace_prefix_le(s: Seq<char>)
    ensures
        nonspace_prefix_len(s) <= s.len(),
    decreases s.len(),
{
    if s.len() > 0 && !is_space(s[0]) {
        lemma_nonspace_prefix_le(s.drop_first());
    }
}

/// The whitespace-separated tokens of a line, in order.
pub open spec fn tokens_of(s: Seq<char>) -> Seq<Seq<char>>
    decreases s.len(),
    via tokens_of_decreases
{
    if s.len() == 0 {
        Seq::empty()
    } else if is_space(s[0]) {
        tokens_of(s.drop_first())
    } else {
        let k = 1 + nonspace_prefix_len(s.drop_first()) as int;
        seq![s.take(k)] + tokens_of(s.skip(k))
    }
}

#[via_fn]
proof fn tokens_of_decreases(s: Seq<char>) {
    if s.len() > 0 && !is_space(s[0]) {
        lemma_nonspace_prefix_le(s.drop_first());
    }
}

proof fn lemma_nonspace_prefix_len_char(s: Seq<char>, k: int)
    requires
        0 <= k <= s.len(),
        forall|i: int| 0 <= i < k ==> !is_space(s[i]),
        k == s.len() || is_space(s[k]),
    ensures
        nonspace_prefix_len(s) == k,
    decreases s.len(),
{
    if k > 0 {
        lemma_nonspace_prefix_len_char(s.drop_first(), k - 1);
    }
}

proof fn lemma_space_prefix_len_char(s: Seq<char>, k: int)
    requires
        0 <= k <= s.len(),
        forall|i: int| 0 <= i < k ==> is_space(s[i]),
        k == s.len() || !is_space(s[k]),
    ensures
        space_prefix_len(s) == k,
    decreases s.len(),
{
    if k > 0 {
        lemma_space_prefix_len_char(s.drop_first(), k - 1);
    }
}

/// Splits a line into its whitespace-separated tokens.
pub fn tokenize(line: &str) -> (r: Vec<String>)
    ensures
        r.deep_view() == tokens_of(line@),
{
    let n = line.unicode_len();
    let ghost s: Seq<char> = line@;
    let mut toks: Vec<String> = Vec::new();
    proof {
        assert(s.skip(0) =~= s);
        assert(toks.deep_view() =~= Seq::<Seq<char>>::empty());
        assert(toks.deep_view() + tokens_of(s) =~= tokens_of(s));
    }
    let mut i: usize = 0;
    while i < n
        invariant
            i <= n,
            n == s.len(),
            s == line@,
            tokens_of(s) == toks.deep_view() + tokens_of(s.skip(i as int)),
        decreases n - i,
    {
        let c = line.get_char(i);
        if is_space_char(c) {
            proof {
                assert(s.skip(i as int).drop_first() =~= s.skip(i + 1));
            }
            i += 1;
        } else {
            let mut j: usize = i + 1;
            loop
                invariant_except_break
                    i < j <= n,
                    n == s.len(),
                    s == line@,
                    forall|m: int| i <= m < j ==> !is_space(s[m]),
                ensures
                    i < j <= n,
                    forall|m: int| i <= m < j ==> !is_space(s[m]),
                    j == n || is_space(s[j as int]),
                decreases n - j,
            {
                if j >= n {
                    break;
                }
                let c2 = line.get_char(j);
                if is_space_char(c2) {
                    break;
                }
                j += 1;
            }
            let tok = line.substring_char(i, j).to_owned();
            proof {
                let rest = s.skip(i as int);
                assert forall|m: int| 0 <= m < j - i implies !is_space(rest[m]) by {
                    assert(rest[m] == s[i + m]);
                }
                assert(j - i == rest.len() || is_space(rest[j - i])) by {
                    if j < n {
                        assert(rest[j - i] == s[j as int]);
                    }
                }
                lemma_nonspace_prefix_len_char(rest, j - i);
                assert(rest.drop_first() =~= s.skip(i + 1));
                assert(nonspace_prefix_len(rest) == 1 + nonspace_prefix_len(rest.drop_first()));
                assert(tokens_of(rest) == seq![rest.take(j - i)] + tokens_of(rest.skip(j - i)));
                assert(rest.take(j - i) =~= s.subrange(i as int, j as int));
                assert(rest.skip(j - i) =~= s.skip(j as int));
                assert(tok@ == s.subrange(i as int, j as int));
            }
            let ghost old_toks = toks.deep_view();
            toks.push(tok);
            proof {
                assert(toks.deep_view() =~= old_toks.push(tok@));
                assert(old_toks.push(tok@) + tokens_of(s.skip(j as int)) =~= old_toks + (seq![
                    s.subrange(i as int, j as int),
                ] + tokens_of(s.skip(j as int))));
            }
            i = j;
        }
    }
    proof {
        assert(s.skip(n as int) =~= Seq::<char>::empty());
        assert(toks.deep_view() =~= tokens_of(s));
    }
    toks
}

/// Whether `p` is a prefix of `s`.
pub open spec fn starts_with(s: Seq<char>, p: Seq<char>) -> bool {
    s.len() >= p.len() && s.take(p.len() as int) == p
}

fn starts_with_str(s: &str, p: &str) -> (r: bool)
    ensures
        r == starts_with(s@, p@),
{
    let np = p.unicode_len();
    let ns = s.unicode_len();
    if ns < np {
        return false;
    }
    let mut i: usize = 0;
    while i < np
        invariant
            i <= np,
            np <= ns,
            np == p@.len(),
            ns == s@.len(),
            forall|m: int| 0 <= m < i ==> s@[m] == p@[m],
        decreases np - i,
    {
        if s.get_char(i) != p.get_char(i) {
            proof {
                assert(s@.take(np as int)[i as int] != p@[i as int]);
            }
            return false;
        }
        i += 1;
    }
    proof {
        assert(s@.take(np as int) =~= p@);
    }
    true
}

/// Whether the string is a decimal `i32` literal as `str::parse` accepts it:
/// an optional sign, then one or more digits, denoting a value in range.
pub open spec fn is_i32_literal(s: Seq<char>) -> bool {
    if s.len() == 0 {
        false
    } else if s[0] == '-' {
        s.len() >= 2 && all_digits(s.skip(1)) && digits_value(s.skip(1)) <= 0x8000_0000
    } else if s[0] == '+' {
        s.len() >= 2 && all_digits(s.skip(1)) && digits_value(s.skip(1)) <= i32::MAX
    } else {
        all_digits(s) && digits_value(s) <= i32::MAX
    }
}

/// The value a decimal `i32` literal denotes.
pub open spec fn i32_literal_value(s: Seq<char>) -> int {
    if s.len() > 0 && s[0] == '-' {
        -digits_value(s.skip(1))
    } else if s.len() > 0 && s[0] == '+' {
        digits_value(s.skip(1))
    } else {
        digits_value(s)
    }
}

proof fn lemma_digits_value_step_from(s: Seq<char>, k: int, j: int)
    requires
        0 <= k <= j < s.len(),
    ensures
        digits_value(s.subrange(k, j + 1)) == digits_value(s.subrange(k, j)) * 10
            + crate::chess::digit_val(s[j]),
{
    assert(s.subrange(k, j + 1).drop_last() =~= s.subrange(k, j));
    assert(s.subrange(k, j + 1).last() == s[j]);
}

/// Reads a decimal `i32` from a string, accepting exactly the literals that
/// `str::parse::<i32>` accepts.
pub fn parse_i32(s: &str) -> (r: Option<i32>)
    ensures
        r is Some <==> is_i32_literal(s@),
        r matches Some(v) ==> v as int == i32_literal_value(s@),
{
    let n = s.unicode_len();
    if n == 0 {
        return None;
    }
    let first = s.get_char(0);
    let neg = first as u32 == 45;
    let start: usize = if neg || first as u32 == 43 {
        1
    } else {
        0
    };
    if start >= n {
        return None;
    }
    let ghost sv: Seq<char> = s@;
    let mut j: usize = start;
    let mut acc: i64 = 0;
    // Saturate just past the largest magnitude a literal may denote.
    while j < n
        invariant
            start <= j <= n,
            start < n,
            n == sv.len(),
            sv == s@,
            start == 1 ==> sv[0] == '-' || sv[0] == '+',
            start == 0 ==> sv[0] != '-' && sv[0] != '+',
            neg <==> (start == 1 && sv[0] == '-'),
            forall|m: int| start <= m < j ==> is_digit(sv[m]),
            0 <= acc <= 0x8000_0001,
            digits_value(sv.subrange(start as int, j as int)) <= 0x8000_0000 ==> acc
                == digits_value(sv.subrange(start as int, j as int)),
            digits_value(sv.subrange(start as int, j as int)) > 0x8000_0000 ==> acc
                == 0x8000_0001,
        decreases n - j,
    {
        let c = s.get_char(j);
        let cu = c as u32;
        if !(48 <= cu && cu <= 57) {
            proof {
                if start == 0 {
                    assert(!all_digits(sv));
                } else {
                    assert(sv.skip(1)[j - 1] == sv[j as int]);
                    assert(!all_digits(sv.skip(1)));
                }
            }
            return None;
        }
        let dv = (cu - 48) as i64;
        let ghost prev: int = digits_value(sv.subrange(start as int, j as int));
        let next = acc * 10 + dv;
        proof {
            lemma_digits_value_step_from(sv, start as int, j as int);
            if prev > 0x8000_0000 {
                assert(prev * 10 + crate::chess::digit_val(sv[j as int]) > 0x8000_0000)
                    by (nonlinear_arith)
                    requires
                        prev > 0x8000_0000,
                        crate::chess::digit_val(sv[j as int]) >= 0,
                ;
            }
        }
        acc = if next > 0x8000_0000 {
            0x8000_0001
        } else {
            next
        };
        j += 1;
    }
    proof {
        if start == 0 {
            assert(sv.subrange(0, n as int) =~= sv);
            assert(all_digits(sv));
        } else {
            assert(sv.subrange(1, n as int) =~= sv.skip(1));
            assert forall|m: int| 0 <= m < sv.skip(1).len() implies is_digit(sv.skip(1)[m]) by {
                assert(sv.skip(1)[m] == sv[m + 1]);
            }
            assert(all_digits(sv.skip(1)));
        }
    }
    if neg {
        if acc > 0x8000_0000 {
            return None;
        }
        Some((-acc) as i32)
    } else {
        if acc > 0x7fff_ffff {
            return None;
        }
        Some(acc as i32)
    }
}

/// A partial battlemap update: each flag is independently present or absent.
#[derive(Debug, PartialEq)]
pub struct Battlemap {
    pub url: Option<String>,
    pub columns: Option<i32>,
    pub rows: Option<i32>,
}

/// The mathematical value of a partial battlemap update.
pub struct BattlemapView {
    pub url: Option<Seq<char>>,
    pub columns: Option<int>,
    pub rows: Option<int>,
}

impl View for Battlemap {
    type V = BattlemapView;

    open spec fn view(&self) -> BattlemapView {
        BattlemapView {
            url: match self.url {
                Some(u) => Some(u@),
                None => None,
            },
            columns: match self.columns {
                Some(c) => Some(c as int),
                None => None,
            },
            rows: match self.rows {
                Some(r) => Some(r as int),
                None => None,
            },
        }
    }
}

/// A partial token update: a required id, then flags independently present
/// or absent.
#[derive(Debug, PartialEq)]
pub struct Token {
    pub token_id: String,
    pub image: Option<String>,
    pub name: Option<String>,
    pub size: Option<String>,
    pub max_health: Option<i32>,
    pub pos: Option<String>,
    pub initiative: Option<i32>,
}

/// The mathematical value of a partial token update.
pub struct TokenView {
    pub token_id: Seq<char>,
    pub image: Option<Seq<char>>,
    pub name: Option<Seq<char>>,
    pub size: Option<Seq<char>>,
    pub max_health: Option<int>,
    pub pos: Option<Seq<char>>,
    pub initiative: Option<int>,
}

impl View for Token {
    type V = TokenView;

    open spec fn view(&self) -> TokenView {
        TokenView {
            token_id: self.token_id@,
            image: match self.image {
                Some(v) => Some(v@),
                None => None,
            },
            name: match self.name {
                Some(v) => Some(v@),
                None => None,
            },
            size: match self.size {
                Some(v) => Some(v@),
                None => None,
            },
            max_health: match self.max_health {
                Some(v) => Some(v as int),
                None => None,
            },
            pos: match self.pos {
                Some(v) => Some(v@),
                None => None,
            },
            initiative: match self.initiative {
                Some(v) => Some(v as int),
                None => None,
            },
        }
    }
}

/// The battlemap update with no flag given.
pub open spec fn empty_battlemap_view() -> BattlemapView {
    BattlemapView { url: None, columns: None, rows: None }
}

/// What one argument token does to a partial battlemap update: an unknown
/// flag, a malformed number, or a repeated flag fails.
pub open spec fn battlemap_step(acc: BattlemapView, t: Seq<char>) -> Option<BattlemapView> {
    if starts_with(t, "--url="@) {
        let v = t.skip("--url="@.len() as int);
        if acc.url is Some {
            None
        } else {
            Some(BattlemapView { url: Some(v), columns: acc.columns, rows: acc.rows })
        }
    } else if starts_with(t, "--columns="@) {
        let v = t.skip("--columns="@.len() as int);
        if acc.columns is Some || !is_i32_literal(v) {
            None
        } else {
            Some(
                BattlemapView {
                    url: acc.url,
                    columns: Some(i32_literal_value(v)),
                    rows: acc.rows,
                },
            )
        }
    } else if starts_with(t, "--rows="@) {
        let v = t.skip("--rows="@.len() as int);
        if acc.rows is Some || !is_i32_literal(v) {
            None
        } else {
            Some(
                BattlemapView { url: acc.url, columns: acc.columns, rows: Some(i32_literal_value(v)) },
            )
        }
    } else {
        None
    }
}

pub open spec fn battlemap_fold(acc: BattlemapView, ts: Seq<Seq<char>>) -> Option<BattlemapView>
    decreases ts.len(),
{
    if ts.len() == 0 {
        Some(acc)
    } else {
        match battlemap_step(acc, ts[0]) {
            Some(a) => battlemap_fold(a, ts.drop_first()),
            None => None,
        }
    }
}

/// What parsing the argument tokens of a `battlemap` command yields.
pub open spec fn parse_battlemap_spec(ts: Seq<Seq<char>>) -> Option<BattlemapView> {
    battlemap_fold(empty_battlemap_view(), ts)
}

/// Takes the value of a flag token when it starts with the given prefix.
fn flag_value_exec(t: &String, prefix: &str) -> (r: Option<String>)
    ensures
        r matches Some(v) ==> starts_with(t@, prefix@) && v@ == t@.skip(prefix@.len() as int),
        r is None ==> !starts_with(t@, prefix@),
{
    if starts_with_str(t.as_str(), prefix) {
        let np = prefix.unicode_len();
        let nt = t.as_str().unicode_len();
        let v = t.as_str().substring_char(np, nt);
        proof {
            assert(v@ =~= t@.skip(prefix@.len() as int));
        }
        Some(v.to_owned())
    } else {
        None
    }
}

fn parse_battlemap_args(toks: &Vec<String>, start: usize) -> (r: Option<Battlemap>)
    requires
        start <= toks@.len(),
    ensures
        r matches Some(b) ==> parse_battlemap_spec(toks.deep_view().skip(start as int)) == Some(
            b@,
        ),
        r is None ==> parse_battlemap_spec(toks.deep_view().skip(start as int)) is None,
{
    let ghost all: Seq<Seq<char>> = toks.deep_view().skip(start as int);
    let mut acc = Battlemap { url: None, columns: None, rows: None };
    let mut i: usize = start;
    proof {
        assert(toks.deep_view().skip(start as int) =~= all);
    }
    while i < toks.len()
        invariant
            start <= i <= toks@.len(),
            toks@.len() == toks.deep_view().len(),
            parse_battlemap_spec(all) == battlemap_fold(acc@, toks.deep_view().skip(i as int)),
            all == toks.deep_view().skip(start as int),
        decreases toks@.len() - i,
    {
        let ghost rem = toks.deep_view().skip(i as int);
        proof {
            assert(rem[0] == toks.deep_view()[i as int]);
            assert(rem.drop_first() =~= toks.deep_view().skip(i + 1));
        }
        let t: &String = &toks[i];
        let ghost acc0 = acc@;
        if let Some(v) = flag_value_exec(t, "--url=") {
            if acc.url.is_some() {
                return None;
            }
            acc.url = Some(v);
        } else if let Some(v) = flag_value_exec(t, "--columns=") {
            if acc.columns.is_some() {
                return None;
            }
            match parse_i32(v.as_str()) {
                Some(x) => {
                    acc.columns = Some(x);
                },
                None => {
                    return None;
                },
            }
        } else if let Some(v) = flag_value_exec(t, "--rows=") {
            if acc.rows.is_some() {
                return None;
            }
            match parse_i32(v.as_str()) {
                Some(x) => {
                    acc.rows = Some(x);
                },
                None => {
                    return None;
                },
            }
        } else {
            return None;
        }
        proof {
            assert(battlemap_step(acc0, rem[0]) == Some(acc@));
        }
        i += 1;
    }
    proof {
        assert(toks.deep_view().skip(toks@.len() as int) =~= Seq::<Seq<char>>::empty());
    }
    Some(acc)
}

/// The token update for the given id with no flag given.
pub open spec fn empty_token_view(id: Seq<char>) -> TokenView {
    TokenView {
        token_id: id,
        image: None,
        name: None,
        size: None,
        max_health: None,
        pos: None,
        initiative: None,
    }
}

/// What one argument token does to a partial token update: an unknown flag,
/// a malformed number, or a repeated flag fails.
pub open spec fn token_step(acc: TokenView, t: Seq<char>) -> Option<TokenView> {
    if starts_with(t, "--image="@) {
        let v = t.skip("--image="@.len() as int);
        if acc.image is Some {
            None
        } else {
            Some(TokenView { image: Some(v), ..acc })
        }
    } else if starts_with(t, "--name="@) {
        let v = t.skip("--name="@.len() as int);
        if acc.name is Some {
            None
        } else {
            Some(TokenView { name: Some(v), ..acc })
        }
    } else if starts_with(t, "--size="@) {
        let v = t.skip("--size="@.len() as int);
        if acc.size is Some {
            None
        } else {
            Some(TokenView { size: Some(v), ..acc })
        }
    } else if starts_with(t, "--max-health="@) {
        let v = t.skip("--max-health="@.len() as int);
        if acc.max_health is Some || !is_i32_literal(v) {
            None
        } else {
            Some(TokenView { max_health: Some(i32_literal_value(v)), ..acc })
        }
    } else if starts_with(t, "--pos="@) {
        let v = t.skip("--pos="@.len() as int);
        if acc.pos is Some {
            None
        } else {
            Some(TokenView { pos: Some(v), ..acc })
        }
    } else if starts_with(t, "--initiative="@) {
        let v = t.skip("--initiative="@.len() as int);
        if acc.initiative is Some || !is_i32_literal(v) {
            None
        } else {
            Some(TokenView { initiative: Some(i32_literal_value(v)), ..acc })
        }
    } else {
        None
    }
}

pub open spec fn token_fold(acc: TokenView, ts: Seq<Seq<char>>) -> Option<TokenView>
    decreases ts.len(),
{
    if ts.len() == 0 {
        Some(acc)
    } else {
        match token_step(acc, ts[0]) {
            Some(a) => token_fold(a, ts.drop_first()),
            None => None,
        }
    }
}

/// What parsing the argument tokens of a `token` command yields: the first
/// token is the required positional id, which must not look like a flag.
pub open spec fn parse_token_spec(ts: Seq<Seq<char>>) -> Option<TokenView> {
    if ts.len() == 0 || ts[0].len() == 0 || ts[0][0] == '-' {
        None
    } else {
        token_fold(empty_token_view(ts[0]), ts.drop_first())
    }
}

fn parse_token_args(toks: &Vec<String>, start: usize) -> (r: Option<Token>)
    requires
        start <= toks@.len(),
    ensures
        r matches Some(t) ==> parse_token_spec(toks.deep_view().skip(start as int)) == Some(t@),
        r is None ==> parse_token_spec(toks.deep_view().skip(start as int)) is None,
{
    let ghost all: Seq<Seq<char>> = toks.deep_view().skip(start as int);
    if start >= toks.len() {
        proof {
            assert(all.len() == 0);
        }
        return None;
    }
    let id: &String = &toks[start];
    proof {
        assert(all[0] == toks.deep_view()[start as int]);
    }
    if id.as_str().unicode_len() == 0 {
        return None;
    }
    if id.as_str().get_char(0) as u32 == 45 {
        return None;
    }
    let mut acc = Token {
        token_id: id.clone(),
        image: None,
        name: None,
        size: None,
        max_health: None,
        pos: None,
        initiative: None,
    };
    let mut i: usize = start + 1;
    proof {
        assert(all.drop_first() =~= toks.deep_view().skip(start + 1));
        assert(parse_token_spec(all) == token_fold(acc@, toks.deep_view().skip(i as int)));
    }
    while i < toks.len()
        invariant
            start + 1 <= i <= toks@.len(),
            toks@.len() == toks.deep_view().len(),
            parse_token_spec(all) == token_fold(acc@, toks.deep_view().skip(i as int)),
            all == toks.deep_view().skip(start as int),
        decreases toks@.len() - i,
    {
        let ghost rem = toks.deep_view().skip(i as int);
        proof {
            assert(rem[0] == toks.deep_view()[i as int]);
            assert(rem.drop_first() =~= toks.deep_view().skip(i + 1));
        }
        let t: &String = &toks[i];
        let ghost acc0 = acc@;
        if let Some(v) = flag_value_exec(t, "--image=") {
            if acc.image.is_some() {
                return None;
            }
            acc.image = Some(v);
        } else if let Some(v) = flag_value_exec(t, "--name=") {
            if acc.name.is_some() {
                return None;
            }
            acc.name = Some(v);
        } else if let Some(v) = flag_value_exec(t, "--size=") {
            if acc.size.is_some() {
                return None;
            }
            acc.size = Some(v);
        } else if let Some(v) = flag_value_exec(t, "--max-health=") {
            if acc.max_health.is_some() {
                return None;
            }
            match parse_i32(v.as_str()) {
                Some(x) => {
                    acc.max_health = Some(x);
                },
                None => {
                    return None;
                },
            }
        } else if let Some(v) = flag_value_exec(t, "--pos=") {
            if acc.pos.is_some() {
                return None;
            }
            acc.pos = Some(v);
        } else if let Some(v) = flag_value_exec(t, "--initiative=") {
            if acc.initiative.is_some() {
                return None;
            }
            match parse_i32(v.as_str()) {
                Some(x) => {
                    acc.initiative = Some(x);
                },
                None => {
                    return None;
                },
            }
        } else {
            return None;
        }
        proof {
            assert(token_step(acc0, rem[0]) == Some(acc@));
        }
        i += 1;
    }
    proof {
        assert(toks.deep_view().skip(toks@.len() as int) =~= Seq::<Seq<char>>::empty());
    }
    Some(acc)
}

/// A parsed command line.
#[derive(Debug, PartialEq)]
pub enum Command {
    /// Terminate the session.
    Quit,
    /// Evaluate a dice expression, carried verbatim.
    Roll(String),
    /// Merge a partial battlemap update into the state.
    UpdateBattlemap(Battlemap),
    /// Create or merge a token under its id.
    UpdateToken(Token),
    /// A blank line or an unknown verb, to be answered with help text.
    Unrecognized(String),
}

/// A line that named a known verb but whose arguments are malformed; each
/// variant carries the offending line.
#[derive(Debug, PartialEq)]
pub enum UserFacingError {
    InvalidRoll(String),
    InvalidBattlemap(String),
    InvalidToken(String),
}

/// The mathematical value of a parsed command line.
pub enum CommandView {
    Quit,
    Roll(Seq<char>),
    UpdateBattlemap(BattlemapView),
    UpdateToken(TokenView),
    Unrecognized(Seq<char>),
}

/// The mathematical value of a command-line error.
pub enum UserFacingErrorView {
    InvalidRoll(Seq<char>),
    InvalidBattlemap(Seq<char>),
    InvalidToken(Seq<char>),
}

impl View for Command {
    type V = CommandView;

    open spec fn view(&self) -> CommandView {
        match self {
            Command::Quit => CommandView::Quit,
            Command::Roll(e) => CommandView::Roll(e@),
            Command::UpdateBattlemap(b) => CommandView::UpdateBattlemap(b@),
            Command::UpdateToken(t) => CommandView::UpdateToken(t@),
            Command::Unrecognized(l) => CommandView::Unrecognized(l@),
        }
    }
}

impl View for UserFacingError {
    type V = UserFacingErrorView;

    open spec fn view(&self) -> UserFacingErrorView {
        match self {
            UserFacingError::InvalidRoll(l) => UserFacingErrorView::InvalidRoll(l@),
            UserFacingError::InvalidBattlemap(l) => UserFacingErrorView::InvalidBattlemap(l@),
            UserFacingError::InvalidToken(l) => UserFacingErrorView::InvalidToken(l@),
        }
    }
}

/// The dice expression carried by an `r` line: everything after the verb,
/// with one leading separator consumed.
pub open spec fn roll_rest(s: Seq<char>) -> Seq<char> {
    let p = space_prefix_len(s) as int;
    if s.len() > p + 1 {
        s.skip(p + 2)
    } else {
        Seq::empty()
    }
}

/// What parsing one line yields.  The verb is the first whitespace-separated
/// token; a blank line or an unknown verb is a valid `Unrecognized` result,
/// not an error.  Dice-expression construction never fails in this
/// evaluator, so an `r` line always parses.
pub open spec fn parse_line_spec(s: Seq<char>) -> Result<CommandView, UserFacingErrorView> {
    let ts = tokens_of(s);
    if ts.len() == 0 {
        Ok(CommandView::Unrecognized(Seq::empty()))
    } else if ts[0] == "q"@ || ts[0] == "quit"@ || ts[0] == "exit"@ {
        Ok(CommandView::Quit)
    } else if ts[0] == "r"@ {
        Ok(CommandView::Roll(roll_rest(s)))
    } else if ts[0] == "battlemap"@ {
        match parse_battlemap_spec(ts.drop_first()) {
            Some(b) => Ok(CommandView::UpdateBattlemap(b)),
            None => Err(UserFacingErrorView::InvalidBattlemap(s)),
        }
    } else if ts[0] == "token"@ {
        match parse_token_spec(ts.drop_first()) {
            Some(t) => Ok(CommandView::UpdateToken(t)),
            None => Err(UserFacingErrorView::InvalidToken(s)),
        }
    } else {
        Ok(CommandView::Unrecognized(s))
    }
}

/// Extracts the dice expression of an `r` line.
fn roll_rest_exec(line: &str) -> (r: String)
    ensures
        r@ == roll_rest(line@),
{
    let n = line.unicode_len();
    let ghost s: Seq<char> = line@;
    let mut p: usize = 0;
    loop
        invariant_except_break
            p <= n,
            n == s.len(),
            s == line@,
            forall|i: int| 0 <= i < p ==> is_space(s[i]),
        ensures
            p <= n,
            n == s.len(),
            forall|i: int| 0 <= i < p ==> is_space(s[i]),
            p == n || !is_space(s[p as int]),
        decreases n - p,
    {
        if p >= n {
            break;
        }
        let c = line.get_char(p);
        if !is_space_char(c) {
            break;
        }
        p += 1;
    }
    proof {
        lemma_space_prefix_len_char(s, p as int);
    }
    if p < n && n - p >= 2 {
        let rest = line.substring_char(p + 2, n).to_owned();
        proof {
            assert(rest@ =~= s.skip(p + 2));
        }
        rest
    } else {
        String::new()
    }
}

/// Parses one line into a typed command or a structured error.
pub fn parse_line(line: &str) -> (r: Result<Command, UserFacingError>)
    ensures
        r matches Ok(c) ==> parse_line_spec(line@) == Ok::<CommandView, UserFacingErrorView>(c@),
        r matches Err(e) ==> parse_line_spec(line@) == Err::<CommandView, UserFacingErrorView>(
            e@,
        ),
{
    let toks = tokenize(line);
    let ghost ts = tokens_of(line@);
    proof {
        assert(toks@.len() == ts.len());
    }
    if toks.len() == 0 {
        return Ok(Command::Unrecognized(String::new()));
    }
    proof {
        assert(toks.deep_view()[0] == ts[0]);
        assert(toks.deep_view().drop_first() =~= ts.drop_first());
        assert(toks.deep_view().drop_first() =~= toks.deep_view().skip(1));
    }
    let verb: &String = &toks[0];
    if str_eq(verb.as_str(), "q") || str_eq(verb.as_str(), "quit") || str_eq(
        verb.as_str(),
        "exit",
    ) {
        return Ok(Command::Quit);
    }
    if str_eq(verb.as_str(), "r") {
        let rest = roll_rest_exec(line);
        match roller_new(rest.as_str()) {
            Ok(_) => {
                return Ok(Command::Roll(rest));
            },
            Err(_) => {
                return Err(UserFacingError::InvalidRoll(line.to_owned()));
            },
        }
    }
    if str_eq(verb.as_str(), "battlemap") {
        match parse_battlemap_args(&toks, 1) {
            Some(b) => {
                return Ok(Command::UpdateBattlemap(b));
            },
            None => {
                return Err(UserFacingError::InvalidBattlemap(line.to_owned()));
            },
        }
    }
    if str_eq(verb.as_str(), "token") {
        match parse_token_args(&toks, 1) {
            Some(t) => {
                return Ok(Command::UpdateToken(t));
            },
            None => {
                return Err(UserFacingError::InvalidToken(line.to_owned()));
            },
        }
    }
    Ok(Command::Unrecognized(line.to_owned()))
}

/// The user-visible description of a command-line error: the command kind
/// that failed and the offending line.
pub open spec fn error_message(e: UserFacingErrorView) -> Seq<char> {
    match e {
        UserFacingErrorView::InvalidRoll(l) => "Can't parse role from "@ + l,
        UserFacingErrorView::InvalidBattlemap(l) => "Can't parse battlemap command from "@ + l,
        UserFacingErrorView::InvalidToken(l) => "Can't parse token command from "@ + l,
    }
}

impl UserFacingError {
    /// Renders the error for the user.
    pub fn message(&self) -> (r: String)
        ensures
            r@ == error_message(self@),
    {
        match self {
            UserFacingError::InvalidRoll(l) => String::from_str("Can't parse role from ").concat(
                l.as_str(),
            ),
            UserFacingError::InvalidBattlemap(l) => String::from_str(
                "Can't parse battlemap command from ",
            ).concat(l.as_str()),
            UserFacingError::InvalidToken(l) => String::from_str(
                "Can't parse token command from ",
            ).concat(l.as_str()),
        }
    }
}

/// Length of the first line: the characters up to the first line feed.
pub open spec fn line_len(s: Seq<char>) -> nat
    decreases s.len(),
{
    if s.len() == 0 || s[0] == '\n' {
        0
    } else {
        1 + line_len(s.drop_first())
    }
}

/// Removes one trailing carriage return, as line endings may be `\r\n`.
pub open spec fn strip_cr(l: Seq<char>) -> Seq<char> {
    if l.len() > 0 && l.last() == '\r' {
        l.drop_last()
    } else {
        l
    }
}

/// The lines of a text, as `str::lines` yields them: split at line feeds,
/// each line stripped of one trailing carriage return, with no final empty
/// line after a trailing line feed.
pub open spec fn lines_of(s: Seq<char>) -> Seq<Seq<char>>
    decreases s.len(),
{
    if s.len() == 0 {
        Seq::empty()
    } else {
        let k = line_len(s) as int;
        if k >= s.len() {
            seq![s]
        } else {
            seq![strip_cr(s.take(k))] + lines_of(s.skip(k + 1))
        }
    }
}

proof fn lemma_line_len_char(s: Seq<char>, k: int)
    requires
        0 <= k <= s.len(),
        forall|i: int| 0 <= i < k ==> s[i] != '\n',
        k == s.len() || s[k] == '\n',
    ensures
        line_len(s) == k,
    decreases s.len(),
{
    if k > 0 {
        lemma_line_len_char(s.drop_first(), k - 1);
    }
}

/// Splits a text into its lines.
fn split_lines(content: &str) -> (r: Vec<String>)
    ensures
        r.deep_view() == lines_of(content@),
{
    let n = content.unicode_len();
    let ghost s: Seq<char> = content@;
    let mut lines: Vec<String> = Vec::new();
    proof {
        assert(s.skip(0) =~= s);
        assert(lines.deep_view() =~= Seq::<Seq<char>>::empty());
        assert(lines.deep_view() + lines_of(s) =~= lines_of(s));
    }
    let mut i: usize = 0;
    while i < n
        invariant
            i <= n,
            n == s.len(),
            s == content@,
            lines_of(s) == lines.deep_view() + lines_of(s.skip(i as int)),
        decreases n - i,
    {
        let mut j: usize = i;
        loop
            invariant_except_break
                i <= j <= n,
                n == s.len(),
                s == content@,
                forall|m: int| i <= m < j ==> s[m] != '\n',
            ensures
                i <= j <= n,
                forall|m: int| i <= m < j ==> s[m] != '\n',
                j == n || s[j as int] == '\n',
            decreases n - j,
        {
            if j >= n {
                break;
            }
            let c = content.get_char(j);
            if c as u32 == 10 {
                break;
            }
            j += 1;
        }
        let ghost rest = s.skip(i as int);
        proof {
            assert forall|m: int| 0 <= m < j - i implies rest[m] != '\n' by {
                assert(rest[m] == s[i + m]);
            }
            assert(j - i == rest.len() || rest[j - i] == '\n') by {
                if j < n {
                    assert(rest[j - i] == s[j as int]);
                }
            }
            lemma_line_len_char(rest, j - i);
        }
        if j >= n {
            let l = content.substring_char(i, n).to_owned();
            let ghost old_lines = lines.deep_view();
            proof {
                assert(l@ =~= rest);
                assert(lines_of(rest) == seq![rest]);
            }
            lines.push(l);
            proof {
                assert(lines.deep_view() =~= old_lines.push(rest));
                assert(old_lines.push(rest) =~= old_lines + seq![rest]);
                assert(s.skip(n as int) =~= Seq::<char>::empty());
            }
            i = n;
        } else {
            let stripped_end: usize = if j > i && content.get_char(j - 1) as u32 == 13 {
                j - 1
            } else {
                j
            };
            let l = content.substring_char(i, stripped_end).to_owned();
            let ghost old_lines = lines.deep_view();
            proof {
                assert(rest.take(j - i) =~= s.subrange(i as int, j as int));
                if j > i && s[j - 1] == '\r' {
                    assert(s.subrange(i as int, j as int).last() == s[j - 1]);
                    assert(s.subrange(i as int, j - 1) =~= s.subrange(i as int, j as int).drop_last());
                    assert(l@ =~= strip_cr(rest.take(j - i)));
                } else {
                    if rest.take(j - i).len() > 0 && rest.take(j - i).last() == '\r' {
                        assert(s[j - 1] == rest.take(j - i).last());
                    }
                    assert(l@ =~= strip_cr(rest.take(j - i)));
                }
                assert(lines_of(rest) == seq![strip_cr(rest.take(j - i))] + lines_of(
                    rest.skip(j - i + 1),
                ));
                assert(rest.skip(j - i + 1) =~= s.skip(j + 1));
            }
            lines.push(l);
            proof {
                assert(lines.deep_view() =~= old_lines.push(l@));
                assert(old_lines.push(l@) + lines_of(s.skip(j + 1)) =~= old_lines + (seq![l@]
                    + lines_of(s.skip(j + 1))));
            }
            i = j + 1;
        }
    }
    proof {
        assert(s.skip(n as int) =~= Seq::<char>::empty());
        assert(lines.deep_view() =~= lines_of(s));
    }
    lines
}

/// The value of one parsed line, for stating what `parse` returns.
pub open spec fn parsed_view(r: Result<Command, UserFacingError>) -> Result<
    CommandView,
    UserFacingErrorView,
> {
    match r {
        Ok(c) => Ok(c@),
        Err(e) => Err(e@),
    }
}

/// Parses every line of a text independently and in order.
pub fn parse(content: String) -> (r: Vec<Result<Command, UserFacingError>>)
    ensures
        r@.len() == lines_of(content@).len(),
        forall|i: int|
            0 <= i < r@.len() ==> parsed_view(r@[i]) == parse_line_spec(lines_of(content@)[i]),
{
    let lines = split_lines(content.as_str());
    let ghost lv = lines_of(content@);
    let mut out: Vec<Result<Command, UserFacingError>> = Vec::new();
    let mut i: usize = 0;
    proof {
        assert(lines@.len() == lv.len());
    }
    while i < lines.len()
        invariant
            i <= lines@.len(),
            lines@.len() == lv.len(),
            lines.deep_view() == lv,
            out@.len() == i,
            forall|m: int| 0 <= m < i ==> parsed_view(out@[m]) == parse_line_spec(lv[m]),
        decreases lines@.len() - i,
    {
        let one = parse_line(lines[i].as_str());
        proof {
            assert(lines@[i as int]@ == lines.deep_view()[i as int]);
        }
        out.push(one);
        i += 1;
    }
    out
}

/// The help text, listing the verb set of the grammar.
pub open spec fn help_view() -> Seq<char> {
    "Commands:\nbattlemap       -> update battlemap settings\ntoken           -> create or update token\nq | quit | exit -> terminate programm\nr 3d6 + 5       -> roll dice and do some math\nr 2d20 K1       -> advantage (keep highest one)\nr 2d20 k1       -> disadvantage (keep lowest one)\nh | help | ?    -> print this help"@
}

/// The help text shown on an unrecognized line and at startup.
pub fn help_text() -> (r: &'static str)
    ensures
        r@ == help_view(),
{
    "Commands:\nbattlemap       -> update battlemap settings\ntoken           -> create or update token\nq | quit | exit -> terminate programm\nr 3d6 + 5       -> roll dice and do some math\nr 2d20 K1       -> advantage (keep highest one)\nr 2d20 k1       -> disadvantage (keep lowest one)\nh | help | ?    -> print this help"
}

} // verus!
