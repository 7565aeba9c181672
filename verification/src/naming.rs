//! The six-token waypoint naming convention: whitespace tokenization,
//! signed decimal numbers, and the Roman-numeral cloud index.

use vstd::prelude::*;
use vstd::string::StrSliceExecFns;

verus! {

/// Whitespace, as the naming convention's tokenization understands
/// it: the Unicode white-space code points, as `char::is_whitespace`
/// splits them.
pub open spec fn is_space(c: char) -> bool {
    let u = c as u32;
    ||| 9 <= u <= 13
    ||| u == 32
    ||| u == 0x85
    ||| u == 0xa0
    ||| u == 0x1680
    ||| 0x2000 <= u <= 0x200a
    ||| u == 0x2028
    ||| u == 0x2029
    ||| u == 0x202f
    ||| u == 0x205f
    ||| u == 0x3000
}

/// Decide whitespace for one character.
fn is_space_char(c: char) -> (r: bool)
    ensures
        r == is_space(c),
{
    let u = c as u32;
    (9 <= u && u <= 13) || u == 32 || u == 0x85 || u == 0xa0 || u == 0x1680 || (0x2000 <= u && u
        <= 0x200a) || u == 0x2028 || u == 0x2029 || u == 0x202f || u == 0x205f || u == 0x3000
}

pub open spec fn is_digit(c: char) -> bool {
    48 <= c as u32 <= 57
}

pub open spec fn digit_val(c: char) -> int {
    c as u32 - 48
}

/// Length of the leading run of non-whitespace characters.
pub open spec fn token_len(s: Seq<char>) -> int
    decreases s.len(),
{
    if s.len() == 0 || is_space(s[0]) {
        0
    } else {
        1 + token_len(s.drop_first())
    }
}

pub proof fn lemma_token_len(s: Seq<char>)
    ensures
        0 <= token_len(s) <= s.len(),
        s.len() > 0 && !is_space(s[0]) ==> token_len(s) >= 1,
        forall|k: int| 0 <= k < token_len(s) ==> !is_space(s[k]),
        token_len(s) < s.len() ==> is_space(s[token_len(s)]),
    decreases s.len(),
{
    if s.len() > 0 && !is_space(s[0]) {
        lemma_token_len(s.drop_first());
        assert(forall|k: int| 0 <= k < s.len() - 1 ==> s.drop_first()[k] == s[k + 1]);
        assert forall|k: int| 0 <= k < token_len(s) implies !is_space(s[k]) by {
            if k > 0 {
                assert(!is_space(s.drop_first()[k - 1]));
            }
        }
    }
}

pub proof fn lemma_token_len_unique(s: Seq<char>, m: int)
    requires
        0 <= m <= s.len(),
        forall|k: int| 0 <= k < m ==> !is_space(s[k]),
        m == s.len() || is_space(s[m]),
    ensures
        token_len(s) == m,
    decreases s.len(),
{
    if m == 0 {
    } else {
        assert(!is_space(s[0]));
        lemma_token_len_unique(s.drop_first(), m - 1);
        assert(forall|k: int| 0 <= k < s.len() - 1 ==> s.drop_first()[k] == s[k + 1]);
    }
}

/// The whitespace-separated tokens of `s`, in order.
pub open spec fn tokens_of(s: Seq<char>) -> Seq<Seq<char>>
    decreases s.len(),
    via tokens_of_decreases
{
    if s.len() == 0 {
        Seq::empty()
    } else if is_space(s[0]) {
        tokens_of(s.drop_first())
    } else {
        seq![s.take(token_len(s))] + tokens_of(s.skip(token_len(s)))
    }
}

#[via_fn]
proof fn tokens_of_decreases(s: Seq<char>) {
    lemma_token_len(s);
}

/// Split `s` into its whitespace-separated tokens.
pub fn split_tokens(s: &Vec<char>) -> (toks: Vec<Vec<char>>)
    ensures
        toks@.len() == tokens_of(s@).len(),
        forall|k: int| 0 <= k < toks@.len() ==> (#[trigger] toks@[k])@ == tokens_of(s@)[k],
{
    let n = s.len();
    let mut toks: Vec<Vec<char>> = Vec::new();
    let mut i: usize = 0;
    proof {
        assert(s@.skip(0) =~= s@);
    }
    while i < n
        invariant
            n == s@.len(),
            0 <= i <= n,
            toks@.map_values(|t: Vec<char>| t@) + tokens_of(s@.skip(i as int)) =~= tokens_of(s@),
        decreases n - i,
    {
        if is_space_char(s[i]) {
            proof {
                let suf = s@.skip(i as int);
                assert(suf[0] == s@[i as int]);
                assert(suf.drop_first() =~= s@.skip(i as int + 1));
            }
            i = i + 1;
        } else {
            let ghost suf = s@.skip(i as int);
            let start = i;
            let mut tok: Vec<char> = Vec::new();
            while i < n && !is_space_char(s[i])
                invariant
                    n == s@.len(),
                    start <= i <= n,
                    tok@ =~= s@.subrange(start as int, i as int),
                    forall|k: int| start <= k < i ==> !is_space(s@[k]),
                decreases n - i,
            {
                tok.push(s[i]);
                proof {
                    assert(tok@ =~= s@.subrange(start as int, i as int + 1));
                }
                i = i + 1;
            }
            proof {
                assert(suf[0] == s@[start as int]);
                assert(!is_space(suf[0]));
                let m = i as int - start;
                assert forall|k: int| 0 <= k < m implies !is_space(suf[k]) by {
                    assert(suf[k] == s@[start + k]);
                }
                if m < suf.len() {
                    assert(suf[m] == s@[i as int]);
                }
                lemma_token_len_unique(suf, m);
                assert(suf.take(m) =~= s@.subrange(start as int, i as int));
                assert(suf.skip(m) =~= s@.skip(i as int));
                assert(tokens_of(suf) == seq![tok@] + tokens_of(s@.skip(i as int)));
            }
            let ghost oldtoks = toks@;
            toks.push(tok);
            proof {
                assert(toks@.map_values(|t: Vec<char>| t@) =~= oldtoks.map_values(
                    |t: Vec<char>| t@,
                ).push(toks@.last()@));
                assert(toks@.map_values(|t: Vec<char>| t@) + tokens_of(s@.skip(i as int))
                    =~= oldtoks.map_values(|t: Vec<char>| t@) + tokens_of(suf));
            }
        }
    }
    proof {
        assert(tokens_of(s@.skip(n as int)) =~= Seq::<Seq<char>>::empty());
        assert(toks@.map_values(|t: Vec<char>| t@) + tokens_of(s@.skip(n as int))
            =~= toks@.map_values(|t: Vec<char>| t@));
        assert(forall|k: int|
            0 <= k < toks@.len() ==> (#[trigger] toks@[k])@ == toks@.map_values(
                |t: Vec<char>| t@,
            )[k]);
    }
    toks
}

pub open spec fn all_digits(t: Seq<char>) -> bool {
    forall|k: int| 0 <= k < t.len() ==> is_digit(#[trigger] t[k])
}

/// The value of a digit string, most significant first.
pub open spec fn digits_val(t: Seq<char>) -> int
    decreases t.len(),
{
    if t.len() == 0 {
        0
    } else {
        digits_val(t.drop_last()) * 10 + digit_val(t.last())
    }
}

proof fn lemma_digits_val_prefix(t: Seq<char>, i: int)
    requires
        all_digits(t),
        0 <= i <= t.len(),
    ensures
        digits_val(t) >= digits_val(t.take(i)) >= 0,
    decreases t.len() - i,
{
    if i == t.len() {
        assert(t.take(i) =~= t);
        lemma_digits_val_nonneg(t);
    } else {
        lemma_digits_val_prefix(t, i + 1);
        let u = t.take(i + 1);
        assert(u.drop_last() =~= t.take(i));
        assert(u.last() == t[i]);
        lemma_digits_val_nonneg(t.take(i));
        assert(digits_val(u) == digits_val(t.take(i)) * 10 + digit_val(t[i]));
        assert(digits_val(t.take(i)) * 10 >= digits_val(t.take(i))) by (nonlinear_arith)
            requires
                digits_val(t.take(i)) >= 0,
        {
        }
    }
}

proof fn lemma_digits_val_nonneg(t: Seq<char>)
    requires
        all_digits(t),
    ensures
        digits_val(t) >= 0,
    decreases t.len(),
{
    if t.len() > 0 {
        assert(all_digits(t.drop_last())) by {
            assert(forall|k: int| 0 <= k < t.len() - 1 ==> t.drop_last()[k] == t[k]);
        }
        lemma_digits_val_nonneg(t.drop_last());
        assert(digits_val(t.drop_last()) * 10 >= 0) by (nonlinear_arith)
            requires
                digits_val(t.drop_last()) >= 0,
        {
        }
    }
}

/// The value a token denotes as a signed 32-bit decimal: an optional
/// sign, one or more digits, valued within range; otherwise nothing.
pub open spec fn parse_i32(t: Seq<char>) -> Option<i32> {
    let signed = t.len() > 0 && (t[0] == '+' || t[0] == '-');
    let body = if signed {
        t.drop_first()
    } else {
        t
    };
    let neg = t.len() > 0 && t[0] == '-';
    if body.len() > 0 && all_digits(body) {
        let v = if neg {
            -digits_val(body)
        } else {
            digits_val(body)
        };
        if i32::MIN <= v <= i32::MAX {
            Some(v as i32)
        } else {
            None
        }
    } else {
        None
    }
}

/// Parse a token as a signed 32-bit decimal.
pub fn parse_i32_exec(t: &Vec<char>) -> (r: Option<i32>)
    ensures
        r == parse_i32(t@),
{
    let n = t.len();
    if n == 0 {
        return None;
    }
    let c0 = t[0];
    let signed = c0 == '+' || c0 == '-';
    let neg = c0 == '-';
    let start: usize = if signed {
        1
    } else {
        0
    };
    let ghost body = if signed {
        t@.drop_first()
    } else {
        t@
    };
    proof {
        assert(body.len() == n - start);
        assert(forall|k: int| 0 <= k < body.len() ==> body[k] == t@[k + start]);
    }
    if start == n {
        return None;
    }
    let mut acc: i64 = 0;
    let mut i: usize = start;
    while i < n
        invariant
            n == t@.len(),
            n > 0,
            start <= i <= n,
            start <= 1,
            signed == (t@[0] == '+' || t@[0] == '-'),
            neg == (t@[0] == '-'),
            signed == (start == 1),
            body == if signed {
                t@.drop_first()
            } else {
                t@
            },
            body.len() == n - start,
            forall|k: int| 0 <= k < body.len() ==> body[k] == t@[k + start],
            forall|k: int| start <= k < i ==> is_digit(#[trigger] t@[k]),
            0 <= acc <= 2147483648,
            acc == digits_val(body.take(i - start)),
        decreases n - i,
    {
        let c = t[i];
        let d = c as u32;
        if d < 48 || d > 57 {
            proof {
                assert(!is_digit(body[i - start]));
                assert(!all_digits(body));
            }
            return None;
        }
        proof {
            let u = body.take(i - start + 1);
            assert(u.drop_last() =~= body.take(i - start));
            assert(u.last() == body[i - start]);
            assert(body[i - start] == t@[i as int]);
        }
        acc = acc * 10 + (d as i64 - 48);
        if acc > 2147483648 {
            proof {
                if all_digits(body) {
                    lemma_digits_val_prefix(body, i - start + 1);
                }
            }
            return None;
        }
        i = i + 1;
    }
    proof {
        assert(body.take(n - start) =~= body);
        assert(all_digits(body));
    }
    if neg {
        proof {
            assert(i32::MIN <= -acc <= i32::MAX);
        }
        Some((-acc) as i32)
    } else {
        if acc > 2147483647 {
            return None;
        }
        Some(acc as i32)
    }
}

/// The characters of a string slice.
pub fn chars_of(s: &str) -> (v: Vec<char>)
    ensures
        v@ == s@,
{
    let n = s.unicode_len();
    let mut v: Vec<char> = Vec::new();
    for i in 0..n
        invariant
            n == s@.len(),
            v@ =~= s@.take(i as int),
    {
        v.push(s.get_char(i));
        proof {
            assert(v@ =~= s@.take(i as int + 1));
        }
    }
    proof {
        assert(v@ =~= s@);
    }
    v
}

/// The longest Roman-numeral token the parser accepts. Any cloud
/// index in use is a handful of characters; a token longer than this
/// is malformed without looking at it, and the bound keeps the
/// numeral's value far inside `u32`.
pub const ROMAN_TOKEN_MAX: usize = 4096;

/// The value that septem reads from a Roman-numeral token; it depends
/// on the characters of the token alone.
pub uninterp spec fn roman_value_of(t: Seq<char>) -> Option<u32>;

/// Relies on septem's `Roman` string parsing (its `FromStr`): the
/// value of a Roman-numeral token, or nothing where some character is
/// no Roman digit. Each parsed byte adds at most one thousand to a
/// `u32` accumulator, so the length bound keeps the call from
/// overflowing (and so panicking in checked builds).
#[verifier::external_body]
pub(crate) fn parse_roman(t: &Vec<char>) -> (r: Option<u32>)
    requires
        t@.len() <= ROMAN_TOKEN_MAX,
    ensures
        r == roman_value_of(t@),
{
    let s: String = t.iter().collect();
    match s.parse::<septem::Roman>() {
        Ok(v) => Some(*v),
        Err(_) => None,
    }
}

/// What the six-token naming convention yields for a name: the Roman
/// "cloud" index read from the second token and the belt number read
/// from the sixth as a signed 32-bit decimal. A name without exactly
/// six tokens, an overlong or malformed Roman token, or a sixth token
/// that is no number, yields nothing.
pub open spec fn parse_place_name(s: Seq<char>) -> Option<(u32, i32)> {
    let toks = tokens_of(s);
    if toks.len() == 6 && toks[1].len() <= ROMAN_TOKEN_MAX {
        match (roman_value_of(toks[1]), parse_i32(toks[5])) {
            (Some(v), Some(b)) => Some((v, b)),
            _ => None,
        }
    } else {
        None
    }
}

/// Parse a waypoint name against the six-token naming convention.
pub fn parse_place_name_exec(name: &str) -> (r: Option<(u32, i32)>)
    ensures
        r == parse_place_name(name@),
{
    let cs = chars_of(name);
    let toks = split_tokens(&cs);
    if toks.len() != 6 {
        return None;
    }
    if toks[1].len() > ROMAN_TOKEN_MAX {
        return None;
    }
    match parse_roman(&toks[1]) {
        Some(v) => match parse_i32_exec(&toks[5]) {
            Some(b) => Some((v, b)),
            None => None,
        },
        None => None,
    }
}

} // verus!
