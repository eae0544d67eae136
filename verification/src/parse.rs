//! Parsing of year and month arguments: decimal numbers with the same
//! shape the standard integer parsers accept, and case-insensitive
//! unique-prefix resolution of English month names.

use vstd::prelude::*;
use vstd::string::StrSliceExecFns;

use crate::text::dec_chars;
use crate::text::push_char;
use crate::text::push_dec;

verus! {

/// A decimal digit character.
pub open spec fn is_digit(c: char) -> bool {
    '0' <= c && c <= '9'
}

/// The numeric value of a digit character.
pub open spec fn digit_value(c: char) -> int {
    c as u32 - '0' as u32
}

/// The value of a sequence of digit characters, most significant first.
pub open spec fn digits_val(s: Seq<char>) -> int
    decreases s.len(),
{
    if s.len() == 0 {
        0
    } else {
        digits_val(s.drop_last()) * 10 + digit_value(s.last())
    }
}

/// Every character is a decimal digit.
pub open spec fn all_digits(s: Seq<char>) -> bool {
    forall|i: int| 0 <= i < s.len() ==> is_digit(#[trigger] s[i])
}

/// The digits of an unsigned decimal literal: everything after an
/// optional leading plus sign.
pub open spec fn unsigned_digits(s: Seq<char>) -> Seq<char> {
    if s.len() > 0 && s[0] == '+' {
        s.subrange(1, s.len() as int)
    } else {
        s
    }
}

/// The shape the standard unsigned parser accepts: an optional plus sign,
/// then one or more digits.
pub open spec fn is_unsigned_shape(s: Seq<char>) -> bool {
    unsigned_digits(s).len() >= 1 && all_digits(unsigned_digits(s))
}

/// The value of an unsigned decimal literal.
pub open spec fn u32_value(s: Seq<char>) -> int {
    digits_val(unsigned_digits(s))
}

/// `s` is accepted by the standard `u32` parser: right shape, value in range.
pub open spec fn parses_as_u32(s: Seq<char>) -> bool {
    is_unsigned_shape(s) && u32_value(s) <= u32::MAX
}

/// The digits of a signed decimal literal: everything after an optional
/// leading plus or minus sign.
pub open spec fn signed_digits(s: Seq<char>) -> Seq<char> {
    if s.len() > 0 && (s[0] == '+' || s[0] == '-') {
        s.subrange(1, s.len() as int)
    } else {
        s
    }
}

/// The literal carries a leading minus sign.
pub open spec fn signed_negative(s: Seq<char>) -> bool {
    s.len() > 0 && s[0] == '-'
}

/// The shape the standard signed parser accepts: an optional sign, then
/// one or more digits.
pub open spec fn is_signed_shape(s: Seq<char>) -> bool {
    signed_digits(s).len() >= 1 && all_digits(signed_digits(s))
}

/// The value of a signed decimal literal.
pub open spec fn signed_value(s: Seq<char>) -> int {
    if signed_negative(s) {
        -digits_val(signed_digits(s))
    } else {
        digits_val(signed_digits(s))
    }
}

/// `s` is accepted by the standard `i32` parser: right shape, value in range.
pub open spec fn parses_as_i32(s: Seq<char>) -> bool {
    is_signed_shape(s) && i32::MIN <= signed_value(s) <= i32::MAX
}

/// A digit string's value is never negative.
pub proof fn lemma_digits_val_nonneg(s: Seq<char>)
    requires
        all_digits(s),
    ensures
        digits_val(s) >= 0,
    decreases s.len(),
{
    if s.len() > 0 {
        lemma_digits_val_nonneg(s.drop_last());
    }
}

/// Extending a digit string never lowers its value.
pub proof fn lemma_digits_val_prefix_le(s: Seq<char>, i: int)
    requires
        all_digits(s),
        0 <= i <= s.len(),
    ensures
        digits_val(s.subrange(0, i)) <= digits_val(s),
    decreases s.len() - i,
{
    if i == s.len() {
        assert(s.subrange(0, i) =~= s);
    } else {
        lemma_digits_val_prefix_le(s, i + 1);
        let p = s.subrange(0, i);
        let p1 = s.subrange(0, i + 1);
        assert(p1.drop_last() =~= p);
        lemma_digits_val_nonneg(p);
        assert(digits_val(p1) == digits_val(p) * 10 + digit_value(s[i]));
    }
}

/// Parses like the standard `u32` parser: an optional plus sign and
/// digits, rejecting values over `u32::MAX`.
fn try_parse_u32(s: &str) -> (r: Option<u32>)
    ensures
        parses_as_u32(s@) ==> r == Some(u32_value(s@) as u32),
        !parses_as_u32(s@) ==> r is None,
{
    let n = s.unicode_len();
    let mut i: usize = 0;
    if n > 0 && s.get_char(0) == '+' {
        i = 1;
    }
    let ghost body = unsigned_digits(s@);
    let ghost start = i as int;
    proof {
        assert(body =~= s@.subrange(start, n as int));
    }
    if i >= n {
        return None;
    }
    let mut acc: u64 = 0;
    while i < n
        invariant
            0 <= start <= i <= n,
            n == s@.len(),
            body == unsigned_digits(s@),
            body == s@.subrange(start, n as int),
            all_digits(body.subrange(0, i - start)),
            acc == digits_val(body.subrange(0, i - start)),
            acc <= u32::MAX,
        decreases n - i,
    {
        let ghost prefix = body.subrange(0, i - start);
        let c = s.get_char(i);
        proof {
            assert(body.len() == n - start);
            assert(0 <= i - start < body.len());
            assert(s@.subrange(start, n as int)[i - start] == s@[i as int]);
            assert(body[i - start] == c);
        }
        if !('0' <= c && c <= '9') {
            proof {
                assert(!all_digits(body));
            }
            return None;
        }
        let dv: u64 = (c as u32 - '0' as u32) as u64;
        acc = acc * 10 + dv;
        proof {
            let prefix1 = body.subrange(0, i + 1 - start);
            assert(prefix1.drop_last() =~= prefix);
            assert(prefix1.last() == c);
            assert(acc == digits_val(prefix1));
        }
        if acc > 0xFFFF_FFFF {
            proof {
                if all_digits(body) {
                    lemma_digits_val_prefix_le(body, i + 1 - start);
                }
            }
            return None;
        }
        i = i + 1;
    }
    proof {
        assert(body.subrange(0, n as int - start) =~= body);
    }
    Some(acc as u32)
}

/// Parses like the standard `i32` parser: an optional sign and digits,
/// rejecting values outside the `i32` range.
fn try_parse_i32(s: &str) -> (r: Option<i32>)
    ensures
        parses_as_i32(s@) ==> r == Some(signed_value(s@) as i32),
        !parses_as_i32(s@) ==> r is None,
{
    let n = s.unicode_len();
    let mut i: usize = 0;
    let mut neg = false;
    if n > 0 {
        let c0 = s.get_char(0);
        if c0 == '+' {
            i = 1;
        } else if c0 == '-' {
            i = 1;
            neg = true;
        }
    }
    let ghost body = signed_digits(s@);
    let ghost start = i as int;
    proof {
        assert(body =~= s@.subrange(start, n as int));
        assert(neg == signed_negative(s@));
    }
    if i >= n {
        return None;
    }
    let limit: u64 = if neg {
        0x8000_0000
    } else {
        0x7FFF_FFFF
    };
    let mut acc: u64 = 0;
    while i < n
        invariant
            0 <= start <= i <= n,
            n == s@.len(),
            body == signed_digits(s@),
            body == s@.subrange(start, n as int),
            neg == signed_negative(s@),
            limit == if neg {
                0x8000_0000u64
            } else {
                0x7FFF_FFFFu64
            },
            all_digits(body.subrange(0, i - start)),
            acc == digits_val(body.subrange(0, i - start)),
            acc <= limit,
        decreases n - i,
    {
        let ghost prefix = body.subrange(0, i - start);
        let c = s.get_char(i);
        proof {
            assert(body.len() == n - start);
            assert(0 <= i - start < body.len());
            assert(s@.subrange(start, n as int)[i - start] == s@[i as int]);
            assert(body[i - start] == c);
        }
        if !('0' <= c && c <= '9') {
            proof {
                assert(!all_digits(body));
            }
            return None;
        }
        let dv: u64 = (c as u32 - '0' as u32) as u64;
        acc = acc * 10 + dv;
        proof {
            let prefix1 = body.subrange(0, i + 1 - start);
            assert(prefix1.drop_last() =~= prefix);
            assert(prefix1.last() == c);
            assert(acc == digits_val(prefix1));
        }
        if acc > limit {
            proof {
                if all_digits(body) {
                    lemma_digits_val_prefix_le(body, i + 1 - start);
                }
            }
            return None;
        }
        i = i + 1;
    }
    proof {
        assert(body.subrange(0, n as int - start) =~= body);
    }
    if neg {
        let v: i64 = -(acc as i64);
        Some(v as i32)
    } else {
        Some(acc as i32)
    }
}

/// ASCII lowercase folding of one character; all others are unchanged.
pub open spec fn lower_char(c: char) -> char {
    if 'A' <= c && c <= 'Z' {
        (c as u32 + 32) as char
    } else {
        c
    }
}

/// ASCII lowercase folding of a string.
pub open spec fn lower(s: Seq<char>) -> Seq<char> {
    s.map_values(|c: char| lower_char(c))
}

/// ASCII lowercase folding, as an executable value.
fn lower_char_exec(c: char) -> (r: char)
    ensures
        r == lower_char(c),
{
    if 'A' <= c && c <= 'Z' {
        ((c as u8) + 32) as char
    } else {
        c
    }
}

/// The ASCII-lowercased copy of a string.
fn to_lower(s: &str) -> (r: String)
    ensures
        r@ == lower(s@),
{
    let n = s.unicode_len();
    let mut r = String::new();
    let mut i: usize = 0;
    while i < n
        invariant
            i <= n,
            n == s@.len(),
            r@ == lower(s@.subrange(0, i as int)),
        decreases n - i,
    {
        let c = lower_char_exec(s.get_char(i));
        push_char(&mut r, c);
        proof {
            assert(lower(s@.subrange(0, i as int)) + seq![c] =~= lower(
                s@.subrange(0, i + 1),
            ));
        }
        i = i + 1;
    }
    proof {
        assert(s@.subrange(0, n as int) =~= s@);
    }
    r
}

/// The lowercased English name of month `i`.
pub open spec fn month_name(i: int) -> Seq<char> {
    if i == 1 {
        "january"@
    } else if i == 2 {
        "february"@
    } else if i == 3 {
        "march"@
    } else if i == 4 {
        "april"@
    } else if i == 5 {
        "may"@
    } else if i == 6 {
        "june"@
    } else if i == 7 {
        "july"@
    } else if i == 8 {
        "august"@
    } else if i == 9 {
        "september"@
    } else if i == 10 {
        "october"@
    } else if i == 11 {
        "november"@
    } else {
        "december"@
    }
}

/// The lowercased English name of month `i`, as an executable value.
fn month_name_exec(i: u32) -> (r: &'static str)
    requires
        1 <= i <= 12,
    ensures
        r@ == month_name(i as int),
{
    if i == 1 {
        "january"
    } else if i == 2 {
        "february"
    } else if i == 3 {
        "march"
    } else if i == 4 {
        "april"
    } else if i == 5 {
        "may"
    } else if i == 6 {
        "june"
    } else if i == 7 {
        "july"
    } else if i == 8 {
        "august"
    } else if i == 9 {
        "september"
    } else if i == 10 {
        "october"
    } else if i == 11 {
        "november"
    } else {
        "december"
    }
}

/// The lowercased input is a prefix of the lowercased name of month `i`.
pub open spec fn name_matches(low: Seq<char>, i: int) -> bool {
    low.is_prefix_of(month_name(i))
}

/// How many of months `1..=n` the lowercased input matches.
pub open spec fn match_count(low: Seq<char>, n: int) -> int
    decreases n,
{
    if n <= 0 {
        0
    } else {
        match_count(low, n - 1) + if name_matches(low, n) {
            1int
        } else {
            0int
        }
    }
}

/// The smallest of months `1..=n` the lowercased input matches, or 0.
pub open spec fn first_match(low: Seq<char>, n: int) -> int
    decreases n,
{
    if n <= 0 {
        0
    } else if first_match(low, n - 1) != 0 {
        first_match(low, n - 1)
    } else if name_matches(low, n) {
        n
    } else {
        0
    }
}

/// Whether `p` is a prefix of `q`, character by character.
fn is_prefix_of_str(p: &str, q: &str) -> (r: bool)
    ensures
        r == p@.is_prefix_of(q@),
{
    let pn = p.unicode_len();
    let qn = q.unicode_len();
    if pn > qn {
        return false;
    }
    let mut j: usize = 0;
    while j < pn
        invariant
            j <= pn,
            pn == p@.len(),
            qn == q@.len(),
            pn <= qn,
            forall|k: int| 0 <= k < j ==> p@[k] == q@[k],
        decreases pn - j,
    {
        if p.get_char(j) != q.get_char(j) {
            proof {
                assert(q@.subrange(0, pn as int)[j as int] == q@[j as int]);
                assert(!p@.is_prefix_of(q@));
            }
            return false;
        }
        j = j + 1;
    }
    proof {
        assert(p@ =~= q@.subrange(0, pn as int));
    }
    true
}

/// The error text for a numeric month outside 1 through 12.
pub open spec fn month_range_msg(v: int) -> Seq<char> {
    "month \""@ + dec_chars(v) + "\" not in the range 1 through 12"@
}

/// The error text for a month name that matches no month, or several.
pub open spec fn invalid_month_msg(low: Seq<char>) -> Seq<char> {
    "invalid month \""@ + low + seq!['"']
}

/// The decimal rendering of a signed number, with a minus sign if negative.
pub open spec fn int_chars(v: int) -> Seq<char> {
    if v < 0 {
        seq!['-'] + dec_chars(-v)
    } else {
        dec_chars(v)
    }
}

/// The error text for a numeric year outside 1 through 9999.
pub open spec fn year_range_msg(v: int) -> Seq<char> {
    "year \""@ + int_chars(v) + "\" not in the range 1 through 9999"@
}

/// The error text for input that is no number at all.
pub open spec fn invalid_year_msg(s: Seq<char>) -> Seq<char> {
    "invalid year \""@ + s + seq!['"']
}

/// Parses a year argument: a decimal number in 1 through 9999. Any other
/// input is rejected, with the exact message the error names.
pub fn parse_year(year: &str) -> (r: Result<i32, String>)
    ensures
        parses_as_i32(year@) && 1 <= signed_value(year@) <= 9999 ==> r == Ok::<i32, String>(
            signed_value(year@) as i32,
        ),
        parses_as_i32(year@) && !(1 <= signed_value(year@) <= 9999) ==> (r matches Err(e)
            && e@ == year_range_msg(signed_value(year@))),
        !parses_as_i32(year@) ==> (r matches Err(e) && e@ == invalid_year_msg(year@)),
{
    match try_parse_i32(year) {
        Some(v) => {
            if 1 <= v && v <= 9999 {
                Ok(v)
            } else {
                let mut e = String::new();
                e.append("year \"");
                if v < 0 {
                    push_char(&mut e, '-');
                    let m: u32 = (-(v as i64)) as u32;
                    push_dec(&mut e, m);
                } else {
                    push_dec(&mut e, v as u32);
                }
                e.append("\" not in the range 1 through 9999");
                proof {
                    assert(e@ =~= year_range_msg(signed_value(year@)));
                }
                Err(e)
            }
        },
        None => {
            let mut e = String::new();
            e.append("invalid year \"");
            e.append(year);
            push_char(&mut e, '"');
            proof {
                assert(e@ =~= invalid_year_msg(year@));
            }
            Err(e)
        },
    }
}

/// Parses a month argument: a decimal number in 1 through 12, or a
/// case-insensitive prefix of exactly one English month name. Any other
/// input is rejected, with the exact message the error names.
pub fn parse_month(month: &str) -> (r: Result<u32, String>)
    ensures
        parses_as_u32(month@) && 1 <= u32_value(month@) <= 12 ==> r == Ok::<u32, String>(
            u32_value(month@) as u32,
        ),
        parses_as_u32(month@) && !(1 <= u32_value(month@) <= 12) ==> (r matches Err(e)
            && e@ == month_range_msg(u32_value(month@))),
        !parses_as_u32(month@) && match_count(lower(month@), 12) == 1 ==> r == Ok::<u32, String>(
            first_match(lower(month@), 12) as u32,
        ) && 1 <= first_match(lower(month@), 12) <= 12,
        !parses_as_u32(month@) && match_count(lower(month@), 12) != 1 ==> (r matches Err(e)
            && e@ == invalid_month_msg(lower(month@))),
{
    match try_parse_u32(month) {
        Some(v) => {
            proof {
                lemma_digits_val_nonneg(unsigned_digits(month@));
                assert(v as int == u32_value(month@));
            }
            if 1 <= v && v <= 12 {
                Ok(v)
            } else {
                let mut e = String::new();
                e.append("month \"");
                push_dec(&mut e, v);
                e.append("\" not in the range 1 through 12");
                proof {
                    assert(e@ =~= month_range_msg(u32_value(month@)));
                }
                Err(e)
            }
        },
        None => {
            let low = to_lower(month);
            let mut count: u32 = 0;
            let mut found: u32 = 0;
            let mut i: u32 = 1;
            while i <= 12
                invariant
                    1 <= i <= 13,
                    low@ == lower(month@),
                    count == match_count(low@, i as int - 1),
                    found == first_match(low@, i as int - 1),
                    count <= i - 1,
                    (found == 0) <==> (count == 0),
                    0 <= found <= 12,
                decreases 13 - i,
            {
                let nm = month_name_exec(i);
                if is_prefix_of_str(low.as_str(), nm) {
                    count = count + 1;
                    if found == 0 {
                        found = i;
                    }
                }
                i = i + 1;
            }
            if count == 1 {
                Ok(found)
            } else {
                let mut e = String::new();
                e.append("invalid month \"");
                e.append(low.as_str());
                push_char(&mut e, '"');
                proof {
                    assert(e@ =~= invalid_month_msg(lower(month@)));
                }
                Err(e)
            }
        },
    }
}

} // verus!
