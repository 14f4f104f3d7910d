//! Small helpers on instrument names and text.
use vstd::prelude::*;
use vstd::string::StringSliceAdditionalSpecFns;

verus! {

broadcast use vstd::string::axiom_spec_iter;

/// An ASCII decimal digit.
pub open spec fn is_digit(c: char) -> bool {
    '0' <= c && c <= '9'
}

/// The value of an ASCII decimal digit.
pub open spec fn digit_value(c: char) -> int {
    c as int - '0' as int
}

/// Number of digits at the start of `s`.
pub open spec fn leading_digits(s: Seq<char>) -> nat
    decreases s.len(),
{
    if s.len() > 0 && is_digit(s[0]) {
        1 + leading_digits(s.drop_first())
    } else {
        0
    }
}

/// Number of non-digits at the start of `s`.
pub open spec fn leading_non_digits(s: Seq<char>) -> nat
    decreases s.len(),
{
    if s.len() > 0 && !is_digit(s[0]) {
        1 + leading_non_digits(s.drop_first())
    } else {
        0
    }
}

/// Number of digits at the end of `s`.
pub open spec fn trailing_digits(s: Seq<char>) -> nat
    decreases s.len(),
{
    if s.len() > 0 && is_digit(s.last()) {
        1 + trailing_digits(s.drop_last())
    } else {
        0
    }
}

/// Where `trim_num_and_after` cuts `s`: the first digit that follows a
/// non-digit (the length of `s` where there is none).
pub open spec fn trim_cut(s: Seq<char>) -> nat {
    leading_digits(s) + leading_non_digits(s.skip(leading_digits(s) as int))
}

/// The digits at the end of `s`.
pub open spec fn tail_numbers(s: Seq<char>) -> Seq<char> {
    s.subrange(s.len() - trailing_digits(s), s.len() as int)
}

/// The value of a string of decimal digits (0 for the empty string).
pub open spec fn digits_value(s: Seq<char>) -> int
    decreases s.len(),
{
    if s.len() == 0 {
        0
    } else {
        digits_value(s.drop_last()) * 10 + digit_value(s.last())
    }
}

/// Integer division that rounds toward zero, as Rust's `/` does.
pub open spec fn trunc_div(a: int, b: int) -> int {
    if a >= 0 {
        a / b
    } else {
        -((-a) / b)
    }
}

/// The remainder that goes with `trunc_div`, as Rust's `%` gives it.
pub open spec fn trunc_rem(a: int, b: int) -> int {
    a - b * trunc_div(a, b)
}

pub proof fn lemma_leading_digits(s: Seq<char>)
    ensures
        leading_digits(s) <= s.len(),
        forall|j: int| 0 <= j < leading_digits(s) ==> is_digit(#[trigger] s[j]),
        leading_digits(s) < s.len() ==> !is_digit(s[leading_digits(s) as int]),
    decreases s.len(),
{
    if s.len() > 0 && is_digit(s[0]) {
        lemma_leading_digits(s.drop_first());
        assert forall|j: int| 0 <= j < leading_digits(s) implies is_digit(#[trigger] s[j]) by {
            if j > 0 {
                assert(s[j] == s.drop_first()[j - 1]);
            }
        }
    }
}

pub proof fn lemma_leading_non_digits(s: Seq<char>)
    ensures
        leading_non_digits(s) <= s.len(),
        forall|j: int| 0 <= j < leading_non_digits(s) ==> !is_digit(#[trigger] s[j]),
        leading_non_digits(s) < s.len() ==> is_digit(s[leading_non_digits(s) as int]),
    decreases s.len(),
{
    if s.len() > 0 && !is_digit(s[0]) {
        lemma_leading_non_digits(s.drop_first());
        assert forall|j: int| 0 <= j < leading_non_digits(s) implies !is_digit(#[trigger] s[j]) by {
            if j > 0 {
                assert(s[j] == s.drop_first()[j - 1]);
            }
        }
    }
}

pub proof fn lemma_trailing_digits(s: Seq<char>)
    ensures
        trailing_digits(s) <= s.len(),
        forall|j: int|
            s.len() - trailing_digits(s) <= j < s.len() ==> is_digit(#[trigger] s[j]),
        trailing_digits(s) < s.len() ==> !is_digit(s[s.len() - trailing_digits(s) - 1]),
    decreases s.len(),
{
    if s.len() > 0 && is_digit(s.last()) {
        lemma_trailing_digits(s.drop_last());
        assert forall|j: int|
            s.len() - trailing_digits(s) <= j < s.len() implies is_digit(#[trigger] s[j]) by {
            if j < s.len() - 1 {
                assert(s[j] == s.drop_last()[j]);
            }
        }
        if trailing_digits(s) < s.len() {
            assert(s[s.len() - trailing_digits(s) - 1] == s.drop_last()[s.drop_last().len()
                - trailing_digits(s.drop_last()) - 1]);
        }
    }
}

/// The prefix values of a digit string never exceed its value.
pub proof fn lemma_digits_value_prefix(s: Seq<char>, i: int)
    requires
        0 <= i <= s.len(),
        forall|j: int| 0 <= j < s.len() ==> is_digit(#[trigger] s[j]),
    ensures
        0 <= digits_value(s.take(i)) <= digits_value(s),
    decreases s.len() - i,
{
    if i == s.len() {
        assert(s.take(i) =~= s);
        lemma_digits_value_nonneg(s);
    } else {
        lemma_digits_value_prefix(s, i + 1);
        assert(s.take(i + 1).drop_last() =~= s.take(i));
        lemma_digits_value_nonneg(s.take(i));
    }
}

pub proof fn lemma_digits_value_nonneg(s: Seq<char>)
    requires
        forall|j: int| 0 <= j < s.len() ==> is_digit(#[trigger] s[j]),
    ensures
        digits_value(s) >= 0,
    decreases s.len(),
{
    if s.len() > 0 {
        lemma_digits_value_nonneg(s.drop_last());
        assert(is_digit(s[s.len() - 1]));
    }
}

/// The characters of `s`, in order.
fn chars_of(s: &str) -> (v: Vec<char>)
    ensures
        v@ == s@,
{
    let mut v: Vec<char> = Vec::new();
    for c in it: s.chars()
        invariant
            v@ == it.seq().take(it.index() as int),
            it.seq() == s@,
    {
        v.push(c);
    }
    v
}

fn is_ascii_digit(c: char) -> (b: bool)
    ensures
        b == is_digit(c),
{
    '0' <= c && c <= '9'
}

/// Number of digits at the end of `v`.
fn count_trailing_digits(v: &Vec<char>) -> (t: usize)
    ensures
        t == trailing_digits(v@),
{
    proof {
        lemma_trailing_digits(v@);
    }
    let n = v.len();
    let mut t: usize = 0;
    while t < n && is_ascii_digit(v[n - 1 - t])
        invariant
            n == v@.len(),
            t <= n,
            t <= trailing_digits(v@),
            forall|j: int| n - t <= j < n ==> is_digit(#[trigger] v@[j]),
        decreases n - t,
    {
        proof {
            lemma_trailing_digits(v@);
            if trailing_digits(v@) <= t {
                assert(is_digit(v@[n - trailing_digits(v@) - 1]));
            }
        }
        t = t + 1;
    }
    t
}

/// Removes the first digit that follows a non-digit, and all after it; a
/// leading run of digits is kept.
///
/// IF1603 => IF, y1605 => y, 黄大豆1号1501 => 黄大豆, 10年国债2003 => 10年国债,
/// 1605 => 1605, IF => IF, "" => "".
pub fn trim_num_and_after(input: &str) -> (r: &str)
    ensures
        r@ == input@.take(trim_cut(input@) as int),
{
    let v = chars_of(input);
    let n = v.len();
    let ghost s = input@;
    let ghost f = leading_digits(s) as int;
    proof {
        lemma_leading_digits(s);
        lemma_leading_non_digits(s.skip(f));
    }
    let ghost g = leading_non_digits(s.skip(f)) as int;
    let mut any_non_number = false;
    let mut i: usize = 0;
    while i < n
        invariant
            n == v@.len(),
            v@ == s,
            s == input@,
            i <= n,
            0 <= f <= n,
            0 <= g,
            f + g == trim_cut(s),
            forall|j: int| 0 <= j < f ==> is_digit(#[trigger] s[j]),
            f < n ==> !is_digit(s[f]),
            f + g <= n,
            forall|j: int| 0 <= j < g ==> !is_digit(#[trigger] s.skip(f)[j]),
            f + g < n ==> is_digit(s.skip(f)[g]),
            i <= f ==> !any_non_number,
            i > f ==> any_non_number && i <= f + g,
        decreases n - i,
    {
        let c = v[i];
        if !is_ascii_digit(c) {
            any_non_number = true;
            proof {
                assert(s.skip(f).len() == n - f);
                if i >= f {
                    assert(s.skip(f)[i - f] == s[i as int]);
                    if i - f == g {
                        assert(false);
                    }
                }
            }
            i = i + 1;
            continue;
        }
        if i > 0 && any_non_number {
            proof {
                if i < f + g {
                    assert(s.skip(f)[i - f] == s[i as int]);
                }
            }
            assert(i == f + g);
            assert(s.take(i as int) =~= s.subrange(0, i as int));
            return input.substring_char(0, i);
        }
        i = i + 1;
    }
    proof {
        if f + g < n {
            assert(s.skip(f)[g] == s[f + g]);
        }
        assert(f + g == n);
        assert(s.take(n as int) =~= s);
    }
    input
}

/// The digits at the end of `input`.
///
/// IF1905 => 1905, IF1905A => "", 黄大豆1号1501 => 1501.
pub fn get_tail_numbers(input: &str) -> (r: &str)
    ensures
        r@ == tail_numbers(input@),
{
    let v = chars_of(input);
    let t = count_trailing_digits(&v);
    proof {
        lemma_trailing_digits(input@);
    }
    input.substring_char(v.len() - t, v.len())
}

/// The value of the digits in `v[from..]`, all of them digits.
fn parse_digits_i16(v: &Vec<char>, from: usize) -> (r: i16)
    requires
        from <= v@.len(),
        forall|j: int| from <= j < v@.len() ==> is_digit(#[trigger] v@[j]),
        digits_value(v@.skip(from as int)) <= i16::MAX,
    ensures
        r == digits_value(v@.skip(from as int)),
{
    let ghost s = v@.skip(from as int);
    let mut acc: i16 = 0;
    let mut i = from;
    while i < v.len()
        invariant
            from <= i <= v@.len(),
            s == v@.skip(from as int),
            forall|j: int| from <= j < v@.len() ==> is_digit(#[trigger] v@[j]),
            digits_value(s) <= i16::MAX,
            acc == digits_value(s.take(i - from)),
        decreases v@.len() - i,
    {
        proof {
            assert forall|j: int| 0 <= j < s.len() implies is_digit(#[trigger] s[j]) by {
                assert(s[j] == v@[from + j]);
            }
            lemma_digits_value_prefix(s, i - from + 1);
            assert(s.take(i - from + 1).drop_last() =~= s.take(i - from));
            assert(s.take(i - from + 1).last() == v@[i as int]);
        }
        let d = (v[i] as u32 - '0' as u32) as i16;
        acc = acc * 10 + d;
        i = i + 1;
    }
    proof {
        assert(s.take(i - from) =~= s);
    }
    acc
}

/// The month `(year, month)` that an instrument name stands for, going by
/// the year of its last trading day for the century: the digits at the end
/// of the name give the year within the century (all but the last two) and
/// the month (the last two).  The name must already end in four digits (see
/// `fix_czce_inst`).
pub fn get_inst_month(instrument: &str, expire_year: i16) -> (r: (i16, i16))
    requires
        trailing_digits(instrument@) > 0,
        digits_value(tail_numbers(instrument@)) <= i16::MAX,
        inst_year_base(expire_year as int, digits_value(tail_numbers(instrument@))) <= i16::MAX,
        expire_year > inst_year_base(expire_year as int, digits_value(tail_numbers(instrument@)))
            ==> inst_year_base(expire_year as int, digits_value(tail_numbers(instrument@))) + 100
            <= i16::MAX,
    ensures
        ({
            let n = digits_value(tail_numbers(instrument@));
            let base = inst_year_base(expire_year as int, n);
            &&& r.0 == (if expire_year > base { base + 100 } else { base })
            &&& r.1 == (n % 100 + 11) % 12 + 1
        }),
{
    let v = chars_of(instrument);
    let t = count_trailing_digits(&v);
    proof {
        lemma_trailing_digits(v@);
        assert(v@.skip(v@.len() - t) =~= tail_numbers(instrument@));
    }
    let inst_no_prd = parse_digits_i16(&v, v.len() - t);
    proof {
        lemma_digits_value_nonneg(tail_numbers(instrument@));
    }
    let month = (inst_no_prd % 100 + 11) % 12 + 1;
    let mut year = expire_year / 100 * 100 + inst_no_prd / 100;
    if expire_year > year {
        year += 100;
    }
    (year, month)
}

/// The year that `get_inst_month` starts from: the century of `expire_year`
/// plus the year within the century that the digits `n` give.
pub open spec fn inst_year_base(expire_year: int, n: int) -> int {
    trunc_div(expire_year, 100) * 100 + n / 100
}

/// The decade digit that `fix_czce_inst` puts in: the year nearest to
/// `this_year` whose last digit is `y` (within five years either way), and
/// then that year's tens digit.
pub open spec fn czce_decade_digit(this_year: int, y: int) -> int {
    let aa = trunc_div(this_year, 10) * 10 + y;
    let diff = aa - this_year;
    let near = if diff >= 5 {
        aa - 10
    } else if diff <= -5 {
        aa + 10
    } else {
        aa
    };
    trunc_rem(trunc_div(near, 10), 10)
}

/// The years that `fix_czce_inst` works through fit in `i16`, and the
/// decade digit it finds is a digit.
pub open spec fn czce_year_in_range(this_year: int, y: int) -> bool {
    let aa = trunc_div(this_year, 10) * 10 + y;
    let diff = aa - this_year;
    &&& aa <= i16::MAX
    &&& (diff >= 5 ==> aa - 10 >= i16::MIN)
    &&& (diff < 5 && diff <= -5 ==> aa + 10 <= i16::MAX)
    &&& czce_decade_digit(this_year, y) >= 0
}

/// The character of a decimal digit.
pub open spec fn digit_char(d: int) -> char {
    ('0' as int + d) as char
}

/// What `fix_czce_inst` makes of `s`: a name that ends in exactly three
/// digits gets the decade digit put in before them; any other is unchanged.
pub open spec fn fixed_czce(s: Seq<char>, this_year: int) -> Seq<char> {
    if trailing_digits(s) == 3 {
        let n = s.len() as int;
        s.subrange(0, n - 3) + seq![digit_char(czce_decade_digit(this_year, digit_value(s[n - 3])))]
            + s.subrange(n - 3, n)
    } else {
        s
    }
}

/// What `restore_czce_inst` makes of `s`: a name that ends in four or more
/// digits loses the fourth character from the end; any other is unchanged.
pub open spec fn restored_czce(s: Seq<char>) -> Seq<char> {
    if trailing_digits(s) >= 4 {
        s.remove(s.len() - 4)
    } else {
        s
    }
}

proof fn lemma_trailing_digits_at_least(s: Seq<char>, k: int)
    requires
        0 <= k <= s.len(),
        forall|j: int| s.len() - k <= j < s.len() ==> is_digit(#[trigger] s[j]),
    ensures
        trailing_digits(s) >= k,
    decreases k,
{
    if k > 0 {
        assert(is_digit(s[s.len() - 1]));
        assert forall|j: int| s.drop_last().len() - (k - 1) <= j < s.drop_last().len() implies is_digit(
            #[trigger] s.drop_last()[j],
        ) by {
            assert(s.drop_last()[j] == s[j]);
        }
        lemma_trailing_digits_at_least(s.drop_last(), k - 1);
    }
}

/// Putting the decade digit into a Zhengzhou name that ends in three digits,
/// then taking it out again, gives back the name (TA109 => TA2109 => TA109).
pub proof fn lemma_czce_round_trip(s: Seq<char>, this_year: int)
    requires
        trailing_digits(s) == 3,
        czce_year_in_range(this_year, digit_value(s[s.len() - 3])),
    ensures
        restored_czce(fixed_czce(s, this_year)) == s,
{
    lemma_trailing_digits(s);
    let n = s.len() as int;
    let d = czce_decade_digit(this_year, digit_value(s[n - 3]));
    let near = trunc_div(this_year, 10) * 10 + digit_value(s[n - 3]);
    assert(d <= 9) by {
        let aa = near;
        let diff = aa - this_year;
        let x = trunc_div(if diff >= 5 { aa - 10 } else if diff <= -5 { aa + 10 } else { aa }, 10);
        assert(trunc_rem(x, 10) <= 9);
    }
    let f = fixed_czce(s, this_year);
    assert(f =~= s.subrange(0, n - 3) + seq![digit_char(d)] + s.subrange(n - 3, n));
    assert forall|j: int| f.len() - 4 <= j < f.len() implies is_digit(#[trigger] f[j]) by {
        if j > n - 3 {
            assert(f[j] == s[j - 1]);
        }
    }
    lemma_trailing_digits_at_least(f, 4);
    assert(f.remove(f.len() - 4) =~= s);
}

/// The tens digit of a year.
pub open spec fn tens_digit(y: int) -> int {
    (y / 10) % 10
}

/// The decade put into a Zhengzhou name that ends in three digits is that
/// of the year ending in the name's year digit nearest to `this_year`: a
/// year `y` within five years of `this_year` (either way) whose last digit
/// is the digit of the name and whose tens digit is the digit put in, before
/// the unchanged three digits.
pub proof fn lemma_czce_nearest_year(s: Seq<char>, this_year: int)
    requires
        trailing_digits(s) == 3,
        this_year >= 10,
        czce_year_in_range(this_year, digit_value(s[s.len() - 3])),
    ensures
        ({
            let f = fixed_czce(s, this_year);
            let n = s.len() as int;
            &&& f.len() == n + 1
            &&& f.remove(n - 3) == s
            &&& is_digit(f[n - 3])
            &&& exists|y: int|
                -5 <= y - this_year <= 5 && y % 10 == digit_value(s[n - 3]) && #[trigger] tens_digit(y)
                    == digit_value(f[n - 3])
        }),
{
    lemma_trailing_digits(s);
    let n = s.len() as int;
    let d = digit_value(s[n - 3]);
    assert(0 <= d <= 9);
    let aa = this_year / 10 * 10 + d;
    assert(trunc_div(this_year, 10) == this_year / 10);
    let diff = aa - this_year;
    assert(-9 <= diff <= 9) by (nonlinear_arith)
        requires
            aa == this_year / 10 * 10 + d,
            diff == aa - this_year,
            0 <= d <= 9,
            this_year >= 10;
    let near = if diff >= 5 {
        aa - 10
    } else if diff <= -5 {
        aa + 10
    } else {
        aa
    };
    assert(near % 10 == d) by (nonlinear_arith)
        requires
            aa == this_year / 10 * 10 + d,
            near == aa - 10 || near == aa + 10 || near == aa,
            0 <= d <= 9,
            this_year >= 10;
    assert(near >= 5);
    assert(trunc_div(near, 10) == near / 10);
    let t = czce_decade_digit(this_year, d);
    assert(t == (near / 10) % 10);
    let f = fixed_czce(s, this_year);
    assert(f =~= s.subrange(0, n - 3) + seq![digit_char(t)] + s.subrange(n - 3, n));
    assert(f[n - 3] == digit_char(t));
    assert(digit_value(f[n - 3]) == t);
    assert(f.remove(n - 3) =~= s);
    assert(tens_digit(near) == digit_value(f[n - 3]));
}

fn digit_str(d: i16) -> (r: &'static str)
    requires
        0 <= d <= 9,
    ensures
        r@ == seq![digit_char(d as int)],
{
    proof {
        reveal_strlit("0");
        reveal_strlit("1");
        reveal_strlit("2");
        reveal_strlit("3");
        reveal_strlit("4");
        reveal_strlit("5");
        reveal_strlit("6");
        reveal_strlit("7");
        reveal_strlit("8");
        reveal_strlit("9");
    }
    let r = match d {
        0 => "0",
        1 => "1",
        2 => "2",
        3 => "3",
        4 => "4",
        5 => "5",
        6 => "6",
        7 => "7",
        8 => "8",
        _ => "9",
    };
    assert(r@ =~= seq![digit_char(d as int)]);
    r
}

/// Makes a Zhengzhou exchange instrument name end in four digits, putting
/// in the decade digit nearest to `this_year`.
///
/// CF001 => CF2001 (in 2020), tick_cf001 => tick_cf2001.
pub fn fix_czce_inst(czce_inst: &str, this_year: i16) -> (r: String)
    requires
        trailing_digits(czce_inst@) == 3 ==> czce_year_in_range(
            this_year as int,
            digit_value(czce_inst@[czce_inst@.len() - 3]),
        ),
    ensures
        r@ == fixed_czce(czce_inst@, this_year as int),
{
    let v = chars_of(czce_inst);
    let count = count_trailing_digits(&v);
    if count >= 4 || count < 3 {
        return czce_inst.to_owned();
    }
    proof {
        lemma_trailing_digits(v@);
    }
    let len = v.len();
    let y = (v[len - 3] as u32 - '0' as u32) as i16;
    let mut aa = this_year / 10 * 10 + y;
    let diff = aa - this_year;
    if diff >= 5 {
        aa -= 10;
    } else if diff <= -5 {
        aa += 10;
    }
    let aa = aa / 10 % 10;
    let digit = digit_str(aa);
    let mut result = czce_inst.substring_char(0, len - 3).to_owned();
    result.append(digit);
    result.append(czce_inst.substring_char(len - 3, len));
    result
}

/// Gives back the three-digit Zhengzhou exchange name of an instrument:
/// the fourth character from the end goes where a name ends in four digits.
///
/// TA2109 or TA1109 => TA109.
pub fn restore_czce_inst(czce_inst: &str) -> (r: String)
    ensures
        r@ == restored_czce(czce_inst@),
{
    let v = chars_of(czce_inst);
    let count = count_trailing_digits(&v);
    if count < 4 {
        return czce_inst.to_owned();
    }
    proof {
        lemma_trailing_digits(v@);
    }
    let len = v.len();
    let mut result = czce_inst.substring_char(0, len - 4).to_owned();
    result.append(czce_inst.substring_char(len - 3, len));
    assert(result@ =~= czce_inst@.remove(len - 4));
    result
}

/// Copies `text` into `buffer` as a NUL-terminated C string; what does not
/// fit before the last byte is cut off.
#[verifier::spinoff_prover]
pub fn set_cstr_from_str_truncate(buffer: &mut [u8], text: &str)
    requires
        old(buffer)@.len() > 0,
    ensures
        ({
            let k = cstr_copied_len(old(buffer)@.len() as int, text.spec_bytes().len() as int);
            final(buffer)@ == text.spec_bytes().take(k) + seq![0u8] + old(buffer)@.skip(k + 1)
        }),
{
    let bytes = text.as_bytes();
    let n = buffer.len();
    let mut i: usize = 0;
    while i + 1 < n && i < bytes.len()
        invariant
            bytes@ == text.spec_bytes(),
            n == buffer@.len(),
            n == old(buffer)@.len(),
            n > 0,
            i <= cstr_copied_len(n as int, bytes@.len() as int),
            buffer@ == bytes@.take(i as int) + old(buffer)@.skip(i as int),
        decreases n - i,
    {
        buffer[i] = bytes[i];
        i = i + 1;
        assert(buffer@ =~= bytes@.take(i as int) + old(buffer)@.skip(i as int));
    }
    buffer[i] = 0u8;
    assert(buffer@ =~= text.spec_bytes().take(i as int) + seq![0u8] + old(buffer)@.skip(i + 1));
}

/// How many bytes of a text of `text_len` bytes fit into a C string buffer of
/// `buffer_len` bytes, before the terminating NUL.
pub open spec fn cstr_copied_len(buffer_len: int, text_len: int) -> int {
    if text_len < buffer_len - 1 {
        text_len
    } else {
        buffer_len - 1
    }
}

/// The text of an error and its chain of sources, `chain[0]` being the
/// error itself: the innermost source first, each outer one after ", ".
pub open spec fn error_chain_text(chain: Seq<Seq<char>>) -> Seq<char>
    decreases chain.len(),
{
    if chain.len() <= 1 {
        if chain.len() == 1 {
            chain[0]
        } else {
            Seq::empty()
        }
    } else {
        error_chain_text(chain.drop_first()) + seq![',', ' '] + chain[0]
    }
}

/// The details of an error: the texts of the error (`chain[0]`) and of its
/// sources in turn (`chain[1]` the source of `chain[0]`, and so on), innermost
/// first, joined by ", ".
pub fn err_detail(chain: &Vec<String>) -> (r: String)
    requires
        chain@.len() > 0,
    ensures
        r@ == error_chain_text(chain@.map_values(|m: String| m@)),
{
    let ghost texts = chain@.map_values(|m: String| m@);
    let n = chain.len();
    let mut result = chain[n - 1].clone();
    let mut i = n - 1;
    proof {
        reveal_strlit(", ");
        assert(texts.skip(i as int) =~= seq![texts[i as int]]);
    }
    while i > 0
        invariant
            n == chain@.len(),
            texts == chain@.map_values(|m: String| m@),
            i < n,
            result@ == error_chain_text(texts.skip(i as int)),
        decreases i,
    {
        i = i - 1;
        result.append(", ");
        result.append(chain[i].as_str());
        proof {
            reveal_strlit(", ");
            assert(texts.skip(i as int).drop_first() =~= texts.skip(i + 1));
        }
    }
    assert(texts.skip(0) =~= texts);
    result
}

/// The number of decimals in the text of a number: the characters after the
/// first '.', or 0 where there is no '.'.
pub open spec fn decimals_in(text: Seq<char>) -> int {
    if exists|i: int| 0 <= i < text.len() && text[i] == '.' {
        text.len() - 1 - choose|i: int| 0 <= i < text.len() && text[i] == '.' && forall|j: int|
            0 <= j < i ==> text[j] != '.'
    } else {
        0
    }
}

/// The precision of a price tick from its decimal text (0.02 -> 2, 0.2 -> 1,
/// 5 -> 0): the number of characters after the first '.'.
pub fn calc_precision(price_tick_text: &str) -> (r: u32)
    requires
        price_tick_text@.len() <= u32::MAX,
    ensures
        r == decimals_in(price_tick_text@),
{
    let v = chars_of(price_tick_text);
    let n = v.len();
    let mut i: usize = 0;
    while i < n
        invariant
            n == v@.len(),
            v@ == price_tick_text@,
            n <= u32::MAX,
            i <= n,
            forall|j: int| 0 <= j < i ==> v@[j] != '.',
        decreases n - i,
    {
        if v[i] == '.' {
            let ghost k = choose|k: int|
                0 <= k < v@.len() && v@[k] == '.' && forall|j: int| 0 <= j < k ==> v@[j] != '.';
            proof {
                assert(0 <= i < v@.len() && v@[i as int] == '.' && forall|j: int|
                    0 <= j < i ==> v@[j] != '.');
                if k < i {
                    assert(v@[k] != '.');
                }
                if k > i {
                    assert(v@[i as int] != '.');
                }
            }
            return (n - 1 - i) as u32;
        }
        i = i + 1;
    }
    0
}

} // verus!
