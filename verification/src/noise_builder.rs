//! The noise expression language: an immutable tree of noise operations and
//! the parser that builds one from a flat, whitespace-tokenized prefix
//! expression.
//!
//! The tree stores floating-point constants as their validated source tokens;
//! turning a tree into a runnable noise function (and every floating-point
//! evaluation) is the host's job, outside this library.

use vstd::prelude::*;

verus! {

/// Tree of noise functions that work like expressions taking each other as
/// inputs. Every node takes the x and z position as implicit inputs.
pub enum NoiseBuilder {
    /// A constant value, kept as its validated numeric token.
    Constant(String),
    Abs(Box<NoiseBuilder>),
    Neg(Box<NoiseBuilder>),
    Min(Box<NoiseBuilder>, Box<NoiseBuilder>),
    Max(Box<NoiseBuilder>, Box<NoiseBuilder>),
    Add(Box<NoiseBuilder>, Box<NoiseBuilder>),
    Mul(Box<NoiseBuilder>, Box<NoiseBuilder>),
    Pow(Box<NoiseBuilder>, Box<NoiseBuilder>),
    PowI(i32, Box<NoiseBuilder>),
    /// Input-point scaling factors for x and y, kept as validated tokens.
    ScaleInput(String, String, Box<NoiseBuilder>),
    /// Clamp bounds, kept as validated tokens.
    Clamp(String, String, Box<NoiseBuilder>),
    Checkerboard,
    /// The argument is the seed.
    Perlin(u32),
    /// The argument is the seed.
    Simplex(u32),
}

/// The mathematical shape of a noise expression: the same tree with every
/// token abstracted to its character sequence.
pub enum NoiseExpr {
    Constant(Seq<char>),
    Abs(Box<NoiseExpr>),
    Neg(Box<NoiseExpr>),
    Min(Box<NoiseExpr>, Box<NoiseExpr>),
    Max(Box<NoiseExpr>, Box<NoiseExpr>),
    Add(Box<NoiseExpr>, Box<NoiseExpr>),
    Mul(Box<NoiseExpr>, Box<NoiseExpr>),
    Pow(Box<NoiseExpr>, Box<NoiseExpr>),
    PowI(int, Box<NoiseExpr>),
    ScaleInput(Seq<char>, Seq<char>, Box<NoiseExpr>),
    Clamp(Seq<char>, Seq<char>, Box<NoiseExpr>),
    Checkerboard,
    Perlin(u32),
    Simplex(u32),
}

impl NoiseBuilder {
    /// The tree's mathematical shape.
    pub open spec fn view(&self) -> NoiseExpr
        decreases self,
    {
        match self {
            NoiseBuilder::Constant(t) => NoiseExpr::Constant(t@),
            NoiseBuilder::Abs(a) => NoiseExpr::Abs(Box::new(a.view())),
            NoiseBuilder::Neg(a) => NoiseExpr::Neg(Box::new(a.view())),
            NoiseBuilder::Min(a, b) => NoiseExpr::Min(Box::new(a.view()), Box::new(b.view())),
            NoiseBuilder::Max(a, b) => NoiseExpr::Max(Box::new(a.view()), Box::new(b.view())),
            NoiseBuilder::Add(a, b) => NoiseExpr::Add(Box::new(a.view()), Box::new(b.view())),
            NoiseBuilder::Mul(a, b) => NoiseExpr::Mul(Box::new(a.view()), Box::new(b.view())),
            NoiseBuilder::Pow(a, b) => NoiseExpr::Pow(Box::new(a.view()), Box::new(b.view())),
            NoiseBuilder::PowI(i, a) => NoiseExpr::PowI(*i as int, Box::new(a.view())),
            NoiseBuilder::ScaleInput(x, y, a) => NoiseExpr::ScaleInput(
                x@,
                y@,
                Box::new(a.view()),
            ),
            NoiseBuilder::Clamp(lo, hi, a) => NoiseExpr::Clamp(lo@, hi@, Box::new(a.view())),
            NoiseBuilder::Checkerboard => NoiseExpr::Checkerboard,
            NoiseBuilder::Perlin(seed) => NoiseExpr::Perlin(*seed),
            NoiseBuilder::Simplex(seed) => NoiseExpr::Simplex(*seed),
        }
    }

    /// Every numeric token stored in the tree is a valid floating-point
    /// literal, so a host can always turn the tree into a noise function.
    pub open spec fn wf(&self) -> bool
        decreases self,
    {
        match self {
            NoiseBuilder::Constant(t) => is_float_lit(t@),
            NoiseBuilder::Abs(a) => a.wf(),
            NoiseBuilder::Neg(a) => a.wf(),
            NoiseBuilder::Min(a, b) => a.wf() && b.wf(),
            NoiseBuilder::Max(a, b) => a.wf() && b.wf(),
            NoiseBuilder::Add(a, b) => a.wf() && b.wf(),
            NoiseBuilder::Mul(a, b) => a.wf() && b.wf(),
            NoiseBuilder::Pow(a, b) => a.wf() && b.wf(),
            NoiseBuilder::PowI(_i, a) => a.wf(),
            NoiseBuilder::ScaleInput(x, y, a) => is_float_lit(x@) && is_float_lit(y@) && a.wf(),
            NoiseBuilder::Clamp(lo, hi, a) => is_float_lit(lo@) && is_float_lit(hi@) && a.wf(),
            NoiseBuilder::Checkerboard => true,
            NoiseBuilder::Perlin(_seed) => true,
            NoiseBuilder::Simplex(_seed) => true,
        }
    }
}

/// A decimal digit.
pub open spec fn is_digit(c: char) -> bool {
    '0' <= c && c <= '9'
}

/// Every character of `s` is a decimal digit.
pub open spec fn all_digits(s: Seq<char>) -> bool {
    forall|i: int| 0 <= i < s.len() ==> is_digit(s[i])
}

/// A nonempty run of decimal digits.
pub open spec fn is_count(s: Seq<char>) -> bool {
    s.len() > 0 && all_digits(s)
}

/// `s` without one leading sign character, if it has one.
pub open spec fn strip_sign(s: Seq<char>) -> Seq<char> {
    if s.len() > 0 && (s[0] == '+' || s[0] == '-') {
        s.drop_first()
    } else {
        s
    }
}

/// The numeric value of a digit run.
pub open spec fn digits_val(s: Seq<char>) -> nat
    decreases s.len(),
{
    if s.len() == 0 {
        0
    } else {
        digits_val(s.drop_last()) * 10 + (s.last() as int - '0' as int) as nat
    }
}

/// Digits with at most one decimal point and at least one digit: the
/// mantissa shapes a float literal accepts.
pub open spec fn is_mantissa(s: Seq<char>) -> bool {
    (s.len() > 0 && all_digits(s)) || (exists|k: int|
        0 <= k < s.len() && s[k] == '.' && all_digits(s.subrange(0, k)) && all_digits(
            s.subrange(k + 1, s.len() as int),
        ) && s.len() >= 2)
}

/// An optionally signed nonempty digit run: an exponent body.
pub open spec fn is_exp_part(s: Seq<char>) -> bool {
    is_count(strip_sign(s))
}

/// A mantissa, optionally followed by `e` or `E` and an exponent.
pub open spec fn is_number(s: Seq<char>) -> bool {
    is_mantissa(s) || (exists|k: int|
        0 <= k < s.len() && (s[k] == 'e' || s[k] == 'E') && is_mantissa(s.subrange(0, k))
            && is_exp_part(s.subrange(k + 1, s.len() as int)))
}

/// One of the two characters (a case-insensitive letter match).
pub open spec fn eq_ci(c: char, lower: char, upper: char) -> bool {
    c == lower || c == upper
}

/// `inf`, case-insensitive.
pub open spec fn is_inf_word(s: Seq<char>) -> bool {
    s.len() == 3 && eq_ci(s[0], 'i', 'I') && eq_ci(s[1], 'n', 'N') && eq_ci(s[2], 'f', 'F')
}

/// `infinity`, case-insensitive.
pub open spec fn is_infinity_word(s: Seq<char>) -> bool {
    s.len() == 8 && eq_ci(s[0], 'i', 'I') && eq_ci(s[1], 'n', 'N') && eq_ci(s[2], 'f', 'F')
        && eq_ci(s[3], 'i', 'I') && eq_ci(s[4], 'n', 'N') && eq_ci(s[5], 'i', 'I') && eq_ci(
        s[6],
        't',
        'T',
    ) && eq_ci(s[7], 'y', 'Y')
}

/// `nan`, case-insensitive.
pub open spec fn is_nan_word(s: Seq<char>) -> bool {
    s.len() == 3 && eq_ci(s[0], 'n', 'N') && eq_ci(s[1], 'a', 'A') && eq_ci(s[2], 'n', 'N')
}

/// What a 64-bit float literal accepts: an optional sign, then an infinity
/// or not-a-number word or a number with optional exponent.
pub open spec fn is_float_lit(s: Seq<char>) -> bool {
    let b = strip_sign(s);
    is_inf_word(b) || is_infinity_word(b) || is_nan_word(b) || is_number(b)
}

/// A token separator: ASCII whitespace.
pub open spec fn is_space(c: char) -> bool {
    c == ' ' || c == '\t' || c == '\n' || c == '\r'
}

/// The first index at or after `i` holding a non-space, or the end.
pub open spec fn skip_spaces(s: Seq<char>, i: int) -> int
    decreases s.len() - i,
{
    if i < 0 || i >= s.len() {
        i
    } else if is_space(s[i]) {
        skip_spaces(s, i + 1)
    } else {
        i
    }
}

/// The first index at or after `i` holding a space, or the end.
pub open spec fn token_end(s: Seq<char>, i: int) -> int
    decreases s.len() - i,
{
    if i < 0 || i >= s.len() {
        i
    } else if is_space(s[i]) {
        i
    } else {
        token_end(s, i + 1)
    }
}

/// The whitespace-separated tokens of `s` from index `i` on.
pub open spec fn spec_tokenize_from(s: Seq<char>, i: int) -> Seq<Seq<char>>
    decreases s.len() - i,
{
    let j = skip_spaces(s, i);
    if j < i || j >= s.len() {
        Seq::empty()
    } else {
        let k = token_end(s, j);
        if j < k <= s.len() {
            seq![s.subrange(j, k)] + spec_tokenize_from(s, k)
        } else {
            Seq::empty()
        }
    }
}

/// The whitespace-separated tokens of `s`.
pub open spec fn spec_tokenize(s: Seq<char>) -> Seq<Seq<char>> {
    spec_tokenize_from(s, 0)
}

/// Where the space run starting at `i` ends: at the first non-space.
proof fn lemma_skip_spaces_locate(s: Seq<char>, i: int, r: int)
    requires
        0 <= i <= r <= s.len(),
        forall|m: int| i <= m < r ==> is_space(s[m]),
        r == s.len() || !is_space(s[r]),
    ensures
        skip_spaces(s, i) == r,
    decreases r - i,
{
    if i < r {
        lemma_skip_spaces_locate(s, i + 1, r);
    }
}

/// Where the token starting at `i` ends: at the first space.
proof fn lemma_token_end_locate(s: Seq<char>, i: int, r: int)
    requires
        0 <= i <= r <= s.len(),
        forall|m: int| i <= m < r ==> !is_space(s[m]),
        r == s.len() || is_space(s[r]),
    ensures
        token_end(s, i) == r,
    decreases r - i,
{
    if i < r {
        lemma_token_end_locate(s, i + 1, r);
    }
}

/// Whether `c` separates tokens.
fn is_space_exec(c: char) -> (r: bool)
    ensures
        r == is_space(c),
{
    c == ' ' || c == '\t' || c == '\n' || c == '\r'
}

/// Split `s` into its whitespace-separated tokens.
pub fn tokenize(s: &str) -> (toks: Vec<String>)
    ensures
        toks.deep_view() == spec_tokenize(s@),
{
    let n = s.unicode_len();
    let mut toks: Vec<String> = Vec::new();
    let mut i: usize = 0;
    proof {
        assert(toks.deep_view() =~= Seq::<Seq<char>>::empty());
    }
    while i < n
        invariant
            i <= n,
            n == s@.len(),
            spec_tokenize(s@) == toks.deep_view() + spec_tokenize_from(s@, i as int),
        decreases n - i,
    {
        let ghost i0 = i as int;
        // skip the separator run
        while i < n && is_space_exec(s.get_char(i))
            invariant
                i0 <= i <= n,
                n == s@.len(),
                forall|m: int| i0 <= m < i ==> is_space(s@[m]),
            decreases n - i,
        {
            i = i + 1;
        }
        proof {
            lemma_skip_spaces_locate(s@, i0, i as int);
        }
        if i == n {
            proof {
                assert(spec_tokenize_from(s@, i0) =~= Seq::<Seq<char>>::empty());
                assert(toks.deep_view() + Seq::<Seq<char>>::empty() =~= toks.deep_view());
            }
        } else {
            let start = i;
            i = i + 1;
            // take the token run
            while i < n && !is_space_exec(s.get_char(i))
                invariant
                    start < i <= n,
                    n == s@.len(),
                    forall|m: int| start <= m < i ==> !is_space(s@[m]),
                decreases n - i,
            {
                i = i + 1;
            }
            proof {
                lemma_token_end_locate(s@, start as int, i as int);
            }
            let tok = s.substring_char(start, i).to_owned();
            let ghost dv0 = toks.deep_view();
            toks.push(tok);
            proof {
                assert(toks.deep_view() =~= dv0.push(s@.subrange(start as int, i as int)));
                assert(spec_tokenize_from(s@, i0) =~= seq![s@.subrange(start as int, i as int)]
                    + spec_tokenize_from(s@, i as int));
                assert(dv0 + spec_tokenize_from(s@, i0) =~= toks.deep_view()
                    + spec_tokenize_from(s@, i as int));
            }
        }
    }
    proof {
        assert(spec_tokenize_from(s@, i as int) =~= Seq::<Seq<char>>::empty());
        assert(toks.deep_view() + Seq::<Seq<char>>::empty() =~= toks.deep_view());
    }
    toks
}

/// The unsigned value a 32-bit seed token denotes: an optional plus sign,
/// then digits whose value fits.
pub open spec fn spec_parse_u32(t: Seq<char>) -> Option<u32> {
    let b = if t.len() > 0 && t[0] == '+' {
        t.drop_first()
    } else {
        t
    };
    if is_count(b) && digits_val(b) <= u32::MAX {
        Some(digits_val(b) as u32)
    } else {
        None
    }
}

/// The signed value a 32-bit integer token denotes.
pub open spec fn spec_parse_i32(t: Seq<char>) -> Option<i32> {
    let neg = t.len() > 0 && t[0] == '-';
    let b = strip_sign(t);
    if is_count(b) {
        if neg {
            if digits_val(b) <= 0x8000_0000 {
                Some((-(digits_val(b) as int)) as i32)
            } else {
                None
            }
        } else {
            if digits_val(b) <= i32::MAX {
                Some(digits_val(b) as i32)
            } else {
                None
            }
        }
    } else {
        None
    }
}

/// Extending a digit run multiplies its value by ten and adds the digit;
/// in particular the value never shrinks as the run grows.
proof fn lemma_digits_val_step(s: Seq<char>, i: int)
    requires
        0 <= i < s.len(),
    ensures
        digits_val(s.subrange(0, i + 1)) == digits_val(s.subrange(0, i)) * 10 + (s[i] as int
            - '0' as int) as nat,
{
    assert(s.subrange(0, i + 1).drop_last() =~= s.subrange(0, i));
    assert(s.subrange(0, i + 1).last() == s[i]);
}

/// The digits of `s` in `[from, to)`, their value, and whether it stays
/// within `bound`: the shared scanning core of the integer parsers.
/// Returns `None` when a non-digit occurs or the range is empty, and
/// `Some(None)` when the value exceeds `bound`.
fn scan_digits(s: &str, from: usize, to: usize, bound: u64) -> (r: Option<Option<u64>>)
    requires
        from <= to <= s@.len(),
        bound <= 0x1_0000_0000,
    ensures
        match r {
            None => !is_count(s@.subrange(from as int, to as int)),
            Some(v) => is_count(s@.subrange(from as int, to as int)) && (match v {
                Some(x) => digits_val(s@.subrange(from as int, to as int)) == x && x <= bound,
                None => digits_val(s@.subrange(from as int, to as int)) > bound,
            }),
        },
{
    let ghost b = s@.subrange(from as int, to as int);
    if from == to {
        return None;
    }
    let mut i = from;
    let mut acc: u64 = 0;
    let mut over = false;
    while i < to
        invariant
            from <= i <= to <= s@.len(),
            bound <= 0x1_0000_0000,
            b == s@.subrange(from as int, to as int),
            forall|m: int| 0 <= m < i - from ==> is_digit(b[m]),
            !over ==> acc == digits_val(b.subrange(0, i - from)) && acc <= bound,
            over ==> digits_val(b.subrange(0, i - from)) > bound,
        decreases to - i,
    {
        let c = s.get_char(i);
        proof {
            assert(b[i - from] == s@[i as int]);
        }
        if !('0' <= c && c <= '9') {
            return None;
        }
        proof {
            lemma_digits_val_step(b, i - from);
        }
        let d: u64 = (c as u32 - '0' as u32) as u64;
        if over {
            proof {
                assert(digits_val(b.subrange(0, i - from + 1)) >= digits_val(
                    b.subrange(0, i - from),
                ));
            }
        } else {
            let next = acc * 10 + d;
            if next > bound {
                over = true;
                proof {
                    assert(digits_val(b.subrange(0, i - from + 1)) == next);
                }
            } else {
                acc = next;
            }
        }
        i = i + 1;
    }
    proof {
        assert(b.subrange(0, to - from) =~= b);
    }
    if over {
        Some(None)
    } else {
        Some(Some(acc))
    }
}

/// Parse a `u32` seed token, exactly as the standard unsigned parser
/// accepts it (an optional `+`, then digits, value in range).
pub fn parse_u32_token(s: &str) -> (r: Option<u32>)
    ensures
        r == spec_parse_u32(s@),
{
    let n = s.unicode_len();
    let start: usize = if n > 0 && s.get_char(0) == '+' {
        1
    } else {
        0
    };
    proof {
        if n > 0 && s@[0] == '+' {
            assert(s@.drop_first() =~= s@.subrange(1, n as int));
        } else {
            assert(s@ =~= s@.subrange(0, n as int));
        }
    }
    match scan_digits(s, start, n, 0xFFFF_FFFF) {
        None => None,
        Some(None) => None,
        Some(Some(v)) => Some(v as u32),
    }
}

/// Parse an `i32` token, exactly as the standard signed parser accepts it
/// (an optional sign, then digits, value in range).
pub fn parse_i32_token(s: &str) -> (r: Option<i32>)
    ensures
        r == spec_parse_i32(s@),
{
    let n = s.unicode_len();
    let mut neg = false;
    let mut start: usize = 0;
    if n > 0 {
        let c = s.get_char(0);
        if c == '-' {
            neg = true;
            start = 1;
        } else if c == '+' {
            start = 1;
        }
    }
    proof {
        if n > 0 && (s@[0] == '+' || s@[0] == '-') {
            assert(strip_sign(s@) =~= s@.subrange(1, n as int));
        } else {
            assert(strip_sign(s@) =~= s@.subrange(0, n as int));
        }
    }
    match scan_digits(s, start, n, 0x8000_0000) {
        None => None,
        Some(None) => None,
        Some(Some(v)) => {
            if neg {
                Some((-(v as i64)) as i32)
            } else if v <= 0x7FFF_FFFF {
                Some(v as i32)
            } else {
                None
            }
        },
    }
}

/// Whether `[from, to)` of `s` is all digits.
fn check_digits(s: &str, from: usize, to: usize) -> (r: bool)
    requires
        from <= to <= s@.len(),
    ensures
        r == all_digits(s@.subrange(from as int, to as int)),
{
    let ghost b = s@.subrange(from as int, to as int);
    let mut i = from;
    while i < to
        invariant
            from <= i <= to <= s@.len(),
            b == s@.subrange(from as int, to as int),
            forall|m: int| 0 <= m < i - from ==> is_digit(b[m]),
        decreases to - i,
    {
        let c = s.get_char(i);
        proof {
            assert(b[i - from] == s@[i as int]);
        }
        if !('0' <= c && c <= '9') {
            return false;
        }
        i = i + 1;
    }
    true
}

/// Whether `[from, to)` of `s` is a valid mantissa.
fn check_mantissa(s: &str, from: usize, to: usize) -> (r: bool)
    requires
        from <= to <= s@.len(),
    ensures
        r == is_mantissa(s@.subrange(from as int, to as int)),
{
    let ghost b = s@.subrange(from as int, to as int);
    let mut i = from;
    while i < to
        invariant
            from <= i <= to <= s@.len(),
            b == s@.subrange(from as int, to as int),
            forall|m: int| 0 <= m < i - from ==> is_digit(b[m]),
        decreases to - i,
    {
        let c = s.get_char(i);
        proof {
            assert(b[i - from] == s@[i as int]);
        }
        if '0' <= c && c <= '9' {
            i = i + 1;
        } else if c == '.' {
            let rest_ok = check_digits(s, i + 1, to);
            let ghost k = i - from;
            proof {
                assert(b[k] == '.');
                assert(b.subrange(0, k) =~= s@.subrange(from as int, i as int));
                assert(all_digits(b.subrange(0, k)));
                assert(b.subrange(k + 1, b.len() as int) =~= s@.subrange(
                    i + 1,
                    to as int,
                ));
            }
            if rest_ok && to - from >= 2 {
                return true;
            } else {
                proof {
                    assert forall|k2: int|
                        0 <= k2 < b.len() && b[k2] == '.' implies !(all_digits(
                        b.subrange(0, k2),
                    ) && all_digits(b.subrange(k2 + 1, b.len() as int)) && b.len() >= 2) by {
                        if k2 < k {
                            assert(is_digit(b[k2]));
                        } else if k2 > k {
                            if all_digits(b.subrange(k + 1, b.len() as int)) {
                                assert(b.subrange(k + 1, b.len() as int)[k2 - k - 1] == b[k2]);
                                assert(is_digit(b[k2]));
                            } else {
                                assert(b.subrange(0, k2)[k] == b[k]);
                                assert(!all_digits(b.subrange(0, k2)));
                            }
                        } else {
                            assert(!(all_digits(b.subrange(k + 1, b.len() as int)) && b.len()
                                >= 2));
                        }
                    }
                    assert(!all_digits(b));
                }
                return false;
            }
        } else {
            proof {
                let ghost k = i - from;
                assert(!is_digit(b[k]) && b[k] != '.');
                assert(!all_digits(b));
                assert forall|k2: int|
                    0 <= k2 < b.len() && b[k2] == '.' implies !(all_digits(b.subrange(0, k2))
                    && all_digits(b.subrange(k2 + 1, b.len() as int)) && b.len() >= 2) by {
                    if k2 < k {
                        assert(is_digit(b[k2]));
                    } else if k2 > k {
                        if all_digits(b.subrange(k2 + 1, b.len() as int)) {
                        }
                        if all_digits(b.subrange(0, k2)) {
                            assert(b.subrange(0, k2)[k] == b[k]);
                            assert(is_digit(b[k]));
                        }
                    }
                }
            }
            return false;
        }
    }
    proof {
        if to > from {
            assert(all_digits(b));
        } else {
            assert(b.len() == 0);
            assert(!is_mantissa(b));
        }
    }
    to > from
}

/// Whether `[from, to)` of `s` is a valid exponent body.
fn check_exp(s: &str, from: usize, to: usize) -> (r: bool)
    requires
        from <= to <= s@.len(),
    ensures
        r == is_exp_part(s@.subrange(from as int, to as int)),
{
    let ghost b = s@.subrange(from as int, to as int);
    let mut lo = from;
    if from < to {
        let c = s.get_char(from);
        if c == '+' || c == '-' {
            lo = from + 1;
        }
    }
    proof {
        if b.len() > 0 && (b[0] == '+' || b[0] == '-') {
            assert(strip_sign(b) =~= s@.subrange(lo as int, to as int));
        } else {
            assert(strip_sign(b) =~= s@.subrange(lo as int, to as int));
        }
    }
    if lo == to {
        return false;
    }
    check_digits(s, lo, to)
}

/// Whether `c` starts an exponent.
fn is_exp_marker(c: char) -> (r: bool)
    ensures
        r == (c == 'e' || c == 'E'),
{
    c == 'e' || c == 'E'
}

/// Whether the token `s` is a floating-point literal.
#[verifier::rlimit(80)]
pub fn is_float_token(s: &str) -> (r: bool)
    ensures
        r == is_float_lit(s@),
{
    let n = s.unicode_len();
    let mut start: usize = 0;
    if n > 0 {
        let c = s.get_char(0);
        if c == '+' || c == '-' {
            start = 1;
        }
    }
    let ghost b = strip_sign(s@);
    proof {
        assert(b =~= s@.subrange(start as int, n as int));
    }
    // the case-insensitive words
    if n - start == 3 {
        let c0 = s.get_char(start);
        let c1 = s.get_char(start + 1);
        let c2 = s.get_char(start + 2);
        proof {
            assert(b[0] == s@[start as int]);
            assert(b[1] == s@[start as int + 1]);
            assert(b[2] == s@[start as int + 2]);
        }
        if ((c0 == 'i' || c0 == 'I') && (c1 == 'n' || c1 == 'N') && (c2 == 'f' || c2 == 'F'))
            || ((c0 == 'n' || c0 == 'N') && (c1 == 'a' || c1 == 'A') && (c2 == 'n' || c2
            == 'N')) {
            return true;
        }
    }
    if n - start == 8 {
        let c0 = s.get_char(start);
        let c1 = s.get_char(start + 1);
        let c2 = s.get_char(start + 2);
        let c3 = s.get_char(start + 3);
        let c4 = s.get_char(start + 4);
        let c5 = s.get_char(start + 5);
        let c6 = s.get_char(start + 6);
        let c7 = s.get_char(start + 7);
        proof {
            assert forall|m: int| 0 <= m < 8 implies b[m] == s@[start + m] by {}
        }
        if (c0 == 'i' || c0 == 'I') && (c1 == 'n' || c1 == 'N') && (c2 == 'f' || c2 == 'F') && (
        c3 == 'i' || c3 == 'I') && (c4 == 'n' || c4 == 'N') && (c5 == 'i' || c5 == 'I') && (c6
            == 't' || c6 == 'T') && (c7 == 'y' || c7 == 'Y') {
            return true;
        }
    }
    // a number: find the exponent marker, if any
    let mut k = start;
    while k < n && !is_exp_marker(s.get_char(k))
        invariant
            start <= k <= n,
            n == s@.len(),
            forall|m: int| start <= m < k ==> !(s@[m] == 'e' || s@[m] == 'E'),
        decreases n - k,
    {
        k = k + 1;
    }
    let num_ok: bool = if k == n {
        check_mantissa(s, start, n)
    } else {
        let m_ok = check_mantissa(s, start, k);
        let e_ok = check_exp(s, k + 1, n);
        proof {
            assert(s@[k as int] == 'e' || s@[k as int] == 'E');
            assert(b.subrange(0, k - start) =~= s@.subrange(start as int, k as int));
            assert(b.subrange(k - start + 1, b.len() as int) =~= s@.subrange(
                k + 1,
                n as int,
            ));
        }
        if m_ok && e_ok {
            proof {
                assert(b[k - start] == s@[k as int]);
            }
            true
        } else {
            proof {
                assert forall|k2: int|
                    0 <= k2 < b.len() && (b[k2] == 'e' || b[k2] == 'E') implies !(is_mantissa(
                    b.subrange(0, k2),
                ) && is_exp_part(b.subrange(k2 + 1, b.len() as int))) by {
                    if k2 < k - start {
                        assert(b[k2] == s@[start + k2]);
                        assert(false);
                    } else if k2 > k - start {
                        if is_mantissa(b.subrange(0, k2)) {
                            lemma_mantissa_no_e(b.subrange(0, k2), k - start);
                        }
                    } else {
                        assert(!(m_ok && e_ok));
                    }
                }
                if is_mantissa(b) {
                    lemma_mantissa_no_e(b, k - start);
                }
            }
            false
        }
    };
    proof {
        if k == n {
            if is_number(b) && !is_mantissa(b) {
                let k2 = choose|k2: int|
                    0 <= k2 < b.len() && (b[k2] == 'e' || b[k2] == 'E') && is_mantissa(
                        b.subrange(0, k2),
                    ) && is_exp_part(b.subrange(k2 + 1, b.len() as int));
                assert(b[k2] == s@[start + k2]);
                assert(false);
            }
        }
    }
    num_ok
}

/// A mantissa holds no exponent marker.
proof fn lemma_mantissa_no_e(s: Seq<char>, i: int)
    requires
        is_mantissa(s),
        0 <= i < s.len(),
    ensures
        s[i] != 'e' && s[i] != 'E',
{
    if all_digits(s) {
        assert(is_digit(s[i]));
    } else {
        let k = choose|k: int|
            0 <= k < s.len() && s[k] == '.' && all_digits(s.subrange(0, k)) && all_digits(
                s.subrange(k + 1, s.len() as int),
            ) && s.len() >= 2;
        if i < k {
            assert(s.subrange(0, k)[i] == s[i]);
            assert(is_digit(s[i]));
        } else if i > k {
            assert(s.subrange(k + 1, s.len() as int)[i - k - 1] == s[i]);
            assert(is_digit(s[i]));
        }
    }
}

/// Why a parse failed.
#[derive(Debug)]
pub enum ParseError {
    /// A token that is no operator, leaf or number.
    InvalidToken(String),
    /// A token where a number was expected but could not be read as one.
    BadNumber(String),
    /// The token stream ended in the middle of an expression.
    NotEnoughTokens,
    /// The token stream ended where a number was expected.
    ExpectedNumber,
    /// Tokens remained after a complete top-level expression.
    TooManyTokens,
}

/// The mathematical shape of a parse failure.
pub enum ParseErrorView {
    InvalidToken(Seq<char>),
    BadNumber(Seq<char>),
    NotEnoughTokens,
    ExpectedNumber,
    TooManyTokens,
}

impl ParseError {
    pub open spec fn view(&self) -> ParseErrorView {
        match self {
            ParseError::InvalidToken(t) => ParseErrorView::InvalidToken(t@),
            ParseError::BadNumber(t) => ParseErrorView::BadNumber(t@),
            ParseError::NotEnoughTokens => ParseErrorView::NotEnoughTokens,
            ParseError::ExpectedNumber => ParseErrorView::ExpectedNumber,
            ParseError::TooManyTokens => ParseErrorView::TooManyTokens,
        }
    }
}

/// Take the float token at position `i`: the token itself when it is a
/// valid float literal, the exact error otherwise.
pub open spec fn spec_take_num(toks: Seq<Seq<char>>, i: int) -> Result<
    (Seq<char>, int),
    ParseErrorView,
> {
    if i < 0 || i >= toks.len() {
        Err(ParseErrorView::ExpectedNumber)
    } else if is_float_lit(toks[i]) {
        Ok((toks[i], i + 1))
    } else {
        Err(ParseErrorView::BadNumber(toks[i]))
    }
}

/// Take the `u32` seed token at position `i`.
pub open spec fn spec_take_u32(toks: Seq<Seq<char>>, i: int) -> Result<
    (u32, int),
    ParseErrorView,
> {
    if i < 0 || i >= toks.len() {
        Err(ParseErrorView::ExpectedNumber)
    } else {
        match spec_parse_u32(toks[i]) {
            Some(v) => Ok((v, i + 1)),
            None => Err(ParseErrorView::BadNumber(toks[i])),
        }
    }
}

/// Take the `i32` token at position `i`.
pub open spec fn spec_take_i32(toks: Seq<Seq<char>>, i: int) -> Result<
    (i32, int),
    ParseErrorView,
> {
    if i < 0 || i >= toks.len() {
        Err(ParseErrorView::ExpectedNumber)
    } else {
        match spec_parse_i32(toks[i]) {
            Some(v) => Ok((v, i + 1)),
            None => Err(ParseErrorView::BadNumber(toks[i])),
        }
    }
}

/// One expression parsed from the token stream starting at `i`: the tree
/// and the position after it, or the first error met. Each operator
/// consumes its fixed number of sub-expressions and number tokens.
pub open spec fn spec_parse_expr(toks: Seq<Seq<char>>, i: int) -> Result<
    (NoiseExpr, int),
    ParseErrorView,
>
    decreases toks.len() - i, 2int,
{
    if i < 0 || i >= toks.len() {
        Err(ParseErrorView::NotEnoughTokens)
    } else {
        let t = toks[i];
        if t == "c"@ {
            match spec_take_num(toks, i + 1) {
                Ok((v, j)) => Ok((NoiseExpr::Constant(v), j)),
                Err(e) => Err(e),
            }
        } else if t == "abs"@ {
            match spec_parse_expr(toks, i + 1) {
                Ok((a, j)) => Ok((NoiseExpr::Abs(Box::new(a)), j)),
                Err(e) => Err(e),
            }
        } else if t == "neg"@ {
            match spec_parse_expr(toks, i + 1) {
                Ok((a, j)) => Ok((NoiseExpr::Neg(Box::new(a)), j)),
                Err(e) => Err(e),
            }
        } else if t == "add"@ || t == "mul"@ || t == "min"@ || t == "max"@ || t == "pow"@ {
            match spec_parse_expr(toks, i + 1) {
                Ok((a, j)) => if i + 1 < j && j <= toks.len() {
                    match spec_parse_expr(toks, j) {
                        Ok((b, k)) => Ok((spec_binary(t, a, b), k)),
                        Err(e) => Err(e),
                    }
                } else {
                    Err(ParseErrorView::NotEnoughTokens)
                },
                Err(e) => Err(e),
            }
        } else if t == "powi"@ {
            match spec_take_i32(toks, i + 1) {
                Ok((v, j)) => match spec_parse_expr(toks, j) {
                    Ok((a, k)) => Ok((NoiseExpr::PowI(v as int, Box::new(a)), k)),
                    Err(e) => Err(e),
                },
                Err(e) => Err(e),
            }
        } else if t == "scalein"@ {
            match spec_take_num(toks, i + 1) {
                Ok((x, j1)) => match spec_take_num(toks, j1) {
                    Ok((y, j2)) => match spec_parse_expr(toks, j2) {
                        Ok((a, k)) => Ok((NoiseExpr::ScaleInput(x, y, Box::new(a)), k)),
                        Err(e) => Err(e),
                    },
                    Err(e) => Err(e),
                },
                Err(e) => Err(e),
            }
        } else if t == "clamp"@ {
            match spec_take_num(toks, i + 1) {
                Ok((lo, j1)) => match spec_take_num(toks, j1) {
                    Ok((hi, j2)) => match spec_parse_expr(toks, j2) {
                        Ok((a, k)) => Ok((NoiseExpr::Clamp(lo, hi, Box::new(a)), k)),
                        Err(e) => Err(e),
                    },
                    Err(e) => Err(e),
                },
                Err(e) => Err(e),
            }
        } else if t == "checkerboard"@ {
            Ok((NoiseExpr::Checkerboard, i + 1))
        } else if t == "perlin"@ {
            match spec_take_u32(toks, i + 1) {
                Ok((v, j)) => Ok((NoiseExpr::Perlin(v), j)),
                Err(e) => Err(e),
            }
        } else if t == "simplex"@ {
            match spec_take_u32(toks, i + 1) {
                Ok((v, j)) => Ok((NoiseExpr::Simplex(v), j)),
                Err(e) => Err(e),
            }
        } else {
            Err(ParseErrorView::InvalidToken(t))
        }
    }
}

/// The binary node an operator keyword builds.
pub open spec fn spec_binary(t: Seq<char>, a: NoiseExpr, b: NoiseExpr) -> NoiseExpr {
    if t == "add"@ {
        NoiseExpr::Add(Box::new(a), Box::new(b))
    } else if t == "mul"@ {
        NoiseExpr::Mul(Box::new(a), Box::new(b))
    } else if t == "min"@ {
        NoiseExpr::Min(Box::new(a), Box::new(b))
    } else if t == "max"@ {
        NoiseExpr::Max(Box::new(a), Box::new(b))
    } else {
        NoiseExpr::Pow(Box::new(a), Box::new(b))
    }
}

/// What the whole input parses to: its tokens must form exactly one
/// expression, with nothing left over.
pub open spec fn spec_parse(s: Seq<char>) -> Result<NoiseExpr, ParseErrorView> {
    let toks = spec_tokenize(s);
    match spec_parse_expr(toks, 0) {
        Ok((t, j)) => if j == toks.len() {
            Ok(t)
        } else {
            Err(ParseErrorView::TooManyTokens)
        },
        Err(e) => Err(e),
    }
}

/// The shape of an exec parse step's result.
pub open spec fn res_view(r: Result<(NoiseBuilder, usize), ParseError>) -> Result<
    (NoiseExpr, int),
    ParseErrorView,
> {
    match r {
        Ok((t, j)) => Ok((t@, j as int)),
        Err(e) => Err(e@),
    }
}

/// Parses a float token out of the token stream. The token must be a valid
/// floating-point literal; it is returned as written, for the host to read
/// its value.
pub fn parse(tokens: &Vec<String>, i: usize) -> (r: Result<(String, usize), ParseError>)
    requires
        i <= tokens.len(),
    ensures
        (match r {
            Ok((v, j)) => spec_take_num(tokens.deep_view(), i as int) == Ok::<
                (Seq<char>, int),
                ParseErrorView,
            >((v@, j as int)) && is_float_lit(v@),
            Err(e) => spec_take_num(tokens.deep_view(), i as int) == Err::<
                (Seq<char>, int),
                ParseErrorView,
            >(e@),
        }),
{
    proof {
        assert(tokens.deep_view().len() == tokens.len());
    }
    if i >= tokens.len() {
        return Err(ParseError::ExpectedNumber);
    }
    let t = &tokens[i];
    proof {
        assert(tokens.deep_view()[i as int] == tokens[i as int]@);
    }
    if is_float_token(t.as_str()) {
        Ok((t.clone(), i + 1))
    } else {
        Err(ParseError::BadNumber(t.clone()))
    }
}

/// Parses a `u32` seed token out of the token stream.
fn parse_seed(tokens: &Vec<String>, i: usize) -> (r: Result<(u32, usize), ParseError>)
    requires
        i <= tokens.len(),
    ensures
        (match r {
            Ok((v, j)) => spec_take_u32(tokens.deep_view(), i as int) == Ok::<
                (u32, int),
                ParseErrorView,
            >((v, j as int)),
            Err(e) => spec_take_u32(tokens.deep_view(), i as int) == Err::<
                (u32, int),
                ParseErrorView,
            >(e@),
        }),
{
    proof {
        assert(tokens.deep_view().len() == tokens.len());
    }
    if i >= tokens.len() {
        return Err(ParseError::ExpectedNumber);
    }
    let t = &tokens[i];
    proof {
        assert(tokens.deep_view()[i as int] == tokens[i as int]@);
    }
    match parse_u32_token(t.as_str()) {
        Some(v) => Ok((v, i + 1)),
        None => Err(ParseError::BadNumber(t.clone())),
    }
}

/// Parses an `i32` exponent token out of the token stream.
fn parse_int(tokens: &Vec<String>, i: usize) -> (r: Result<(i32, usize), ParseError>)
    requires
        i <= tokens.len(),
    ensures
        (match r {
            Ok((v, j)) => spec_take_i32(tokens.deep_view(), i as int) == Ok::<
                (i32, int),
                ParseErrorView,
            >((v, j as int)),
            Err(e) => spec_take_i32(tokens.deep_view(), i as int) == Err::<
                (i32, int),
                ParseErrorView,
            >(e@),
        }),
{
    proof {
        assert(tokens.deep_view().len() == tokens.len());
    }
    if i >= tokens.len() {
        return Err(ParseError::ExpectedNumber);
    }
    let t = &tokens[i];
    proof {
        assert(tokens.deep_view()[i as int] == tokens[i as int]@);
    }
    match parse_i32_token(t.as_str()) {
        Some(v) => Ok((v, i + 1)),
        None => Err(ParseError::BadNumber(t.clone())),
    }
}

/// Whether the token equals the keyword.
fn kw(t: &String, w: &str) -> (r: bool)
    ensures
        r == (t@ == w@),
{
    let o: String = w.to_owned();
    *t == o
}

/// A boxed sub-expression parsed from the token stream.
fn eval(tokens: &Vec<String>, i: usize) -> (r: Result<(Box<NoiseBuilder>, usize), ParseError>)
    requires
        i <= tokens.len(),
    ensures
        (match r {
            Ok((t, j)) => spec_parse_expr(tokens.deep_view(), i as int) == Ok::<
                (NoiseExpr, int),
                ParseErrorView,
            >((t@, j as int)) && i < j <= tokens.len() && t.wf(),
            Err(e) => spec_parse_expr(tokens.deep_view(), i as int) == Err::<
                (NoiseExpr, int),
                ParseErrorView,
            >(e@),
        }),
    decreases tokens.len() - i, 1int,
{
    match NoiseBuilder::from_tokens(tokens, i) {
        Ok((t, j)) => Ok((Box::new(t), j)),
        Err(e) => Err(e),
    }
}

impl NoiseBuilder {
    /// One expression parsed from the token stream starting at `i`,
    /// exactly as the grammar says.
    #[verifier::rlimit(100)]
    fn from_tokens(tokens: &Vec<String>, i: usize) -> (r: Result<(NoiseBuilder, usize), ParseError>)
        requires
            i <= tokens.len(),
        ensures
            res_view(r) == spec_parse_expr(tokens.deep_view(), i as int),
            (r matches Ok(p) ==> i < p.1 <= tokens.len() && p.0.wf()),
        decreases tokens.len() - i, 0int,
    {
        let ghost toks = tokens.deep_view();
        proof {
            assert(toks.len() == tokens.len());
        }
        if i >= tokens.len() {
            return Err(ParseError::NotEnoughTokens);
        }
        let t = &tokens[i];
        proof {
            assert(toks[i as int] == tokens[i as int]@);
        }
        if kw(t, "c") {
            match parse(tokens, i + 1) {
                Ok((v, j)) => Ok((NoiseBuilder::Constant(v), j)),
                Err(e) => Err(e),
            }
        } else if kw(t, "abs") {
            match eval(tokens, i + 1) {
                Ok((a, j)) => Ok((NoiseBuilder::Abs(a), j)),
                Err(e) => Err(e),
            }
        } else if kw(t, "neg") {
            match eval(tokens, i + 1) {
                Ok((a, j)) => Ok((NoiseBuilder::Neg(a), j)),
                Err(e) => Err(e),
            }
        } else if kw(t, "add") {
            match eval(tokens, i + 1) {
                Ok((a, j)) => match eval(tokens, j) {
                    Ok((b, k)) => Ok((NoiseBuilder::Add(a, b), k)),
                    Err(e) => Err(e),
                },
                Err(e) => Err(e),
            }
        } else if kw(t, "mul") {
            match eval(tokens, i + 1) {
                Ok((a, j)) => match eval(tokens, j) {
                    Ok((b, k)) => Ok((NoiseBuilder::Mul(a, b), k)),
                    Err(e) => Err(e),
                },
                Err(e) => Err(e),
            }
        } else if kw(t, "min") {
            match eval(tokens, i + 1) {
                Ok((a, j)) => match eval(tokens, j) {
                    Ok((b, k)) => Ok((NoiseBuilder::Min(a, b), k)),
                    Err(e) => Err(e),
                },
                Err(e) => Err(e),
            }
        } else if kw(t, "max") {
            match eval(tokens, i + 1) {
                Ok((a, j)) => match eval(tokens, j) {
                    Ok((b, k)) => Ok((NoiseBuilder::Max(a, b), k)),
                    Err(e) => Err(e),
                },
                Err(e) => Err(e),
            }
        } else if kw(t, "pow") {
            match eval(tokens, i + 1) {
                Ok((a, j)) => match eval(tokens, j) {
                    Ok((b, k)) => Ok((NoiseBuilder::Pow(a, b), k)),
                    Err(e) => Err(e),
                },
                Err(e) => Err(e),
            }
        } else if kw(t, "powi") {
            match parse_int(tokens, i + 1) {
                Ok((v, j)) => match eval(tokens, j) {
                    Ok((a, k)) => Ok((NoiseBuilder::PowI(v, a), k)),
                    Err(e) => Err(e),
                },
                Err(e) => Err(e),
            }
        } else if kw(t, "scalein") {
            match parse(tokens, i + 1) {
                Ok((x, j1)) => match parse(tokens, j1) {
                    Ok((y, j2)) => match eval(tokens, j2) {
                        Ok((a, k)) => Ok((NoiseBuilder::ScaleInput(x, y, a), k)),
                        Err(e) => Err(e),
                    },
                    Err(e) => Err(e),
                },
                Err(e) => Err(e),
            }
        } else if kw(t, "clamp") {
            match parse(tokens, i + 1) {
                Ok((lo, j1)) => match parse(tokens, j1) {
                    Ok((hi, j2)) => match eval(tokens, j2) {
                        Ok((a, k)) => Ok((NoiseBuilder::Clamp(lo, hi, a), k)),
                        Err(e) => Err(e),
                    },
                    Err(e) => Err(e),
                },
                Err(e) => Err(e),
            }
        } else if kw(t, "checkerboard") {
            Ok((NoiseBuilder::Checkerboard, i + 1))
        } else if kw(t, "perlin") {
            match parse_seed(tokens, i + 1) {
                Ok((v, j)) => Ok((NoiseBuilder::Perlin(v), j)),
                Err(e) => Err(e),
            }
        } else if kw(t, "simplex") {
            match parse_seed(tokens, i + 1) {
                Ok((v, j)) => Ok((NoiseBuilder::Simplex(v), j)),
                Err(e) => Err(e),
            }
        } else {
            Err(ParseError::InvalidToken(t.clone()))
        }
    }

    /// Parse a whitespace-tokenized prefix expression: each operator is a
    /// lowercase word, a constant is `c` followed by its value, and an
    /// operator's operands follow it with no parentheses. Fails on an
    /// unknown token, a bad number, a stream that ends mid-expression, or
    /// tokens left over after one complete expression.
    pub fn parse(string: &str) -> (r: Result<NoiseBuilder, ParseError>)
        ensures
            (match r {
                Ok(t) => spec_parse(string@) == Ok::<NoiseExpr, ParseErrorView>(t@) && t.wf(),
                Err(e) => spec_parse(string@) == Err::<NoiseExpr, ParseErrorView>(e@),
            }),
    {
        let tokens = tokenize(string);
        proof {
            assert(tokens.deep_view().len() == tokens.len());
        }
        match Self::from_tokens(&tokens, 0) {
            Ok((t, j)) => {
                if j == tokens.len() {
                    Ok(t)
                } else {
                    Err(ParseError::TooManyTokens)
                }
            },
            Err(e) => Err(e),
        }
    }
}

} // verus!
