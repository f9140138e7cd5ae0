use vstd::prelude::*;
use crate::decimal::{pow10, Decimal, MANT_LIMIT, MAX_SCALE};
use crate::ir::{StimInstr, StimTarget};

verus! {

/// What a program text was rejected for.
#[derive(Debug, Clone, Copy, PartialEq, Eq, Structural)]
pub enum ParseErrorKind {
    UnmatchedBrace,
    RepeatZero,
    OnlyRepeatOpensBlock,
    MissingRepeatCount,
    BadRepeatCount,
    BadArgs,
    BadArg,
    BadRecTarget,
    RecNonNegative,
    UnsupportedTarget,
    UnterminatedRepeat,
    NonAscii,
}

/// A rejection, with the 1-based line it was found on (0 when the input as
/// a whole is at fault).
#[derive(Debug, Clone, Copy, PartialEq, Eq, Structural)]
pub struct ParseError {
    pub line: usize,
    pub kind: ParseErrorKind,
}

impl ParseError {
    /// A short description, in the words the parser's callers print.
    pub fn message(&self) -> (r: String)
        ensures
            match self.kind {
                ParseErrorKind::UnmatchedBrace => r@ == "unmatched brace"@,
                ParseErrorKind::RepeatZero => r@ == "REPEAT 0 not allowed"@,
                ParseErrorKind::OnlyRepeatOpensBlock => r@ == "only REPEAT opens a block"@,
                ParseErrorKind::MissingRepeatCount => r@ == "missing repeat count"@,
                ParseErrorKind::BadRepeatCount => r@ == "bad repeat count"@,
                ParseErrorKind::BadArgs => r@ == "bad argument list"@,
                ParseErrorKind::BadArg => r@ == "bad argument"@,
                ParseErrorKind::BadRecTarget => r@ == "bad rec target"@,
                ParseErrorKind::RecNonNegative => r@ == "rec must be negative"@,
                ParseErrorKind::UnsupportedTarget => r@ == "unsupported target"@,
                ParseErrorKind::UnterminatedRepeat => r@ == "unterminated REPEAT block"@,
                ParseErrorKind::NonAscii => r@ == "program text must be ASCII"@,
            },
    {
        match self.kind {
            ParseErrorKind::UnmatchedBrace => String::from_str("unmatched brace"),
            ParseErrorKind::RepeatZero => String::from_str("REPEAT 0 not allowed"),
            ParseErrorKind::OnlyRepeatOpensBlock => String::from_str("only REPEAT opens a block"),
            ParseErrorKind::MissingRepeatCount => String::from_str("missing repeat count"),
            ParseErrorKind::BadRepeatCount => String::from_str("bad repeat count"),
            ParseErrorKind::BadArgs => String::from_str("bad argument list"),
            ParseErrorKind::BadArg => String::from_str("bad argument"),
            ParseErrorKind::BadRecTarget => String::from_str("bad rec target"),
            ParseErrorKind::RecNonNegative => String::from_str("rec must be negative"),
            ParseErrorKind::UnsupportedTarget => String::from_str("unsupported target"),
            ParseErrorKind::UnterminatedRepeat => String::from_str("unterminated REPEAT block"),
            ParseErrorKind::NonAscii => String::from_str("program text must be ASCII"),
        }
    }
}

/// ASCII whitespace, as the tokenizer skips it.
pub open spec fn is_ws(b: u8) -> bool {
    b == 32 || b == 9 || b == 10 || b == 11 || b == 12 || b == 13
}

pub open spec fn is_digit(b: u8) -> bool {
    48 <= b <= 57
}

pub open spec fn all_digits(s: Seq<u8>) -> bool {
    forall|k: int| 0 <= k < s.len() ==> is_digit(#[trigger] s[k])
}

/// The value of the first `k` bytes read as decimal digits; junk bytes
/// count as zero, and `all_digits` guards every use.
pub open spec fn digits_val(s: Seq<u8>, k: int) -> nat
    decreases k,
{
    if k <= 0 {
        0
    } else {
        10 * digits_val(s, k - 1) + (if is_digit(s[k - 1]) {
            (s[k - 1] - 48) as nat
        } else {
            0
        })
    }
}

proof fn lemma_digits_val_mono(s: Seq<u8>, a: int, b: int)
    requires
        a <= b,
    ensures
        digits_val(s, a) <= digits_val(s, b),
    decreases b,
{
    if a < b && b > 0 {
        lemma_digits_val_mono(s, a, b - 1);
    }
}

/// The digit value reads only the first `k` bytes.
proof fn lemma_digits_val_congruent(s1: Seq<u8>, s2: Seq<u8>, k: int)
    requires
        forall|j: int| 0 <= j < k ==> s1[j] == s2[j],
    ensures
        digits_val(s1, k) == digits_val(s2, k),
    decreases k,
{
    if k > 0 {
        lemma_digits_val_congruent(s1, s2, k - 1);
    }
}

/// An unsigned decimal numeral, no larger than `cap`.
pub open spec fn parse_uint_spec(s: Seq<u8>, cap: nat) -> Option<nat> {
    if s.len() >= 1 && all_digits(s) && digits_val(s, s.len() as int) <= cap {
        Some(digits_val(s, s.len() as int))
    } else {
        None
    }
}

/// A signed integer numeral in `[-(mag_neg), mag_pos]`, as `parse::<i32>`
/// and its kin accept one: an optional sign, then digits.
pub open spec fn parse_int_spec(s: Seq<u8>, mag_pos: nat, mag_neg: nat) -> Option<int> {
    if s.len() >= 1 && (s[0] == 43 || s[0] == 45) {
        match parse_uint_spec(s.skip(1), if s[0] == 45 {
            mag_neg
        } else {
            mag_pos
        }) {
            Some(v) => Some(
                if s[0] == 45 {
                    -(v as int)
                } else {
                    v as int
                },
            ),
            None => None,
        }
    } else {
        match parse_uint_spec(s, mag_pos) {
            Some(v) => Some(v as int),
            None => None,
        }
    }
}

/// The position of the first `b` at or after `i`, or the length.
pub open spec fn find_byte(s: Seq<u8>, b: u8, i: int) -> int
    decreases s.len() - i,
{
    if i < 0 {
        0
    } else if i >= s.len() {
        s.len() as int
    } else if s[i] == b {
        i
    } else {
        find_byte(s, b, i + 1)
    }
}

proof fn lemma_find_byte(s: Seq<u8>, b: u8, i: int)
    requires
        0 <= i <= s.len(),
    ensures
        i <= find_byte(s, b, i) <= s.len(),
        forall|j: int| i <= j < find_byte(s, b, i) ==> s[j] != b,
        find_byte(s, b, i) < s.len() ==> s[find_byte(s, b, i)] == b,
    decreases s.len() - i,
{
    if i < s.len() && s[i] != b {
        lemma_find_byte(s, b, i + 1);
    }
}

/// A decimal numeral with an optional sign and an optional fraction point:
/// the exact value `mant / 10^scale`, rejected when it has no digit at
/// all, a second point, or a mantissa out of range. Fractional digits
/// beyond the carried precision are read and then truncated away.
pub open spec fn parse_decimal_spec(s: Seq<u8>) -> Option<Decimal> {
    let neg = s.len() >= 1 && s[0] == 45;
    let start: int = if s.len() >= 1 && (s[0] == 43 || s[0] == 45) {
        1
    } else {
        0
    };
    let dot = find_byte(s, 46, start);
    let ipart = s.subrange(start, dot);
    let fpart = if dot < s.len() {
        s.subrange(dot + 1, s.len() as int)
    } else {
        Seq::empty()
    };
    let fl: int = if fpart.len() <= MAX_SCALE {
        fpart.len() as int
    } else {
        MAX_SCALE as int
    };
    if ipart.len() + fpart.len() >= 1 && all_digits(ipart) && all_digits(fpart) && digits_val(
        ipart,
        ipart.len() as int,
    ) * pow10(fl as nat) + digits_val(fpart, fl) <= MANT_LIMIT {
        let m = digits_val(ipart, ipart.len() as int) * pow10(fl as nat) + digits_val(fpart, fl);
        Some(
            Decimal {
                mant: if neg {
                    -(m as int) as i128
                } else {
                    m as i128
                },
                scale: fl as u32,
            },
        )
    } else {
        None
    }
}

/// What one target token denotes, or why it is refused: `rec[-k]` is the
/// k-th most recent record bit (a non-negative index is refused), `!q` an
/// inverted-measurement qubit, a bare numeral a qubit.
pub open spec fn parse_target_spec(s: Seq<u8>) -> Result<StimTarget, ParseErrorKind> {
    if s.len() >= 4 && s[0] == 114 && s[1] == 101 && s[2] == 99 && s[3] == 91 && s[s.len() - 1]
        == 93 {
        match parse_int_spec(s.subrange(4, s.len() - 1), 0x7fff_ffff, 0x8000_0000) {
            Some(v) => if v >= 0 {
                Err(ParseErrorKind::RecNonNegative)
            } else {
                Ok(StimTarget::Rec(v as i32))
            },
            None => Err(ParseErrorKind::BadRecTarget),
        }
    } else if s.len() >= 1 && s[0] == 33 {
        match parse_uint_spec(s.skip(1), 0xffff_ffff) {
            Some(q) => Ok(StimTarget::QubitInv(q as u32)),
            None => Err(ParseErrorKind::UnsupportedTarget),
        }
    } else {
        match parse_uint_spec(s, 0xffff_ffff) {
            Some(q) => Ok(StimTarget::Qubit(q as u32)),
            None => Err(ParseErrorKind::UnsupportedTarget),
        }
    }
}

/// Digits of `s[from..to]` as a number no larger than `cap`.
fn parse_uint_range(s: &[u8], from: usize, to: usize, cap: u128) -> (r: Option<u128>)
    requires
        from <= to <= s@.len(),
        cap < 0x1_0000_0000_0000_0000_0000_0000u128,
    ensures
        match r {
            Some(v) => parse_uint_spec(s@.subrange(from as int, to as int), cap as nat) == Some(
                v as nat,
            ),
            None => parse_uint_spec(s@.subrange(from as int, to as int), cap as nat) is None,
        },
{
    let ghost sub = s@.subrange(from as int, to as int);
    if from == to {
        return None;
    }
    let mut acc: u128 = 0;
    let mut i: usize = from;
    while i < to
        invariant
            from <= i <= to <= s@.len(),
            sub == s@.subrange(from as int, to as int),
            cap < 0x1_0000_0000_0000_0000_0000_0000u128,
            acc as nat == digits_val(sub, i - from),
            acc <= cap,
            forall|k: int| 0 <= k < i - from ==> is_digit(#[trigger] sub[k]),
        decreases to - i,
    {
        let b = s[i];
        proof {
            assert(sub[i - from] == b);
        }
        if !(48 <= b && b <= 57) {
            return None;
        }
        let d = (b - 48) as u128;
        let next: u128 = acc * 10 + d;
        if next > cap {
            proof {
                lemma_digits_val_mono(sub, i - from + 1, sub.len() as int);
            }
            return None;
        }
        acc = next;
        i = i + 1;
    }
    Some(acc)
}

/// `s[from..to]` as a signed number: an optional sign, then digits.
fn parse_int_range(s: &[u8], from: usize, to: usize, mag_pos: u128, mag_neg: u128) -> (r: Option<
    i128,
>)
    requires
        from <= to <= s@.len(),
        mag_pos < 0x8000_0000_0000_0000_0000_0000u128,
        mag_neg < 0x8000_0000_0000_0000_0000_0000u128,
    ensures
        match r {
            Some(v) => parse_int_spec(
                s@.subrange(from as int, to as int),
                mag_pos as nat,
                mag_neg as nat,
            ) == Some(v as int),
            None => parse_int_spec(
                s@.subrange(from as int, to as int),
                mag_pos as nat,
                mag_neg as nat,
            ) is None,
        },
{
    let ghost sub = s@.subrange(from as int, to as int);
    if from < to && (s[from] == 43 || s[from] == 45) {
        let neg = s[from] == 45;
        proof {
            assert(sub[0] == s@[from as int]);
            assert(sub.skip(1) =~= s@.subrange(from as int + 1, to as int));
        }
        match parse_uint_range(s, from + 1, to, if neg {
            mag_neg
        } else {
            mag_pos
        }) {
            Some(v) => {
                if neg {
                    Some(-(v as i128))
                } else {
                    Some(v as i128)
                }
            },
            None => None,
        }
    } else {
        proof {
            if from < to {
                assert(sub[0] == s@[from as int]);
            }
        }
        match parse_uint_range(s, from, to, mag_pos) {
            Some(v) => Some(v as i128),
            None => None,
        }
    }
}

/// `s[from..to]` as an exact decimal.
#[verifier::rlimit(100)]
fn parse_decimal_range(s: &[u8], from: usize, to: usize) -> (r: Option<Decimal>)
    requires
        from <= to <= s@.len(),
    ensures
        r == parse_decimal_spec(s@.subrange(from as int, to as int)),
        r matches Some(d) ==> d.inv(),
{
    let ghost sub = s@.subrange(from as int, to as int);
    let mut neg = false;
    let mut start = from;
    if from < to && (s[from] == 43 || s[from] == 45) {
        neg = s[from] == 45;
        start = from + 1;
    }
    proof {
        if from < to {
            assert(sub[0] == s@[from as int]);
        }
    }
    // Find the fraction point.
    let mut dot = start;
    while dot < to && s[dot] != 46
        invariant
            from <= start <= dot <= to <= s@.len(),
            sub == s@.subrange(from as int, to as int),
            forall|j: int| start - from <= j < dot - from ==> sub[j] != 46,
        decreases to - dot,
    {
        proof {
            assert(sub[dot - from] == s@[dot as int]);
        }
        dot = dot + 1;
    }
    proof {
        if dot < to {
            assert(sub[dot - from] == s@[dot as int]);
        }
        lemma_find_byte(sub, 46, start - from);
        assert(find_byte(sub, 46, (start - from) as int) == dot - from) by {
            let f = find_byte(sub, 46, (start - from) as int);
            if f < dot - from {
                assert(sub[f] == 46);
            }
            if dot - from < f {
                assert(sub[dot - from] != 46);
            }
        }
        assert(s@.subrange(start as int, dot as int) =~= sub.subrange(
            (start - from) as int,
            (dot - from) as int,
        ));
    }
    let ipart_val = parse_uint_range(s, start, dot, 0x7fff_ffff_ffff_ffffu128);
    let fstart = if dot < to {
        dot + 1
    } else {
        to
    };
    proof {
        if dot < to {
            assert(s@.subrange(fstart as int, to as int) =~= sub.subrange(
                (dot - from + 1) as int,
                sub.len() as int,
            ));
        }
    }
    let flen = to - fstart;
    let fl = if flen > 18 {
        18
    } else {
        flen
    };
    let ghost gipart = sub.subrange((start - from) as int, (dot - from) as int);
    let ghost gfpart = if dot - from < sub.len() {
        sub.subrange((dot - from + 1) as int, sub.len() as int)
    } else {
        Seq::<u8>::empty()
    };
    proof {
        assert(gfpart.len() == flen);
    }
    // Fractional digits beyond the carried precision must still be digits;
    // they are then truncated away.
    let mut td = fstart + fl;
    while td < to
        invariant
            fstart + fl <= td <= to <= s@.len(),
            from <= start <= dot <= to,
            fstart as int == (if dot < to {
                dot + 1
            } else {
                to as int
            }),
            fl == (if to - fstart > 18 {
                18int
            } else {
                (to - fstart) as int
            }),
            (start - from) as int == (if sub.len() >= 1 && (sub[0] == 43 || sub[0] == 45) {
                1int
            } else {
                0int
            }),
            dot - from == find_byte(sub, 46, (start - from) as int),
            gfpart == (if dot - from < sub.len() {
                sub.subrange((dot - from + 1) as int, sub.len() as int)
            } else {
                Seq::<u8>::empty()
            }),
            sub == s@.subrange(from as int, to as int),
            forall|j: int| fl <= j < td - fstart ==> is_digit(gfpart[j]),
        decreases to - td,
    {
        proof {
            assert(gfpart[td - fstart] == s@[td as int]);
        }
        if !(48 <= s[td] && s[td] <= 57) {
            proof {
                assert(!all_digits(gfpart));
            }
            return None;
        }
        td = td + 1;
    }
    let ghost gfkept = gfpart.subrange(0, fl as int);
    proof {
        assert(s@.subrange(fstart as int, (fstart + fl) as int) =~= gfkept);
        lemma_digits_val_congruent(gfkept, gfpart, fl as int);
    }
    let fpart_val = if fstart < to {
        parse_uint_range(s, fstart, fstart + fl, 0x7fff_ffff_ffff_ffffu128)
    } else {
        None
    };
    let iv: u128;
    let fv: u128;
    match (ipart_val, fpart_val) {
        (Some(a), Some(b)) => {
            iv = a;
            fv = b;
        },
        (Some(a), None) => {
            if fstart < to {
                // A fraction part was present but malformed or out of range.
                proof {
                    if all_digits(gfpart) && digits_val(gfpart, fl as int)
                        <= 0x7fff_ffff_ffff_ffff {
                        assert(all_digits(gfkept)) by {
                            assert forall|j: int| 0 <= j < gfkept.len() implies is_digit(
                                #[trigger] gfkept[j],
                            ) by {
                                assert(gfkept[j] == gfpart[j]);
                            }
                        }
                        assert(parse_uint_spec(gfkept, 0x7fff_ffff_ffff_ffffnat) is Some);
                    }
                    if all_digits(gfpart) && digits_val(gfpart, fl as int)
                        > 0x7fff_ffff_ffff_ffff {
                        crate::decimal::lemma_pow10_positive(fl as nat);
                        assert(digits_val(gipart, gipart.len() as int) * pow10(fl as nat)
                            + digits_val(gfpart, fl as int) > MANT_LIMIT)
                            by (nonlinear_arith)
                            requires
                                digits_val(gfpart, fl as int) > MANT_LIMIT,
                                digits_val(gipart, gipart.len() as int) >= 0,
                                pow10(fl as nat) >= 1,
                        ;
                    }
                }
                return None;
            }
            iv = a;
            fv = 0;
        },
        (None, Some(b)) => {
            if start < dot {
                proof {
                    if all_digits(gipart) && digits_val(gipart, gipart.len() as int)
                        > 0x7fff_ffff_ffff_ffff {
                        crate::decimal::lemma_pow10_positive(fl as nat);
                        assert(digits_val(gipart, gipart.len() as int) * pow10(fl as nat)
                            + digits_val(gfpart, fl as int) > MANT_LIMIT)
                            by (nonlinear_arith)
                            requires
                                digits_val(gipart, gipart.len() as int) > MANT_LIMIT,
                                digits_val(gfpart, fl as int) >= 0,
                                pow10(fl as nat) >= 1,
                        ;
                    }
                }
                return None;
            }
            iv = 0;
            fv = b;
        },
        (None, None) => {
            proof {
                if gipart.len() + gfpart.len() >= 1 && all_digits(gipart) && all_digits(gfpart) {
                    assert(all_digits(gfkept)) by {
                        assert forall|j: int| 0 <= j < gfkept.len() implies is_digit(
                            #[trigger] gfkept[j],
                        ) by {
                            assert(gfkept[j] == gfpart[j]);
                        }
                    }
                    if gipart.len() >= 1 && digits_val(gipart, gipart.len() as int)
                        <= 0x7fff_ffff_ffff_ffff {
                        assert(parse_uint_spec(gipart, 0x7fff_ffff_ffff_ffffnat) is Some);
                    }
                    if gfkept.len() >= 1 && digits_val(gfpart, fl as int)
                        <= 0x7fff_ffff_ffff_ffff {
                        assert(parse_uint_spec(gfkept, 0x7fff_ffff_ffff_ffffnat) is Some);
                    }
                    if gipart.len() >= 1 && digits_val(gipart, gipart.len() as int)
                        > 0x7fff_ffff_ffff_ffff {
                        crate::decimal::lemma_pow10_positive(fl as nat);
                        assert(digits_val(gipart, gipart.len() as int) * pow10(fl as nat)
                            + digits_val(gfpart, fl as int) > MANT_LIMIT)
                            by (nonlinear_arith)
                            requires
                                digits_val(gipart, gipart.len() as int) > MANT_LIMIT,
                                digits_val(gfpart, fl as int) >= 0,
                                pow10(fl as nat) >= 1,
                        ;
                    }
                    if gfkept.len() >= 1 && digits_val(gfpart, fl as int)
                        > 0x7fff_ffff_ffff_ffff {
                        crate::decimal::lemma_pow10_positive(fl as nat);
                        assert(digits_val(gipart, gipart.len() as int) * pow10(fl as nat)
                            + digits_val(gfpart, fl as int) > MANT_LIMIT)
                            by (nonlinear_arith)
                            requires
                                digits_val(gfpart, fl as int) > MANT_LIMIT,
                                digits_val(gipart, gipart.len() as int) >= 0,
                                pow10(fl as nat) >= 1,
                        ;
                    }
                }
            }
            return None;
        },
    }
    let scale = fl as u32;
    let p = crate::decimal::pow10_u64(scale);
    proof {
        crate::decimal::lemma_pow10_18();
        crate::decimal::lemma_pow10_le(scale as nat, 18);
        assert(iv as nat * pow10(scale as nat) <= 0x7fff_ffff_ffff_ffff
            * 1_000_000_000_000_000_000) by (nonlinear_arith)
            requires
                iv as nat <= 0x7fff_ffff_ffff_ffff,
                pow10(scale as nat) <= 1_000_000_000_000_000_000,
        ;
    }
    let m: u128 = iv * (p as u128) + fv;
    if m > 0x7fff_ffff_ffff_ffffu128 {
        return None;
    }
    let mant: i128 = if neg {
        -(m as i128)
    } else {
        m as i128
    };
    Some(Decimal { mant, scale })
}

/// The position of the first `b` in `[i, hi)`, or `hi`.
pub open spec fn find_before(s: Seq<u8>, b: u8, i: int, hi: int) -> int
    decreases hi - i,
{
    if i >= hi {
        hi
    } else if s[i] == b {
        i
    } else {
        find_before(s, b, i + 1, hi)
    }
}

proof fn lemma_find_before(s: Seq<u8>, b: u8, i: int, hi: int)
    requires
        0 <= i <= hi <= s.len(),
    ensures
        i <= find_before(s, b, i, hi) <= hi,
        forall|j: int| i <= j < find_before(s, b, i, hi) ==> s[j] != b,
        find_before(s, b, i, hi) < hi ==> s[find_before(s, b, i, hi)] == b,
    decreases hi - i,
{
    if i < hi && s[i] != b {
        lemma_find_before(s, b, i + 1, hi);
    }
}

/// The start of `[a, b)` once leading whitespace is dropped.
pub open spec fn ltrim_idx(s: Seq<u8>, a: int, b: int) -> int
    decreases b - a,
{
    if a >= b {
        a
    } else if is_ws(s[a]) {
        ltrim_idx(s, a + 1, b)
    } else {
        a
    }
}

/// The end of `[a, b)` once trailing whitespace is dropped.
pub open spec fn rtrim_idx(s: Seq<u8>, a: int, b: int) -> int
    decreases b - a,
{
    if b <= a {
        b
    } else if is_ws(s[b - 1]) {
        rtrim_idx(s, a, b - 1)
    } else {
        b
    }
}

/// The comma-separated decimal arguments in `[pos, b)`, each trimmed; an
/// empty or malformed piece is the error.
pub open spec fn args_from_spec(s: Seq<u8>, pos: int, b: int) -> Result<Seq<Decimal>, ParseErrorKind>
    decreases b - pos,
{
    let c0 = find_before(s, 44, pos, b);
    let c = if c0 < pos {
        pos
    } else {
        c0
    };
    let ts = ltrim_idx(s, pos, c);
    let te = rtrim_idx(s, ts, c);
    match parse_decimal_spec(s.subrange(ts, te)) {
        None => Err(ParseErrorKind::BadArg),
        Some(d) => {
            if c >= b {
                Ok(seq![d])
            } else if c + 1 >= b {
                Err(ParseErrorKind::BadArg)
            } else {
                match args_from_spec(s, c + 1, b) {
                    Ok(rest) => Ok(seq![d] + rest),
                    Err(e) => Err(e),
                }
            }
        },
    }
}

/// A first token split into its name and its parenthesized argument list:
/// the name runs to the first `(`; an argument list must close the token,
/// may be empty, and otherwise holds comma-separated decimals.
pub open spec fn split_name_args_spec(tok: Seq<u8>) -> Result<
    (Seq<u8>, Seq<Decimal>),
    ParseErrorKind,
> {
    let p = find_before(tok, 40, 0, tok.len() as int);
    let name = tok.subrange(0, p);
    if p >= tok.len() {
        Ok((name, Seq::empty()))
    } else if tok[tok.len() - 1] != 41 {
        Err(ParseErrorKind::BadArgs)
    } else {
        let a = ltrim_idx(tok, p + 1, tok.len() - 1);
        let b = rtrim_idx(tok, a, tok.len() - 1);
        if a >= b {
            Ok((name, Seq::empty()))
        } else {
            match args_from_spec(tok, a, b) {
                Ok(args) => Ok((name, args)),
                Err(e) => Err(e),
            }
        }
    }
}

/// The position of the first whitespace byte in `[i, hi)`, or `hi`: the
/// end of the token starting at `i`.
pub open spec fn token_end(s: Seq<u8>, i: int, hi: int) -> int
    decreases hi - i,
{
    if i >= hi {
        hi
    } else if is_ws(s[i]) {
        i
    } else {
        token_end(s, i + 1, hi)
    }
}

proof fn lemma_token_end(s: Seq<u8>, i: int, hi: int)
    requires
        0 <= i <= hi <= s.len(),
    ensures
        i <= token_end(s, i, hi) <= hi,
        forall|j: int| i <= j < token_end(s, i, hi) ==> !is_ws(s[j]),
        token_end(s, i, hi) < hi ==> is_ws(s[token_end(s, i, hi)]),
    decreases hi - i,
{
    if i < hi && !is_ws(s[i]) {
        lemma_token_end(s, i + 1, hi);
    }
}

/// An instruction as mathematics: names and tags as character sequences,
/// arguments and targets as the plain values they are.
#[verifier::ext_equal]
pub ghost enum InstrV {
    Op { name: Seq<char>, tag: Option<Seq<char>>, args: Seq<Decimal>, targets: Seq<StimTarget> },
    Repeat { count: u64, body: Seq<InstrV> },
}

/// The mathematical view of one instruction.
pub open spec fn instr_view(i: StimInstr) -> InstrV
    decreases i,
{
    match i {
        StimInstr::Op { name, tag, args, targets } => InstrV::Op {
            name: name@,
            tag: match tag {
                Some(t) => Some(t@),
                None => None,
            },
            args: args@,
            targets: targets@,
        },
        StimInstr::Repeat { count, body } => InstrV::Repeat {
            count,
            body: Seq::new(
                body@.len(),
                |j: int|
                    if 0 <= j < body@.len() {
                        instr_view(body@[j])
                    } else {
                        InstrV::Op {
                            name: Seq::empty(),
                            tag: None,
                            args: Seq::empty(),
                            targets: Seq::empty(),
                        }
                    },
            ),
        },
    }
}

pub open spec fn instrs_view(l: Seq<StimInstr>) -> Seq<InstrV> {
    Seq::new(l.len(), |k: int| instr_view(l[k]))
}

/// ASCII bytes as the characters they decode to.
pub open spec fn decode_ascii(s: Seq<u8>) -> Seq<char> {
    Seq::new(s.len(), |i: int| s[i] as char)
}

/// The uppercase form of a byte string.
pub open spec fn upper_seq(s: Seq<u8>) -> Seq<u8> {
    Seq::new(s.len(), |i: int| upper_byte(s[i]))
}

/// The bytes of the one name that opens a block.
pub open spec fn repeat_name_bytes() -> Seq<u8> {
    seq![82u8, 69u8, 80u8, 69u8, 65u8, 84u8]
}

/// The whitespace-separated target tokens in `[tp, b)`, parsed in order;
/// the first bad token decides the error.
pub open spec fn targets_spec(s: Seq<u8>, tp: int, b: int) -> Result<
    Seq<StimTarget>,
    ParseErrorKind,
>
    decreases b - tp,
{
    if tp >= b {
        Ok(Seq::empty())
    } else if is_ws(s[tp]) {
        targets_spec(s, tp + 1, b)
    } else {
        let tq0 = token_end(s, tp, b);
        let tq = if tq0 < tp + 1 {
            tp + 1
        } else if tq0 > b {
            b
        } else {
            tq0
        };
        match parse_target_spec(s.subrange(tp, tq)) {
            Err(k) => Err(k),
            Ok(t) => match targets_spec(s, tq, b) {
                Ok(rest) => Ok(seq![t] + rest),
                Err(k) => Err(k),
            },
        }
    }
}

/// One line-oriented parsing step at byte position `pos` (line `line_no`
/// lines in), and the rest of the text after it: the spec-level mirror of
/// the parser's loop. The stack holds the open blocks, innermost last;
/// `counts` their repeat counts.
pub open spec fn parse_from(
    s: Seq<u8>,
    pos: int,
    line_no: int,
    stack: Seq<Seq<InstrV>>,
    counts: Seq<u64>,
) -> Result<Seq<InstrV>, ParseError>
    decreases s.len() - pos,
{
    if pos >= s.len() {
        if stack.len() == 1 {
            Ok(stack[0])
        } else {
            Err(ParseError { line: 0, kind: ParseErrorKind::UnterminatedRepeat })
        }
    } else {
        let e0 = find_before(s, 10, pos, s.len() as int);
        let e = if e0 < pos {
            pos
        } else if e0 > s.len() {
            s.len() as int
        } else {
            e0
        };
        let next = if e < s.len() {
            e + 1
        } else {
            s.len() as int
        };
        let eol = if e > pos && s[e - 1] == 13 {
            e - 1
        } else {
            e
        };
        let lno = line_no + 1;
        let ce = find_before(s, 35, pos, eol);
        let a = ltrim_idx(s, pos, ce);
        let b = rtrim_idx(s, a, ce);
        if a >= b {
            parse_from(s, next, lno, stack, counts)
        } else if b - a == 1 && s[a] == 125 {
            if stack.len() <= 1 {
                Err(ParseError { line: lno as usize, kind: ParseErrorKind::UnmatchedBrace })
            } else if counts.last() == 0 {
                Err(ParseError { line: lno as usize, kind: ParseErrorKind::RepeatZero })
            } else {
                parse_from(
                    s,
                    next,
                    lno,
                    stack.drop_last().update(
                        stack.len() - 2,
                        stack[stack.len() - 2].push(
                            InstrV::Repeat { count: counts.last(), body: stack.last() },
                        ),
                    ),
                    counts.drop_last(),
                )
            }
        } else {
            let isb = s[b - 1] == 123;
            let b2 = if isb {
                rtrim_idx(s, a, b - 1)
            } else {
                b
            };
            let te = token_end(s, a, b2);
            if te <= a {
                Err(ParseError { line: lno as usize, kind: ParseErrorKind::OnlyRepeatOpensBlock })
            } else {
                match split_name_args_spec(s.subrange(a, te)) {
                    Err(k) => Err(ParseError { line: lno as usize, kind: k }),
                    Ok((nameb, args)) => {
                        let uname = upper_seq(nameb);
                        if isb {
                            if uname != repeat_name_bytes() {
                                Err(
                                    ParseError {
                                        line: lno as usize,
                                        kind: ParseErrorKind::OnlyRepeatOpensBlock,
                                    },
                                )
                            } else {
                                let cs = ltrim_idx(s, te, b2);
                                if cs >= b2 {
                                    Err(
                                        ParseError {
                                            line: lno as usize,
                                            kind: ParseErrorKind::MissingRepeatCount,
                                        },
                                    )
                                } else {
                                    let ct = token_end(s, cs, b2);
                                    match parse_uint_spec(
                                        s.subrange(cs, ct),
                                        0xffff_ffff_ffff_ffffnat,
                                    ) {
                                        None => Err(
                                            ParseError {
                                                line: lno as usize,
                                                kind: ParseErrorKind::BadRepeatCount,
                                            },
                                        ),
                                        Some(v) => parse_from(
                                            s,
                                            next,
                                            lno,
                                            stack.push(Seq::empty()),
                                            counts.push(v as u64),
                                        ),
                                    }
                                }
                            }
                        } else {
                            match targets_spec(s, te, b2) {
                                Err(k) => Err(ParseError { line: lno as usize, kind: k }),
                                Ok(ts) => parse_from(
                                    s,
                                    next,
                                    lno,
                                    stack.update(
                                        stack.len() - 1,
                                        stack.last().push(
                                            InstrV::Op {
                                                name: decode_ascii(uname),
                                                tag: None,
                                                args,
                                                targets: ts,
                                            },
                                        ),
                                    ),
                                    counts,
                                ),
                            }
                        }
                    },
                }
            }
        }
    }
}

/// What a whole ASCII program text parses to.
pub open spec fn parse_spec(s: Seq<u8>) -> Result<Seq<InstrV>, ParseError> {
    parse_from(s, 0, 0, seq![Seq::<InstrV>::empty()], Seq::empty())
}

/// The mathematical view of the open-block stack.
pub open spec fn stack_view(st: Seq<Vec<StimInstr>>) -> Seq<Seq<InstrV>> {
    Seq::new(st.len(), |l: int| instrs_view(st[l]@))
}

/// Reads one target token, as `parse_target_spec` says.
pub fn parse_target(token: &[u8]) -> (r: Result<StimTarget, ParseErrorKind>)
    ensures
        r == parse_target_spec(token@),
{
    let len = token.len();
    if len >= 4 && token[0] == 114 && token[1] == 101 && token[2] == 99 && token[3] == 91
        && token[len - 1] == 93 {
        match parse_int_range(token, 4, len - 1, 0x7fff_ffffu128, 0x8000_0000u128) {
            Some(v) => {
                if v >= 0 {
                    Err(ParseErrorKind::RecNonNegative)
                } else {
                    Ok(StimTarget::Rec(v as i32))
                }
            },
            None => Err(ParseErrorKind::BadRecTarget),
        }
    } else if len >= 1 && token[0] == 33 {
        proof {
            assert(token@.subrange(1, len as int) =~= token@.skip(1));
        }
        match parse_uint_range(token, 1, len, 0xffff_ffffu128) {
            Some(q) => Ok(StimTarget::QubitInv(q as u32)),
            None => Err(ParseErrorKind::UnsupportedTarget),
        }
    } else {
        proof {
            assert(token@.subrange(0, len as int) =~= token@);
        }
        match parse_uint_range(token, 0, len, 0xffff_ffffu128) {
            Some(q) => Ok(StimTarget::Qubit(q as u32)),
            None => Err(ParseErrorKind::UnsupportedTarget),
        }
    }
}

/// The uppercase form of an ASCII letter byte; other bytes pass through.
pub open spec fn upper_byte(b: u8) -> u8 {
    if 97 <= b <= 122 {
        (b - 32) as u8
    } else {
        b
    }
}

/// Relies on `String::from_utf8`: bytes below 128 decode to one char each,
/// with the same code points.
#[verifier::external_body]
fn ascii_to_string(v: &Vec<u8>) -> (r: String)
    requires
        forall|i: int| 0 <= i < v@.len() ==> v@[i] < 128,
    ensures
        r@.len() == v@.len(),
        forall|i: int| 0 <= i < v@.len() ==> r@[i] == (#[trigger] v@[i]) as char,
{
    match String::from_utf8(v.clone()) {
        Ok(s) => s,
        Err(_) => String::new(),
    }
}

/// Splits a first token `NAME` or `NAME(arg,arg,...)` into the name's
/// bytes and the parsed arguments, as `split_name_args_spec` says.
fn split_name_and_args(tok: &[u8]) -> (r: Result<(Vec<u8>, Vec<Decimal>), ParseErrorKind>)
    ensures
        match r {
            Ok((name, args)) => split_name_args_spec(tok@) matches Ok(g) && g.0 == name@ && g.1
                == args@,
            Err(e) => split_name_args_spec(tok@) == Err::<(Seq<u8>, Seq<Decimal>), _>(e),
        },
        r matches Ok((name, args)) ==> crate::coords::all_inv(args@) && name@.len() <= tok@.len()
            && (forall|j: int| 0 <= j < name@.len() ==> name@[j] == tok@[j]),
{
    let len = tok.len();
    // The name runs to the first parenthesis, if any.
    let mut p: usize = 0;
    while p < len && tok[p] != 40
        invariant
            0 <= p <= len == tok@.len(),
            forall|j: int| 0 <= j < p ==> tok@[j] != 40,
        decreases len - p,
    {
        p = p + 1;
    }
    proof {
        lemma_find_before(tok@, 40, 0, len as int);
        assert(find_before(tok@, 40, 0, len as int) == p) by {
            let f = find_before(tok@, 40, 0, len as int);
            if f < p {
                assert(tok@[f] != 40);
            }
            if p < f && (p as int) < len {
                assert(tok@[p as int] == 40);
            }
        }
    }
    let mut name: Vec<u8> = Vec::new();
    let mut i: usize = 0;
    while i < p
        invariant
            i <= p <= len == tok@.len(),
            name@ == tok@.subrange(0, i as int),
        decreases p - i,
    {
        name.push(tok[i]);
        proof {
            assert(name@ =~= tok@.subrange(0, i as int + 1));
        }
        i = i + 1;
    }
    if p == len {
        return Ok((name, Vec::new()));
    }
    // An argument list must close the token.
    if tok[len - 1] != 41 {
        return Err(ParseErrorKind::BadArgs);
    }
    let a = ltrim(tok, p + 1, len - 1);
    let b = rtrim(tok, a, len - 1);
    let mut args: Vec<Decimal> = Vec::new();
    if a == b {
        return Ok((name, args));
    }
    // Comma-separated decimals, each trimmed.
    let mut pos = a;
    let ghost whole = args_from_spec(tok@, a as int, b as int);
    loop
        invariant
            0 <= a <= pos < b <= len == tok@.len(),
            p < len,
            find_before(tok@, 40, 0, len as int) == p,
            tok@[len - 1] == 41,
            a == ltrim_idx(tok@, p as int + 1, len as int - 1),
            b == rtrim_idx(tok@, a as int, len as int - 1),
            name@ == tok@.subrange(0, p as int),
            whole == args_from_spec(tok@, a as int, b as int),
            crate::coords::all_inv(args@),
            args_from_spec(tok@, pos as int, b as int) matches Ok(rest) ==> whole == Ok::<
                Seq<Decimal>,
                ParseErrorKind,
            >(args@ + rest),
            args_from_spec(tok@, pos as int, b as int) matches Err(e) ==> whole == Err::<
                Seq<Decimal>,
                ParseErrorKind,
            >(e),
        decreases b - pos,
    {
        let mut c = pos;
        while c < b && tok[c] != 44
            invariant
                pos <= c <= b <= tok@.len(),
                forall|j: int| pos <= j < c ==> tok@[j] != 44,
            decreases b - c,
        {
            c = c + 1;
        }
        proof {
            lemma_find_before(tok@, 44, pos as int, b as int);
            assert(find_before(tok@, 44, pos as int, b as int) == c) by {
                let f = find_before(tok@, 44, pos as int, b as int);
                if f < c {
                    assert(tok@[f] != 44);
                }
                if c < f && (c as int) < b {
                    assert(tok@[c as int] == 44);
                }
            }
        }
        let ts = ltrim(tok, pos, c);
        let te = rtrim(tok, ts, c);
        let ghost oldargs = args@;
        let d = match parse_decimal_range(tok, ts, te) {
            Some(d) => d,
            None => {
                proof {
                    assert(args_from_spec(tok@, pos as int, b as int) == Err::<
                        Seq<Decimal>,
                        ParseErrorKind,
                    >(ParseErrorKind::BadArg));
                }
                return Err(ParseErrorKind::BadArg);
            },
        };
        args.push(d);
        if c == b {
            proof {
                assert(args@ =~= args@.subrange(0, args@.len() - 1) + seq![d]);
            }
            return Ok((name, args));
        }
        if c + 1 >= b {
            proof {
                assert(args_from_spec(tok@, pos as int, b as int) == Err::<
                    Seq<Decimal>,
                    ParseErrorKind,
                >(ParseErrorKind::BadArg));
            }
            return Err(ParseErrorKind::BadArg);
        }
        proof {
            assert(args_from_spec(tok@, pos as int, b as int) == (match args_from_spec(
                tok@,
                c as int + 1,
                b as int,
            ) {
                Ok(rest) => Ok::<Seq<Decimal>, ParseErrorKind>(seq![d] + rest),
                Err(e) => Err::<Seq<Decimal>, ParseErrorKind>(e),
            }));
            assert(args@ == oldargs.push(d));
            match args_from_spec(tok@, c as int + 1, b as int) {
                Ok(rest) => {
                    assert(args_from_spec(tok@, pos as int, b as int) == Ok::<
                        Seq<Decimal>,
                        ParseErrorKind,
                    >(seq![d] + rest));
                    assert(whole == Ok::<Seq<Decimal>, ParseErrorKind>(oldargs + (seq![d] + rest)));
                    assert(oldargs + (seq![d] + rest) =~= args@ + rest);
                    assert(whole == Ok::<Seq<Decimal>, ParseErrorKind>(args@ + rest));
                },
                Err(e) => {
                    assert(args_from_spec(tok@, pos as int, b as int) == Err::<
                        Seq<Decimal>,
                        ParseErrorKind,
                    >(e));
                    assert(whole == Err::<Seq<Decimal>, ParseErrorKind>(e));
                },
            }
        }
        pos = c + 1;
    }
}

/// Drops leading whitespace: the first non-blank position in `[a, b)`.
fn ltrim(s: &[u8], a: usize, b: usize) -> (r: usize)
    requires
        a <= b <= s@.len(),
    ensures
        r == ltrim_idx(s@, a as int, b as int),
        a <= r <= b,
{
    let mut a2 = a;
    while a2 < b && is_ws_byte(s[a2])
        invariant
            a <= a2 <= b <= s@.len(),
            ltrim_idx(s@, a as int, b as int) == ltrim_idx(s@, a2 as int, b as int),
        decreases b - a2,
    {
        a2 = a2 + 1;
    }
    a2
}

/// Drops trailing whitespace: the position after the last non-blank byte
/// in `[a, b)`.
fn rtrim(s: &[u8], a: usize, b: usize) -> (r: usize)
    requires
        a <= b <= s@.len(),
    ensures
        r == rtrim_idx(s@, a as int, b as int),
        a <= r <= b,
{
    let mut b2 = b;
    while a < b2 && is_ws_byte(s[b2 - 1])
        invariant
            a <= b2 <= b <= s@.len(),
            rtrim_idx(s@, a as int, b as int) == rtrim_idx(s@, a as int, b2 as int),
        decreases b2,
    {
        b2 = b2 - 1;
    }
    b2
}

/// ASCII whitespace, at the byte level.
fn is_ws_byte(b: u8) -> (r: bool)
    ensures
        r == is_ws(b),
{
    b == 32 || b == 9 || b == 10 || b == 11 || b == 12 || b == 13
}

/// No lowercase ASCII letter: parsed names are canonicalized to
/// uppercase.
pub open spec fn upper_chars(s: Seq<char>) -> bool {
    forall|i: int| 0 <= i < s.len() ==> !('a' <= #[trigger] s[i] <= 'z')
}

/// Every operation name in a parsed tree is canonicalized to uppercase.
pub open spec fn names_upper(i: StimInstr) -> bool
    decreases i,
{
    match i {
        StimInstr::Op { name, .. } => upper_chars(name@),
        StimInstr::Repeat { body, .. } => list_names_upper(body@),
    }
}

pub open spec fn list_names_upper(l: Seq<StimInstr>) -> bool
    decreases l,
{
    forall|k: int| 0 <= k < l.len() ==> names_upper(#[trigger] l[k])
}

/// Every repeat count in a parsed tree is positive.
pub open spec fn counts_pos(i: StimInstr) -> bool
    decreases i,
{
    match i {
        StimInstr::Op { .. } => true,
        StimInstr::Repeat { count, body } => count >= 1 && list_counts_pos(body@),
    }
}

pub open spec fn list_counts_pos(l: Seq<StimInstr>) -> bool
    decreases l,
{
    forall|k: int| 0 <= k < l.len() ==> counts_pos(#[trigger] l[k])
}

/// The characters of an ASCII text as bytes.
pub open spec fn ascii_bytes_of(s: Seq<char>) -> Seq<u8> {
    Seq::new(s.len(), |i: int| s[i] as u8)
}

/// The first occurrence of a byte in `[from, to)`, or `to`.
fn scan_byte(s: &[u8], bb: u8, from: usize, to: usize) -> (r: usize)
    requires
        from <= to <= s@.len(),
    ensures
        r as int == find_before(s@, bb, from as int, to as int),
        from <= r <= to,
        forall|j: int| from <= j < r ==> s@[j] != bb,
        r < to ==> s@[r as int] == bb,
{
    let mut c = from;
    while c < to && s[c] != bb
        invariant
            from <= c <= to <= s@.len(),
            forall|j: int| from <= j < c ==> s@[j] != bb,
        decreases to - c,
    {
        c = c + 1;
    }
    proof {
        lemma_find_before(s@, bb, from as int, to as int);
        let f = find_before(s@, bb, from as int, to as int);
        if f < c {
            assert(s@[f] != bb);
        }
        if c < f && (c as int) < to {
            assert(s@[c as int] == bb);
        }
    }
    c
}

/// The end of the token starting at `from`: the first whitespace in
/// `[from, to)`, or `to`.
fn scan_token_end(s: &[u8], from: usize, to: usize) -> (r: usize)
    requires
        from <= to <= s@.len(),
    ensures
        r as int == token_end(s@, from as int, to as int),
        from <= r <= to,
{
    let mut c = from;
    while c < to && !is_ws_byte(s[c])
        invariant
            from <= c <= to <= s@.len(),
            forall|j: int| from <= j < c ==> !is_ws(s@[j]),
        decreases to - c,
    {
        c = c + 1;
    }
    proof {
        lemma_token_end(s@, from as int, to as int);
        let f = token_end(s@, from as int, to as int);
        if f < c {
            assert(!is_ws(s@[f]));
        }
        if c < f && (c as int) < to {
            assert(is_ws(s@[c as int]));
        }
    }
    c
}

/// The one block-opening name, checked at the byte level.
fn is_repeat_name(nb: &Vec<u8>) -> (r: bool)
    ensures
        r == (nb@ == repeat_name_bytes()),
{
    let r = nb.len() == 6 && nb[0] == 82 && nb[1] == 69 && nb[2] == 80 && nb[3] == 69 && nb[4]
        == 65 && nb[5] == 84;
    proof {
        if r {
            assert(nb@ =~= repeat_name_bytes());
        }
        if nb@ == repeat_name_bytes() {
            assert(nb@.len() == 6);
        }
    }
    r
}

/// Parses a program text into an instruction tree.
///
/// Lines hold `NAME[(arg,arg,...)] [target ...]`; `#` comments to the end
/// of the line and blank lines are skipped; `REPEAT N {` opens a block
/// that a lone `}` closes, and blocks nest. The result is pinned exactly:
/// for ASCII input the returned tree's view equals the spec-level parse of
/// the input's bytes, and a rejection is the very error, with its line,
/// that the spec-level parse gives. Non-ASCII input is refused up front.
#[verifier::rlimit(100)]
pub fn parse_lines(input: &str) -> (r: Result<Vec<StimInstr>, ParseError>)
    ensures
        match r {
            Ok(instrs) => crate::executor::list_args_inv(instrs@) && list_counts_pos(instrs@)
                && list_names_upper(instrs@),
            Err(_) => true,
        },
        !vstd::string::is_ascii(input) ==> r == Err::<Vec<StimInstr>, ParseError>(
            ParseError { line: 0, kind: ParseErrorKind::NonAscii },
        ),
        vstd::string::is_ascii(input) ==> match r {
            Ok(instrs) => parse_spec(ascii_bytes_of(input@)) == Ok::<Seq<InstrV>, ParseError>(
                instrs_view(instrs@),
            ),
            Err(e) => parse_spec(ascii_bytes_of(input@)) == Err::<Seq<InstrV>, ParseError>(e),
        },
{
    broadcast use vstd::string::group_string_axioms;

    if !input.is_ascii() {
        return Err(ParseError { line: 0, kind: ParseErrorKind::NonAscii });
    }
    let bytes_vec = input.as_bytes_vec();
    let bytes: &[u8] = bytes_vec.as_slice();
    let total = bytes.len();
    let ghost sb = bytes@;
    proof {
        assert forall|i: int| 0 <= i < bytes@.len() implies bytes@[i] < 128 by {
            assert(bytes@[i] == input@[i] as u8);
        }
        assert(sb =~= ascii_bytes_of(input@));
    }
    let mut stack: Vec<Vec<StimInstr>> = Vec::new();
    stack.push(Vec::new());
    let mut counts: Vec<u64> = Vec::new();
    let mut pos: usize = 0;
    let mut line_no: usize = 0;
    proof {
        assert(stack_view(stack@) =~~= seq![Seq::<InstrV>::empty()]);
    }
    while pos < total
        invariant
            vstd::string::is_ascii(input),
            total == bytes@.len(),
            sb == bytes@,
            sb == ascii_bytes_of(input@),
            forall|i: int| 0 <= i < bytes@.len() ==> bytes@[i] < 128,
            stack@.len() == counts@.len() + 1,
            forall|l: int|
                0 <= l < stack@.len() ==> crate::executor::list_args_inv(
                    (#[trigger] stack@[l])@,
                ) && list_counts_pos(stack@[l]@) && list_names_upper(stack@[l]@),
            line_no <= pos,
            pos <= total,
            parse_spec(sb) == parse_from(
                sb,
                pos as int,
                line_no as int,
                stack_view(stack@),
                counts@,
            ),
        decreases total - pos,
    {
        let ghost mpos = pos as int;
        let ghost mline = line_no as int;
        let ghost sv = stack_view(stack@);
        let ghost cv = counts@;
        // One line: up to the next newline, with a trailing CR dropped.
        let e = scan_byte(bytes, 10, pos, total);
        let next_pos = if e < total {
            e + 1
        } else {
            total
        };
        let mut eol = e;
        if eol > pos && bytes[eol - 1] == 13 {
            eol = eol - 1;
        }
        line_no = line_no + 1;
        // Strip the comment, then trim.
        let ce = scan_byte(bytes, 35, pos, eol);
        let a = ltrim(bytes, pos, ce);
        let b = rtrim(bytes, a, ce);
        if a == b {
            proof {
                assert(parse_from(sb, mpos, mline, sv, cv) == parse_from(
                    sb,
                    next_pos as int,
                    line_no as int,
                    sv,
                    cv,
                ));
            }
            pos = next_pos;
            continue ;
        }
        // A lone closing brace folds the innermost block.
        if b - a == 1 && bytes[a] == 125 {
            if stack.len() <= 1 {
                proof {
                    assert(parse_from(sb, mpos, mline, sv, cv) == Err::<Seq<InstrV>, ParseError>(
                        ParseError { line: line_no, kind: ParseErrorKind::UnmatchedBrace },
                    ));
                }
                return Err(ParseError { line: line_no, kind: ParseErrorKind::UnmatchedBrace });
            }
            let body = match stack.pop() {
                Some(v) => v,
                None => {
                    proof {
                        assert(false);
                    }
                    Vec::new()
                },
            };
            let count = match counts.pop() {
                Some(c) => c,
                None => {
                    proof {
                        assert(false);
                    }
                    0
                },
            };
            if count == 0 {
                proof {
                    assert(parse_from(sb, mpos, mline, sv, cv) == Err::<Seq<InstrV>, ParseError>(
                        ParseError { line: line_no, kind: ParseErrorKind::RepeatZero },
                    ));
                }
                return Err(ParseError { line: line_no, kind: ParseErrorKind::RepeatZero });
            }
            let repeat = StimInstr::Repeat { count, body };
            proof {
                assert(crate::executor::instr_args_inv(repeat));
                assert(counts_pos(repeat));
                assert(names_upper(repeat));
                match instr_view(repeat) {
                    InstrV::Repeat { count: c3, body: b3 } => {
                        assert(b3 =~= instrs_view(body@));
                        assert(c3 == count);
                    },
                    _ => {
                        assert(false);
                    },
                }
                assert(instr_view(repeat) == InstrV::Repeat {
                    count,
                    body: instrs_view(body@),
                });
                assert(instrs_view(body@) == sv.last());
            }
            push_instr(&mut stack, repeat);
            proof {
                assert(stack_view(stack@) =~~= sv.drop_last().update(
                    sv.len() - 2,
                    sv[sv.len() - 2].push(InstrV::Repeat { count, body: sv.last() }),
                ));
                assert(parse_from(sb, mpos, mline, sv, cv) == parse_from(
                    sb,
                    next_pos as int,
                    line_no as int,
                    stack_view(stack@),
                    counts@,
                ));
            }
            pos = next_pos;
            continue ;
        }
        // A trailing opening brace begins a block.
        let mut is_block = false;
        let mut b2 = b;
        if bytes[b - 1] == 123 {
            is_block = true;
            b2 = rtrim(bytes, a, b - 1);
        }
        // First token: the instruction name with its arguments.
        let te = scan_token_end(bytes, a, b2);
        if te == a {
            proof {
                assert(parse_from(sb, mpos, mline, sv, cv) == Err::<Seq<InstrV>, ParseError>(
                    ParseError { line: line_no, kind: ParseErrorKind::OnlyRepeatOpensBlock },
                ));
            }
            return Err(ParseError { line: line_no, kind: ParseErrorKind::OnlyRepeatOpensBlock });
        }
        let mut head_tok: Vec<u8> = Vec::new();
        let mut hi: usize = a;
        while hi < te
            invariant
                a <= hi <= te <= bytes@.len(),
                head_tok@ == bytes@.subrange(a as int, hi as int),
            decreases te - hi,
        {
            head_tok.push(bytes[hi]);
            proof {
                assert(head_tok@ =~= bytes@.subrange(a as int, hi as int + 1));
            }
            hi = hi + 1;
        }
        let (raw_name, args) = match split_name_and_args(head_tok.as_slice()) {
            Ok(p) => p,
            Err(k) => {
                proof {
                    assert(parse_from(sb, mpos, mline, sv, cv) == Err::<Seq<InstrV>, ParseError>(
                        ParseError { line: line_no, kind: k },
                    ));
                }
                return Err(ParseError { line: line_no, kind: k });
            },
        };
        let ghost gname: Seq<u8>;
        let ghost gargs: Seq<Decimal>;
        proof {
            match split_name_args_spec(head_tok@) {
                Ok(g) => {
                    gname = g.0;
                    gargs = g.1;
                },
                Err(_) => {
                    gname = Seq::empty();
                    gargs = Seq::empty();
                    assert(false);
                },
            }
            assert(gname == raw_name@ && gargs == args@);
            assert forall|j: int| 0 <= j < raw_name@.len() implies raw_name@[j] < 128 by {
                assert(raw_name@[j] == head_tok@[j]);
                assert(head_tok@[j] == bytes@[a + j]);
            }
        }
        let mut name_bytes: Vec<u8> = Vec::new();
        let mut ni: usize = 0;
        while ni < raw_name.len()
            invariant
                ni <= raw_name@.len(),
                name_bytes@.len() == ni,
                forall|j: int| 0 <= j < raw_name@.len() ==> raw_name@[j] < 128,
                forall|j: int|
                    0 <= j < ni ==> name_bytes@[j] == upper_byte(raw_name@[j]) && name_bytes@[j]
                        < 128,
            decreases raw_name@.len() - ni,
        {
            let bb = raw_name[ni];
            let ub = if 97 <= bb && bb <= 122 {
                bb - 32
            } else {
                bb
            };
            name_bytes.push(ub);
            ni = ni + 1;
        }
        proof {
            assert(name_bytes@ =~= upper_seq(raw_name@));
        }
        let name = ascii_to_string(&name_bytes);
        proof {
            assert(name@ =~= decode_ascii(name_bytes@));
        }
        if is_block {
            if !is_repeat_name(&name_bytes) {
                proof {
                    assert(parse_from(sb, mpos, mline, sv, cv) == Err::<Seq<InstrV>, ParseError>(
                        ParseError { line: line_no, kind: ParseErrorKind::OnlyRepeatOpensBlock },
                    ));
                }
                return Err(
                    ParseError { line: line_no, kind: ParseErrorKind::OnlyRepeatOpensBlock },
                );
            }
            // The repeat count is the next token.
            let cs = ltrim(bytes, te, b2);
            if cs == b2 {
                proof {
                    assert(parse_from(sb, mpos, mline, sv, cv) == Err::<Seq<InstrV>, ParseError>(
                        ParseError { line: line_no, kind: ParseErrorKind::MissingRepeatCount },
                    ));
                }
                return Err(ParseError { line: line_no, kind: ParseErrorKind::MissingRepeatCount });
            }
            let ct = scan_token_end(bytes, cs, b2);
            let count = match parse_uint_range(bytes, cs, ct, 0xffff_ffff_ffff_ffffu128) {
                Some(v) => v as u64,
                None => {
                    proof {
                        assert(parse_from(sb, mpos, mline, sv, cv) == Err::<
                            Seq<InstrV>,
                            ParseError,
                        >(ParseError { line: line_no, kind: ParseErrorKind::BadRepeatCount }));
                    }
                    return Err(
                        ParseError { line: line_no, kind: ParseErrorKind::BadRepeatCount },
                    );
                },
            };
            counts.push(count);
            stack.push(Vec::new());
            proof {
                assert(stack_view(stack@) =~~= sv.push(Seq::<InstrV>::empty()));
                assert(parse_from(sb, mpos, mline, sv, cv) == parse_from(
                    sb,
                    next_pos as int,
                    line_no as int,
                    stack_view(stack@),
                    counts@,
                ));
            }
            pos = next_pos;
            continue ;
        }
        // Remaining tokens are targets.
        let mut targets: Vec<StimTarget> = Vec::new();
        let mut terr: Option<ParseErrorKind> = None;
        let mut tp = te;
        while tp < b2 && terr.is_none()
            invariant
                te <= tp <= b2 <= bytes@.len(),
                sb == bytes@,
                match terr {
                    Some(k) => targets_spec(sb, te as int, b2 as int) == Err::<
                        Seq<StimTarget>,
                        ParseErrorKind,
                    >(k),
                    None => match targets_spec(sb, tp as int, b2 as int) {
                        Ok(rest) => targets_spec(sb, te as int, b2 as int) == Ok::<
                            Seq<StimTarget>,
                            ParseErrorKind,
                        >(targets@ + rest),
                        Err(k) => targets_spec(sb, te as int, b2 as int) == Err::<
                            Seq<StimTarget>,
                            ParseErrorKind,
                        >(k),
                    },
                },
            decreases b2 - tp, (if terr is None {
                1int
            } else {
                0int
            }),
        {
            if is_ws_byte(bytes[tp]) {
                tp = tp + 1;
                continue ;
            }
            let tq = scan_token_end(bytes, tp, b2);
            proof {
                assert(!is_ws(sb[tp as int]));
                assert(token_end(sb, tp as int, b2 as int) == token_end(
                    sb,
                    tp as int + 1,
                    b2 as int,
                ));
                lemma_token_end(sb, tp as int + 1, b2 as int);
                assert(tq > tp);
            }
            let mut tok: Vec<u8> = Vec::new();
            let mut k = tp;
            while k < tq
                invariant
                    tp <= k <= tq <= bytes@.len(),
                    tok@ == bytes@.subrange(tp as int, k as int),
                decreases tq - k,
            {
                tok.push(bytes[k]);
                proof {
                    assert(tok@ =~= bytes@.subrange(tp as int, k as int + 1));
                }
                k = k + 1;
            }
            let ghost oldtargets = targets@;
            match parse_target(tok.as_slice()) {
                Ok(t) => {
                    targets.push(t);
                    proof {
                        match targets_spec(sb, tq as int, b2 as int) {
                            Ok(rest) => {
                                assert(oldtargets + (seq![t] + rest) =~= targets@ + rest);
                            },
                            Err(_) => {},
                        }
                    }
                    tp = tq;
                },
                Err(kind) => {
                    terr = Some(kind);
                },
            }
        }
        if let Some(kind) = terr {
            proof {
                assert(parse_from(sb, mpos, mline, sv, cv) == Err::<Seq<InstrV>, ParseError>(
                    ParseError { line: line_no, kind },
                ));
            }
            return Err(ParseError { line: line_no, kind });
        }
        proof {
            assert(targets_spec(sb, te as int, b2 as int) == Ok::<Seq<StimTarget>, ParseErrorKind>(
                targets@ + Seq::empty(),
            ));
            assert(targets@ + Seq::<StimTarget>::empty() =~= targets@);
        }
        let instr = StimInstr::Op { name, tag: None, args, targets };
        proof {
            assert(crate::executor::instr_args_inv(instr));
            assert(counts_pos(instr));
            assert forall|j: int| 0 <= j < name@.len() implies !('a' <= #[trigger] name@[j]
                <= 'z') by {
                assert(name@[j] == name_bytes@[j] as char);
                assert(name_bytes@[j] == upper_byte(raw_name@[j]));
            }
            assert(names_upper(instr));
            match instr_view(instr) {
                InstrV::Op { name: n3, tag: t3, args: a3, targets: ts3 } => {
                    assert(n3 =~= decode_ascii(upper_seq(gname)));
                    assert(t3 is None && a3 == gargs && ts3 == targets@);
                },
                _ => {
                    assert(false);
                },
            }
            assert(instr_view(instr) == InstrV::Op {
                name: decode_ascii(upper_seq(gname)),
                tag: None,
                args: gargs,
                targets: targets@,
            });
        }
        push_instr(&mut stack, instr);
        proof {
            assert(stack_view(stack@) =~~= sv.update(
                sv.len() - 1,
                sv.last().push(instr_view(instr)),
            ));
            assert(parse_from(sb, mpos, mline, sv, cv) == parse_from(
                sb,
                next_pos as int,
                line_no as int,
                stack_view(stack@),
                counts@,
            ));
        }
        pos = next_pos;
    }
    if stack.len() != 1 {
        proof {
            assert(parse_from(sb, pos as int, line_no as int, stack_view(stack@), counts@)
                == Err::<Seq<InstrV>, ParseError>(
                ParseError { line: 0, kind: ParseErrorKind::UnterminatedRepeat },
            ));
        }
        return Err(ParseError { line: 0, kind: ParseErrorKind::UnterminatedRepeat });
    }
    let ghost svf = stack_view(stack@);
    match stack.pop() {
        Some(v) => {
            proof {
                assert(parse_from(sb, pos as int, line_no as int, svf, counts@) == Ok::<
                    Seq<InstrV>,
                    ParseError,
                >(svf[0]));
                assert(svf[0] == instrs_view(v@));
            }
            Ok(v)
        },
        None => {
            proof {
                assert(false);
            }
            Ok(Vec::new())
        },
    }
}

/// Appends one instruction to the innermost open block.
fn push_instr(stack: &mut Vec<Vec<StimInstr>>, instr: StimInstr)
    requires
        old(stack)@.len() >= 1,
        forall|l: int|
            0 <= l < old(stack)@.len() ==> crate::executor::list_args_inv(
                (#[trigger] old(stack)@[l])@,
            ) && list_counts_pos(old(stack)@[l]@) && list_names_upper(old(stack)@[l]@),
        crate::executor::instr_args_inv(instr),
        counts_pos(instr),
        names_upper(instr),
    ensures
        final(stack)@.len() == old(stack)@.len(),
        forall|l: int|
            0 <= l < final(stack)@.len() ==> crate::executor::list_args_inv(
                (#[trigger] final(stack)@[l])@,
            ) && list_counts_pos(final(stack)@[l]@) && list_names_upper(final(stack)@[l]@),
        stack_view(final(stack)@) == stack_view(old(stack)@).update(
            old(stack)@.len() - 1,
            stack_view(old(stack)@).last().push(instr_view(instr)),
        ),
{
    let top = stack.len() - 1;
    let ghost oldtop = stack@[top as int]@;
    stack[top].push(instr);
    proof {
        assert(stack@[top as int]@ == oldtop.push(instr));
        assert(instrs_view(oldtop.push(instr)) =~= instrs_view(oldtop).push(instr_view(instr)));
        assert forall|l: int| 0 <= l < stack@.len() && l != top implies #[trigger] stack@[l]
            == old(stack)@[l] by {}
        assert(stack_view(stack@) =~= stack_view(old(stack)@).update(
            old(stack)@.len() - 1,
            stack_view(old(stack)@).last().push(instr_view(instr)),
        ));
        assert forall|l: int| 0 <= l < stack@.len() implies crate::executor::list_args_inv(
            (#[trigger] stack@[l])@,
        ) && list_counts_pos(stack@[l]@) && list_names_upper(stack@[l]@) by {
            if l == top {
                assert forall|k: int|
                    0 <= k < stack@[l]@.len() implies crate::executor::instr_args_inv(
                    #[trigger] stack@[l]@[k],
                ) by {
                    if k < oldtop.len() {
                        assert(crate::executor::instr_args_inv(oldtop[k]));
                    }
                }
                assert forall|k: int| 0 <= k < stack@[l]@.len() implies counts_pos(
                    #[trigger] stack@[l]@[k],
                ) by {
                    if k < oldtop.len() {
                        assert(counts_pos(oldtop[k]));
                    }
                }
                assert forall|k: int| 0 <= k < stack@[l]@.len() implies names_upper(
                    #[trigger] stack@[l]@[k],
                ) by {
                    if k < oldtop.len() {
                        assert(names_upper(oldtop[k]));
                    }
                }
            }
        }
    }
}


} // verus!
