use vstd::prelude::*;

verus! {

/// An exact base-10 amount: `mantissa / 10^scale`. Currency is never held
/// in floating point.
#[derive(Clone, Copy, Debug, PartialEq, Eq, Structural)]
pub struct Decimal {
    pub mantissa: u64,
    pub scale: u32,
}

/// Largest mantissa a `Decimal` may carry (14 digits).
pub const MAX_MANTISSA: u64 = 100_000_000_000_000;

/// Largest scale a `Decimal` may carry.
pub const MAX_SCALE: u32 = 9;

pub open spec fn pow10(k: nat) -> nat
    decreases k,
{
    if k == 0 {
        1
    } else {
        10 * pow10((k - 1) as nat)
    }
}

pub proof fn lemma_pow10_mono(i: nat, j: nat)
    requires
        i <= j,
    ensures
        pow10(i) <= pow10(j),
        pow10(i) >= 1,
    decreases j,
{
    if j > 0 {
        if i == j {
            lemma_pow10_mono((j - 1) as nat, (j - 1) as nat);
        } else {
            lemma_pow10_mono(i, (j - 1) as nat);
        }
    }
}


pub proof fn lemma_pow10_9()
    ensures
        pow10(9) == 1_000_000_000,
{
    assert(pow10(0) == 1);
    assert(pow10(1) == 10);
    assert(pow10(2) == 100);
    assert(pow10(3) == 1000);
    assert(pow10(4) == 10000);
    assert(pow10(5) == 100000);
    assert(pow10(6) == 1000000);
    assert(pow10(7) == 10000000);
    assert(pow10(8) == 100000000);
    assert(pow10(9) == 1000000000);
}

pub proof fn lemma_pow10_14()
    ensures
        pow10(14) == 100_000_000_000_000,
{
    lemma_pow10_9();
    assert(pow10(10) == 10_000_000_000);
    assert(pow10(11) == 100_000_000_000);
    assert(pow10(12) == 1_000_000_000_000);
    assert(pow10(13) == 10_000_000_000_000);
    assert(pow10(14) == 100_000_000_000_000);
}

impl Decimal {
    /// Every amount keeps its mantissa under 10^14 and its scale at or
    /// under 9, so that comparisons can be carried out exactly in machine
    /// words.
    pub open spec fn wf(&self) -> bool {
        self.mantissa < MAX_MANTISSA && self.scale <= MAX_SCALE
    }
}

/// The value of an amount, expressed as a whole count of 10^-9 units, so
/// that amounts of different scales compare as plain integers.
pub open spec fn dec_val(d: Decimal) -> int {
    d.mantissa * pow10((MAX_SCALE - d.scale) as nat)
}

/// Computes 10^k.
pub fn pow10_u64(k: u32) -> (r: u64)
    requires
        k <= 14,
    ensures
        r == pow10(k as nat),
{
    proof {
        lemma_pow10_14();
    }
    let mut r: u64 = 1;
    let mut i: u32 = 0;
    while i < k
        invariant
            i <= k <= 14,
            r == pow10(i as nat),
        decreases k - i,
    {
        proof {
            lemma_pow10_14();
            lemma_pow10_mono((i + 1) as nat, 14);
        }
        r = r * 10;
        i = i + 1;
    }
    r
}

/// The value of `d` in 10^-9 units; always under 10^23.
pub fn dec_val_u128(d: &Decimal) -> (r: u128)
    requires
        d.wf(),
    ensures
        r as int == dec_val(*d),
        r < 100_000_000_000_000_000_000_000u128,
{
    let p = pow10_u64(MAX_SCALE - d.scale);
    proof {
        lemma_pow10_mono((MAX_SCALE - d.scale) as nat, 9);
        lemma_pow10_9();
        assert(d.mantissa * pow10((MAX_SCALE - d.scale) as nat)
            < 100_000_000_000_000_000_000_000int) by (nonlinear_arith)
            requires
                d.mantissa < 100_000_000_000_000,
                pow10((MAX_SCALE - d.scale) as nat) <= 1_000_000_000,
        ;
    }
    (d.mantissa as u128) * (p as u128)
}

pub open spec fn abs_int(x: int) -> int {
    if x < 0 {
        -x
    } else {
        x
    }
}

/// How far apart a vendor amount may drift from the catalog amount before
/// a human should look: either an absolute amount, or an amount relative
/// to the catalog amount (a `Relative` policy `p` allows a drift of up to
/// `p` times the catalog amount).
#[derive(Clone, Copy, Debug)]
pub enum DeltaPolicy {
    Absolute(Decimal),
    Relative(Decimal),
}

impl DeltaPolicy {
    pub open spec fn wf(&self) -> bool {
        match *self {
            DeltaPolicy::Absolute(t) => t.wf(),
            DeltaPolicy::Relative(p) => p.wf(),
        }
    }
}

/// Whether the vendor amount drifts from the catalog amount by strictly
/// more than the policy allows. A drift exactly at the threshold does not
/// exceed it.
pub open spec fn delta_exceeds_spec(catalog: Decimal, vendor: Decimal, pol: DeltaPolicy) -> bool {
    match pol {
        DeltaPolicy::Absolute(t) => abs_int(dec_val(catalog) - dec_val(vendor)) > dec_val(t),
        DeltaPolicy::Relative(p) => abs_int(dec_val(catalog) - dec_val(vendor)) * pow10(
            p.scale as nat,
        ) > p.mantissa * dec_val(catalog),
    }
}

/// Decides whether `vendor` drifts from `catalog` by more than `pol`
/// allows.
pub fn delta_exceeds(catalog: &Decimal, vendor: &Decimal, pol: &DeltaPolicy) -> (r: bool)
    requires
        catalog.wf(),
        vendor.wf(),
        pol.wf(),
    ensures
        r == delta_exceeds_spec(*catalog, *vendor, *pol),
{
    let va = dec_val_u128(catalog);
    let vb = dec_val_u128(vendor);
    let diff: u128 = if va >= vb {
        va - vb
    } else {
        vb - va
    };
    match pol {
        DeltaPolicy::Absolute(t) => {
            let vt = dec_val_u128(t);
            diff > vt
        },
        DeltaPolicy::Relative(p) => {
            let pp = pow10_u64(p.scale);
            proof {
                lemma_pow10_mono(p.scale as nat, 9);
                lemma_pow10_9();
                assert(diff * pow10(p.scale as nat) < 0x1_0000_0000_0000_0000_0000_0000_0000_0000int)
                    by (nonlinear_arith)
                    requires
                        diff < 100_000_000_000_000_000_000_000u128,
                        pow10(p.scale as nat) <= 1_000_000_000,
                ;
                assert(p.mantissa * (va as int) < 0x1_0000_0000_0000_0000_0000_0000_0000_0000int)
                    by (nonlinear_arith)
                    requires
                        p.mantissa < 100_000_000_000_000,
                        va < 100_000_000_000_000_000_000_000u128,
                ;
            }
            diff * (pp as u128) > (p.mantissa as u128) * va
        },
    }
}

// ---- parsing ----

pub open spec fn is_digit_byte(b: u8) -> bool {
    48 <= b <= 57
}

/// Bytes that survive currency canonicalization: digits and the decimal
/// point.
pub open spec fn is_money_byte(b: u8) -> bool {
    b == 46 || is_digit_byte(b)
}

/// The subsequence of `s` that canonicalization keeps.
pub open spec fn money_of(s: Seq<u8>) -> Seq<u8>
    decreases s.len(),
{
    if s.len() == 0 {
        Seq::empty()
    } else if is_money_byte(s.last()) {
        money_of(s.drop_last()).push(s.last())
    } else {
        money_of(s.drop_last())
    }
}

/// The digit bytes of `s`, in order.
pub open spec fn digit_bytes_of(s: Seq<u8>) -> Seq<u8>
    decreases s.len(),
{
    if s.len() == 0 {
        Seq::empty()
    } else if is_digit_byte(s.last()) {
        digit_bytes_of(s.drop_last()).push(s.last())
    } else {
        digit_bytes_of(s.drop_last())
    }
}

/// How many decimal points `s` holds.
pub open spec fn num_dots(s: Seq<u8>) -> int
    decreases s.len(),
{
    if s.len() == 0 {
        0
    } else if s.last() == 46 {
        num_dots(s.drop_last()) + 1
    } else {
        num_dots(s.drop_last())
    }
}

/// The position of the first decimal point in `s`, or -1 when there is
/// none.
pub open spec fn first_dot(s: Seq<u8>) -> int
    decreases s.len(),
{
    if s.len() == 0 {
        -1
    } else if first_dot(s.drop_last()) >= 0 {
        first_dot(s.drop_last())
    } else if s.last() == 46 {
        s.len() - 1
    } else {
        -1
    }
}

/// The number the digit bytes `ds` spell out.
pub open spec fn digits_val(ds: Seq<u8>) -> int
    decreases ds.len(),
{
    if ds.len() == 0 {
        0
    } else {
        digits_val(ds.drop_last()) * 10 + (ds.last() - 48)
    }
}

pub proof fn lemma_digits_val_nonneg(ds: Seq<u8>)
    requires
        forall|i: int| 0 <= i < ds.len() ==> is_digit_byte(#[trigger] ds[i]),
    ensures
        digits_val(ds) >= 0,
    decreases ds.len(),
{
    if ds.len() > 0 {
        lemma_digits_val_nonneg(ds.drop_last());
    }
}

/// Digits of `s`'s fraction part: everything after the first decimal
/// point, or nothing when there is no point.
pub open spec fn frac_len(s: Seq<u8>) -> int {
    if first_dot(s) >= 0 {
        s.len() - 1 - first_dot(s)
    } else {
        0
    }
}

/// What parsing canonical text as an exact decimal yields: the text must
/// hold only digits and at most one decimal point, at least one digit, a
/// fraction of at most `MAX_SCALE` digits, and a mantissa under
/// `MAX_MANTISSA`; the mantissa is the number all the digits spell and the
/// scale is the length of the fraction.
pub open spec fn parse_dec_spec(s: Seq<u8>) -> Option<Decimal> {
    if (forall|i: int| 0 <= i < s.len() ==> is_money_byte(#[trigger] s[i])) && num_dots(s) <= 1
        && digit_bytes_of(s).len() >= 1 && frac_len(s) <= MAX_SCALE && digits_val(
        digit_bytes_of(s),
    ) < MAX_MANTISSA {
        Some(
            Decimal {
                mantissa: digits_val(digit_bytes_of(s)) as u64,
                scale: frac_len(s) as u32,
            },
        )
    } else {
        None
    }
}


pub proof fn lemma_digit_bytes_are_digits(s: Seq<u8>)
    ensures
        forall|i: int|
            0 <= i < digit_bytes_of(s).len() ==> is_digit_byte(#[trigger] digit_bytes_of(s)[i]),
    decreases s.len(),
{
    if s.len() > 0 {
        lemma_digit_bytes_are_digits(s.drop_last());
        let ds = digit_bytes_of(s);
        let prev = digit_bytes_of(s.drop_last());
        if is_digit_byte(s.last()) {
            assert(ds == prev.push(s.last()));
            assert forall|i: int| 0 <= i < ds.len() implies is_digit_byte(#[trigger] ds[i]) by {
                if i < prev.len() {
                    assert(ds[i] == prev[i]);
                } else {
                    assert(ds[i] == s.last());
                }
            }
        }
    }
}

/// The number spelled by the digits of a prefix never exceeds the number
/// spelled by the digits of the whole.
pub proof fn lemma_digits_val_prefix(s: Seq<u8>, i: int)
    requires
        0 <= i <= s.len(),
    ensures
        digits_val(digit_bytes_of(s.subrange(0, i))) <= digits_val(digit_bytes_of(s)),
    decreases s.len() - i,
{
    if i == s.len() {
        assert(s.subrange(0, i) =~= s);
    } else {
        lemma_digits_val_prefix(s, i + 1);
        let t = s.subrange(0, i + 1);
        assert(t.drop_last() =~= s.subrange(0, i));
        let prev = digit_bytes_of(s.subrange(0, i));
        lemma_digit_bytes_are_digits(s.subrange(0, i));
        lemma_digits_val_nonneg(prev);
        if is_digit_byte(s[i]) {
            assert(t.last() == s[i]);
            assert(digit_bytes_of(t) == prev.push(s[i]));
            assert(digit_bytes_of(t).drop_last() =~= prev);
            assert(digits_val(digit_bytes_of(t)) == digits_val(prev) * 10 + (s[i] - 48));
        } else {
            assert(digit_bytes_of(t) == prev);
        }
    }
}

/// Canonicalizes noisy currency text: keeps the digits and decimal points
/// of `raw`, drops everything else.
pub fn strip_money(raw: &Vec<u8>) -> (r: Vec<u8>)
    ensures
        r@ == money_of(raw@),
{
    let mut r: Vec<u8> = Vec::new();
    let mut i: usize = 0;
    while i < raw.len()
        invariant
            i <= raw@.len(),
            r@ == money_of(raw@.subrange(0, i as int)),
        decreases raw@.len() - i,
    {
        let b: u8 = raw[i];
        proof {
            assert(raw@.subrange(0, i + 1).drop_last() =~= raw@.subrange(0, i as int));
        }
        if (48 <= b && b <= 57) || b == 46 {
            r.push(b);
        }
        i = i + 1;
    }
    proof {
        assert(raw@.subrange(0, raw@.len() as int) =~= raw@);
    }
    r
}

/// Parses canonical decimal text into an exact amount, or rejects it.
pub fn parse_decimal(s: &Vec<u8>) -> (r: Option<Decimal>)
    ensures
        r == parse_dec_spec(s@),
        r is Some ==> r->Some_0.wf(),
{
    let mut v: u64 = 0;
    let mut nd: usize = 0;
    let mut fd: Option<usize> = None;
    let mut dcount: usize = 0;
    let mut i: usize = 0;
    while i < s.len()
        invariant
            i <= s@.len(),
            forall|j: int| 0 <= j < i ==> is_money_byte(#[trigger] s@[j]),
            nd == num_dots(s@.subrange(0, i as int)),
            nd <= i,
            match fd {
                Some(p) => first_dot(s@.subrange(0, i as int)) == p && p < i,
                None => first_dot(s@.subrange(0, i as int)) == -1,
            },
            dcount == digit_bytes_of(s@.subrange(0, i as int)).len(),
            dcount <= i,
            v == digits_val(digit_bytes_of(s@.subrange(0, i as int))),
            v < MAX_MANTISSA,
        decreases s@.len() - i,
    {
        let b: u8 = s[i];
        proof {
            assert(s@.subrange(0, i + 1).drop_last() =~= s@.subrange(0, i as int));
        }
        if 48 <= b && b <= 57 {
            proof {
                let pre = s@.subrange(0, i as int);
                let t = s@.subrange(0, i + 1);
                assert(t.last() == s@[i as int]);
                assert(digit_bytes_of(t) == digit_bytes_of(pre).push(s@[i as int]));
                assert(digit_bytes_of(t).drop_last() =~= digit_bytes_of(pre));
                assert(digits_val(digit_bytes_of(t)) == digits_val(digit_bytes_of(pre)) * 10 + (
                s@[i as int] - 48));
            }
            let d: u64 = (b - 48) as u64;
            let v2: u64 = v * 10 + d;
            if v2 >= MAX_MANTISSA {
                proof {
                    lemma_digits_val_prefix(s@, i + 1);
                }
                return None;
            }
            v = v2;
            dcount = dcount + 1;
        } else if b == 46 {
            if fd.is_none() {
                fd = Some(i);
            }
            nd = nd + 1;
        } else {
            proof {
                assert(!is_money_byte(s@[i as int]));
            }
            return None;
        }
        i = i + 1;
    }
    proof {
        assert(s@.subrange(0, s@.len() as int) =~= s@);
    }
    if nd > 1 || dcount == 0 {
        return None;
    }
    let fl: usize = match fd {
        Some(p) => s.len() - 1 - p,
        None => 0,
    };
    if fl > 9 {
        return None;
    }
    Some(Decimal { mantissa: v, scale: fl as u32 })
}

// ---- rendering ----

/// The digit bytes of `n`, most significant first, with no leading zero
/// unless `n` is itself zero.
pub open spec fn nat_digit_bytes(n: nat) -> Seq<u8>
    decreases n,
{
    if n < 10 {
        seq![(48 + n) as u8]
    } else {
        nat_digit_bytes(n / 10).push((48 + n % 10) as u8)
    }
}

/// The low `w` digits of `n` as bytes, zero-padded on the left to exactly
/// `w` digits.
pub open spec fn padded_digit_bytes(n: nat, w: nat) -> Seq<u8>
    decreases w,
{
    if w == 0 {
        Seq::empty()
    } else {
        padded_digit_bytes(n / 10, (w - 1) as nat).push((48 + n % 10) as u8)
    }
}

/// Canonical text of an amount: the integer part's digits, then, when the
/// scale is positive, a decimal point and exactly `scale` fraction digits.
pub open spec fn dec_text_spec(d: Decimal) -> Seq<u8> {
    if d.scale == 0 {
        nat_digit_bytes(d.mantissa as nat)
    } else {
        nat_digit_bytes((d.mantissa as nat) / pow10(d.scale as nat)) + seq![46u8]
            + padded_digit_bytes((d.mantissa as nat) % pow10(d.scale as nat), d.scale as nat)
    }
}

fn nat_digits_exec(n: u64) -> (r: Vec<u8>)
    ensures
        r@ == nat_digit_bytes(n as nat),
    decreases n,
{
    if n < 10 {
        let mut r: Vec<u8> = Vec::new();
        r.push(48 + n as u8);
        proof {
            assert(r@ =~= nat_digit_bytes(n as nat));
        }
        r
    } else {
        let mut r: Vec<u8> = nat_digits_exec(n / 10);
        r.push(48 + (n % 10) as u8);
        r
    }
}

fn padded_digits_exec(n: u64, w: u32) -> (r: Vec<u8>)
    ensures
        r@ == padded_digit_bytes(n as nat, w as nat),
    decreases w,
{
    if w == 0 {
        Vec::new()
    } else {
        let mut r: Vec<u8> = padded_digits_exec(n / 10, w - 1);
        r.push(48 + (n % 10) as u8);
        r
    }
}

/// Renders an amount as decimal text, keeping its scale: a mantissa of 800
/// at scale 2 renders as `8.00`.
pub fn dec_to_text(d: &Decimal) -> (r: Vec<u8>)
    requires
        d.wf(),
    ensures
        r@ == dec_text_spec(*d),
{
    if d.scale == 0 {
        nat_digits_exec(d.mantissa)
    } else {
        let p: u64 = pow10_u64(d.scale);
        proof {
            lemma_pow10_mono(0, d.scale as nat);
        }
        let mut r: Vec<u8> = nat_digits_exec(d.mantissa / p);
        r.push(46);
        let frac: Vec<u8> = padded_digits_exec(d.mantissa % p, d.scale);
        let mut j: usize = 0;
        while j < frac.len()
            invariant
                j <= frac@.len(),
                r@ == nat_digit_bytes((d.mantissa as nat) / pow10(d.scale as nat)) + seq![46u8]
                    + frac@.subrange(0, j as int),
                frac@ == padded_digit_bytes((d.mantissa as nat) % pow10(d.scale as nat), d.scale as nat),
                d.wf(),
                p == pow10(d.scale as nat),
            decreases frac@.len() - j,
        {
            r.push(frac[j]);
            proof {
                assert(frac@.subrange(0, j + 1) =~= frac@.subrange(0, j as int).push(frac@[j as int]));
                assert(r@ == nat_digit_bytes((d.mantissa as nat) / pow10(d.scale as nat))
                    + seq![46u8] + frac@.subrange(0, j + 1));
            }
            j = j + 1;
        }
        proof {
            assert(frac@.subrange(0, frac@.len() as int) =~= frac@);
        }
        r
    }
}

} // verus!
