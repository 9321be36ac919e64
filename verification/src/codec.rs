use vstd::prelude::*;

verus! {

/// True when every element of `s` is a numeric digit value (0 through 9).
pub open spec fn all_digits(s: Seq<u8>) -> bool {
    forall|i: int| 0 <= i < s.len() ==> s[i] < 10
}

/// Sum of the first `i` digits of `payload`, weighted 1 at even 0-based
/// positions and 3 at odd positions, as the 13-digit barcode checksum
/// prescribes for its 12-digit payload.
pub open spec fn weighted_sum(payload: Seq<u8>, i: int) -> int
    decreases i,
{
    if i <= 0 {
        0
    } else {
        weighted_sum(payload, i - 1) + payload[i - 1] * (if (i - 1) % 2 == 0 {
            1int
        } else {
            3int
        })
    }
}

/// The check digit determined by the first 12 digits of `payload`.
pub open spec fn check_digit_spec(payload: Seq<u8>) -> int {
    (10 - weighted_sum(payload, 12) % 10) % 10
}

/// A sequence is a valid code when it is exactly 13 digits and its last
/// digit is the checksum of the leading 12.
pub open spec fn valid_code(s: Seq<u8>) -> bool {
    &&& s.len() == 13
    &&& all_digits(s)
    &&& s[12] == check_digit_spec(s)
}

pub proof fn lemma_weighted_sum_nonneg(payload: Seq<u8>, i: int)
    ensures
        weighted_sum(payload, i) >= 0,
    decreases i,
{
    if i > 0 {
        lemma_weighted_sum_nonneg(payload, i - 1);
    }
}

/// The weighted sum over the first `i` positions reads those positions only.
pub proof fn lemma_weighted_sum_agree(a: Seq<u8>, b: Seq<u8>, i: int)
    requires
        forall|j: int| 0 <= j < i ==> a[j] == b[j],
    ensures
        weighted_sum(a, i) == weighted_sum(b, i),
    decreases i,
{
    if i > 0 {
        lemma_weighted_sum_agree(a, b, i - 1);
    }
}

/// `payload` (of which only the first 12 digits matter) extended with its
/// computed check digit.
pub open spec fn with_check(payload: Seq<u8>) -> Seq<u8> {
    payload.subrange(0, 12).push(check_digit_spec(payload) as u8)
}

/// What repair makes of a sequence of raw digits: fewer than 11 digits is
/// rejected as dead; exactly 11 gains a placeholder digit and then a
/// computed checksum; 12 or more keep their leading 12 digits as the
/// payload and the checksum is recomputed from those, whatever digit was
/// supplied after them.
pub open spec fn repair_spec(s: Seq<u8>) -> Option<Seq<u8>> {
    if s.len() < 11 {
        None
    } else if s.len() == 11 {
        Some(with_check(s.push(0)))
    } else {
        Some(with_check(s))
    }
}

/// Computes the checksum digit of the first 12 digits of `payload`.
pub fn check_digit(payload: &Vec<u8>) -> (d: u8)
    requires
        payload@.len() >= 12,
        all_digits(payload@),
    ensures
        d == check_digit_spec(payload@),
        d < 10,
{
    let mut sum: u32 = 0;
    let mut i: usize = 0;
    while i < 12
        invariant
            i <= 12,
            payload@.len() >= 12,
            all_digits(payload@),
            sum == weighted_sum(payload@, i as int),
            sum <= 27 * i,
        decreases 12 - i,
    {
        let w: u32 = if i % 2 == 0 {
            1
        } else {
            3
        };
        sum = sum + (payload[i] as u32) * w;
        i = i + 1;
    }
    let r: u32 = (10 - sum % 10) % 10;
    proof {
        lemma_weighted_sum_nonneg(payload@, 12);
    }
    r as u8
}

/// A validated 13-digit barcode. Two codes stand for the same barcode
/// exactly when their 13 digits are identical.
pub struct Barcode {
    digits: Vec<u8>,
}

impl View for Barcode {
    type V = Seq<u8>;

    closed spec fn view(&self) -> Seq<u8> {
        self.digits@
    }
}

impl Clone for Barcode {
    fn clone(&self) -> (r: Self)
        ensures
            r@ == self@,
    {
        Barcode { digits: clone_bytes(&self.digits) }
    }
}

/// Copies a byte vector.
pub fn clone_bytes(v: &Vec<u8>) -> (r: Vec<u8>)
    ensures
        r@ == v@,
{
    let mut r: Vec<u8> = Vec::new();
    let mut i: usize = 0;
    while i < v.len()
        invariant
            i <= v@.len(),
            r@ == v@.subrange(0, i as int),
        decreases v@.len() - i,
    {
        r.push(v[i]);
        i = i + 1;
    }
    proof {
        assert(r@ =~= v@);
    }
    r
}

impl Barcode {
    /// Every barcode value is a valid 13-digit code.
    pub open spec fn wf(&self) -> bool {
        valid_code(self@)
    }

    /// The 13 digits, most significant first, each a value 0 through 9.
    pub fn digits(&self) -> (r: &Vec<u8>)
        ensures
            r@ == self@,
    {
        &self.digits
    }

    /// True when both codes carry the same 13 digits.
    pub fn same_code(&self, other: &Barcode) -> (r: bool)
        ensures
            r == (self@ == other@),
    {
        bytes_equal(&self.digits, &other.digits)
    }
}

/// True when the two byte vectors hold the same sequence.
pub fn bytes_equal(a: &Vec<u8>, b: &Vec<u8>) -> (r: bool)
    ensures
        r == (a@ == b@),
{
    if a.len() != b.len() {
        return false;
    }
    let mut i: usize = 0;
    while i < a.len()
        invariant
            i <= a@.len(),
            a@.len() == b@.len(),
            forall|j: int| 0 <= j < i ==> a@[j] == b@[j],
        decreases a@.len() - i,
    {
        if a[i] != b[i] {
            return false;
        }
        i = i + 1;
    }
    proof {
        assert(a@ =~= b@);
    }
    true
}

/// Repairs a sequence of raw digits into a valid barcode, or rejects it:
/// fewer than 11 digits is treated as a dead code; 11 digits are taken as
/// missing their check digit, a placeholder 0 is appended and the checksum
/// is computed over the resulting payload; with 12 or more digits the
/// leading 12 are trusted as the payload and the check digit is recomputed
/// from them regardless of any digit supplied after them.
pub fn repair_or_reject(raw: &Vec<u8>) -> (r: Option<Barcode>)
    requires
        all_digits(raw@),
    ensures
        r is Some <==> raw@.len() >= 11,
        r is Some ==> repair_spec(raw@) == Some(r->Some_0@),
        r is Some ==> r->Some_0.wf(),
{
    if raw.len() < 11 {
        return None;
    }
    let mut payload: Vec<u8> = Vec::new();
    let mut i: usize = 0;
    let n: usize = if raw.len() < 12 {
        raw.len()
    } else {
        12
    };
    while i < n
        invariant
            i <= n,
            n <= raw@.len(),
            all_digits(raw@),
            payload@ == raw@.subrange(0, i as int),
        decreases n - i,
    {
        payload.push(raw[i]);
        i = i + 1;
    }
    if raw.len() == 11 {
        payload.push(0);
    }
    proof {
        if raw@.len() == 11 {
            assert(payload@ =~= raw@.push(0));
        } else {
            assert(payload@ =~= raw@.subrange(0, 12));
        }
    }
    let d = check_digit(&payload);
    proof {
        let base: Seq<u8> = if raw@.len() == 11 {
            raw@.push(0)
        } else {
            raw@
        };
        lemma_weighted_sum_agree(payload@, base, 12);
        assert(payload@.subrange(0, 12) =~= base.subrange(0, 12));
        lemma_check_digit_revalidates(base);
    }
    payload.push(d);
    Some(Barcode { digits: payload })
}

/// Appending the computed check digit to a payload of at least 12 digits
/// forms a code that re-validates under the same checksum.
pub proof fn lemma_check_digit_revalidates(payload: Seq<u8>)
    requires
        payload.len() >= 12,
        all_digits(payload),
    ensures
        valid_code(with_check(payload)),
{
    let c = with_check(payload);
    lemma_weighted_sum_nonneg(payload, 12);
    lemma_weighted_sum_agree(c, payload, 12);
    assert(check_digit_spec(c) == check_digit_spec(payload));
    assert(c[12] == check_digit_spec(payload) as u8);
}

/// Repair is idempotent: repairing an already-valid 13-digit code yields
/// the same code.
pub proof fn lemma_repair_idempotent(s: Seq<u8>)
    requires
        valid_code(s),
    ensures
        repair_spec(s) == Some(s),
{
    lemma_weighted_sum_nonneg(s, 12);
    assert(with_check(s) =~= s);
}

} // verus!
