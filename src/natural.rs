use vstd::arithmetic::power::*;
use vstd::prelude::*;

use num_bigint::BigUint;

use crate::error::RsaError;

verus! {

/// The number that a big-endian octet string denotes.
pub open spec fn os2ip_spec(s: Seq<u8>) -> nat
    decreases s.len(),
{
    if s.len() == 0 {
        0
    } else {
        os2ip_spec(s.drop_last()) * 256 + (s.last() as nat)
    }
}

/// The big-endian octet string of `len` octets whose value is `x` modulo `256^len`.
pub open spec fn i2osp_spec(x: nat, len: nat) -> Seq<u8>
    decreases len,
{
    if len == 0 {
        Seq::empty()
    } else {
        i2osp_spec(x / 256, (len - 1) as nat).push((x % 256) as u8)
    }
}

/// The number of octets of `x` without leading zeros: `ceil(bitlen(x) / 8)`.
pub open spec fn byte_length(x: nat) -> nat
    decreases x,
{
    if x == 0 {
        0
    } else {
        1 + byte_length(x / 256)
    }
}

/// `n` zero octets.
pub open spec fn zeros(n: nat) -> Seq<u8> {
    Seq::new(n, |i: int| 0u8)
}

pub proof fn lemma_i2osp_len(x: nat, len: nat)
    ensures
        i2osp_spec(x, len).len() == len,
    decreases len,
{
    if len > 0 {
        lemma_i2osp_len(x / 256, (len - 1) as nat);
    }
}

/// A string of `len` octets denotes a number below `256^len`.
pub proof fn lemma_os2ip_bound(s: Seq<u8>)
    ensures
        os2ip_spec(s) < pow(256, s.len()),
    decreases s.len(),
{
    reveal(pow);
    if s.len() > 0 {
        let p = s.drop_last();
        lemma_os2ip_bound(p);
        let v = os2ip_spec(p);
        let q = pow(256, p.len());
        assert(v * 256 + (s.last() as nat) < q * 256) by (nonlinear_arith)
            requires
                v < q,
                s.last() < 256,
        ;
        assert(pow(256, s.len()) == 256 * pow(256, (s.len() - 1) as nat));
    }
}

/// A string whose first octet is not zero denotes at least `256^(len - 1)`.
pub proof fn lemma_os2ip_lower(s: Seq<u8>)
    requires
        s.len() > 0,
        s[0] != 0,
    ensures
        pow(256, (s.len() - 1) as nat) <= os2ip_spec(s),
    decreases s.len(),
{
    reveal(pow);
    if s.len() > 1 {
        let p = s.drop_last();
        assert(p[0] == s[0]);
        lemma_os2ip_lower(p);
        let v = os2ip_spec(p);
        let q = pow(256, (p.len() - 1) as nat);
        assert(q * 256 <= v * 256 + (s.last() as nat)) by (nonlinear_arith)
            requires
                q <= v,
        ;
        assert(pow(256, (s.len() - 1) as nat) == 256 * pow(256, (p.len() - 1) as nat));
    } else {
        assert(s.drop_last().len() == 0);
    }
}

/// Leading zero octets do not change the value.
pub proof fn lemma_os2ip_leading_zeros(n: nat, s: Seq<u8>)
    ensures
        os2ip_spec(zeros(n) + s) == os2ip_spec(s),
    decreases s.len(),
{
    let z = zeros(n) + s;
    if s.len() == 0 {
        assert(z =~= zeros(n));
        lemma_os2ip_zeros(n);
    } else {
        assert(z.drop_last() =~= zeros(n) + s.drop_last());
        lemma_os2ip_leading_zeros(n, s.drop_last());
    }
}

pub proof fn lemma_os2ip_zeros(n: nat)
    ensures
        os2ip_spec(zeros(n)) == 0,
    decreases n,
{
    if n > 0 {
        assert(zeros(n).drop_last() =~= zeros((n - 1) as nat));
        lemma_os2ip_zeros((n - 1) as nat);
    }
}

/// Encoding the value of a string at its own length gives the string back.
pub proof fn lemma_i2osp_of_os2ip(s: Seq<u8>)
    ensures
        i2osp_spec(os2ip_spec(s), s.len()) == s,
    decreases s.len(),
{
    if s.len() > 0 {
        let p = s.drop_last();
        let v = os2ip_spec(p);
        let x = v * 256 + (s.last() as nat);
        assert(x / 256 == v && x % 256 == (s.last() as nat)) by (nonlinear_arith)
            requires
                x == v * 256 + (s.last() as nat),
                s.last() < 256,
        ;
        lemma_i2osp_of_os2ip(p);
        assert(i2osp_spec(x, s.len()) =~= p.push(s.last()));
        assert(p.push(s.last()) =~= s);
    }
}

/// The value of the encoding of `x` at `len` octets is `x`, where `x` fits.
pub proof fn lemma_os2ip_of_i2osp(x: nat, len: nat)
    requires
        x < pow(256, len),
    ensures
        os2ip_spec(i2osp_spec(x, len)) == x,
    decreases len,
{
    reveal(pow);
    if len > 0 {
        let q = pow(256, (len - 1) as nat);
        assert(x / 256 < q) by (nonlinear_arith)
            requires
                x < 256 * q,
        ;
        lemma_os2ip_of_i2osp(x / 256, (len - 1) as nat);
        let s = i2osp_spec(x, len);
        assert(s.drop_last() =~= i2osp_spec(x / 256, (len - 1) as nat));
        assert(x == (x / 256) * 256 + x % 256) by (nonlinear_arith);
    } else {
        assert(x == 0);
    }
}

/// A string without a leading zero octet is as long as the byte length of its value.
pub proof fn lemma_byte_length_minimal(s: Seq<u8>)
    requires
        s.len() == 0 || s[0] != 0,
    ensures
        byte_length(os2ip_spec(s)) == s.len(),
        s.len() > 0 ==> os2ip_spec(s) > 0,
    decreases s.len(),
{
    if s.len() > 0 {
        let p = s.drop_last();
        let v = os2ip_spec(p);
        let x = v * 256 + (s.last() as nat);
        assert(x / 256 == v) by (nonlinear_arith)
            requires
                x == v * 256 + (s.last() as nat),
                s.last() < 256,
        ;
        if p.len() > 0 {
            assert(p[0] == s[0]);
        }
        lemma_byte_length_minimal(p);
        if p.len() == 0 {
            assert(v == 0);
            assert(x == (s[0] as nat));
        } else {
            assert(x >= 256) by (nonlinear_arith)
                requires
                    v > 0,
                    x == v * 256 + (s.last() as nat),
            ;
        }
    }
}

/// A number `x` fits in `len` octets exactly when its byte length is at most `len`.
pub proof fn lemma_fits_iff_byte_length(x: nat, len: nat)
    ensures
        x < pow(256, len) <==> byte_length(x) <= len,
    decreases len,
{
    reveal(pow);
    if len == 0 {
        if x > 0 {
            assert(byte_length(x) >= 1);
        }
    } else {
        lemma_fits_iff_byte_length(x / 256, (len - 1) as nat);
        let q = pow(256, (len - 1) as nat);
        lemma_pow_positive(256, (len - 1) as nat);
        assert(x < 256 * q <==> x / 256 < q) by (nonlinear_arith)
            requires
                q > 0,
        ;
    }
}

/// The value of `x ‖ y` is `os2ip(x) * 256^len(y) + os2ip(y)`.
pub proof fn lemma_os2ip_append(x: Seq<u8>, y: Seq<u8>)
    ensures
        os2ip_spec(x + y) == os2ip_spec(x) * pow(256, y.len()) + os2ip_spec(y),
    decreases y.len(),
{
    reveal(pow);
    if y.len() == 0 {
        assert(x + y =~= x);
    } else {
        let y1 = y.drop_last();
        assert((x + y).drop_last() =~= x + y1);
        lemma_os2ip_append(x, y1);
        let vx = os2ip_spec(x);
        let q = pow(256, y1.len());
        let v1 = os2ip_spec(y1);
        assert((vx * q + v1) * 256 + (y.last() as nat) == vx * (256 * q) + (v1 * 256 + (
        y.last() as nat))) by (nonlinear_arith);
        assert(pow(256, y.len()) == 256 * q);
    }
}

/// Among strings without leading zeros, a shorter one denotes a smaller number.
proof fn lemma_shorter_is_less(a: Seq<u8>, b: Seq<u8>)
    requires
        a.len() < b.len(),
        b[0] != 0,
    ensures
        os2ip_spec(a) < os2ip_spec(b),
{
    lemma_os2ip_bound(a);
    lemma_os2ip_lower(b);
    lemma_pow_increases(256, a.len(), (b.len() - 1) as nat);
}

/// Between strings of one length, the first differing octet decides the order.
proof fn lemma_first_difference_decides(a: Seq<u8>, b: Seq<u8>, i: int)
    requires
        a.len() == b.len(),
        0 <= i < a.len(),
        forall|t: int| 0 <= t < i ==> a[t] == b[t],
        a[i] != b[i],
    ensures
        (os2ip_spec(a) < os2ip_spec(b)) == (a[i] < b[i]),
{
    let len = a.len() as int;
    let p = a.subrange(0, i);
    assert(p =~= b.subrange(0, i));
    let ra = a.subrange(i + 1, len);
    let rb = b.subrange(i + 1, len);
    assert(a =~= p.push(a[i]) + ra);
    assert(b =~= p.push(b[i]) + rb);
    lemma_os2ip_append(p.push(a[i]), ra);
    lemma_os2ip_append(p.push(b[i]), rb);
    assert(p.push(a[i]).drop_last() =~= p);
    assert(p.push(b[i]).drop_last() =~= p);
    lemma_os2ip_bound(ra);
    lemma_os2ip_bound(rb);
    let q = pow(256, ra.len());
    let ha = os2ip_spec(p) * 256 + (a[i] as nat);
    let hb = os2ip_spec(p) * 256 + (b[i] as nat);
    if a[i] < b[i] {
        lemma_lower_head_is_less(ha, hb, os2ip_spec(ra), os2ip_spec(rb), q);
    } else {
        lemma_lower_head_is_less(hb, ha, os2ip_spec(rb), os2ip_spec(ra), q);
    }
}

proof fn lemma_lower_head_is_less(ha: nat, hb: nat, ra: nat, rb: nat, q: int)
    requires
        ha < hb,
        ra < q,
    ensures
        ha * q + ra < hb * q + rb,
{
    assert(ha * q + ra < hb * q + rb) by (nonlinear_arith)
        requires
            ha + 1 <= hb,
            ra < q,
            rb >= 0,
    ;
}

/// An arbitrary-precision non-negative integer, held as its big-endian octets
/// without leading zeros.
#[derive(Debug, PartialEq, Eq)]
pub struct Natural {
    digits: Vec<u8>,
}

impl Natural {
    #[verifier::type_invariant]
    spec fn minimal(self) -> bool {
        self.digits@.len() == 0 || self.digits@[0] != 0
    }

    /// The number held.
    pub closed spec fn value(self) -> nat {
        os2ip_spec(self.digits@)
    }

    /// The number of octets of the number: `ceil(bitlen / 8)`.
    pub fn octet_len(&self) -> (r: usize)
        ensures
            r == byte_length(self.value()),
    {
        proof {
            use_type_invariant(self);
            lemma_byte_length_minimal(self.digits@);
        }
        self.digits.len()
    }

    /// Whether this number is below `other`.
    pub fn is_less_than(&self, other: &Natural) -> (r: bool)
        ensures
            r == (self.value() < other.value()),
    {
        proof {
            use_type_invariant(self);
            use_type_invariant(other);
        }
        let n = self.digits.len();
        if n != other.digits.len() {
            proof {
                if n < other.digits@.len() {
                    lemma_shorter_is_less(self.digits@, other.digits@);
                } else {
                    lemma_shorter_is_less(other.digits@, self.digits@);
                }
            }
            return n < other.digits.len();
        }
        let mut i: usize = 0;
        while i < n && self.digits[i] == other.digits[i]
            invariant
                i <= n,
                n == self.digits@.len(),
                n == other.digits@.len(),
                forall|t: int| 0 <= t < i ==> self.digits@[t] == other.digits@[t],
            decreases n - i,
        {
            i = i + 1;
        }
        if i == n {
            assert(self.digits@ =~= other.digits@);
            false
        } else {
            proof {
                lemma_first_difference_decides(self.digits@, other.digits@, i as int);
            }
            self.digits[i] < other.digits[i]
        }
    }

    /// `(self ^ exponent) mod modulus`.
    pub fn mod_pow(&self, exponent: &Natural, modulus: &Natural) -> (r: Natural)
        requires
            modulus.value() > 0,
        ensures
            r.value() == pow(self.value() as int, exponent.value()) % (modulus.value() as int),
    {
        let out = big_mod_pow(&self.digits, &exponent.digits, &modulus.digits);
        os2ip(out.as_slice())
    }
}

/// Relies on `BigUint::modpow`, which returns `(self ^ exponent) % modulus` and
/// panics on a zero modulus, and on `BigUint`'s big-endian byte conversions.
#[verifier::external_body]
fn big_mod_pow(base: &Vec<u8>, exponent: &Vec<u8>, modulus: &Vec<u8>) -> (r: Vec<u8>)
    requires
        os2ip_spec(modulus@) > 0,
    ensures
        os2ip_spec(r@) == pow(os2ip_spec(base@) as int, os2ip_spec(exponent@)) % (os2ip_spec(
            modulus@,
        ) as int),
{
    let b = BigUint::from_bytes_be(base);
    let e = BigUint::from_bytes_be(exponent);
    let m = BigUint::from_bytes_be(modulus);
    b.modpow(&e, &m).to_bytes_be()
}

/// OS2IP: the number that the big-endian octet string `x` denotes.
pub fn os2ip(x: &[u8]) -> (r: Natural)
    ensures
        r.value() == os2ip_spec(x@),
{
    let mut i: usize = 0;
    while i < x.len() && x[i] == 0
        invariant
            i <= x.len(),
            forall|j: int| 0 <= j < i ==> x@[j] == 0,
        decreases x.len() - i,
    {
        i = i + 1;
    }
    let mut digits: Vec<u8> = Vec::new();
    let mut j: usize = i;
    while j < x.len()
        invariant
            i <= j <= x.len(),
            digits@ == x@.subrange(i as int, j as int),
        decreases x.len() - j,
    {
        digits.push(x[j]);
        j = j + 1;
        assert(digits@ =~= x@.subrange(i as int, j as int));
    }
    proof {
        assert(x@ =~= zeros(i as nat) + digits@);
        lemma_os2ip_leading_zeros(i as nat, digits@);
    }
    Natural { digits }
}

/// I2OSP: `x` as a big-endian octet string of exactly `x_len` octets, or
/// `IntegerTooLarge` where `x >= 256^x_len`.
pub fn i2osp(x: &Natural, x_len: usize) -> (r: Result<Vec<u8>, RsaError>)
    ensures
        match r {
            Ok(o) => x.value() < pow(256, x_len as nat) && o@ == i2osp_spec(x.value(), x_len as nat),
            Err(e) => x.value() >= pow(256, x_len as nat) && e == RsaError::IntegerTooLarge,
        },
{
    proof {
        use_type_invariant(x);
        lemma_byte_length_minimal(x.digits@);
        lemma_fits_iff_byte_length(x.value(), x_len as nat);
    }
    let n = x.digits.len();
    if n > x_len {
        return Err(RsaError::IntegerTooLarge);
    }
    let pad = x_len - n;
    let mut out: Vec<u8> = Vec::new();
    let mut i: usize = 0;
    while i < pad
        invariant
            i <= pad,
            out@ == zeros(i as nat),
        decreases pad - i,
    {
        out.push(0);
        i = i + 1;
        assert(out@ =~= zeros(i as nat));
    }
    let mut j: usize = 0;
    while j < n
        invariant
            j <= n,
            n == x.digits@.len(),
            out@ == zeros(pad as nat) + x.digits@.subrange(0, j as int),
        decreases n - j,
    {
        out.push(x.digits[j]);
        j = j + 1;
        assert(out@ =~= zeros(pad as nat) + x.digits@.subrange(0, j as int));
    }
    proof {
        assert(x.digits@.subrange(0, n as int) =~= x.digits@);
        lemma_os2ip_leading_zeros(pad as nat, x.digits@);
        lemma_i2osp_of_os2ip(out@);
    }
    Ok(out)
}

} // verus!
