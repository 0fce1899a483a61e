//! A member's key material as the library holds it: the seed, the secret
//! scalar derived from it, and the public commitment, the last two as decimal
//! strings of field elements.
use core::str::FromStr;
use num_bigint::BigInt;
use vstd::arithmetic::power::pow;
use vstd::prelude::*;
use vstd::string::StrSliceExecFns;

verus! {

/// `s` is a nonempty string of the digits `0` to `9`.
pub open spec fn is_decimal(s: Seq<char>) -> bool {
    s.len() > 0 && forall|i: int| 0 <= i < s.len() ==> '0' <= #[trigger] s[i] <= '9'
}

/// The number that a string of decimal digits denotes, most significant first.
pub open spec fn decimal_value(s: Seq<char>) -> nat
    decreases s.len(),
{
    if s.len() == 0 {
        0
    } else {
        (10 * decimal_value(s.drop_last()) + ((s.last() as u32) as int - 48)) as nat
    }
}

/// The number that bytes denote, least significant first.
pub open spec fn le_value(b: Seq<u8>) -> nat
    decreases b.len(),
{
    if b.len() == 0 {
        0
    } else {
        b[0] as nat + 256 * le_value(b.drop_first())
    }
}

/// The bound below which a commitment fits one 32-byte element: `256^32`.
pub open spec fn element_bound() -> int {
    pow(256, 32)
}

/// Relies on `num_bigint`: `BigInt::from_str` accepts any string of decimal
/// digits, and `to_bytes_le` gives its magnitude least significant byte
/// first, in as few bytes as hold it (`[0]` for zero).
#[verifier::external_body]
fn decimal_to_le_bytes(s: &str) -> (r: Option<Vec<u8>>)
    ensures
        is_decimal(s@) ==> r is Some,
        is_decimal(s@) ==> le_value(r->Some_0@) == decimal_value(s@),
        is_decimal(s@) ==> r->Some_0@.len() > 0,
        is_decimal(s@) ==> (r->Some_0@.len() == 1 || r->Some_0@.last() != 0),
{
    match BigInt::from_str(s) {
        Ok(n) => Some(n.to_bytes_le().1),
        Err(_) => None,
    }
}

/// Whether every character of `s` is a decimal digit, and there is one.
fn is_decimal_str(s: &str) -> (r: bool)
    ensures
        r == is_decimal(s@),
{
    let n = s.unicode_len();
    if n == 0 {
        return false;
    }
    let mut i: usize = 0;
    while i < n
        invariant
            i <= n,
            n == s@.len(),
            forall|j: int| 0 <= j < i ==> '0' <= #[trigger] s@[j] <= '9',
        decreases n - i,
    {
        let c = s.get_char(i);
        if !('0' <= c && c <= '9') {
            return false;
        }
        i = i + 1;
    }
    true
}

proof fn lemma_le_value_below(b: Seq<u8>)
    ensures
        le_value(b) < pow(256, b.len()),
    decreases b.len(),
{
    vstd::arithmetic::power::lemma_pow0(256);
    if b.len() > 0 {
        lemma_le_value_below(b.drop_first());
        vstd::arithmetic::power::lemma_pow_adds(256, 1, (b.len() - 1) as nat);
        vstd::arithmetic::power::lemma_pow1(256);
    }
}

proof fn lemma_le_value_top(b: Seq<u8>)
    requires
        b.len() > 0,
        b.last() != 0,
    ensures
        le_value(b) >= pow(256, (b.len() - 1) as nat),
    decreases b.len(),
{
    vstd::arithmetic::power::lemma_pow0(256);
    let rest = b.drop_first();
    if b.len() > 1 {
        assert(rest.last() == b.last());
        lemma_le_value_top(rest);
        vstd::arithmetic::power::lemma_pow_adds(256, 1, (rest.len() - 1) as nat);
        vstd::arithmetic::power::lemma_pow1(256);
    } else {
        assert(b[0] == b.last());
    }
}

/// Minimal little-endian bytes fit one element exactly when their value is
/// below `256^32`.
proof fn lemma_fits_element(b: Seq<u8>)
    requires
        b.len() > 0,
        b.len() == 1 || b.last() != 0,
    ensures
        b.len() <= 32 <==> le_value(b) < element_bound(),
{
    lemma_le_value_below(b);
    if b.len() <= 32 {
        vstd::arithmetic::power::lemma_pow_increases(256, b.len(), 32);
    } else {
        lemma_le_value_top(b);
        vstd::arithmetic::power::lemma_pow_increases(256, 32, (b.len() - 1) as nat);
    }
}

proof fn lemma_le_value_push_zero(b: Seq<u8>)
    ensures
        le_value(b.push(0u8)) == le_value(b),
    decreases b.len(),
{
    if b.len() > 0 {
        assert(b.push(0u8).drop_first() =~= b.drop_first().push(0u8));
        assert(b.push(0u8)[0] == b[0]);
        lemma_le_value_push_zero(b.drop_first());
    } else {
        assert(b.push(0u8).drop_first() =~= Seq::<u8>::empty());
        assert(le_value(Seq::<u8>::empty()) == 0);
        assert(b.push(0u8)[0] == 0u8);
    }
}

/// A member's key material. The commitment is a decimal string whose value
/// fits one 32-byte element.
pub struct Identity {
    private_key: Vec<u8>,
    secret_scalar: String,
    commitment: String,
}

impl Identity {
    #[verifier::type_invariant]
    spec fn inv(&self) -> bool {
        &&& is_decimal(self.secret_scalar@)
        &&& is_decimal(self.commitment@)
        &&& decimal_value(self.commitment@) < element_bound()
    }

    pub closed spec fn private_key_view(&self) -> Seq<u8> {
        self.private_key@
    }

    pub closed spec fn secret_scalar_view(&self) -> Seq<char> {
        self.secret_scalar@
    }

    pub closed spec fn commitment_view(&self) -> Seq<char> {
        self.commitment@
    }

    /// Holds the key material that a seed was derived into. Refused unless
    /// the secret scalar and the commitment are decimal strings and the
    /// commitment fits one element.
    pub fn from_parts(private_key: Vec<u8>, secret_scalar: String, commitment: String) -> (r:
        Option<Identity>)
        ensures
            r is Some <==> (is_decimal(secret_scalar@) && is_decimal(commitment@) && decimal_value(
                commitment@,
            ) < element_bound()),
            r is Some ==> r->Some_0.private_key_view() == private_key@,
            r is Some ==> r->Some_0.secret_scalar_view() == secret_scalar@,
            r is Some ==> r->Some_0.commitment_view() == commitment@,
    {
        if !is_decimal_str(secret_scalar.as_str()) || !is_decimal_str(commitment.as_str()) {
            return None;
        }
        let bytes = match decimal_to_le_bytes(commitment.as_str()) {
            Some(b) => b,
            None => {
                return None;
            },
        };
        proof {
            lemma_fits_element(bytes@);
        }
        if bytes.len() > 32 {
            return None;
        }
        Some(Identity { private_key, secret_scalar, commitment })
    }

    /// The seed.
    pub fn private_key(&self) -> (r: Vec<u8>)
        ensures
            r@ == self.private_key_view(),
    {
        let r = self.private_key.clone();
        assert(r@ =~= self.private_key@);
        r
    }

    /// The public commitment, in decimal.
    pub fn commitment(&self) -> (r: String)
        ensures
            r@ == self.commitment_view(),
    {
        self.commitment.clone()
    }

    /// The secret scalar, in decimal.
    pub fn secret_scalar(&self) -> (r: String)
        ensures
            r@ == self.secret_scalar_view(),
    {
        self.secret_scalar.clone()
    }

    /// The commitment as a tree leaf: 32 bytes, least significant first.
    pub fn to_element(&self) -> (r: Vec<u8>)
        ensures
            r@.len() == 32,
            le_value(r@) == decimal_value(self.commitment_view()),
    {
        proof {
            use_type_invariant(self);
        }
        let mut element = match decimal_to_le_bytes(self.commitment.as_str()) {
            Some(b) => b,
            None => {
                proof {
                    assert(false);
                }
                Vec::new()
            },
        };
        proof {
            lemma_fits_element(element@);
        }
        while element.len() < 32
            invariant
                element@.len() <= 32,
                le_value(element@) == decimal_value(self.commitment@),
            decreases 32 - element@.len(),
        {
            proof {
                lemma_le_value_push_zero(element@);
            }
            element.push(0u8);
        }
        element
    }
}

} // verus!
