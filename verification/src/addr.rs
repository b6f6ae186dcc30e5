//! Addresses and the `AddressKey` encoding.
//!
//! An address is held as its numeric value: 32 bits for v4, 128 bits for v6.
//! The `AddressKey` form of an address is its value as fixed-width big-endian
//! bytes: 4 for v4, 16 for v6.  Keys of different families are never compared.
//! The laws at the end of the module state that byte-wise lexicographic order
//! on keys of one width agrees with numeric order, and that a key determines
//! its value's bytes uniquely.

use vstd::arithmetic::div_mod::lemma_fundamental_div_mod_converse;
use vstd::prelude::*;

verus! {

/// Which address family a value belongs to.  Ranges of different families are
/// kept apart and never compared.
#[derive(Clone, Copy, PartialEq, Eq, Structural, Debug)]
pub enum Family {
    V4,
    V6,
}

/// An IP address as its numeric value within its family's space.
#[derive(Clone, Copy, PartialEq, Eq, Structural, Debug)]
pub enum IpAddress {
    V4(u32),
    V6(u128),
}

impl IpAddress {
    /// The family of this address.
    pub open spec fn spec_family(self) -> Family {
        match self {
            IpAddress::V4(_) => Family::V4,
            IpAddress::V6(_) => Family::V6,
        }
    }

    /// The numeric value of this address.
    pub open spec fn spec_value(self) -> nat {
        match self {
            IpAddress::V4(v) => v as nat,
            IpAddress::V6(v) => v as nat,
        }
    }

    /// The family of this address.
    pub fn family(&self) -> (f: Family)
        ensures
            f == self.spec_family(),
    {
        match self {
            IpAddress::V4(_) => Family::V4,
            IpAddress::V6(_) => Family::V6,
        }
    }

    /// The numeric value of this address, widened to 128 bits.
    pub fn value(&self) -> (v: u128)
        ensures
            v as nat == self.spec_value(),
    {
        match self {
            IpAddress::V4(v) => *v as u128,
            IpAddress::V6(v) => *v,
        }
    }
}

/// 256 to the power `n`: the number of byte sequences of length `n`.
pub open spec fn pow256(n: nat) -> nat
    decreases n,
{
    if n == 0 {
        1
    } else {
        256 * pow256((n - 1) as nat)
    }
}

/// The value of a byte sequence read as a big-endian integer.
pub open spec fn be_val(s: Seq<u8>) -> nat
    decreases s.len(),
{
    if s.len() == 0 {
        0
    } else {
        (be_val(s.drop_last()) * 256 + s.last()) as nat
    }
}

/// Strict lexicographic order on byte sequences.
pub open spec fn lex_lt(a: Seq<u8>, b: Seq<u8>) -> bool
    decreases a.len(),
{
    if a.len() == 0 {
        b.len() > 0
    } else if b.len() == 0 {
        false
    } else {
        a[0] < b[0] || (a[0] == b[0] && lex_lt(a.drop_first(), b.drop_first()))
    }
}

/// The two key widths' space sizes, written out.
pub proof fn lemma_pow256_key_widths()
    ensures
        pow256(4) == 0x1_0000_0000,
        pow256(16) == 0x1_0000_0000_0000_0000_0000_0000_0000_0000,
{
    reveal_with_fuel(pow256, 17);
}

pub proof fn lemma_pow256_mono(m: nat, n: nat)
    requires
        m <= n,
    ensures
        pow256(m) <= pow256(n),
    decreases n,
{
    if m < n && n > 0 {
        lemma_pow256_mono(m, (n - 1) as nat);
    }
}

/// A sequence of `n` bytes denotes a value below `256^n`.
pub proof fn lemma_be_val_bound(s: Seq<u8>)
    ensures
        be_val(s) < pow256(s.len()),
    decreases s.len(),
{
    if s.len() > 0 {
        lemma_be_val_bound(s.drop_last());
    }
}

/// Big-endian reading decomposes at the front: the first byte weighs
/// `256^(len-1)`.
pub proof fn lemma_be_val_first(s: Seq<u8>)
    requires
        s.len() > 0,
    ensures
        be_val(s) == s[0] * pow256((s.len() - 1) as nat) + be_val(s.drop_first()),
    decreases s.len(),
{
    if s.len() == 1 {
        assert(s.drop_last().len() == 0);
        assert(s.drop_first().len() == 0);
        assert(be_val(s.drop_last()) == 0);
        assert(be_val(s.drop_first()) == 0);
        assert(be_val(s) == (be_val(s.drop_last()) * 256 + s.last()) as nat);
        assert(s.last() == s[0]);
        assert(pow256((s.len() - 1) as nat) == 1);
        assert(be_val(s) == s[0] * pow256((s.len() - 1) as nat) + be_val(s.drop_first()));
    } else {
        let t = s.drop_last();
        let u = s.drop_first();
        let c = s.last();
        lemma_be_val_first(t);
        assert(t.drop_first() =~= u.drop_last());
        assert(u.last() == c);
        assert(be_val(u) == (be_val(u.drop_last()) * 256 + c) as nat);
        assert(be_val(s) == (be_val(t) * 256 + c) as nat);
        let p2 = pow256((s.len() - 2) as nat);
        assert((t.len() - 1) as nat == (s.len() - 2) as nat);
        assert(be_val(t) == s[0] * p2 + be_val(u.drop_last()));
        assert(pow256((s.len() - 1) as nat) == 256 * p2) by {
            assert((((s.len() - 1) as nat) - 1) as nat == (s.len() - 2) as nat);
        }
        assert(s[0] * (256 * p2) == (s[0] * p2) * 256) by (nonlinear_arith);
        assert((s[0] * p2 + be_val(u.drop_last())) * 256 == (s[0] * p2) * 256 + be_val(
            u.drop_last(),
        ) * 256);
        assert(be_val(s) == s[0] * pow256((s.len() - 1) as nat) + be_val(u));
    }
}

/// On sequences of one length, lexicographic order is numeric order.
pub proof fn lemma_lex_matches_numeric(a: Seq<u8>, b: Seq<u8>)
    requires
        a.len() == b.len(),
    ensures
        lex_lt(a, b) <==> be_val(a) < be_val(b),
    decreases a.len(),
{
    if a.len() > 0 {
        lemma_be_val_first(a);
        lemma_be_val_first(b);
        lemma_be_val_bound(a.drop_first());
        lemma_be_val_bound(b.drop_first());
        let p = pow256((a.len() - 1) as nat);
        if a[0] != b[0] {
            let lo: u8 = if a[0] < b[0] { a[0] } else { b[0] };
            let hi: u8 = if a[0] < b[0] { b[0] } else { a[0] };
            assert(lo * p + p <= hi * p) by (nonlinear_arith)
                requires
                    lo < hi,
                    p >= 0,
            {
            }
        } else {
            lemma_lex_matches_numeric(a.drop_first(), b.drop_first());
        }
    }
}

/// Two sequences of one length with one big-endian value are the same
/// sequence: the key determines the octets.
pub proof fn lemma_be_val_injective(a: Seq<u8>, b: Seq<u8>)
    requires
        a.len() == b.len(),
        be_val(a) == be_val(b),
    ensures
        a =~= b,
    decreases a.len(),
{
    if a.len() > 0 {
        let qa = be_val(a.drop_last());
        let qb = be_val(b.drop_last());
        lemma_fundamental_div_mod_converse(be_val(a) as int, 256, qa as int, a.last() as int);
        lemma_fundamental_div_mod_converse(be_val(b) as int, 256, qb as int, b.last() as int);
        assert(a.last() == b.last());
        assert(qa == qb);
        lemma_be_val_injective(a.drop_last(), b.drop_last());
        assert(a =~= a.drop_last().push(a.last()));
    }
}

/// The last `n` big-endian bytes of `v`, most significant first.
fn encode_be(v: u128, n: usize) -> (r: Vec<u8>)
    requires
        n <= 16,
        (v as nat) < pow256(n as nat),
    ensures
        r@.len() == n,
        be_val(r@) == v as nat,
    decreases n,
{
    if n == 0 {
        Vec::new()
    } else {
        let head = v / 256;
        let tail = v % 256;
        proof {
            assert((head as nat) < pow256((n - 1) as nat)) by (nonlinear_arith)
                requires
                    head == v / 256,
                    (v as nat) < pow256(n as nat),
                    pow256(n as nat) == 256 * pow256((n - 1) as nat),
            {
            }
        }
        let mut r = encode_be(head, n - 1);
        let ghost prev = r@;
        r.push(tail as u8);
        proof {
            assert(r@.drop_last() =~= prev);
            assert(r@.last() == tail as u8);
            assert(be_val(r@) == (be_val(prev) * 256 + tail) as nat);
            vstd::arithmetic::div_mod::lemma_fundamental_div_mod(v as int, 256);
            assert((head as nat) * 256 + (tail as nat) == v as nat);
        }
        r
    }
}

/// The canonical `AddressKey` of an address: its value as fixed-width
/// big-endian bytes, 4 for v4 and 16 for v6.
pub fn encode(a: &IpAddress) -> (r: Vec<u8>)
    ensures
        a.spec_family() == Family::V4 ==> r@.len() == 4,
        a.spec_family() == Family::V6 ==> r@.len() == 16,
        be_val(r@) == a.spec_value(),
{
    proof {
        lemma_pow256_key_widths();
    }
    match a {
        IpAddress::V4(v) => encode_be(*v as u128, 4),
        IpAddress::V6(v) => encode_be(*v, 16),
    }
}

/// The inverse of [`encode`]: reads a key of at most 16 bytes back as its
/// big-endian numeric value.
pub fn decode(key: &Vec<u8>) -> (r: u128)
    requires
        key@.len() <= 16,
    ensures
        r as nat == be_val(key@),
{
    let mut acc: u128 = 0;
    let mut i: usize = 0;
    proof {
        assert(key@.subrange(0, 0) =~= Seq::<u8>::empty());
        lemma_pow256_mono(key@.len(), 16);
        lemma_pow256_key_widths();
    }
    while i < key.len()
        invariant
            i <= key@.len() <= 16,
            acc as nat == be_val(key@.subrange(0, i as int)),
            pow256(key@.len()) <= pow256(16),
            pow256(16) == 0x1_0000_0000_0000_0000_0000_0000_0000_0000,
        decreases key@.len() - i,
    {
        proof {
            lemma_be_val_bound(key@.subrange(0, i as int));
            lemma_pow256_mono((i + 1) as nat, key@.len());
            assert(pow256((i + 1) as nat) == 256 * pow256(i as nat));
            assert((acc as nat) * 256 + 255 < pow256((i + 1) as nat)) by (nonlinear_arith)
                requires
                    (acc as nat) < pow256(i as nat),
                    pow256((i + 1) as nat) == 256 * pow256(i as nat),
            {
            }
            assert(key@.subrange(0, i + 1).drop_last() =~= key@.subrange(0, i as int));
        }
        acc = acc * 256 + (key[i] as u128);
        i = i + 1;
    }
    proof {
        assert(key@.subrange(0, key@.len() as int) =~= key@);
    }
    acc
}

} // verus!
