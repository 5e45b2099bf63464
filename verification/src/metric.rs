use vstd::prelude::*;

use vstd::arithmetic::power2::*;
use vstd::arithmetic::mul::*;
use crate::key::{Distance, xor_bytes};
use crate::{KEY_LEN, N_BUCKETS};

verus! {

/// The value of a byte sequence read as a big-endian unsigned number.
pub open spec fn be_val(s: Seq<u8>) -> nat
    decreases s.len(),
{
    if s.len() == 0 {
        0
    } else {
        (s[0] as nat) * pow2((8 * (s.len() - 1)) as nat) + be_val(s.skip(1))
    }
}

/// Strict lexicographic order on equally long byte sequences; on such
/// sequences it coincides with big-endian unsigned comparison.
pub open spec fn lex_lt(a: Seq<u8>, b: Seq<u8>) -> bool
    decreases a.len(),
{
    if a.len() == 0 || b.len() == 0 {
        false
    } else if a[0] < b[0] {
        true
    } else if a[0] > b[0] {
        false
    } else {
        lex_lt(a.skip(1), b.skip(1))
    }
}

pub open spec fn is_zero(s: Seq<u8>) -> bool {
    forall|i: int| 0 <= i < s.len() ==> s[i] == 0
}

/// How many zero bytes the sequence starts with.
pub open spec fn leading_zeros(s: Seq<u8>) -> nat
    decreases s.len(),
{
    if s.len() == 0 {
        0
    } else if s[0] != 0 {
        0
    } else {
        1 + leading_zeros(s.skip(1))
    }
}

/// Position of the most significant set bit of a byte: 0..=7.
pub open spec fn msb8(b: u8) -> nat {
    if b >= 128 {
        7
    } else if b >= 64 {
        6
    } else if b >= 32 {
        5
    } else if b >= 16 {
        4
    } else if b >= 8 {
        3
    } else if b >= 4 {
        2
    } else if b >= 2 {
        1
    } else {
        0
    }
}

/// The k-bucket index of a distance: the position of its most significant
/// set bit, so that 2^i <= value < 2^(i+1); an all-zero distance goes to the
/// last bucket by convention.
pub open spec fn bucket_index_of(d: Seq<u8>) -> nat {
    if is_zero(d) {
        (8 * d.len() - 1) as nat
    } else {
        let k = leading_zeros(d);
        (8 * (d.len() - k - 1) + msb8(d[k as int])) as nat
    }
}

proof fn lemma_leading_zeros_at(s: Seq<u8>, i: int)
    requires
        0 <= i < s.len(),
        forall|j: int| 0 <= j < i ==> s[j] == 0,
        s[i] != 0,
    ensures
        leading_zeros(s) == i,
    decreases i,
{
    if i > 0 {
        lemma_leading_zeros_at(s.skip(1), i - 1);
    }
}

proof fn lemma_leading_zeros_points_nonzero(s: Seq<u8>)
    requires
        !is_zero(s),
    ensures
        leading_zeros(s) < s.len(),
        s[leading_zeros(s) as int] != 0,
        forall|j: int| 0 <= j < leading_zeros(s) ==> s[j] == 0,
    decreases s.len(),
{
    if s[0] != 0 {
    } else {
        assert(!is_zero(s.skip(1))) by {
            let w = choose|i: int| 0 <= i < s.len() && s[i] != 0;
            assert(s.skip(1)[w - 1] != 0);
        }
        lemma_leading_zeros_points_nonzero(s.skip(1));
        let k = leading_zeros(s.skip(1)) as int;
        assert(leading_zeros(s) == 1 + k);
        assert(s[1 + k] == s.skip(1)[k]);
        assert(s[leading_zeros(s) as int] != 0);
        assert forall|j: int| 0 <= j < leading_zeros(s) implies s[j] == 0 by {
            if j > 0 {
                assert(s[j] == s.skip(1)[j - 1]);
            }
        }
    }
}

proof fn lemma_be_val_bound(s: Seq<u8>)
    ensures
        be_val(s) < pow2((8 * s.len()) as nat),
    decreases s.len(),
{
    if s.len() == 0 {
        lemma_pow2_pos(0);
    } else {
        let p = pow2((8 * (s.len() - 1)) as nat);
        lemma_be_val_bound(s.skip(1));
        assert(be_val(s) < ((s[0] as nat) + 1) * p) by {
            lemma_mul_is_distributive_add_other_way(p as int, s[0] as int, 1);
        }
        assert(((s[0] as nat) + 1) * p <= 256 * p) by {
            lemma_mul_inequality((s[0] as int) + 1, 256, p as int);
        }
        assert(256 * p == pow2((8 * s.len()) as nat)) by {
            lemma_pow2_adds(8, (8 * (s.len() - 1)) as nat);
            lemma2_to64();
        }
    }
}

proof fn lemma_be_val_skip_zeros(s: Seq<u8>, k: int)
    requires
        0 <= k <= s.len(),
        forall|j: int| 0 <= j < k ==> s[j] == 0,
    ensures
        be_val(s) == be_val(s.skip(k)),
    decreases k,
{
    if k > 0 {
        let p = pow2((8 * (s.len() - 1)) as nat);
        assert((s[0] as nat) * p == 0) by {
            lemma_mul_by_zero_is_zero(p as int);
        }
        assert(be_val(s) == be_val(s.skip(1)));
        lemma_be_val_skip_zeros(s.skip(1), k - 1);
        assert(s.skip(1).skip(k - 1) =~= s.skip(k));
    } else {
        assert(s.skip(0) =~= s);
    }
}

proof fn lemma_msb8_bounds(b: u8)
    requires
        b != 0,
    ensures
        pow2(msb8(b)) <= b < pow2(msb8(b) + 1),
{
    lemma2_to64();
}

/// The most significant set bit of a distance pins its numeric value:
/// a distance in bucket i satisfies 2^i <= value < 2^(i+1).
pub proof fn lemma_bucket_index_bounds(d: Seq<u8>)
    requires
        d.len() == KEY_LEN,
        !is_zero(d),
    ensures
        pow2(bucket_index_of(d)) <= be_val(d) < pow2(bucket_index_of(d) + 1),
{
    lemma_leading_zeros_points_nonzero(d);
    let k = leading_zeros(d) as int;
    let t = d.skip(k);
    let h = d[k];
    let m = msb8(h);
    let rest = (8 * (t.len() - 1)) as nat;
    let p = pow2(rest);
    lemma_be_val_skip_zeros(d, k);
    assert(t[0] == h);
    assert(be_val(t) == (h as nat) * p + be_val(t.skip(1)));
    lemma_msb8_bounds(h);
    // lower bound: pow2(m) * p <= h * p <= be_val(t)
    assert(pow2(m) * p <= (h as nat) * p) by {
        lemma_mul_inequality(pow2(m) as int, h as int, p as int);
    }
    assert(pow2(m) * p == pow2(m + rest)) by {
        lemma_pow2_adds(m, rest);
    }
    assert((h as nat) * p >= 0) by {
        lemma_mul_nonnegative(h as int, p as int);
    }
    // upper bound: be_val(t) < (h + 1) * p <= pow2(m + 1) * p
    lemma_be_val_bound(t.skip(1));
    assert(t.skip(1).len() == t.len() - 1);
    assert(be_val(t) < ((h as nat) + 1) * p) by {
        lemma_mul_is_distributive_add_other_way(p as int, h as int, 1);
    }
    assert(((h as nat) + 1) * p <= pow2(m + 1) * p) by {
        lemma_mul_inequality((h as int) + 1, pow2(m + 1) as int, p as int);
    }
    assert(pow2(m + 1) * p == pow2(m + 1 + rest)) by {
        lemma_pow2_adds(m + 1, rest);
    }
    assert(bucket_index_of(d) == m + rest);
}

/// The byte-wise order the code compares with is exactly the numeric
/// order of distances read as big-endian unsigned numbers.
pub proof fn lemma_lex_lt_is_be_lt(a: Seq<u8>, b: Seq<u8>)
    requires
        a.len() == b.len(),
    ensures
        lex_lt(a, b) <==> be_val(a) < be_val(b),
    decreases a.len(),
{
    if a.len() > 0 {
        let p = pow2((8 * (a.len() - 1)) as nat);
        let ta = be_val(a.skip(1));
        let tb = be_val(b.skip(1));
        lemma_pow2_pos((8 * (a.len() - 1)) as nat);
        lemma_be_val_bound(a.skip(1));
        lemma_be_val_bound(b.skip(1));
        if a[0] < b[0] {
            assert((a[0] as nat) * p + ta < ((a[0] as nat) + 1) * p) by {
                lemma_mul_is_distributive_add_other_way(p as int, a[0] as int, 1);
            }
            assert(((a[0] as nat) + 1) * p <= (b[0] as nat) * p) by {
                lemma_mul_inequality((a[0] as int) + 1, b[0] as int, p as int);
            }
        } else if a[0] > b[0] {
            assert((b[0] as nat) * p + tb < ((b[0] as nat) + 1) * p) by {
                lemma_mul_is_distributive_add_other_way(p as int, b[0] as int, 1);
            }
            assert(((b[0] as nat) + 1) * p <= (a[0] as nat) * p) by {
                lemma_mul_inequality((b[0] as int) + 1, a[0] as int, p as int);
            }
        } else {
            lemma_lex_lt_is_be_lt(a.skip(1), b.skip(1));
        }
    }
}

/// Every 32-byte distance falls in one of the 256 buckets.
pub proof fn lemma_bucket_index_of_range(d: Seq<u8>)
    requires
        d.len() == KEY_LEN,
    ensures
        bucket_index_of(d) < N_BUCKETS,
{
    if !is_zero(d) {
        lemma_leading_zeros_points_nonzero(d);
        assert(msb8(d[leading_zeros(d) as int]) <= 7);
    }
}

proof fn lemma_u8_xor_comm(x: u8, y: u8)
    by (bit_vector)
    ensures
        x ^ y == y ^ x,
{
}

proof fn lemma_u8_xor_self(x: u8)
    by (bit_vector)
    ensures
        x ^ x == 0,
{
}

proof fn lemma_u8_xor_zero(x: u8, y: u8)
    by (bit_vector)
    requires
        x ^ y == 0,
    ensures
        x == y,
{
}

proof fn lemma_u8_xor_cancel(x: u8, y: u8, t: u8)
    by (bit_vector)
    requires
        x ^ t == y ^ t,
    ensures
        x == y,
{
}

/// XOR distance is symmetric.
pub proof fn lemma_distance_symmetric(a: Seq<u8>, b: Seq<u8>)
    requires
        a.len() == b.len(),
    ensures
        xor_bytes(a, b) == xor_bytes(b, a),
{
    assert forall|i: int| 0 <= i < a.len() implies xor_bytes(a, b)[i] == xor_bytes(b, a)[i] by {
        lemma_u8_xor_comm(a[i], b[i]);
    }
    assert(xor_bytes(a, b) =~= xor_bytes(b, a));
}

/// The distance from an identifier to itself is zero.
pub proof fn lemma_distance_self_zero(a: Seq<u8>)
    ensures
        is_zero(xor_bytes(a, a)),
{
    assert forall|i: int| 0 <= i < a.len() implies xor_bytes(a, a)[i] == 0 by {
        lemma_u8_xor_self(a[i]);
    }
}

/// A zero distance can only arise between equal identifiers.
pub proof fn lemma_distance_zero_implies_eq(a: Seq<u8>, b: Seq<u8>)
    requires
        a.len() == b.len(),
        is_zero(xor_bytes(a, b)),
    ensures
        a == b,
{
    assert forall|i: int| 0 <= i < a.len() implies a[i] == b[i] by {
        assert(xor_bytes(a, b)[i] == 0);
        lemma_u8_xor_zero(a[i], b[i]);
    }
    assert(a =~= b);
}

/// Distances to a common target are injective in the identifier: two
/// distinct identifiers never tie.
pub proof fn lemma_distance_injective(a: Seq<u8>, b: Seq<u8>, t: Seq<u8>)
    requires
        a.len() == t.len(),
        b.len() == t.len(),
        xor_bytes(a, t) == xor_bytes(b, t),
    ensures
        a == b,
{
    assert forall|i: int| 0 <= i < a.len() implies a[i] == b[i] by {
        assert(xor_bytes(a, t)[i] == (a[i] ^ t[i]));
        assert(xor_bytes(b, t)[i] == (b[i] ^ t[i]));
        lemma_u8_xor_cancel(a[i], b[i], t[i]);
    }
    assert(a =~= b);
}

proof fn lemma_u8_xor_le_sum(x: u8, y: u8)
    by (bit_vector)
    ensures
        (x ^ y) <= x + y,
{
}

proof fn lemma_u8_xor_assoc_chain(x: u8, y: u8, z: u8)
    by (bit_vector)
    ensures
        x ^ z == (x ^ y) ^ (y ^ z),
{
}

proof fn lemma_be_val_xor_le(x: Seq<u8>, y: Seq<u8>)
    requires
        x.len() == y.len(),
    ensures
        be_val(xor_bytes(x, y)) <= be_val(x) + be_val(y),
    decreases x.len(),
{
    if x.len() > 0 {
        let p = pow2((8 * (x.len() - 1)) as nat);
        lemma_u8_xor_le_sum(x[0], y[0]);
        assert(xor_bytes(x, y).skip(1) =~= xor_bytes(x.skip(1), y.skip(1)));
        lemma_be_val_xor_le(x.skip(1), y.skip(1));
        assert(((x[0] ^ y[0]) as nat) * p <= ((x[0] as nat) + (y[0] as nat)) * p) by {
            lemma_mul_inequality((x[0] ^ y[0]) as int, (x[0] as int) + (y[0] as int), p as int);
        }
        assert(((x[0] as nat) + (y[0] as nat)) * p == (x[0] as nat) * p + (y[0] as nat) * p) by {
            lemma_mul_is_distributive_add_other_way(p as int, x[0] as int, y[0] as int);
        }
    }
}

/// The XOR metric obeys the triangle inequality: going through any
/// intermediate identifier can only lengthen the way.
pub proof fn lemma_distance_triangle(a: Seq<u8>, b: Seq<u8>, c: Seq<u8>)
    requires
        a.len() == b.len(),
        b.len() == c.len(),
    ensures
        be_val(xor_bytes(a, c)) <= be_val(xor_bytes(a, b)) + be_val(xor_bytes(b, c)),
{
    let ab = xor_bytes(a, b);
    let bc = xor_bytes(b, c);
    assert(xor_bytes(a, c) =~= xor_bytes(ab, bc)) by {
        assert forall|i: int| 0 <= i < a.len() implies xor_bytes(a, c)[i] == xor_bytes(
            ab,
            bc,
        )[i] by {
            lemma_u8_xor_assoc_chain(a[i], b[i], c[i]);
        }
    }
    lemma_be_val_xor_le(ab, bc);
}

proof fn lemma_lex_lt_skip(a: Seq<u8>, b: Seq<u8>, i: int)
    requires
        a.len() == b.len(),
        0 <= i <= a.len(),
        forall|j: int| 0 <= j < i ==> a[j] == b[j],
    ensures
        lex_lt(a, b) == lex_lt(a.skip(i), b.skip(i)),
    decreases i,
{
    if i > 0 {
        assert(a[0] == b[0]);
        assert forall|j: int| 0 <= j < i - 1 implies a.skip(1)[j] == b.skip(1)[j] by {
            assert(a.skip(1)[j] == a[j + 1]);
            assert(b.skip(1)[j] == b[j + 1]);
        }
        lemma_lex_lt_skip(a.skip(1), b.skip(1), i - 1);
        assert(a.skip(1).skip(i - 1) =~= a.skip(i));
        assert(b.skip(1).skip(i - 1) =~= b.skip(i));
    } else {
        assert(a.skip(0) =~= a);
        assert(b.skip(0) =~= b);
    }
}

/// Lexicographic order is transitive.
pub proof fn lemma_lex_lt_trans(a: Seq<u8>, b: Seq<u8>, c: Seq<u8>)
    requires
        a.len() == b.len(),
        b.len() == c.len(),
        lex_lt(a, b),
        lex_lt(b, c),
    ensures
        lex_lt(a, c),
    decreases a.len(),
{
    if a.len() > 0 {
        if a[0] == b[0] && b[0] == c[0] {
            lemma_lex_lt_trans(a.skip(1), b.skip(1), c.skip(1));
        }
    }
}

/// Lexicographic order is irreflexive.
pub proof fn lemma_lex_irrefl(a: Seq<u8>)
    ensures
        !lex_lt(a, a),
    decreases a.len(),
{
    if a.len() > 0 {
        lemma_lex_irrefl(a.skip(1));
    }
}

/// Lexicographic order is total: incomparable sequences of equal length
/// are equal.
pub proof fn lemma_lex_total(a: Seq<u8>, b: Seq<u8>)
    requires
        a.len() == b.len(),
        !lex_lt(a, b),
        !lex_lt(b, a),
    ensures
        a == b,
    decreases a.len(),
{
    if a.len() > 0 {
        assert(a[0] == b[0]);
        lemma_lex_total(a.skip(1), b.skip(1));
        assert forall|i: int| 0 <= i < a.len() implies a[i] == b[i] by {
            if i > 0 {
                assert(a[i] == a.skip(1)[i - 1]);
                assert(b[i] == b.skip(1)[i - 1]);
            }
        }
        assert(a =~= b);
    } else {
        assert(a =~= b);
    }
}

impl Distance {
    /// Big-endian unsigned comparison: does self lie strictly below other?
    pub fn less(&self, other: &Distance) -> (r: bool)
        requires
            self.wf(),
            other.wf(),
        ensures
            r == lex_lt(self@, other@),
    {
        let mut i: usize = 0;
        while i < KEY_LEN
            invariant
                self.wf(),
                other.wf(),
                i <= KEY_LEN,
                forall|j: int| 0 <= j < i ==> self@[j] == other@[j],
            decreases KEY_LEN - i,
        {
            if self.0[i] < other.0[i] {
                proof {
                    lemma_lex_lt_skip(self@, other@, i as int);
                }
                return true;
            }
            if self.0[i] > other.0[i] {
                proof {
                    lemma_lex_lt_skip(self@, other@, i as int);
                }
                return false;
            }
            i = i + 1;
        }
        proof {
            lemma_lex_lt_skip(self@, other@, KEY_LEN as int);
        }
        false
    }
}

fn msb_of_byte(x: u8) -> (r: usize)
    requires
        x != 0,
    ensures
        r == msb8(x),
{
    if x >= 128 {
        7
    } else if x >= 64 {
        6
    } else if x >= 32 {
        5
    } else if x >= 16 {
        4
    } else if x >= 8 {
        3
    } else if x >= 4 {
        2
    } else if x >= 2 {
        1
    } else {
        0
    }
}

/// The index of the k-bucket a peer at this distance belongs to.
pub fn bucket_index(d: &Distance) -> (r: usize)
    requires
        d.wf(),
    ensures
        r == bucket_index_of(d@),
        r < N_BUCKETS,
{
    let mut i: usize = 0;
    while i < KEY_LEN
        invariant
            d.wf(),
            i <= KEY_LEN,
            forall|j: int| 0 <= j < i ==> d@[j] == 0,
        decreases KEY_LEN - i,
    {
        if d.0[i] != 0 {
            proof {
                lemma_leading_zeros_at(d@, i as int);
            }
            let b = msb_of_byte(d.0[i]);
            return (KEY_LEN - 1 - i) * 8 + b;
        }
        i = i + 1;
    }
    N_BUCKETS - 1
}

} // verus!
