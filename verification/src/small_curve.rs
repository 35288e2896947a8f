//! A serializer scheme over a twisted Edwards curve whose field is small
//! enough to search: whether a chunk is a coordinate is decided by trying
//! every companion coordinate.

use vstd::prelude::*;
use vstd::arithmetic::power2::pow2;
use vstd::arithmetic::power2::lemma2_to64;
use vstd::arithmetic::power2::lemma_pow2_unfold;
use vstd::arithmetic::power2::lemma_pow2_strictly_increases;
use crate::bits::chunk_value;
use crate::bits::total_width;
use crate::scheme::RecordSerializerScheme;
use crate::serializer::sum_widths;

verus! {

/// The curve `a x^2 + y^2 = 1 + d x^2 y^2` over the integers modulo `modulus`,
/// with the sizes of the two other fields and the widths of the record type's
/// fields.
#[derive(Clone, Debug, PartialEq, Eq)]
pub struct SmallCurveScheme {
    pub modulus: u64,
    pub a: u64,
    pub d: u64,
    pub inner_bits: usize,
    pub scalar_bits: usize,
    pub outer_bits: usize,
    pub widths: Vec<usize>,
}

/// The pair `(x, y)` satisfies the curve equation modulo `p`.
pub open spec fn on_curve(p: nat, a: nat, d: nat, x: nat, y: nat) -> bool {
    (a * (x * x) + y * y) % p == (1 + (d * (x * x)) * (y * y)) % p
}

/// Some `y` below `p` lies on the curve together with `x`.
pub open spec fn has_companion(p: nat, a: nat, d: nat, x: nat) -> bool {
    exists|y: nat| y < p && #[trigger] on_curve(p, a, d, x, y)
}

/// Decides the curve equation for one pair of coordinates.
pub fn satisfies_equation(p: u64, a: u64, d: u64, x: u64, y: u64) -> (holds: bool)
    requires
        0 < p < 0x10000,
        a < p,
        d < p,
        x < 0x10000,
        y < p,
    ensures
        holds == on_curve(p as nat, a as nat, d as nat, x as nat, y as nat),
{
    proof {
        assert(x * x < 0x1_0000_0000 && y * y < 0x1_0000_0000) by (nonlinear_arith)
            requires
                x < 0x10000,
                y < 0x10000,
        ;
        assert(a * (x * x) < 0x1_0000_0000_0000 && d * (x * x) < 0x1_0000_0000_0000) by (nonlinear_arith)
            requires
                a < 0x10000,
                d < 0x10000,
                x * x < 0x1_0000_0000,
        ;
        assert((d * (x * x)) * (y * y) < 0x1_0000_0000_0000_0000_0000) by (nonlinear_arith)
            requires
                d * (x * x) < 0x1_0000_0000_0000,
                y * y < 0x1_0000_0000,
        ;
    }
    let xx: u128 = (x as u128) * (x as u128);
    let yy: u128 = (y as u128) * (y as u128);
    let left: u128 = (a as u128) * xx + yy;
    let right: u128 = 1 + ((d as u128) * xx) * yy;
    left % (p as u128) == right % (p as u128)
}

/// A chunk stands for at least as much as any of its prefixes.
pub proof fn lemma_chunk_value_prefix(chunk: Seq<bool>, j: int)
    requires
        0 <= j <= chunk.len(),
    ensures
        chunk_value(chunk.take(j)) <= chunk_value(chunk),
    decreases chunk.len(),
{
    if j == chunk.len() {
        assert(chunk.take(j) == chunk);
    } else {
        assert(chunk.drop_last().take(j) == chunk.take(j));
        lemma_chunk_value_prefix(chunk.drop_last(), j);
    }
}

/// The integer that a chunk stands for, where it is below two to the
/// sixteenth; chunks of any length are read.
pub fn chunk_to_integer(chunk: &Vec<bool>) -> (r: Option<u64>)
    ensures
        chunk_value(chunk@) < 0x10000 ==> r == Some(chunk_value(chunk@) as u64),
        chunk_value(chunk@) >= 0x10000 ==> r is None,
{
    let mut x: u64 = 0;
    let mut weight: u64 = 1;
    let mut j: usize = 0;
    proof {
        lemma2_to64();
    }
    while j < chunk.len()
        invariant
            j <= chunk@.len(),
            j <= 16 ==> weight == pow2(j as nat),
            weight <= 0x10000,
            x == chunk_value(chunk@.take(j as int)),
            x < weight,
        decreases chunk.len() - j,
    {
        proof {
            lemma2_to64();
            assert(chunk@.take(j + 1).drop_last() == chunk@.take(j as int));
            lemma_chunk_value_prefix(chunk@, j + 1);
            if j < 16 {
                lemma_pow2_unfold((j + 1) as nat);
                if j + 1 < 16 {
                    lemma_pow2_strictly_increases((j + 1) as nat, 16);
                }
            } else if j > 16 {
                lemma_pow2_strictly_increases(16, j as nat);
            }
        }
        if chunk[j] {
            if j >= 16 {
                return None;
            }
            x += weight;
        }
        if j < 16 {
            weight *= 2;
        }
        j += 1;
    }
    proof {
        assert(chunk@.take(j as int) == chunk@);
    }
    if x < 0x10000 {
        Some(x)
    } else {
        None
    }
}

impl SmallCurveScheme {
    /// The scheme for the given curve and record type. The bit length of the
    /// modulus is computed here, once.
    pub fn new(modulus: u64, a: u64, d: u64, scalar_bits: usize, outer_bits: usize, widths: Vec<usize>) -> (r:
        Option<SmallCurveScheme>)
        ensures
            r is Some <==> 2 <= modulus < 0x10000 && a < modulus && d < modulus && total_width(widths@)
                <= usize::MAX,
            r is Some ==> r->0.well_formed() && r->0.modulus == modulus && r->0.a == a && r->0.d == d
                && r->0.scalar_bits == scalar_bits && r->0.outer_bits == outer_bits && r->0.widths@ == widths@,
    {
        if modulus < 2 || modulus >= 0x10000 || a >= modulus || d >= modulus {
            return None;
        }
        if sum_widths(&widths).is_none() {
            return None;
        }
        let mut inner_bits: usize = 1;
        let mut bound: u64 = 2;
        proof {
            lemma2_to64();
        }
        while bound <= modulus
            invariant
                1 <= inner_bits <= 16,
                modulus < 0x10000,
                bound == pow2(inner_bits as nat),
                pow2((inner_bits - 1) as nat) <= modulus,
            decreases 16 - inner_bits,
        {
            proof {
                lemma2_to64();
                lemma_pow2_unfold((inner_bits + 1) as nat);
                if inner_bits + 1 < 16 {
                    lemma_pow2_strictly_increases((inner_bits + 1) as nat, 16);
                }
            }
            bound *= 2;
            inner_bits += 1;
        }
        Some(SmallCurveScheme { modulus, a, d, inner_bits, scalar_bits, outer_bits, widths })
    }
}

impl RecordSerializerScheme for SmallCurveScheme {
    open spec fn well_formed(&self) -> bool {
        &&& 2 <= self.inner_bits <= 16
        &&& pow2((self.inner_bits - 1) as nat) <= self.modulus < pow2(self.inner_bits as nat)
        &&& self.modulus < 0x10000
        &&& self.a < self.modulus
        &&& self.d < self.modulus
        &&& total_width(self.widths@) <= usize::MAX
    }

    open spec fn scalar_bits(&self) -> nat {
        self.scalar_bits as nat
    }

    open spec fn inner_modulus(&self) -> nat {
        self.modulus as nat
    }

    open spec fn inner_bits(&self) -> nat {
        self.inner_bits as nat
    }

    open spec fn outer_bits(&self) -> nat {
        self.outer_bits as nat
    }

    open spec fn layout(&self) -> Seq<usize> {
        self.widths@
    }

    open spec fn is_coordinate(&self, chunk: Seq<bool>) -> bool {
        chunk_value(chunk) < self.modulus && has_companion(
            self.modulus as nat,
            self.a as nat,
            self.d as nat,
            chunk_value(chunk),
        )
    }

    proof fn lemma_well_formed(&self) {
    }

    fn scalar_field_bitsize(&self) -> (n: usize) {
        self.scalar_bits
    }

    fn inner_field_bitsize(&self) -> (n: usize) {
        self.inner_bits
    }

    fn outer_field_bitsize(&self) -> (n: usize) {
        self.outer_bits
    }

    fn field_widths(&self) -> (widths: &Vec<usize>) {
        &self.widths
    }

    fn has_point(&self, chunk: &Vec<bool>) -> (found: bool) {
        let x: u64 = match chunk_to_integer(chunk) {
            Some(x) => x,
            None => {
                return false;
            },
        };
        if x >= self.modulus {
            return false;
        }
        let mut y: u64 = 0;
        while y < self.modulus
            invariant
                y <= self.modulus,
                self.well_formed(),
                x < self.modulus,
                x == chunk_value(chunk@),
                forall|k: nat|
                    k < y ==> !#[trigger] on_curve(self.modulus as nat, self.a as nat, self.d as nat, x as nat, k),
            decreases self.modulus - y,
        {
            if satisfies_equation(self.modulus, self.a, self.d, x, y) {
                return true;
            }
            y += 1;
        }
        false
    }
}

} // verus!
