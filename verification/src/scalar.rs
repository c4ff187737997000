use crate::encoding::{
    be_bytes, be_nat, lemma_be_bytes_len, lemma_be_bytes_of_be_nat, lemma_be_nat_bound,
    lemma_be_nat_concat, lemma_be_nat_of_be_bytes, lemma_pow256_8, pow256, u64_be_bytes,
};
use vstd::prelude::*;

verus! {

/// The order of the group, most significant byte first.
pub open spec fn order_bytes() -> Seq<u8> {
    order_high() + order_low()
}

/// The 24 high bytes of the order.
pub open spec fn order_high() -> Seq<u8> {
    seq![
        0xffu8, 0xff, 0xff, 0xff, 0x00, 0x00, 0x00, 0x00,
        0xff, 0xff, 0xff, 0xff, 0xff, 0xff, 0xff, 0xff,
        0xbc, 0xe6, 0xfa, 0xad, 0xa7, 0x17, 0x9e, 0x84,
    ]
}

/// The 8 low bytes of the order.
pub open spec fn order_low() -> Seq<u8> {
    seq![0xf3u8, 0xb9, 0xca, 0xc2, 0xfc, 0x63, 0x25, 0x51]
}

/// The number that the 8 low bytes of the order spell.
pub const ORDER_LOW: u64 = 0xf3b9_cac2_fc63_2551;

/// The order of the group: the number of its elements, a prime.
pub open spec fn order() -> nat {
    be_nat(order_bytes())
}

/// A number modulo the order of the group, held as its 32 bytes, most
/// significant first.
#[derive(Debug, PartialEq, Eq)]
pub struct Scalar {
    pub(crate) bytes: Vec<u8>,
}

impl View for Scalar {
    type V = Seq<u8>;

    closed spec fn view(&self) -> Seq<u8> {
        self.bytes@
    }
}

/// Whether bytes are those of a scalar: 32 bytes that spell a number
/// below the order.
pub open spec fn is_scalar(bytes: Seq<u8>) -> bool {
    bytes.len() == 32 && be_nat(bytes) < order()
}

proof fn lemma_order_low()
    ensures
        be_nat(order_low()) == ORDER_LOW,
        order_low() == be_bytes(ORDER_LOW as nat, 8),
{
    reveal_with_fuel(be_bytes, 9);
    assert(order_low() =~= be_bytes(ORDER_LOW as nat, 8));
    lemma_pow256_8();
    lemma_be_nat_of_be_bytes(ORDER_LOW as nat, 8);
}

/// The order is the number of its high bytes times `2^64`, plus the
/// number of its low bytes.
proof fn lemma_order_split()
    ensures
        order() == be_nat(order_high()) * 0x1_0000_0000_0000_0000 + ORDER_LOW,
        be_nat(order_high()) >= 132,
{
    lemma_be_nat_concat(order_high(), order_low());
    lemma_pow256_8();
    lemma_order_low();
    let high = order_high();
    assert(be_nat(high) >= high.last() as nat);
}

/// The order is above `2^71`: far above the numbers that stand for
/// values.
pub proof fn lemma_order_large()
    ensures
        order() >= 132 * pow256(8),
{
    lemma_order_split();
    lemma_pow256_8();
    let h = be_nat(order_high());
    assert(h >= order_high().last() as nat);
    assert(h * 0x1_0000_0000_0000_0000 >= 132 * 0x1_0000_0000_0000_0000) by (nonlinear_arith)
        requires
            h >= 132,
    ;
}

/// In strings of one length, the first byte that differs decides which
/// spells the smaller number.
proof fn lemma_first_difference_decides(a: Seq<u8>, b: Seq<u8>, i: int)
    requires
        a.len() == b.len(),
        0 <= i < a.len(),
        a.take(i) == b.take(i),
        a[i] < b[i],
    ensures
        be_nat(a) < be_nat(b),
{
    let t = (a.len() - i - 1) as nat;
    assert(a =~= a.take(i + 1) + a.skip(i + 1));
    assert(b =~= b.take(i + 1) + b.skip(i + 1));
    lemma_be_nat_concat(a.take(i + 1), a.skip(i + 1));
    lemma_be_nat_concat(b.take(i + 1), b.skip(i + 1));
    assert(a.take(i + 1).drop_last() =~= a.take(i));
    assert(b.take(i + 1).drop_last() =~= b.take(i));
    lemma_be_nat_bound(a.skip(i + 1));
    let x = be_nat(a.take(i)) * 256;
    let p = pow256(t);
    let ha = be_nat(a.take(i + 1));
    let hb = be_nat(b.take(i + 1));
    assert(ha == x + a[i] as nat);
    assert(hb == x + b[i] as nat);
    assert(ha + 1 <= hb);
    assert((ha + 1) * p <= hb * p) by (nonlinear_arith)
        requires
            ha + 1 <= hb,
            p >= 0,
    ;
    assert((ha + 1) * p == ha * p + p) by (nonlinear_arith);
}

/// Whether `a` spells a smaller number than `b`.
pub fn be_less(a: &Vec<u8>, b: &Vec<u8>) -> (r: bool)
    requires
        a@.len() == b@.len(),
    ensures
        r == (be_nat(a@) < be_nat(b@)),
{
    let mut i: usize = 0;
    while i < a.len()
        invariant
            i <= a@.len(),
            a@.len() == b@.len(),
            a@.take(i as int) == b@.take(i as int),
        decreases a@.len() - i,
    {
        if a[i] < b[i] {
            proof {
                lemma_first_difference_decides(a@, b@, i as int);
            }
            return true;
        }
        if a[i] > b[i] {
            proof {
                lemma_first_difference_decides(b@, a@, i as int);
            }
            return false;
        }
        assert(a@.take(i + 1) =~= a@.take(i as int).push(a@[i as int]));
        assert(b@.take(i + 1) =~= b@.take(i as int).push(b@[i as int]));
        i = i + 1;
    }
    assert(a@.take(i as int) =~= a@);
    assert(b@.take(i as int) =~= b@);
    false
}

/// The order of the group as bytes.
pub fn order_be_bytes() -> (r: Vec<u8>)
    ensures
        r@ == order_bytes(),
{
    let r = vec![
        0xffu8, 0xff, 0xff, 0xff, 0x00, 0x00, 0x00, 0x00,
        0xff, 0xff, 0xff, 0xff, 0xff, 0xff, 0xff, 0xff,
        0xbc, 0xe6, 0xfa, 0xad, 0xa7, 0x17, 0x9e, 0x84,
        0xf3, 0xb9, 0xca, 0xc2, 0xfc, 0x63, 0x25, 0x51,
    ];
    assert(r@ =~= order_bytes());
    r
}

impl Scalar {
    #[verifier::type_invariant]
    spec fn well_formed(self) -> bool {
        is_scalar(self.bytes@)
    }

    /// Brings to mind that the bytes are those of a scalar.
    pub(crate) fn recall(&self)
        ensures
            is_scalar(self@),
    {
        proof {
            use_type_invariant(self);
        }
    }

    /// The number that the scalar is.
    pub open spec fn value(&self) -> nat {
        be_nat(self@)
    }

    /// The scalar with these bytes, if they are those of one.
    pub fn from_bytes(bytes: &Vec<u8>) -> (r: Option<Scalar>)
        ensures
            r is Some <==> is_scalar(bytes@),
            r matches Some(s) ==> s@ == bytes@,
    {
        if bytes.len() != 32 {
            return None;
        }
        let order = order_be_bytes();
        if be_less(bytes, &order) {
            Some(Scalar { bytes: bytes.clone() })
        } else {
            None
        }
    }

    /// The bytes of the scalar.
    pub fn to_bytes(&self) -> (r: Vec<u8>)
        ensures
            r@ == self@,
            is_scalar(r@),
    {
        proof {
            use_type_invariant(self);
        }
        self.bytes.clone()
    }

    /// The scalar `n`.
    pub fn from_u64(n: u64) -> (r: Scalar)
        ensures
            r.value() == n,
            r@ == be_bytes(n as nat, 32),
    {
        let mut bytes: Vec<u8> = vec![
            0u8, 0, 0, 0, 0, 0, 0, 0,
            0, 0, 0, 0, 0, 0, 0, 0,
            0, 0, 0, 0, 0, 0, 0, 0,
        ];
        let ghost zeros = bytes@;
        let mut low = u64_be_bytes(n);
        bytes.append(&mut low);
        proof {
            assert(zeros =~= Seq::new(24, |i: int| 0u8));
            lemma_zeros_spell_zero(zeros);
            lemma_be_bytes_len(n as nat, 8);
            lemma_be_nat_concat(zeros, be_bytes(n as nat, 8));
            lemma_pow256_8();
            lemma_be_nat_of_be_bytes(n as nat, 8);
            lemma_order_split();
            let h = be_nat(order_high());
            assert(h * 0x1_0000_0000_0000_0000 >= 0x1_0000_0000_0000_0000) by (nonlinear_arith)
                requires
                    h >= 1,
            ;
            lemma_be_bytes_of_be_nat(bytes@);
        }
        Scalar { bytes }
    }

    /// The scalar `2^64 + k`: one of the numbers kept for the values that
    /// are no numbers.
    pub fn reserved(k: u8) -> (r: Scalar)
        ensures
            r.value() == pow256(8) + k,
            r@ == be_bytes(pow256(8) + k as nat, 32),
    {
        let mut bytes: Vec<u8> = vec![
            0u8, 0, 0, 0, 0, 0, 0, 0,
            0, 0, 0, 0, 0, 0, 0, 0,
            0, 0, 0, 0, 0, 0, 0, 1,
        ];
        let ghost high = bytes@;
        let mut low = u64_be_bytes(k as u64);
        bytes.append(&mut low);
        proof {
            lemma_zeros_spell_zero(high.drop_last());
            assert(be_nat(high) == 1);
            lemma_be_bytes_len(k as nat, 8);
            lemma_be_nat_concat(high, be_bytes(k as nat, 8));
            lemma_pow256_8();
            lemma_be_nat_of_be_bytes(k as nat, 8);
            lemma_order_split();
            let h = be_nat(order_high());
            assert(h >= 132);
            assert(h * 0x1_0000_0000_0000_0000 >= 132 * 0x1_0000_0000_0000_0000)
                by (nonlinear_arith)
                requires
                    h >= 132,
            ;
            lemma_be_bytes_of_be_nat(bytes@);
        }
        Scalar { bytes }
    }

    /// The scalar `-m`, that is the order less `m`.
    pub fn from_negated_u64(m: u64) -> (r: Scalar)
        requires
            m > 0,
        ensures
            r.value() == order() - m,
            r@ == be_bytes((order() - m) as nat, 32),
    {
        let (mut bytes, low): (Vec<u8>, u64) = if m <= ORDER_LOW {
            (
                vec![
                    0xffu8, 0xff, 0xff, 0xff, 0x00, 0x00, 0x00, 0x00,
                    0xff, 0xff, 0xff, 0xff, 0xff, 0xff, 0xff, 0xff,
                    0xbc, 0xe6, 0xfa, 0xad, 0xa7, 0x17, 0x9e, 0x84,
                ],
                ORDER_LOW - m,
            )
        } else {
            (
                vec![
                    0xffu8, 0xff, 0xff, 0xff, 0x00, 0x00, 0x00, 0x00,
                    0xff, 0xff, 0xff, 0xff, 0xff, 0xff, 0xff, 0xff,
                    0xbc, 0xe6, 0xfa, 0xad, 0xa7, 0x17, 0x9e, 0x83,
                ],
                u64::MAX - m + 1 + ORDER_LOW,
            )
        };
        let ghost high = bytes@;
        let mut low_bytes = u64_be_bytes(low);
        bytes.append(&mut low_bytes);
        proof {
            lemma_be_bytes_len(low as nat, 8);
            lemma_be_nat_concat(high, be_bytes(low as nat, 8));
            lemma_pow256_8();
            lemma_be_nat_of_be_bytes(low as nat, 8);
            lemma_order_split();
            if m <= ORDER_LOW {
                assert(high =~= order_high());
            } else {
                assert(high.drop_last() =~= order_high().drop_last());
                assert(be_nat(high) + 1 == be_nat(order_high()));
                let h = be_nat(high);
                assert((h + 1) * 0x1_0000_0000_0000_0000 == h * 0x1_0000_0000_0000_0000
                    + 0x1_0000_0000_0000_0000) by (nonlinear_arith);
            }
            lemma_be_bytes_of_be_nat(bytes@);
        }
        Scalar { bytes }
    }
}

impl Clone for Scalar {
    fn clone(&self) -> (r: Self)
        ensures
            r@ == self@,
    {
        proof {
            use_type_invariant(self);
        }
        Scalar { bytes: self.bytes.clone() }
    }
}

proof fn lemma_zeros_spell_zero(zeros: Seq<u8>)
    requires
        forall|i: int| 0 <= i < zeros.len() ==> zeros[i] == 0,
    ensures
        be_nat(zeros) == 0,
    decreases zeros.len(),
{
    if zeros.len() > 0 {
        lemma_zeros_spell_zero(zeros.drop_last());
    }
}

} // verus!
