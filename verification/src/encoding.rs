use vstd::prelude::*;

verus! {

/// `256` to the power `k`.
pub open spec fn pow256(k: nat) -> nat
    decreases k,
{
    if k == 0 {
        1
    } else {
        256 * pow256((k - 1) as nat)
    }
}

/// The number that a byte string spells, most significant byte first.
pub open spec fn be_nat(bytes: Seq<u8>) -> nat
    decreases bytes.len(),
{
    if bytes.len() == 0 {
        0
    } else {
        be_nat(bytes.drop_last()) * 256 + bytes.last() as nat
    }
}

/// The `width` low-order bytes of `n`, most significant byte first.
pub open spec fn be_bytes(n: nat, width: nat) -> Seq<u8>
    decreases width,
{
    if width == 0 {
        Seq::empty()
    } else {
        be_bytes(n / 256, (width - 1) as nat).push((n % 256) as u8)
    }
}

pub proof fn lemma_pow256_8()
    ensures
        pow256(8) == 0x1_0000_0000_0000_0000,
{
    reveal_with_fuel(pow256, 9);
}

pub proof fn lemma_be_bytes_len(n: nat, width: nat)
    ensures
        be_bytes(n, width).len() == width,
    decreases width,
{
    if width > 0 {
        lemma_be_bytes_len(n / 256, (width - 1) as nat);
    }
}

/// A number below `256^width` is read back from its `width` bytes.
pub proof fn lemma_be_nat_of_be_bytes(n: nat, width: nat)
    requires
        n < pow256(width),
    ensures
        be_nat(be_bytes(n, width)) == n,
    decreases width,
{
    if width > 0 {
        let rest = be_bytes(n / 256, (width - 1) as nat);
        let whole = rest.push((n % 256) as u8);
        lemma_be_nat_of_be_bytes(n / 256, (width - 1) as nat);
        assert(whole.drop_last() =~= rest);
        assert(whole.last() == (n % 256) as u8);
    }
}

/// A byte string spells a number below `256` to the power of its length.
pub proof fn lemma_be_nat_bound(bytes: Seq<u8>)
    ensures
        be_nat(bytes) < pow256(bytes.len()),
    decreases bytes.len(),
{
    if bytes.len() > 0 {
        lemma_be_nat_bound(bytes.drop_last());
    }
}

/// A byte string is the encoding of the number that it spells.
pub proof fn lemma_be_bytes_of_be_nat(bytes: Seq<u8>)
    ensures
        be_bytes(be_nat(bytes), bytes.len()) == bytes,
    decreases bytes.len(),
{
    if bytes.len() > 0 {
        lemma_be_bytes_of_be_nat(bytes.drop_last());
        let n = be_nat(bytes);
        assert(n / 256 == be_nat(bytes.drop_last()));
        assert(n % 256 == bytes.last() as nat);
        assert(bytes.drop_last().push(bytes.last()) =~= bytes);
    } else {
        assert(be_bytes(0, 0) =~= bytes);
    }
}

/// Numbers below `256^width` with equal encodings are equal.
pub proof fn lemma_be_bytes_injective(a: nat, b: nat, width: nat)
    requires
        a < pow256(width),
        b < pow256(width),
        be_bytes(a, width) == be_bytes(b, width),
    ensures
        a == b,
{
    lemma_be_nat_of_be_bytes(a, width);
    lemma_be_nat_of_be_bytes(b, width);
}

/// The number spelt by two strings in a row.
pub proof fn lemma_be_nat_concat(high: Seq<u8>, low: Seq<u8>)
    ensures
        be_nat(high + low) == be_nat(high) * pow256(low.len()) + be_nat(low),
    decreases low.len(),
{
    if low.len() == 0 {
        assert(high + low =~= high);
        assert(pow256(0) == 1);
        assert(be_nat(low) == 0);
    } else {
        let whole = high + low;
        let shorter = low.drop_last();
        assert(whole.drop_last() =~= high + shorter);
        assert(whole.last() == low.last());
        lemma_be_nat_concat(high, shorter);
        let h = be_nat(high);
        let p = pow256(shorter.len());
        assert(pow256(low.len()) == 256 * p);
        assert(h * (256 * p) == (h * p) * 256) by (nonlinear_arith);
        assert(be_nat(whole) == be_nat(high + shorter) * 256 + low.last() as nat);
        assert(be_nat(low) == be_nat(shorter) * 256 + low.last() as nat);
    }
}

/// The eight bytes of `n`, most significant first.
pub fn u64_be_bytes(n: u64) -> (r: Vec<u8>)
    ensures
        r@ == be_bytes(n as nat, 8),
{
    let b7: u8 = (n % 256) as u8;
    let n1: u64 = n / 256;
    let b6: u8 = (n1 % 256) as u8;
    let n2: u64 = n1 / 256;
    let b5: u8 = (n2 % 256) as u8;
    let n3: u64 = n2 / 256;
    let b4: u8 = (n3 % 256) as u8;
    let n4: u64 = n3 / 256;
    let b3: u8 = (n4 % 256) as u8;
    let n5: u64 = n4 / 256;
    let b2: u8 = (n5 % 256) as u8;
    let n6: u64 = n5 / 256;
    let b1: u8 = (n6 % 256) as u8;
    let n7: u64 = n6 / 256;
    let b0: u8 = (n7 % 256) as u8;
    let r = vec![b0, b1, b2, b3, b4, b5, b6, b7];
    proof {
        reveal_with_fuel(be_bytes, 9);
        assert(r@ =~= be_bytes(n as nat, 8));
    }
    r
}

} // verus!
