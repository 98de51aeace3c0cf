//! Item ids and the 64-bit encoding of pairs of them.
use vstd::prelude::*;

verus! {

/// The reserved id meaning "no result".
pub const NOTHING: u32 = 0;

/// 2^32: the weight of the high half of a pair code.
pub open spec fn half() -> nat {
    4294967296
}

/// The code of the ordered pair `(hi, lo)`: `hi` in the high 32 bits, `lo` in the low ones.
pub open spec fn encode(hi: u32, lo: u32) -> u64 {
    (hi as nat * half() + lo as nat) as u64
}

/// The ordered pair that a code stands for.
pub open spec fn decode(code: u64) -> (u32, u32) {
    ((code as nat / half()) as u32, (code as nat % half()) as u32)
}

pub open spec fn min_id(a: u32, b: u32) -> u32 {
    if a <= b { a } else { b }
}

pub open spec fn max_id(a: u32, b: u32) -> u32 {
    if a <= b { b } else { a }
}

/// The canonical code of the unordered pair `{a, b}`: the smaller id high, the larger low.
pub open spec fn sym_encode(a: u32, b: u32) -> u64 {
    encode(min_id(a, b), max_id(a, b))
}

/// Decoding an encoded pair gives the pair back, and the code fits in 64 bits exactly.
pub proof fn lemma_decode_encode(hi: u32, lo: u32)
    ensures
        decode(encode(hi, lo)) == (hi, lo),
        encode(hi, lo) as nat == hi as nat * half() + lo as nat,
{
    let h = hi as nat;
    let l = lo as nat;
    assert(h * half() + l < 18446744073709551616) by (nonlinear_arith)
        requires
            h < 4294967296,
            l < 4294967296,
            half() == 4294967296,
    ;
    let c = h * half() + l;
    assert(c / half() == h && c % half() == l) by (nonlinear_arith)
        requires
            c == h * half() + l,
            l < half(),
            half() == 4294967296,
    ;
}

/// Two codes are equal exactly when the pairs are.
pub proof fn lemma_encode_injective(a: u32, b: u32, c: u32, d: u32)
    ensures
        (encode(a, b) == encode(c, d)) <==> (a == c && b == d),
{
    lemma_decode_encode(a, b);
    lemma_decode_encode(c, d);
}

/// The canonical pair code does not depend on the order of the two ids, and
/// decodes to the two ids in ascending order.
pub proof fn lemma_sym_encode_canonical(a: u32, b: u32)
    ensures
        sym_encode(a, b) == sym_encode(b, a),
        decode(sym_encode(a, b)) == (min_id(a, b), max_id(a, b)),
        decode(sym_encode(a, b)).0 <= decode(sym_encode(a, b)).1,
        a != b ==> sym_encode(a, b) != sym_encode(a, a),
{
    lemma_decode_encode(min_id(a, b), max_id(a, b));
    lemma_decode_encode(a, a);
}

/// Exec form of `encode`.
fn pack(hi: u32, lo: u32) -> (r: u64)
    ensures
        r == encode(hi, lo),
{
    proof {
        lemma_decode_encode(hi, lo);
    }
    let r: u64 = (hi as u64) << 32u64 | lo as u64;
    assert(r == (hi as u64) * 4294967296u64 + lo as u64) by (bit_vector)
        requires
            r == (hi as u64) << 32u64 | lo as u64,
    ;
    r
}

/// Exec form of `decode`.
fn unpack(code: u64) -> (r: [u32; 2])
    ensures
        r@ == seq![decode(code).0, decode(code).1],
{
    let hi = (code >> 32u64) as u32;
    let lo = code as u32;
    assert(hi as nat == code as nat / half() && lo as nat == code as nat % half()) by {
        assert((code >> 32u64) == code / 4294967296u64) by (bit_vector);
        assert((code as u32) as u64 == code % 4294967296u64) by (bit_vector);
    }
    let r = [hi, lo];
    assert(r@ =~= seq![decode(code).0, decode(code).1]);
    r
}

/// An ordered pair of item ids packed into 64 bits.
#[derive(Clone, Copy, PartialEq, Eq, PartialOrd, Ord, Hash, Debug)]
pub struct Pair(u64);

impl Pair {
    /// The two ids, first the one packed high.
    pub open spec fn view(&self) -> (u32, u32) {
        decode(self.code())
    }

    pub closed spec fn code(&self) -> u64 {
        self.0
    }

    pub fn new(u: u32, v: u32) -> (r: Pair)
        ensures
            r@ == (u, v),
            r.code() == encode(u, v),
    {
        proof {
            lemma_decode_encode(u, v);
        }
        Pair(pack(u, v))
    }

    pub fn get(&self) -> (r: [u32; 2])
        ensures
            r@ == seq![self@.0, self@.1],
    {
        unpack(self.0)
    }

    /// The 64-bit code.
    pub fn as_u64(&self) -> (r: u64)
        ensures
            r == self.code(),
    {
        self.0
    }
}

/// An unordered pair of item ids in canonical form: the smaller id high.
#[derive(Clone, Copy, PartialEq, Eq, PartialOrd, Ord, Hash, Debug)]
pub struct SymPair(u64);

impl SymPair {
    /// The two ids, ascending.
    pub open spec fn view(&self) -> (u32, u32) {
        decode(self.code())
    }

    pub closed spec fn code(&self) -> u64 {
        self.0
    }

    pub fn new(u: u32, v: u32) -> (r: SymPair)
        ensures
            r@ == (min_id(u, v), max_id(u, v)),
            r.code() == sym_encode(u, v),
    {
        proof {
            lemma_sym_encode_canonical(u, v);
        }
        let (a, b) = if u <= v {
            (u, v)
        } else {
            (v, u)
        };
        SymPair(pack(a, b))
    }

    pub fn get(&self) -> (r: [u32; 2])
        ensures
            r@ == seq![self@.0, self@.1],
    {
        unpack(self.0)
    }

    /// The 64-bit code.
    pub fn as_u64(&self) -> (r: u64)
        ensures
            r == self.code(),
    {
        self.0
    }
}

} // verus!
