//! The key type of the Patricia tree: a fixed sequence of bits, with the few
//! operations the tree needs (length, indexed access, prefix test, longest
//! common prefix, equality).

use vstd::prelude::*;
use vstd::string::StringExecFns;

verus! {

/// `p` is a prefix of `s`.
pub open spec fn is_prefix(p: Seq<bool>, s: Seq<bool>) -> bool {
    p.len() <= s.len() && p == s.subrange(0, p.len() as int)
}

/// `p` is a prefix of `s` and strictly shorter than `s`.
pub open spec fn is_strict_prefix(p: Seq<bool>, s: Seq<bool>) -> bool {
    is_prefix(p, s) && p.len() < s.len()
}

/// Every sequence is a prefix of itself.
pub proof fn lemma_prefix_refl(s: Seq<bool>)
    ensures
        is_prefix(s, s),
{
    assert(s.subrange(0, s.len() as int) =~= s);
}

/// A prefix of a prefix of `c` is a prefix of `c`.
pub proof fn lemma_prefix_trans(a: Seq<bool>, b: Seq<bool>, c: Seq<bool>)
    requires
        is_prefix(a, b),
        is_prefix(b, c),
    ensures
        is_prefix(a, c),
{
    assert(a =~= c.subrange(0, a.len() as int)) by {
        assert(forall|i: int| 0 <= i < a.len() ==> a[i] == #[trigger] b[i]);
        assert(forall|i: int| 0 <= i < b.len() ==> b[i] == #[trigger] c[i]);
    }
}

/// Splitting off the last pushed bit of a prefix: `p.push(b)` being a prefix
/// of `k` means `p` is one too, and `k` carries `b` right after it.
pub proof fn lemma_prefix_unpush(p: Seq<bool>, b: bool, k: Seq<bool>)
    requires
        is_prefix(p.push(b), k),
    ensures
        is_prefix(p, k),
        p.len() < k.len(),
        k[p.len() as int] == b,
{
    assert(forall|i: int| 0 <= i < p.len() + 1 ==> p.push(b)[i] == #[trigger] k[i]);
    assert(p =~= k.subrange(0, p.len() as int));
    assert(p.push(b)[p.len() as int] == b);
}

/// Two prefixes of one sequence are ordered by length: the shorter is a
/// prefix of the longer.
pub proof fn lemma_prefix_comparable(p: Seq<bool>, q: Seq<bool>, k: Seq<bool>)
    requires
        is_prefix(p, k),
        is_prefix(q, k),
        p.len() <= q.len(),
    ensures
        is_prefix(p, q),
{
    assert(forall|i: int| 0 <= i < p.len() ==> p[i] == #[trigger] k[i]);
    assert(forall|i: int| 0 <= i < q.len() ==> q[i] == #[trigger] k[i]);
    assert(p =~= q.subrange(0, p.len() as int));
}

/// Sequences extending `p` with opposite bits share no extension: neither of
/// two such sequences is a prefix of the other.
pub proof fn lemma_prefix_diverge(p: Seq<bool>, a: Seq<bool>, b: Seq<bool>)
    requires
        is_prefix(p.push(false), a),
        is_prefix(p.push(true), b),
    ensures
        !is_prefix(a, b),
        !is_prefix(b, a),
        a != b,
{
    lemma_prefix_unpush(p, false, a);
    lemma_prefix_unpush(p, true, b);
    if is_prefix(a, b) {
        assert(forall|i: int| 0 <= i < a.len() ==> a[i] == #[trigger] b[i]);
    }
    if is_prefix(b, a) {
        assert(forall|i: int| 0 <= i < b.len() ==> b[i] == #[trigger] a[i]);
    }
}

/// The bit at position `i` in the binary representation of `n`, the least
/// significant bit first.
pub open spec fn u64_bit(n: u64, i: int) -> bool {
    (n >> (i as u64)) & 1u64 == 1u64
}

/// A bit sequence rendered as text: one `'0'` or `'1'` per bit.
pub open spec fn bits_chars(s: Seq<bool>) -> Seq<char> {
    Seq::new(
        s.len(),
        |i: int|
            if s[i] {
                '1'
            } else {
                '0'
            },
    )
}

/// A fixed sequence of bits. The tree reads it only through `len`, `get`,
/// `begins_with`, `common_prefix` and `equals`.
pub struct BitVec {
    bits: Vec<bool>,
}

impl View for BitVec {
    type V = Seq<bool>;

    closed spec fn view(&self) -> Seq<bool> {
        self.bits@
    }
}

impl Clone for BitVec {
    fn clone(&self) -> (r: Self)
        ensures
            r@ == self@,
    {
        let bits = self.bits.clone();
        proof {
            assert(bits@ =~= self.bits@);
        }
        BitVec { bits }
    }
}

impl BitVec {
    /// The empty bit sequence.
    pub fn new() -> (r: BitVec)
        ensures
            r@ == Seq::<bool>::empty(),
    {
        let bits: Vec<bool> = Vec::new();
        proof {
            assert(bits@ =~= Seq::<bool>::empty());
        }
        BitVec { bits }
    }

    /// Wraps a vector of bits, most significant use left to the caller.
    pub fn from_bits(bits: Vec<bool>) -> (r: BitVec)
        ensures
            r@ == bits@,
    {
        BitVec { bits }
    }

    /// Encodes an integer as its 64 bits, least significant first.
    pub fn from_u64(n: u64) -> (r: BitVec)
        ensures
            r@.len() == 64,
            forall|i: int| 0 <= i < 64 ==> #[trigger] r@[i] == u64_bit(n, i),
    {
        let mut bits: Vec<bool> = Vec::new();
        let mut i: usize = 0;
        while i < 64
            invariant
                i <= 64,
                bits@.len() == i,
                forall|j: int| 0 <= j < i ==> bits@[j] == u64_bit(n, j),
            decreases 64 - i,
        {
            bits.push((n >> (i as u64)) & 1u64 == 1u64);
            i = i + 1;
        }
        BitVec { bits }
    }

    /// The number of bits.
    pub fn len(&self) -> (r: usize)
        ensures
            r == self@.len(),
    {
        self.bits.len()
    }

    /// The bit at position `i`.
    pub fn get(&self, i: usize) -> (r: bool)
        requires
            i < self@.len(),
        ensures
            r == self@[i as int],
    {
        self.bits[i]
    }

    /// Whether the two bit sequences are equal.
    pub fn equals(&self, other: &BitVec) -> (r: bool)
        ensures
            r == (self@ == other@),
    {
        if self.bits.len() != other.bits.len() {
            proof {
                assert(self@ != other@);
            }
            return false;
        }
        let n = self.bits.len();
        let mut i: usize = 0;
        while i < n
            invariant
                i <= n,
                n == self@.len(),
                n == other@.len(),
                forall|j: int| 0 <= j < i ==> self@[j] == other@[j],
            decreases n - i,
        {
            if self.bits[i] != other.bits[i] {
                proof {
                    assert(self@[i as int] != other@[i as int]);
                }
                return false;
            }
            i = i + 1;
        }
        proof {
            assert(self@ =~= other@);
        }
        true
    }

    /// Whether this sequence begins with `prefix`.
    pub fn begins_with(&self, prefix: &BitVec) -> (r: bool)
        ensures
            r == is_prefix(prefix@, self@),
    {
        if prefix.bits.len() > self.bits.len() {
            return false;
        }
        let n = prefix.bits.len();
        let mut i: usize = 0;
        while i < n
            invariant
                i <= n,
                n == prefix@.len(),
                n <= self@.len(),
                forall|j: int| 0 <= j < i ==> prefix@[j] == self@[j],
            decreases n - i,
        {
            if prefix.bits[i] != self.bits[i] {
                proof {
                    assert(prefix@[i as int] != self@.subrange(0, n as int)[i as int]);
                }
                return false;
            }
            i = i + 1;
        }
        proof {
            assert(prefix@ =~= self@.subrange(0, n as int));
        }
        true
    }

    /// The bits as text, for diagnostics: one `'0'` or `'1'` per bit.
    pub fn bit_string(&self) -> (r: String)
        ensures
            r@ == bits_chars(self@),
    {
        let n = self.bits.len();
        let mut s = String::new();
        let mut i: usize = 0;
        while i < n
            invariant
                i <= n,
                n == self@.len(),
                s@ == bits_chars(self@).subrange(0, i as int),
            decreases n - i,
        {
            let ghost pre = s@;
            if self.bits[i] {
                s.append("1");
                proof {
                    reveal_strlit("1");
                }
            } else {
                s.append("0");
                proof {
                    reveal_strlit("0");
                }
            }
            proof {
                assert(s@ =~= bits_chars(self@).subrange(0, i as int + 1));
            }
            i = i + 1;
        }
        proof {
            assert(bits_chars(self@).subrange(0, n as int) =~= bits_chars(self@));
        }
        s
    }

    /// The longest common prefix of `a` and `b`: it is a prefix of both, and
    /// right after it the two differ (unless one of them ends there).
    pub fn common_prefix(a: &BitVec, b: &BitVec) -> (r: BitVec)
        ensures
            is_prefix(r@, a@),
            is_prefix(r@, b@),
            r@.len() < a@.len() && r@.len() < b@.len() ==> a@[r@.len() as int] != b@[
                r@.len() as int
            ],
    {
        let a_len = a.bits.len();
        let b_len = b.bits.len();
        let mut out: Vec<bool> = Vec::new();
        let mut i: usize = 0;
        while i < a_len && i < b_len && a.bits[i] == b.bits[i]
            invariant
                i <= a_len,
                i <= b_len,
                a_len == a@.len(),
                b_len == b@.len(),
                out@.len() == i,
                forall|j: int| 0 <= j < i ==> out@[j] == a@[j] && out@[j] == b@[j],
            decreases a_len - i,
        {
            out.push(a.bits[i]);
            i = i + 1;
        }
        proof {
            assert(out@ =~= a@.subrange(0, i as int));
            assert(out@ =~= b@.subrange(0, i as int));
        }
        BitVec { bits: out }
    }
}

} // verus!
