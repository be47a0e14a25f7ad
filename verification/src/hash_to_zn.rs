use sha2::Digest;
use vstd::prelude::*;

verus! {

use vstd::arithmetic::div_mod::{lemma_div_denominator, lemma_mod_bound};
use vstd::arithmetic::power2::{lemma2_to64, lemma_pow2_adds, lemma_pow2_pos, pow2};

/// The 32-byte output that the SHA-256 function assigns to a byte sequence.
pub uninterp spec fn sha256_of(input: Seq<u8>) -> Seq<u8>;

/// Relies on sha2::Sha256::digest: the digest is a pure function of the
/// input bytes alone, and is 32 bytes long.
#[verifier::external_body]
fn sha256_digest(input: &Vec<u8>) -> (r: Vec<u8>)
    ensures
        r@ == sha256_of(input@),
        r@.len() == 32,
{
    sha2::Sha256::digest(input.as_slice()).to_vec()
}

/// The value of the first `count` bytes read as a little-endian integer.
pub open spec fn le_bytes_value(bytes: Seq<u8>, count: nat) -> int
    decreases count,
{
    if count == 0 {
        0
    } else {
        le_bytes_value(bytes, (count - 1) as nat) + bytes[count - 1] * pow2(
            (8 * (count - 1)) as nat,
        )
    }
}

/// The sixteen little-endian bytes of a 128-bit counter, as a sequence.
pub open spec fn counter_bytes(c: u128) -> Seq<u8> {
    Seq::new(16, |i: int| (((c as int) / pow2((8 * i) as nat) as int) % 256) as u8)
}

/// The candidate drawn at counter `c`: the low `k` bits of the
/// little-endian value of the digest of the seed followed by the counter
/// bytes.
pub open spec fn hash_candidate(s: Seq<u8>, k: nat, c: u128) -> int {
    le_bytes_value(sha256_of(s + counter_bytes(c)), (k + 7) / 8) % pow2(k) as int
}

/// Concrete values of the powers of two at the 128-bit boundary.
proof fn lemma_pow2_128_values()
    ensures
        pow2(120) == 0x1000000_00000000_00000000_00000000,
        pow2(127) == 0x80000000_00000000_00000000_00000000,
        pow2(128) == 0x1_00000000_00000000_00000000_00000000,
{
    lemma2_to64();
    vstd::arithmetic::power2::lemma2_to64_rest();
    lemma_pow2_adds(64, 56);
    lemma_pow2_adds(64, 63);
    lemma_pow2_adds(64, 64);
}

/// The 16 little-endian bytes of a 128-bit counter.
pub fn u128_le_bytes(c: u128) -> (r: Vec<u8>)
    ensures
        r@.len() == 16,
        forall|i: int|
            0 <= i < 16 ==> #[trigger] r@[i] == (c as int / pow2((8 * i) as nat) as int) % 256,
{
    let mut r: Vec<u8> = Vec::new();
    let mut cur: u128 = c;
    let mut i: usize = 0;
    proof {
        assert(pow2(0) == 1) by {
            lemma2_to64();
        };
        vstd::arithmetic::div_mod::lemma_div_basics(c as int);
    }
    while i < 16
        invariant
            i <= 16,
            r@.len() == i,
            cur == c as int / pow2((8 * i) as nat) as int,
            forall|j: int|
                0 <= j < i ==> #[trigger] r@[j] == (c as int / pow2((8 * j) as nat) as int) % 256,
        decreases 16 - i,
    {
        proof {
            lemma_pow2_pos((8 * i) as nat);
            lemma_mod_bound(cur as int, 256);
        }
        r.push((cur % 256) as u8);
        proof {
            lemma_div_denominator(c as int, pow2((8 * i) as nat) as int, 256);
            lemma_pow2_adds((8 * i) as nat, 8);
            assert(pow2(8) == 256) by {
                lemma2_to64();
            };
        }
        cur = cur / 256;
        i = i + 1;
    }
    r
}

/// The number carried by the first `(k+7)/8` bytes of a digest, masked down
/// to its low `k` bits: the little-endian value of those bytes, reduced
/// modulo two to the `k`.
pub fn digest_prefix(hash: &Vec<u8>, k: usize) -> (z: u128)
    requires
        k <= 127,
        (k + 7) / 8 <= hash@.len(),
    ensures
        z == le_bytes_value(hash@, ((k + 7) / 8) as nat) % pow2(k as nat) as int,
{
    let count = (k + 7) / 8;
    let mut z: u128 = 0;
    let mut p: u128 = 1;
    let mut i: usize = 0;
    proof {
        assert(pow2(0) == 1) by {
            lemma2_to64();
        };
    }
    while i < count
        invariant
            k <= 127,
            count == (k + 7) / 8,
            count <= hash@.len(),
            i <= count,
            z == le_bytes_value(hash@, i as nat),
            0 <= z < pow2((8 * i) as nat),
            i < count ==> p == pow2((8 * i) as nat),
        decreases count - i,
    {
        let ghost pre = z as int;
        let ghost sumv = pre + (hash@[i as int] as int) * (p as int);
        proof {
            lemma_pow2_pos((8 * i) as nat);
            lemma_pow2_adds((8 * i) as nat, 8);
            lemma2_to64();
            lemma_pow2_128_values();
            assert(sumv < pow2((8 * (i + 1)) as nat)) by (nonlinear_arith)
                requires
                    0 <= pre < pow2((8 * i) as nat),
                    sumv == pre + (hash@[i as int] as int) * (p as int),
                    0 <= hash@[i as int] as int <= 255,
                    p == pow2((8 * i) as nat),
                    pow2((8 * (i + 1)) as nat) == 256 * pow2((8 * i) as nat),
            ;
            assert(pow2((8 * (i + 1)) as nat) <= pow2(128)) by {
                if 8 * (i + 1) < 128 {
                    vstd::arithmetic::power2::lemma_pow2_strictly_increases(
                        (8 * (i + 1)) as nat,
                        128,
                    );
                }
            };
        }
        z = z + (hash[i] as u128) * p;
        proof {
            assert(z == le_bytes_value(hash@, (i + 1) as nat));
            assert(z < pow2((8 * (i + 1)) as nat));
        }
        if i + 1 < count {
            proof {
                assert(pow2((8 * (i + 1)) as nat) <= pow2(120)) by {
                    if 8 * (i + 1) < 120 {
                        vstd::arithmetic::power2::lemma_pow2_strictly_increases(
                            (8 * (i + 1)) as nat,
                            120,
                        );
                    }
                };
            }
            p = p * 256;
            proof {
                assert(p == pow2((8 * (i + 1)) as nat));
            }
        }
        i = i + 1;
    }
    // Mask to the low k bits: reduce modulo two to the k.
    let mut m: u128 = 1;
    let mut t: usize = 0;
    while t < k
        invariant
            t <= k,
            k <= 127,
            m == pow2(t as nat),
            m >= 1,
        decreases k - t,
    {
        proof {
            lemma_pow2_adds(t as nat, 1);
            lemma2_to64();
            lemma_pow2_128_values();
            assert(pow2((t + 1) as nat) <= pow2(127)) by {
                if t + 1 < 127 {
                    vstd::arithmetic::power2::lemma_pow2_strictly_increases((t + 1) as nat, 127);
                }
            };
        }
        m = m * 2;
        t = t + 1;
    }
    proof {
        lemma_mod_bound(z as int, m as int);
    }
    z % m
}

/// Derives a pseudorandom number below `n` from a seed: an incrementing
/// counter is appended to the seed in little-endian bytes, the compound is
/// hashed with SHA-256, and the low `k` bits of the digest are taken; the
/// candidate of the first counter that falls below `n` is returned.  The
/// counter is bounded by the width of its machine type; exhausting it
/// returns zero, which no run short of that many hash evaluations can
/// reach.
pub fn hash_to_zn(n: u128, k: usize, s: &[u8]) -> (z: u128)
    requires
        n >= 1,
        k <= 127,
    ensures
        z < n,
        z < pow2(k as nat),
        ({
            ||| exists|c: u128|
                #[trigger] hash_candidate(s@, k as nat, c) == z && (forall|c2: u128|
                    c2 < c ==> #[trigger] hash_candidate(s@, k as nat, c2) >= n)
            ||| (z == 0 && forall|c: u128| #[trigger] hash_candidate(s@, k as nat, c) >= n)
        }),
{
    proof {
        lemma_pow2_pos(k as nat);
    }
    let mut c: u128 = 0;
    loop
        invariant
            n >= 1,
            k <= 127,
            forall|c2: u128| c2 < c ==> #[trigger] hash_candidate(s@, k as nat, c2) >= n,
        decreases u128::MAX - c,
    {
        let mut s_prime: Vec<u8> = Vec::new();
        let mut i: usize = 0;
        while i < s.len()
            invariant
                i <= s@.len(),
                s_prime@ == s@.take(i as int),
            decreases s@.len() - i,
        {
            s_prime.push(s[i]);
            proof {
                assert(s_prime@ =~= s@.take(i + 1));
            }
            i = i + 1;
        }
        proof {
            assert(s_prime@ =~= s@);
        }
        let cb = u128_le_bytes(c);
        proof {
            assert(cb@ =~= counter_bytes(c));
        }
        let ghost base = s_prime@;
        let mut j: usize = 0;
        while j < cb.len()
            invariant
                j <= cb@.len(),
                s_prime@ == base + cb@.take(j as int),
            decreases cb@.len() - j,
        {
            s_prime.push(cb[j]);
            proof {
                assert(s_prime@ =~= base + cb@.take(j + 1));
            }
            j = j + 1;
        }
        proof {
            assert(s_prime@ =~= s@ + counter_bytes(c));
        }
        let hash = sha256_digest(&s_prime);
        let z = digest_prefix(&hash, k);
        proof {
            lemma_pow2_pos(k as nat);
            lemma_mod_bound(le_bytes_value(hash@, ((k + 7) / 8) as nat), pow2(k as nat) as int);
            assert(hash@ == sha256_of(s@ + counter_bytes(c)));
            assert(z == hash_candidate(s@, k as nat, c));
        }
        if z < n {
            return z;
        }
        if c == u128::MAX {
            proof {
                assert forall|c2: u128| #[trigger] hash_candidate(s@, k as nat, c2)
                    >= n by {
                    if c2 < c {
                    } else {
                        assert(c2 == c);
                    }
                };
            }
            return 0;
        }
        proof {
            assert forall|c2: u128| c2 < c + 1 implies #[trigger] hash_candidate(
                s@,
                k as nat,
                c2,
            ) >= n by {
                if c2 < c {
                } else {
                    assert(c2 == c);
                }
            };
        }
        c = c + 1;
    }
}

} // verus!
