use vstd::prelude::*;
use crate::codec::put_slice;

verus! {

/// The number of filter bits that each key gets. With ten bits about one absent key in a
/// hundred passes the filter.
pub const BLOOM_BITS_PER_KEY: usize = 10;

/// How far apart the bits of one hash lie.
pub open spec fn probe_step(h: u32) -> u32 {
    (h >> 17u32) | (h << 15u32)
}

/// The `j`-th number derived from a hash.
pub open spec fn probe(h: u32, j: nat) -> u32
    decreases j,
{
    if j == 0 {
        h
    } else {
        ((probe(h, (j - 1) as nat) + probe_step(h)) % 0x1_0000_0000) as u32
    }
}

/// The numbers derived from a hash lie equally far apart, and the distance is the hash with its
/// upper fifteen bits moved to the end.
pub proof fn lemma_probe(h: u32, j: nat)
    ensures
        probe(h, j) == (h + j * probe_step(h)) % 0x1_0000_0000,
        probe_step(h) == (h % 0x2_0000) * 0x8000 + h / 0x2_0000,
    decreases j,
{
    assert((h >> 17u32) | (h << 15u32) == (h % 0x2_0000) * 0x8000 + h / 0x2_0000) by (bit_vector);
    let d = probe_step(h) as int;
    if j == 0 {
        assert(0 * d == 0) by (nonlinear_arith);
    } else {
        let i = (j - 1) as nat;
        lemma_probe(h, i);
        assert(j * d == i * d + d) by (nonlinear_arith)
            requires
                j == i + 1,
        ;
        vstd::arithmetic::div_mod::lemma_add_mod_noop(h + i * d, d, 0x1_0000_0000);
        vstd::arithmetic::div_mod::lemma_add_mod_noop(probe(h, i) as int, d, 0x1_0000_0000);
    }
}

/// Whether a bit of a byte string is set.
pub open spec fn bit_at(filter: Seq<u8>, pos: int) -> bool {
    (filter[pos / 8] >> ((pos % 8) as u8)) & 1u8 == 1u8
}

/// Whether all bits that belong to a hash are set.
pub open spec fn all_set(filter: Seq<u8>, k: u8, h: u32) -> bool {
    forall|j: nat| j < k ==> bit_at(filter, #[trigger] probe(h, j) as int % (8 * filter.len() as int))
}

/// Whether a bit belongs to one of the first `i` hashes.
pub open spec fn marked(hashes: Seq<u32>, i: int, k: u8, nbits: int, pos: int) -> bool {
    exists|a: int, j: nat|
        #![trigger probe(hashes[a], j)]
        0 <= a < i && j < k && probe(hashes[a], j) as int % nbits == pos
}

/// A filter that tells for most keys that a table does not hold them.
pub struct Bloom {
    /// The bits of the filter.
    pub(crate) filter: Vec<u8>,
    /// The number of bits that each key sets.
    pub(crate) k: u8,
}

proof fn lemma_set_bit(b: u8, i: u8)
    by (bit_vector)
    requires
        i < 8,
    ensures
        ((b | (1u8 << i)) >> i) & 1u8 == 1u8,
        forall|m: u8| m < 8 && m != i ==> (#[trigger] ((b | (1u8 << i)) >> m)) & 1u8 == (b >> m) & 1u8,
{
}

fn set_bit(filter: &mut Vec<u8>, pos: usize)
    requires
        pos < 8 * old(filter)@.len(),
    ensures
        final(filter)@.len() == old(filter)@.len(),
        forall|q: int|
            0 <= q < 8 * old(filter)@.len() ==> #[trigger] bit_at(final(filter)@, q) == (bit_at(
                old(filter)@,
                q,
            ) || q == pos),
{
    let i = pos / 8;
    let m = (pos % 8) as u8;
    let b = filter[i];
    proof {
        lemma_set_bit(b, m);
    }
    filter.set(i, b | (1u8 << m));
    proof {
        assert forall|q: int| 0 <= q < 8 * old(filter)@.len() implies #[trigger] bit_at(filter@, q)
            == (bit_at(old(filter)@, q) || q == pos) by {
            let n = (q % 8) as u8;
            if q / 8 == i && n != m {
                assert(((b | (1u8 << m)) >> n) & 1u8 == (b >> n) & 1u8);
            }
        }
    }
}

fn get_bit(filter: &[u8], pos: usize) -> (r: bool)
    requires
        pos < 8 * filter@.len(),
    ensures
        r == bit_at(filter@, pos as int),
{
    (filter[pos / 8] >> ((pos % 8) as u8)) & 1u8 == 1u8
}

/// The bit that a number selects in a filter of `n` bytes.
fn slot(x: u32, n: usize) -> (r: usize)
    requires
        n > 0,
    ensures
        r == x as int % (8 * n as int),
        r < 8 * n,
{
    let m = 8 * n as u128;
    let y = x as u128 % m;
    assert(0 <= y <= x && y < m) by (nonlinear_arith)
        requires
            y == x as u128 % m,
            m > 0,
            x >= 0,
    ;
    y as usize
}

fn step_of(h: u32) -> (r: u32)
    ensures
        r == probe_step(h),
{
    (h >> 17u32) | (h << 15u32)
}

fn next_probe(h: u32, delta: u32) -> (r: u32)
    ensures
        r == ((h + delta) % 0x1_0000_0000) as u32,
{
    ((h as u64 + delta as u64) % 0x1_0000_0000) as u32
}

impl Bloom {
    pub closed spec fn bits(&self) -> Seq<u8> {
        self.filter@
    }

    pub closed spec fn num_probes(&self) -> u8 {
        self.k
    }

    pub open spec fn wf(&self) -> bool {
        self.bits().len() > 0
    }

    /// What the filter answers for a hash.
    pub open spec fn passes(&self, h: u32) -> bool {
        self.num_probes() > 30 || all_set(self.bits(), self.num_probes(), h)
    }

    /// The number of bits that each key sets, for a number of filter bits per key.
    pub open spec fn probes_for(bits_per_key: usize) -> int {
        let k = bits_per_key * 69 / 100;
        if k > 30 {
            30
        } else if k < 1 {
            1
        } else {
            k
        }
    }

    /// The length of a filter for `n` keys.
    pub open spec fn filter_len(n: int, bits_per_key: usize) -> int {
        let nbits = if n * bits_per_key < 64 {
            64
        } else {
            n * bits_per_key
        };
        (nbits + 7) / 8
    }

    /// Whether this is the filter of some hashes: exactly their bits are set.
    pub open spec fn built_from(&self, keys: Seq<u32>, bits_per_key: usize) -> bool {
        &&& self.num_probes() == Bloom::probes_for(bits_per_key)
        &&& self.bits().len() == Bloom::filter_len(keys.len() as int, bits_per_key)
        &&& forall|pos: int|
            0 <= pos < 8 * self.bits().len() ==> #[trigger] bit_at(self.bits(), pos) == marked(
                keys,
                keys.len() as int,
                self.num_probes(),
                8 * self.bits().len() as int,
                pos,
            )
    }

    /// The numbers of a filter: about seven tenths as many bits are set for a key as it gets, one
    /// at least and thirty at most, and the filter is as long as the bits of all keys need, but
    /// has sixty-four bits at least.
    pub proof fn lemma_numbers(n: int, bits_per_key: usize)
        requires
            n >= 0,
        ensures
            ({
                let k = Bloom::probes_for(bits_per_key);
                let len = Bloom::filter_len(n, bits_per_key);
                &&& 1 <= k <= 30
                &&& 1 < k ==> 100 * k <= 69 * bits_per_key
                &&& k < 30 ==> 69 * bits_per_key < 100 * (k + 1)
                &&& 64 <= 8 * len
                &&& n * bits_per_key <= 8 * len
                &&& 8 * len < 72 || 8 * len < n * bits_per_key + 8
            }),
    {
        let x = n * bits_per_key;
        assert(x >= 0) by (nonlinear_arith)
            requires
                n >= 0,
                x == n * bits_per_key,
        ;
    }

    /// What a filter tells: every hash that it was built from passes, and a hash passes only where
    /// each of its bits, of which `j` is one, is a bit of one of these. Without hashes nothing
    /// passes.
    pub proof fn lemma_passes(&self, keys: Seq<u32>, bits_per_key: usize, h: u32, j: nat)
        requires
            self.wf(),
            self.built_from(keys, bits_per_key),
        ensures
            keys.contains(h) ==> self.passes(h),
            self.passes(h) && j < self.num_probes() ==> exists|a: int, i: nat|
                #![trigger probe(keys[a], i)]
                {
                    let n = 8 * self.bits().len() as int;
                    &&& 0 <= a < keys.len()
                    &&& i < self.num_probes()
                    &&& probe(keys[a], i) as int % n == probe(h, j) as int % n
                },
            keys.len() == 0 ==> !self.passes(h),
            1 <= self.num_probes() <= 30,
    {
        let n = 8 * self.bits().len() as int;
        let k = self.num_probes();
        assert forall|j: nat| j < k implies bit_at(self.bits(), #[trigger] probe(h, j) as int % n)
            == marked(keys, keys.len() as int, k, n, probe(h, j) as int % n) by {
            let pos = probe(h, j) as int % n;
            assert(0 <= pos < n);
            assert(bit_at(self.bits(), pos) == marked(keys, keys.len() as int, k, n, pos));
        }
        if keys.contains(h) {
            let a = choose|a: int| 0 <= a < keys.len() && keys[a] == h;
            assert forall|j: nat| j < k implies bit_at(
                self.bits(),
                #[trigger] probe(h, j) as int % n,
            ) by {
                assert(probe(keys[a], j) as int % n == probe(h, j) as int % n);
            }
        }
        if self.passes(h) && j < k {
            assert(bit_at(self.bits(), probe(h, j) as int % n));
        }
        if keys.len() == 0 && self.passes(h) {
            assert(bit_at(self.bits(), probe(h, 0) as int % n));
        }
    }

    /// Builds the filter of the given hashes: exactly their bits are set.
    pub fn build_from_key_hashes(keys: &[u32], bits_per_key: usize) -> (r: Bloom)
        requires
            bits_per_key <= 1000,
            Bloom::filter_len(keys@.len() as int, bits_per_key) <= usize::MAX,
        ensures
            r.wf(),
            r.built_from(keys@, bits_per_key),
            forall|a: int| 0 <= a < keys@.len() ==> r.passes(#[trigger] keys@[a]),
    {
        let k0 = bits_per_key * 69 / 100;
        let k: u8 = if k0 > 30 {
            30
        } else if k0 < 1 {
            1
        } else {
            k0 as u8
        };
        let n = keys.len();
        assert(0 <= n * bits_per_key <= usize::MAX * 1000) by (nonlinear_arith)
            requires
                0 <= n <= usize::MAX,
                0 <= bits_per_key <= 1000,
        ;
        let mut nbits = n as u128 * bits_per_key as u128;
        if nbits < 64 {
            nbits = 64;
        }
        let nbytes = ((nbits + 7) / 8) as usize;
        let mut filter: Vec<u8> = vec![0u8; nbytes];
        let ghost total = 8 * nbytes as int;
        proof {
            assert forall|pos: int| 0 <= pos < total implies !#[trigger] bit_at(filter@, pos) by {
                let m = (pos % 8) as u8;
                assert((0u8 >> m) & 1u8 == 0u8) by (bit_vector);
            }
        }
        let mut i: usize = 0;
        while i < keys.len()
            invariant
                i <= keys@.len(),
                filter@.len() == nbytes,
                nbytes > 0,
                total == 8 * nbytes,
                0 < k <= 30,
                forall|pos: int|
                    0 <= pos < total ==> #[trigger] bit_at(filter@, pos) == marked(
                        keys@,
                        i as int,
                        k,
                        total,
                        pos,
                    ),
            decreases keys@.len() - i,
        {
            mark_key(&mut filter, keys, i, k);
            i += 1;
        }
        let r = Bloom { filter, k };
        proof {
            assert forall|a: int| 0 <= a < keys@.len() implies r.passes(#[trigger] keys@[a]) by {
                assert forall|j: nat| j < k implies bit_at(
                    r.bits(),
                    #[trigger] probe(keys@[a], j) as int % (8 * r.bits().len() as int),
                ) by {
                    let pos = probe(keys@[a], j) as int % total;
                    assert(marked(keys@, keys@.len() as int, k, total, pos));
                    assert(bit_at(r.bits(), pos));
                }
            }
        }
        r
    }

    /// Whether a key with this hash may be among the keys of the filter.
    pub fn may_contain(&self, h: u32) -> (r: bool)
        requires
            self.wf(),
        ensures
            r == self.passes(h),
    {
        if self.k > 30 {
            return true;
        }
        let n = self.filter.len();
        let delta = step_of(h);
        let mut x = h;
        let mut j: u8 = 0;
        while j < self.k
            invariant
                j <= self.k <= 30,
                self.wf(),
                n == self.filter@.len(),
                delta == probe_step(h),
                x == probe(h, j as nat),
                forall|a: nat|
                    a < j ==> bit_at(
                        self.bits(),
                        #[trigger] probe(h, a) as int % (8 * self.bits().len() as int),
                    ),
            decreases self.k - j,
        {
            let pos = slot(x, n);
            if !get_bit(self.filter.as_slice(), pos) {
                assert(!bit_at(
                    self.bits(),
                    probe(h, j as nat) as int % (8 * self.bits().len() as int),
                ));
                return false;
            }
            x = next_probe(x, delta);
            j += 1;
        }
        true
    }

    /// Appends the filter and the number of bits per key.
    pub fn encode(&self, buf: &mut Vec<u8>)
        ensures
            final(buf)@ == old(buf)@ + self.bits().push(self.num_probes()),
    {
        put_slice(buf, self.filter.as_slice());
        buf.push(self.k);
        assert(buf@ =~= old(buf)@ + self.bits().push(self.num_probes()));
    }
}

/// Sets the bits of one more hash.
fn mark_key(filter: &mut Vec<u8>, keys: &[u32], i: usize, k: u8)
    requires
        i < keys@.len(),
        0 < k <= 30,
        old(filter)@.len() > 0,
        forall|pos: int|
            0 <= pos < 8 * old(filter)@.len() ==> #[trigger] bit_at(old(filter)@, pos) == marked(
                keys@,
                i as int,
                k,
                8 * old(filter)@.len() as int,
                pos,
            ),
    ensures
        final(filter)@.len() == old(filter)@.len(),
        forall|pos: int|
            0 <= pos < 8 * old(filter)@.len() ==> #[trigger] bit_at(final(filter)@, pos) == marked(
                keys@,
                i + 1,
                k,
                8 * old(filter)@.len() as int,
                pos,
            ),
{
    let n = filter.len();
    let ghost total = 8 * n as int;
    let h = keys[i];
    let delta = step_of(h);
    let mut x = h;
    let mut j: u8 = 0;
    while j < k
        invariant
            j <= k <= 30,
            n > 0,
            filter@.len() == n,
            old(filter)@.len() == n,
            total == 8 * n,
            i < keys@.len(),
            h == keys@[i as int],
            delta == probe_step(h),
            x == probe(h, j as nat),
            forall|pos: int|
                0 <= pos < total ==> #[trigger] bit_at(filter@, pos) == (bit_at(old(filter)@, pos)
                    || exists|a: nat| a < j && #[trigger] probe(h, a) as int % total == pos),
        decreases k - j,
    {
        let pos = slot(x, n);
        let ghost before = filter@;
        set_bit(filter, pos);
        proof {
            assert forall|q: int| 0 <= q < total implies #[trigger] bit_at(filter@, q) == (bit_at(
                old(filter)@,
                q,
            ) || exists|a: nat| a < j + 1 && #[trigger] probe(h, a) as int % total == q) by {
                let here = exists|a: nat| a < j && #[trigger] probe(h, a) as int % total == q;
                assert(bit_at(before, q) == (bit_at(old(filter)@, q) || here));
                if q == pos {
                    assert(probe(h, j as nat) as int % total == q);
                } else if exists|a: nat| a < j + 1 && #[trigger] probe(h, a) as int % total == q {
                    let a = choose|a: nat| a < j + 1 && #[trigger] probe(h, a) as int % total == q;
                    assert(a < j);
                }
            }
        }
        x = next_probe(x, delta);
        j += 1;
    }
    proof {
        assert forall|pos: int| 0 <= pos < total implies #[trigger] bit_at(filter@, pos) == marked(
            keys@,
            i + 1,
            k,
            total,
            pos,
        ) by {
            let here = exists|a: nat| a < k && #[trigger] probe(h, a) as int % total == pos;
            assert(bit_at(filter@, pos) == (marked(keys@, i as int, k, total, pos) || here));
            if marked(keys@, i as int, k, total, pos) {
                let (a, b) = choose|a: int, b: nat|
                    #![trigger probe(keys@[a], b)]
                    0 <= a < i && b < k && probe(keys@[a], b) as int % total == pos;
                assert(0 <= a < i + 1 && b < k && probe(keys@[a], b) as int % total == pos);
            } else if here {
                let b = choose|b: nat| b < k && #[trigger] probe(h, b) as int % total == pos;
                assert(probe(keys@[i as int], b) as int % total == pos);
            }
            if marked(keys@, i + 1, k, total, pos) {
                let (a, b) = choose|a: int, b: nat|
                    #![trigger probe(keys@[a], b)]
                    0 <= a < i + 1 && b < k && probe(keys@[a], b) as int % total == pos;
                if a < i {
                    assert(marked(keys@, i as int, k, total, pos));
                } else {
                    assert(probe(h, b) as int % total == pos);
                }
            }
        }
    }
}

} // verus!
