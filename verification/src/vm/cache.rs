use std::collections::HashMap;
use std::collections::VecDeque;

use vstd::prelude::*;

verus! {

broadcast use vstd::std_specs::hash::group_hash_axioms;

/// Programs up to this many instructions may use the bitmap cache.
pub const BITMAP_BIT_LIMIT: usize = 256;

/// The bitmap cache never allocates more than this many bytes.
pub const MAX_BITMAP_BYTES: usize = 16 * 1024 * 1024;

/// How many visited pairs the capacity-bounded cache retains.
pub const CACHE_CAPACITY: usize = 4096;

/// Words needed for one row of `program_size` bits.
pub open spec fn stride_of(program_size: nat) -> nat {
    if program_size == 0 {
        0
    } else {
        (((program_size - 1) / 64) + 1) as nat
    }
}

/// Whether `Cache::new` picks the bitmap representation.
pub open spec fn fits_bitmap(program_size: nat, input_size: nat) -> bool {
    program_size <= BITMAP_BIT_LIMIT && input_size * stride_of(program_size) * 8
        <= MAX_BITMAP_BYTES
}

/// A dense bit matrix over (input position, program counter) pairs:
/// one row of `stride` words per input position, `input_size + 1` rows.
/// Out-of-range pairs are never stored and never reported.
#[derive(Debug)]
pub struct BitmapCache {
    bitmap: Vec<u64>,
    stride: usize,
    input_size: usize,
}

impl BitmapCache {
    pub closed spec fn wf(&self) -> bool {
        self.bitmap@.len() == (self.input_size + 1) * (self.stride as nat)
    }

    pub closed spec fn spec_stride(&self) -> nat {
        self.stride as nat
    }

    pub closed spec fn spec_input_size(&self) -> nat {
        self.input_size as nat
    }

    /// Whether the pair is recorded. Pairs out of range never are.
    pub closed spec fn has(&self, pos: nat, pc: nat) -> bool {
        &&& pos <= self.input_size
        &&& pc / 64 < self.stride
        &&& {
            let w = pos * (self.stride as nat) + pc / 64;
            &&& w < self.bitmap@.len()
            &&& ((self.bitmap@[w as int] >> ((pc % 64) as u64)) & 1u64) == 1u64
        }
    }

    pub fn new(program_size: usize, input_size: usize) -> (r: BitmapCache)
        requires
            (input_size + 1) * stride_of(program_size as nat) <= usize::MAX,
        ensures
            r.wf(),
            r.spec_stride() == stride_of(program_size as nat),
            r.spec_input_size() == input_size,
            forall|pos: nat, pc: nat| !r.has(pos, pc),
    {
        let stride: usize = if program_size == 0 {
            0
        } else {
            (program_size - 1) / 64 + 1
        };
        let len: usize = if stride == 0 {
            0
        } else {
            proof {
                assert((input_size + 1) * (stride as nat) >= input_size + 1) by (nonlinear_arith)
                    requires
                        stride >= 1,
                {
                }
            }
            (input_size + 1) * stride
        };
        let mut bitmap: Vec<u64> = Vec::new();
        let mut i: usize = 0;
        while i < len
            invariant
                i <= len,
                bitmap@.len() == i,
                forall|j: int| 0 <= j < i ==> bitmap@[j] == 0u64,
            decreases len - i,
        {
            bitmap.push(0u64);
            i = i + 1;
        }
        let r = BitmapCache { bitmap, stride, input_size };
        proof {
            assert forall|pos: nat, pc: nat| !r.has(pos, pc) by {
                if pos <= r.input_size && pc / 64 < r.stride {
                    let w = pos * (r.stride as nat) + pc / 64;
                    if w < r.bitmap@.len() {
                        let word = r.bitmap@[w as int];
                        assert(word == 0u64);
                        let sh = (pc % 64) as u64;
                        assert(sh < 64);
                        assert(((0u64 >> sh) & 1u64) == 0u64) by (bit_vector);
                    }
                }
            }
        }
        r
    }

    pub fn contains(&self, input_pos: usize, pc: usize) -> (r: bool)
        requires
            self.wf(),
        ensures
            r == self.has(input_pos as nat, pc as nat),
    {
        if input_pos > self.input_size {
            return false;
        }
        let word_offset = pc / 64;
        let bit_idx = pc % 64;
        if word_offset >= self.stride {
            return false;
        }
        let total = self.bitmap.len();
        proof {
            assert(input_pos * (self.stride as nat) + word_offset < (self.input_size + 1) * (
            self.stride as nat)) by (nonlinear_arith)
                requires
                    input_pos <= self.input_size,
                    word_offset < self.stride,
            {
            }
            assert(input_pos * (self.stride as nat) + word_offset < total);
        }
        let index = input_pos * self.stride + word_offset;
        ((self.bitmap[index] >> (bit_idx as u64)) & 1u64) == 1u64
    }

    pub fn insert(&mut self, input_pos: usize, pc: usize)
        requires
            old(self).wf(),
        ensures
            final(self).wf(),
            final(self).spec_stride() == old(self).spec_stride(),
            final(self).spec_input_size() == old(self).spec_input_size(),
            forall|p: nat, q: nat|
                #[trigger] final(self).has(p, q) == (old(self).has(p, q) || (p == input_pos && q
                    == pc && input_pos <= old(self).spec_input_size() && pc / 64 < old(
                    self,
                ).spec_stride())),
    {
        if input_pos > self.input_size {
            return ;
        }
        let word_offset = pc / 64;
        let bit_idx = pc % 64;
        if word_offset >= self.stride {
            return ;
        }
        let total = self.bitmap.len();
        proof {
            assert(input_pos * (self.stride as nat) + word_offset < (self.input_size + 1) * (
            self.stride as nat)) by (nonlinear_arith)
                requires
                    input_pos <= self.input_size,
                    word_offset < self.stride,
            {
            }
            assert(input_pos * (self.stride as nat) + word_offset < total);
        }
        let index = input_pos * self.stride + word_offset;
        let word = self.bitmap[index];
        let updated = word | (1u64 << (bit_idx as u64));
        self.bitmap.set(index, updated);
        proof {
            let st = self.stride as nat;
            assert forall|p: nat, q: nat|
                #[trigger] self.has(p, q) == (old(self).has(p, q) || (p == input_pos && q == pc
                    && input_pos <= old(self).spec_input_size() && pc / 64 < old(
                    self,
                ).spec_stride())) by {
                if p <= self.input_size && q / 64 < self.stride {
                    let w = p * st + q / 64;
                    let qd = q / 64;
                    let isz = self.input_size as nat;
                    let blen = self.bitmap@.len();
                    assert(w < blen) by (nonlinear_arith)
                        requires
                            p <= isz,
                            qd < st,
                            w == p * st + qd,
                            blen == (isz + 1) * st,
                    {
                    }
                    if w == index {
                        assert(p == input_pos && q / 64 == word_offset) by (nonlinear_arith)
                            requires
                                p * st + q / 64 == input_pos * st + word_offset,
                                q / 64 < st,
                                word_offset < st,
                        {
                        }
                        let shq = (q % 64) as u64;
                        let shb = bit_idx as u64;
                        assert(shq < 64 && shb < 64);
                        assert((((word | (1u64 << shb)) >> shq) & 1u64) == 1u64 <==> (shq == shb
                            || ((word >> shq) & 1u64) == 1u64)) by (bit_vector)
                            requires
                                shq < 64,
                                shb < 64,
                        {
                        }
                        if shq == shb {
                            assert(q == pc) by {
                                assert(q == (q / 64) * 64 + q % 64);
                                assert(pc == (pc / 64) * 64 + pc % 64);
                            }
                        }
                    } else {
                        assert(self.bitmap@[w as int] == old(self).bitmap@[w as int]);
                    }
                }
            }
        }
    }

    /// Forgets every recorded pair, keeping the allocation.
    pub fn clear(&mut self)
        requires
            old(self).wf(),
        ensures
            final(self).wf(),
            final(self).spec_stride() == old(self).spec_stride(),
            final(self).spec_input_size() == old(self).spec_input_size(),
            forall|p: nat, q: nat| !final(self).has(p, q),
    {
        let len = self.bitmap.len();
        let mut i: usize = 0;
        while i < len
            invariant
                i <= len,
                self.bitmap@.len() == len,
                self.stride == old(self).stride,
                self.input_size == old(self).input_size,
                forall|j: int| 0 <= j < i ==> self.bitmap@[j] == 0u64,
            decreases len - i,
        {
            self.bitmap.set(i, 0u64);
            i = i + 1;
        }
        proof {
            assert forall|p: nat, q: nat| !self.has(p, q) by {
                if p <= self.input_size && q / 64 < self.stride {
                    let w = p * (self.stride as nat) + q / 64;
                    if w < self.bitmap@.len() {
                        let sh = (q % 64) as u64;
                        assert(sh < 64);
                        assert(self.bitmap@[w as int] == 0u64);
                        assert(((0u64 >> sh) & 1u64) == 0u64) by (bit_vector);
                    }
                }
            }
        }
    }
}

/// The key under which the pair is stored in the bounded map.
pub open spec fn fkey(pos: nat, pc: nat) -> u128 {
    (pos * 0x1_0000_0000_0000_0000 + pc) as u128
}

pub proof fn lemma_fkey_inj(p1: nat, q1: nat, p2: nat, q2: nat)
    requires
        p1 < 0x1_0000_0000_0000_0000,
        q1 < 0x1_0000_0000_0000_0000,
        p2 < 0x1_0000_0000_0000_0000,
        q2 < 0x1_0000_0000_0000_0000,
        fkey(p1, q1) == fkey(p2, q2),
    ensures
        p1 == p2,
        q1 == q2,
{
    let c: int = 0x1_0000_0000_0000_0000;
    let v1: int = p1 * c + q1;
    let v2: int = p2 * c + q2;
    assert(0 <= v1 < 0x1_0000_0000_0000_0000_0000_0000_0000_0000) by (nonlinear_arith)
        requires
            c == 0x1_0000_0000_0000_0000,
            0 <= p1 < c,
            0 <= q1 < c,
            v1 == p1 * c + q1,
    {
    }
    assert(0 <= v2 < 0x1_0000_0000_0000_0000_0000_0000_0000_0000) by (nonlinear_arith)
        requires
            c == 0x1_0000_0000_0000_0000,
            0 <= p2 < c,
            0 <= q2 < c,
            v2 == p2 * c + q2,
    {
    }
    assert(v1 as u128 == fkey(p1, q1));
    assert(v2 as u128 == fkey(p2, q2));
    assert(v1 == v2);
    assert(p1 == p2 && q1 == q2) by (nonlinear_arith)
        requires
            c == 0x1_0000_0000_0000_0000,
            v1 == v2,
            v1 == p1 * c + q1,
            v2 == p2 * c + q2,
            0 <= q1 < c,
            0 <= q2 < c,
            p1 >= 0,
            p2 >= 0,
    {
    }
}

/// A capacity-bounded cache of visited pairs: a map for membership plus a
/// first-in-first-out queue; when full, the oldest pair is evicted. Losing
/// a pair only costs repeated work, never a wrong answer.
#[derive(Debug)]
pub struct FallbackCache {
    map: HashMap<u128, bool>,
    queue: VecDeque<(usize, usize)>,
    capacity: usize,
}

impl FallbackCache {
    /// The recorded pairs.
    pub closed spec fn entries(&self) -> Set<(nat, nat)> {
        Set::new(
            |c: (nat, nat)|
                exists|k: int|
                    0 <= k < self.queue@.len() && (#[trigger] self.queue@[k]).0 == c.0
                        && self.queue@[k].1 == c.1,
        )
    }

    pub closed spec fn wf(&self) -> bool {
        &&& forall|k: int, j: int|
            0 <= k < j < self.queue@.len() ==> #[trigger] self.queue@[k] != #[trigger] self.queue@[j]
        &&& forall|k: int|
            0 <= k < self.queue@.len() ==> self.map@.contains_key(
                fkey((#[trigger] self.queue@[k]).0 as nat, self.queue@[k].1 as nat),
            )
        &&& forall|key: u128|
            #[trigger] self.map@.contains_key(key) ==> exists|k: int|
                0 <= k < self.queue@.len() && fkey(
                    (#[trigger] self.queue@[k]).0 as nat,
                    self.queue@[k].1 as nat,
                ) == key
    }

    pub fn new(capacity: usize) -> (r: FallbackCache)
        ensures
            r.wf(),
            forall|c: (nat, nat)| !r.entries().contains(c),
    {
        FallbackCache { map: HashMap::new(), queue: VecDeque::new(), capacity }
    }

    pub fn contains(&self, input_pos: usize, pc: usize) -> (r: bool)
        requires
            self.wf(),
        ensures
            r == self.entries().contains((input_pos as nat, pc as nat)),
    {
        let key: u128 = (input_pos as u128) * 0x1_0000_0000_0000_0000u128 + (pc as u128);
        proof {
            assert(key == fkey(input_pos as nat, pc as nat));
        }
        let r = self.map.contains_key(&key);
        proof {
            if r {
                let k = choose|k: int|
                    0 <= k < self.queue@.len() && fkey(
                        (#[trigger] self.queue@[k]).0 as nat,
                        self.queue@[k].1 as nat,
                    ) == key;
                lemma_fkey_inj(
                    self.queue@[k].0 as nat,
                    self.queue@[k].1 as nat,
                    input_pos as nat,
                    pc as nat,
                );
                assert(self.entries().contains((input_pos as nat, pc as nat)));
            } else {
                if self.entries().contains((input_pos as nat, pc as nat)) {
                    let k = choose|k: int|
                        0 <= k < self.queue@.len() && (#[trigger] self.queue@[k]).0 == input_pos
                            && self.queue@[k].1 == pc;
                    assert(self.map@.contains_key(key));
                }
            }
        }
        r
    }

    pub fn insert(&mut self, input_pos: usize, pc: usize)
        requires
            old(self).wf(),
        ensures
            final(self).wf(),
            final(self).entries().contains((input_pos as nat, pc as nat)),
            final(self).entries().subset_of(
                old(self).entries().insert((input_pos as nat, pc as nat)),
            ),
    {
        let key: u128 = (input_pos as u128) * 0x1_0000_0000_0000_0000u128 + (pc as u128);
        proof {
            assert(key == fkey(input_pos as nat, pc as nat));
        }
        if self.contains(input_pos, pc) {
            return ;
        }
        if self.queue.len() >= self.capacity {
            let popped = self.queue.pop_front();
            if let Some(oldest) = popped {
                let okey: u128 = (oldest.0 as u128) * 0x1_0000_0000_0000_0000u128 + (
                oldest.1 as u128);
                proof {
                    assert(okey == fkey(oldest.0 as nat, oldest.1 as nat));
                }
                self.map.remove(&okey);
                proof {
                    let oldq = old(self).queue@;
                    assert(self.queue@ =~= oldq.skip(1));
                    assert forall|k: int|
                        0 <= k < self.queue@.len() implies self.map@.contains_key(
                        fkey((#[trigger] self.queue@[k]).0 as nat, self.queue@[k].1 as nat),
                    ) by {
                        assert(self.queue@[k] == oldq[k + 1]);
                        assert(oldq[0] != oldq[k + 1]);
                        lemma_fkey_inj_or_diff(oldq[0], oldq[k + 1]);
                    }
                    assert forall|kk: u128| #[trigger]
                        self.map@.contains_key(kk) implies exists|k: int|
                        0 <= k < self.queue@.len() && fkey(
                            (#[trigger] self.queue@[k]).0 as nat,
                            self.queue@[k].1 as nat,
                        ) == kk by {
                        assert(old(self).map@.contains_key(kk));
                        let k0 = choose|k0: int|
                            0 <= k0 < oldq.len() && fkey(
                                (#[trigger] oldq[k0]).0 as nat,
                                oldq[k0].1 as nat,
                            ) == kk;
                        if k0 == 0 {
                            assert(kk == okey);
                            assert(false);
                        } else {
                            assert(self.queue@[k0 - 1] == oldq[k0]);
                        }
                    }
                }
            }
        }
        let ghost mid = *self;
        self.queue.push_back((input_pos, pc));
        self.map.insert(key, true);
        proof {
            assert(self.queue@ =~= mid.queue@.push((input_pos, pc)));
            assert forall|k: int, j: int|
                0 <= k < j < self.queue@.len() implies #[trigger] self.queue@[k]
                != #[trigger] self.queue@[j] by {
                if j == self.queue@.len() - 1 {
                    if self.queue@[k] == (input_pos, pc) {
                        assert(mid.entries().contains((input_pos as nat, pc as nat)));
                        assert(mid.entries().subset_of(
                            old(self).entries().insert((input_pos as nat, pc as nat)),
                        )) by {
                            lemma_entries_after_pop(*old(self), mid);
                        }
                        assert(old(self).entries().contains((input_pos as nat, pc as nat)));
                        assert(false);
                    }
                }
            }
            assert forall|k: int|
                0 <= k < self.queue@.len() implies self.map@.contains_key(
                fkey((#[trigger] self.queue@[k]).0 as nat, self.queue@[k].1 as nat),
            ) by {
                if k < self.queue@.len() - 1 {
                    assert(mid.map@.contains_key(
                        fkey(self.queue@[k].0 as nat, self.queue@[k].1 as nat),
                    ));
                }
            }
            assert forall|kk: u128| #[trigger] self.map@.contains_key(kk) implies exists|k: int|
                0 <= k < self.queue@.len() && fkey(
                    (#[trigger] self.queue@[k]).0 as nat,
                    self.queue@[k].1 as nat,
                ) == kk by {
                if kk == key {
                    let last = self.queue@.len() - 1;
                    assert(fkey((self.queue@[last]).0 as nat, self.queue@[last].1 as nat) == kk);
                } else {
                    assert(mid.map@.contains_key(kk));
                    let k0 = choose|k0: int|
                        0 <= k0 < mid.queue@.len() && fkey(
                            (#[trigger] mid.queue@[k0]).0 as nat,
                            mid.queue@[k0].1 as nat,
                        ) == kk;
                    assert(self.queue@[k0] == mid.queue@[k0]);
                }
            }
            assert(self.entries().contains((input_pos as nat, pc as nat))) by {
                let last = self.queue@.len() - 1;
                assert((#[trigger] self.queue@[last]).0 == input_pos);
            }
            assert forall|c: (nat, nat)| #[trigger]
                self.entries().contains(c) implies old(self).entries().insert(
                (input_pos as nat, pc as nat),
            ).contains(c) by {
                let k = choose|k: int|
                    0 <= k < self.queue@.len() && (#[trigger] self.queue@[k]).0 == c.0
                        && self.queue@[k].1 == c.1;
                if k < self.queue@.len() - 1 {
                    assert(mid.entries().contains(c));
                    lemma_entries_after_pop(*old(self), mid);
                } else {
                    assert(c == (input_pos as nat, pc as nat));
                }
            }
        }
    }

    /// Forgets every recorded pair.
    pub fn clear(&mut self)
        requires
            old(self).wf(),
        ensures
            final(self).wf(),
            forall|c: (nat, nat)| !final(self).entries().contains(c),
    {
        self.map.clear();
        self.queue.clear();
    }

    /// How many pairs are currently retained.
    pub closed spec fn spec_len(&self) -> nat {
        self.queue@.len()
    }

    /// How many pairs are currently retained.
    pub fn len(&self) -> (r: usize)
        ensures
            r == self.spec_len(),
    {
        self.queue.len()
    }
}

/// Either the keys of two distinct queue entries differ, or the entries
/// were equal after all.
pub proof fn lemma_fkey_inj_or_diff(a: (usize, usize), b: (usize, usize))
    requires
        a != b,
    ensures
        fkey(a.0 as nat, a.1 as nat) != fkey(b.0 as nat, b.1 as nat),
{
    if fkey(a.0 as nat, a.1 as nat) == fkey(b.0 as nat, b.1 as nat) {
        lemma_fkey_inj(a.0 as nat, a.1 as nat, b.0 as nat, b.1 as nat);
    }
}

/// Popping the queue only removes entries.
proof fn lemma_entries_after_pop(before: FallbackCache, after: FallbackCache)
    requires
        after.queue@ == before.queue@.skip(1) || after.queue@ == before.queue@,
        before.queue@.len() > 0 || after.queue@ == before.queue@,
    ensures
        after.entries().subset_of(before.entries()),
{
    assert forall|c: (nat, nat)| #[trigger]
        after.entries().contains(c) implies before.entries().contains(c) by {
        let k = choose|k: int|
            0 <= k < after.queue@.len() && (#[trigger] after.queue@[k]).0 == c.0
                && after.queue@[k].1 == c.1;
        if after.queue@ == before.queue@.skip(1) {
            assert(before.queue@[k + 1] == after.queue@[k]);
        } else {
            assert(before.queue@[k] == after.queue@[k]);
        }
    }
}

/// The per-call visited cache: a dense bitmap when the program and input
/// are small enough, a capacity-bounded map otherwise. The size thresholds
/// are the configuration constants above.
#[derive(Debug)]
pub enum Cache {
    Bitmap(BitmapCache),
    Fallback(FallbackCache),
}

impl Cache {
    pub closed spec fn wf(&self) -> bool {
        match self {
            Cache::Bitmap(b) => b.wf(),
            Cache::Fallback(f) => f.wf(),
        }
    }

    /// Whether a pair fits this cache's dimensions: always for the bounded
    /// map, within the allocated rows and columns for the bitmap.
    pub closed spec fn in_range(&self, pos: nat, pc: nat) -> bool {
        match self {
            Cache::Bitmap(b) => pos <= b.spec_input_size() && pc / 64 < b.spec_stride(),
            Cache::Fallback(_) => true,
        }
    }

    /// The recorded pairs.
    pub closed spec fn entries(&self) -> Set<(nat, nat)> {
        match self {
            Cache::Bitmap(b) => Set::new(|c: (nat, nat)| b.has(c.0, c.1)),
            Cache::Fallback(f) => f.entries(),
        }
    }

    /// Picks the representation from the dimensions of one match call.
    pub fn new(program_size: usize, input_size: usize) -> (r: Cache)
        ensures
            r.wf(),
            forall|c: (nat, nat)| !r.entries().contains(c),
            r is Bitmap <==> fits_bitmap(program_size as nat, input_size as nat),
    {
        if program_size <= BITMAP_BIT_LIMIT {
            let stride: usize = if program_size == 0 {
                0
            } else {
                (program_size - 1) / 64 + 1
            };
            proof {
                assert(stride == stride_of(program_size as nat));
                assert(stride <= 4);
            }
            proof {
                assert((input_size as int) * (stride as int) * 8
                    < 0x1_0000_0000_0000_0000_0000_0000_0000_0000) by (nonlinear_arith)
                    requires
                        input_size <= 0xFFFF_FFFF_FFFF_FFFFu64 as int,
                        0 <= stride <= 4,
                {
                }
            }
            let bytes: u128 = (input_size as u128) * (stride as u128) * 8;
            if bytes <= MAX_BITMAP_BYTES as u128 {
                proof {
                    assert((input_size + 1) * (stride as nat) <= usize::MAX) by (nonlinear_arith)
                        requires
                            stride <= 4,
                            input_size * (stride as nat) * 8 <= MAX_BITMAP_BYTES,
                            MAX_BITMAP_BYTES == 16 * 1024 * 1024,
                            input_size >= 0,
                            usize::MAX >= 0xFFFF_FFFF,
                    {
                    }
                }
                Cache::Bitmap(BitmapCache::new(program_size, input_size))
            } else {
                Cache::Fallback(FallbackCache::new(CACHE_CAPACITY))
            }
        } else {
            Cache::Fallback(FallbackCache::new(CACHE_CAPACITY))
        }
    }

    /// Whether the pair was recorded (and survived any eviction).
    pub fn contains(&self, input_pos: usize, pc: usize) -> (r: bool)
        requires
            self.wf(),
        ensures
            r == self.entries().contains((input_pos as nat, pc as nat)),
    {
        match self {
            Cache::Bitmap(cache) => cache.contains(input_pos, pc),
            Cache::Fallback(cache) => cache.contains(input_pos, pc),
        }
    }

    /// Records the pair. The bitmap drops out-of-range pairs; the bounded
    /// map may evict an old pair. An in-range pair is recorded; nothing is
    /// recorded that was not inserted.
    pub fn insert(&mut self, input_pos: usize, pc: usize)
        requires
            old(self).wf(),
        ensures
            final(self).wf(),
            final(self).entries().subset_of(
                old(self).entries().insert((input_pos as nat, pc as nat)),
            ),
            old(self).in_range(input_pos as nat, pc as nat) ==> final(self).entries().contains(
                (input_pos as nat, pc as nat),
            ),
            forall|p: nat, q: nat| final(self).in_range(p, q) == old(self).in_range(p, q),
    {
        match self {
            Cache::Bitmap(cache) => {
                cache.insert(input_pos, pc);
                proof {
                    assert forall|c: (nat, nat)| #[trigger]
                        final(self).entries().contains(c) implies old(self).entries().insert(
                        (input_pos as nat, pc as nat),
                    ).contains(c) by {}
                }
            },
            Cache::Fallback(cache) => {
                cache.insert(input_pos, pc);
            },
        }
    }
}

} // verus!
