//! The paged Bloom filter: each key selects one page and sets or tests a few bits in it.
use vstd::prelude::*;
use vstd::arithmetic::power2::{pow2, lemma2_to64, lemma_pow2_adds, lemma_pow2_pos};
use vstd::bits::{lemma_usize_shl_is_mul, lemma_u32_shl_is_mul, lemma_u32_low_bits_mask_is_mod, low_bits_mask};
use crate::hash::{hash128, hash_spec};

verus! {

/// Left rotation of a 32-bit word, for `0 < k < 32`.
pub open spec fn rotl32(x: u32, k: u32) -> u32 {
    (x << k) | (x >> (32 - k) as u32)
}

/// The `i`-th 32-bit word (`0 <= i < 4`) of the key's hash: low then high half of each 64-bit word.
pub open spec fn code_word(key: Seq<u8>, i: int) -> u32 {
    let h = hash_spec(key);
    let q = if i < 2 {
        h.0
    } else {
        h.1
    };
    if i % 2 == 0 {
        q as u32
    } else {
        (q >> 32u64) as u32
    }
}

/// The page selector of a key.
pub open spec fn page_code(key: Seq<u8>) -> u32 {
    rotl32(code_word(key, 0), 8) ^ rotl32(code_word(key, 1), 6) ^ rotl32(code_word(key, 2), 4)
        ^ rotl32(code_word(key, 3), 2)
}

/// The `i`-th 16-bit sub-index (`0 <= i < 8`) of a key: low then high half of each 32-bit word.
pub open spec fn sub_index(key: Seq<u8>, i: int) -> u16 {
    let w = code_word(key, i / 2);
    if i % 2 == 0 {
        w as u16
    } else {
        (w >> 16u32) as u16
    }
}

fn rot(x: u32, k: u32) -> (r: u32)
    requires
        0 < k < 32,
    ensures
        r == rotl32(x, k),
{
    (x << k) | (x >> (32 - k))
}

/// Hashes a key into its page selector and its eight sub-indices.
fn page_hash(key: &[u8]) -> (r: (u32, [u16; 8]))
    ensures
        r.0 == page_code(key@),
        forall|i: int| 0 <= i < 8 ==> #[trigger] r.1[i] == sub_index(key@, i),
{
    let code = hash128(key);
    let w0 = code[0] as u32;
    let w1 = (code[0] >> 32) as u32;
    let w2 = code[1] as u32;
    let w3 = (code[1] >> 32) as u32;
    let page = rot(w0, 8) ^ rot(w1, 6) ^ rot(w2, 4) ^ rot(w3, 2);
    let subs = [
        w0 as u16,
        (w0 >> 16) as u16,
        w1 as u16,
        (w1 >> 16) as u16,
        w2 as u16,
        (w2 >> 16) as u16,
        w3 as u16,
        (w3 >> 16) as u16,
    ];
    assert(forall|i: int| 0 <= i < 8 ==> #[trigger] subs[i] == sub_index(key@, i)) by {
        assert(subs[0] == sub_index(key@, 0));
        assert(subs[1] == sub_index(key@, 1));
        assert(subs[2] == sub_index(key@, 2));
        assert(subs[3] == sub_index(key@, 3));
        assert(subs[4] == sub_index(key@, 4));
        assert(subs[5] == sub_index(key@, 5));
        assert(subs[6] == sub_index(key@, 6));
        assert(subs[7] == sub_index(key@, 7));
    }
    (page, subs)
}


/// Why a filter could not be built.
#[derive(Clone, Copy, Debug, PartialEq, Eq, Structural)]
pub enum PbfError {
    /// `way`, `page_level` or `page_num` is out of its range.
    Config,
    /// The page count does not fit in 32 bits, or the buffer in memory.
    TooLarge,
    /// A recovered buffer is empty or not a whole number of pages.
    BadData,
}

/// Whether bit `k` (`k < 8`) of byte `b` is set.
pub open spec fn bit_is_set(b: u8, k: u8) -> bool {
    (b >> k) & 1u8 == 1u8
}

/// The smallest page level allowed with `way` probes.
pub open spec fn min_page_level(way: u8) -> int {
    8int - 8int / (way as int)
}

/// Whether `way` and `page_level` are a valid geometry.
pub open spec fn geometry_ok(way: u8, page_level: u8) -> bool {
    4 <= way <= 8 && min_page_level(way) <= page_level <= 13
}

/// The abstract state of a filter.
pub struct FilterModel {
    pub way: u8,
    pub page_level: u8,
    pub page_num: u32,
    pub unique_cnt: usize,
    pub data: Seq<u8>,
}

/// The counter after one more accepted key (it wraps at the top of its range).
pub open spec fn next_count(n: usize) -> usize {
    if n == usize::MAX {
        0
    } else {
        (n + 1) as usize
    }
}

impl FilterModel {
    /// Bytes in one page.
    pub open spec fn page_size(self) -> nat {
        pow2(self.page_level as nat)
    }

    /// A valid geometry, at least one page, and a buffer of exactly `page_num` pages.
    pub open spec fn wf(self) -> bool {
        &&& geometry_ok(self.way, self.page_level)
        &&& self.page_num >= 1
        &&& self.data.len() == self.page_num * self.page_size()
    }

    /// Byte offset of the page selected by `page`.
    pub open spec fn page_start(self, page: u32) -> nat {
        (page % self.page_num) as nat * self.page_size()
    }

    /// The bit within a page that a sub-index addresses.
    pub open spec fn in_page_bit(self, sub: u16) -> nat {
        (sub as nat) % (8 * self.page_size())
    }

    /// The byte that probe `i` of `key` lands on.
    pub open spec fn probe_byte(self, key: Seq<u8>, i: int) -> int {
        (self.page_start(page_code(key)) + self.in_page_bit(sub_index(key, i)) / 8) as int
    }

    /// The bit within that byte.
    pub open spec fn probe_bit(self, key: Seq<u8>, i: int) -> u8 {
        (self.in_page_bit(sub_index(key, i)) % 8) as u8
    }

    /// Whether probe `i` of `key` finds its bit set.
    pub open spec fn probe_set(self, key: Seq<u8>, i: int) -> bool {
        bit_is_set(self.data[self.probe_byte(key, i)], self.probe_bit(key, i))
    }

    /// Whether every probe of `key` finds its bit set.
    pub open spec fn contains(self, key: Seq<u8>) -> bool {
        forall|i: int| 0 <= i < self.way ==> #[trigger] self.probe_set(key, i)
    }

    /// The bits that the first `n` probes of `key` set in byte `j`.
    pub open spec fn probe_mask(self, key: Seq<u8>, j: int, n: nat) -> u8
        decreases n,
    {
        if n == 0 {
            0u8
        } else {
            let m = self.probe_mask(key, j, (n - 1) as nat);
            if self.probe_byte(key, n - 1) == j {
                m | (1u8 << self.probe_bit(key, n - 1))
            } else {
                m
            }
        }
    }

    /// The state after `set(key)`: the key's probe bits set, the counter bumped if one was clear.
    pub open spec fn insert(self, key: Seq<u8>) -> FilterModel {
        FilterModel {
            data: Seq::new(
                self.data.len(),
                |j: int| self.data[j] | self.probe_mask(key, j, self.way as nat),
            ),
            unique_cnt: if self.contains(key) {
                self.unique_cnt
            } else {
                next_count(self.unique_cnt)
            },
            ..self
        }
    }

    /// The state after `clear()`: every byte zero, all else kept.
    pub open spec fn cleared(self) -> FilterModel {
        FilterModel { data: Seq::new(self.data.len(), |j: int| 0u8), ..self }
    }

    /// A fresh filter of the given geometry.
    pub open spec fn empty(way: u8, page_level: u8, page_num: u32) -> FilterModel {
        FilterModel {
            way,
            page_level,
            page_num,
            unique_cnt: 0,
            data: Seq::new((page_num * pow2(page_level as nat)) as nat, |j: int| 0u8),
        }
    }
}

/// What `new` yields for a geometry.
pub open spec fn new_spec(way: u8, page_level: u8, page_num: u32) -> Result<FilterModel, PbfError> {
    if !geometry_ok(way, page_level) || page_num == 0 {
        Err(PbfError::Config)
    } else if page_num * pow2(page_level as nat) > usize::MAX {
        Err(PbfError::TooLarge)
    } else {
        Ok(FilterModel::empty(way, page_level, page_num))
    }
}

/// What `recover` yields for a geometry, a buffer and a counter.
pub open spec fn recover_spec(way: u8, page_level: u8, data: Seq<u8>, unique_cnt: usize) -> Result<
    FilterModel,
    PbfError,
> {
    let page_size = pow2(page_level as nat);
    if !geometry_ok(way, page_level) {
        Err(PbfError::Config)
    } else if data.len() == 0 || data.len() % page_size != 0 {
        Err(PbfError::BadData)
    } else if data.len() / page_size > u32::MAX {
        Err(PbfError::TooLarge)
    } else {
        Ok(
            FilterModel {
                way,
                page_level,
                page_num: (data.len() / page_size) as u32,
                unique_cnt,
                data,
            },
        )
    }
}

/// A paged Bloom filter.
pub struct PageBloomFilter {
    way: u8,
    page_level: u8,
    page_num: u32,
    unique_cnt: usize,
    data: Vec<u8>,
}

impl View for PageBloomFilter {
    type V = FilterModel;

    closed spec fn view(&self) -> FilterModel {
        FilterModel {
            way: self.way,
            page_level: self.page_level,
            page_num: self.page_num,
            unique_cnt: self.unique_cnt,
            data: self.data@,
        }
    }
}

/// `1 << level` is `2^level` for a page level.
proof fn lemma_page_size(level: u8)
    requires
        level <= 13,
    ensures
        (1usize << level) == pow2(level as nat),
        pow2(level as nat) <= 8192,
        8 * pow2(level as nat) == pow2(level as nat + 3),
        pow2(level as nat) > 0,
{
    lemma2_to64();
    lemma_pow2_pos(level as nat);
    lemma_pow2_adds(level as nat, 3);
    vstd::arithmetic::power2::lemma_pow2_strictly_increases(level as nat, 14);
    lemma_usize_shl_is_mul(1, level as usize);
}

impl PageBloomFilter {
    #[verifier::type_invariant]
    spec fn inv(self) -> bool {
        self@.wf()
    }

    /// Builds an empty filter of `page_num` pages of `2^page_level` bytes, probing `way` bits per key.
    pub fn new(way: u8, page_level: u8, page_num: u32) -> (r: Result<PageBloomFilter, PbfError>)
        ensures
            match r {
                Ok(f) => new_spec(way, page_level, page_num) == Ok::<FilterModel, PbfError>(f@)
                    && f@.wf(),
                Err(e) => new_spec(way, page_level, page_num) == Err::<FilterModel, PbfError>(e),
            },
    {
        if way < 4 || way > 8 || page_level < 8 - 8 / way || page_level > 13 || page_num == 0 {
            return Err(PbfError::Config);
        }
        proof {
            lemma_page_size(page_level);
        }
        let page_size: usize = 1usize << page_level;
        if page_num as usize > usize::MAX / page_size {
            proof {
                assert(page_num * pow2(page_level as nat) > usize::MAX) by (nonlinear_arith)
                    requires
                        page_num as int > usize::MAX as int / page_size as int,
                        page_size == pow2(page_level as nat),
                        page_size > 0,
                ;
            }
            return Err(PbfError::TooLarge);
        }
        proof {
            assert(page_num * page_size <= usize::MAX) by (nonlinear_arith)
                requires
                    page_num as int <= usize::MAX as int / page_size as int,
                    page_size > 0,
            ;
        }
        let data: Vec<u8> = vec![0u8; page_num as usize * page_size];
        let f = PageBloomFilter { way, page_level, page_num, unique_cnt: 0, data };
        assert(f@.data =~= FilterModel::empty(way, page_level, page_num).data);
        Ok(f)
    }
}

proof fn lemma_bit_or(a: u8, b: u8, k: u8)
    by (bit_vector)
    requires
        k < 8,
    ensures
        bit_is_set(a | b, k) <==> (bit_is_set(a, k) || bit_is_set(b, k)),
{
}

proof fn lemma_bit_single(s: u8, k: u8)
    by (bit_vector)
    requires
        s < 8,
        k < 8,
    ensures
        bit_is_set(1u8 << s, k) <==> s == k,
{
}

proof fn lemma_bit_zero(k: u8)
    by (bit_vector)
    requires
        k < 8,
    ensures
        !bit_is_set(0u8, k),
{
}

proof fn lemma_bit_test(b: u8, s: u8)
    by (bit_vector)
    requires
        s < 8,
    ensures
        (b & (1u8 << s) != 0u8) <==> bit_is_set(b, s),
{
}

proof fn lemma_or_zero(a: u8)
    by (bit_vector)
    ensures
        a | 0u8 == a,
{
}

proof fn lemma_or_assoc(a: u8, b: u8, c: u8)
    by (bit_vector)
    ensures
        (a | b) | c == a | (b | c),
{
}

impl FilterModel {
    /// Bit `k` of the probe mask of byte `j` is set exactly when one of the first `n` probes lands on it.
    pub proof fn lemma_probe_mask_bit(self, key: Seq<u8>, j: int, n: nat, k: u8)
        requires
            k < 8,
        ensures
            bit_is_set(self.probe_mask(key, j, n), k) <==> exists|q: int|
                0 <= q < n && self.probe_byte(key, q) == j && #[trigger] self.probe_bit(key, q) == k,
        decreases n,
    {
        if n == 0 {
            lemma_bit_zero(k);
        } else {
            let m = self.probe_mask(key, j, (n - 1) as nat);
            self.lemma_probe_mask_bit(key, j, (n - 1) as nat, k);
            let s = self.probe_bit(key, n - 1);
            if self.probe_byte(key, n - 1) == j {
                lemma_bit_or(m, 1u8 << s, k);
                lemma_bit_single(s, k);
            }
            if bit_is_set(self.probe_mask(key, j, n), k) {
                if !bit_is_set(m, k) {
                    assert(self.probe_byte(key, n - 1) == j && self.probe_bit(key, n - 1) == k);
                }
            } else {
                assert forall|q: int|
                    0 <= q < n && self.probe_byte(key, q) == j implies #[trigger] self.probe_bit(
                    key,
                    q,
                ) != k by {
                    if q < n - 1 {
                    }
                }
            }
        }
    }
}

impl PageBloomFilter {
    /// Byte offset of the page that `page` selects.
    fn page_offset(&self, page: u32) -> (r: usize)
        ensures
            r == self@.page_start(page),
            r + self@.page_size() <= self@.data.len(),
    {
        proof {
            use_type_invariant(self);
            lemma_page_size(self.page_level);
        }
        let p = page % self.page_num;
        let ps: usize = 1usize << self.page_level;
        proof {
            let n = self.page_num as int;
            assert(p * ps + ps <= n * ps) by (nonlinear_arith)
                requires
                    p < n,
                    ps > 0,
            ;
            assert(p * ps + ps <= self.data.len());
        }
        p as usize * ps
    }

    /// The byte and the bit mask that sub-index `sub` addresses in the page at `off`.
    fn probe_at(&self, off: usize, sub: u16) -> (r: (usize, u8))
        requires
            off + self@.page_size() <= self@.data.len(),
        ensures
            r.0 == off + self@.in_page_bit(sub) / 8,
            r.1 == 1u8 << ((self@.in_page_bit(sub) % 8) as u8),
            r.0 < self@.data.len(),
    {
        proof {
            use_type_invariant(self);
            lemma_page_size(self.page_level);
            lemma2_to64();
        }
        let sh: u32 = self.page_level as u32 + 3;
        proof {
            vstd::arithmetic::power2::lemma_pow2_strictly_increases(sh as nat, 32);
            lemma_u32_shl_is_mul(1, sh);
        }
        let mask: u32 = (1u32 << sh) - 1;
        let idx: u32 = (sub as u32) & mask;
        proof {
            assert(mask == low_bits_mask(sh as nat) as u32);
            lemma_u32_low_bits_mask_is_mod(sub as u32, sh as nat);
            assert(idx == self@.in_page_bit(sub));
        }
        proof {
            assert(idx >> 3 == idx / 8 && idx & 7 == idx % 8) by (bit_vector);
            assert(idx < 8 * self@.page_size());
            assert(idx / 8 < self@.page_size());
            assert(off + idx / 8 < self.data.len());
        }
        let byte = off + (idx >> 3) as usize;
        let bit = 1u8 << ((idx & 7) as u8);
        (byte, bit)
    }
}

/// The operations of a Bloom filter.
pub trait BloomFilter {
    fn get_way(&self) -> u8;

    fn get_page_level(&self) -> u8;

    fn get_page_num(&self) -> u32;

    fn get_unique_cnt(&self) -> usize;

    fn get_data(&self) -> &Vec<u8>;

    fn clear(&mut self);

    fn valid(&self) -> bool;

    fn set(&mut self, key: &[u8]) -> bool;

    fn test(&self, key: &[u8]) -> bool;
}

impl BloomFilter for PageBloomFilter {
    /// The number of bits probed per key.
    fn get_way(&self) -> (r: u8)
        ensures
            r == self@.way,
    {
        self.way
    }

    /// The page size exponent: a page holds `2^page_level` bytes.
    fn get_page_level(&self) -> (r: u8)
        ensures
            r == self@.page_level,
    {
        self.page_level
    }

    /// The number of pages.
    fn get_page_num(&self) -> (r: u32)
        ensures
            r == self@.page_num,
    {
        self.page_num
    }

    /// The number of keys that `set` accepted as new.
    fn get_unique_cnt(&self) -> (r: usize)
        ensures
            r == self@.unique_cnt,
    {
        self.unique_cnt
    }

    /// The raw buffer, `page_num << page_level` bytes.
    fn get_data(&self) -> (r: &Vec<u8>)
        ensures
            r@ == self@.data,
    {
        &self.data
    }

    /// Zeroes the buffer; the counter is kept.
    fn clear(&mut self)
        ensures
            final(self)@ == old(self)@.cleared(),
            final(self)@.wf(),
    {
        proof {
            use_type_invariant(&*self);
        }
        let n = self.data.len();
        let mut i: usize = 0;
        while i < n
            invariant
                n == self.data.len(),
                n == old(self).data.len(),
                self.way == old(self).way,
                self.page_level == old(self).page_level,
                self.page_num == old(self).page_num,
                self.unique_cnt == old(self).unique_cnt,
                old(self)@.wf(),
                i <= n,
                forall|j: int| 0 <= j < i ==> self.data@[j] == 0u8,
            decreases n - i,
        {
            self.data[i] = 0u8;
            i += 1;
        }
        assert(self@.data =~= old(self)@.cleared().data);
    }

    /// Whether the buffer is non-empty, which holds of every filter.
    fn valid(&self) -> (r: bool)
        ensures
            r == (self@.data.len() != 0),
            r,
            self@.wf(),
    {
        proof {
            use_type_invariant(self);
            lemma_page_size(self.page_level);
            assert(self.page_num * self@.page_size() > 0) by (nonlinear_arith)
                requires
                    self.page_num >= 1,
                    self@.page_size() > 0,
            ;
        }
        self.data.len() != 0
    }

    /// Sets the key's probe bits; returns whether one of them was clear, and then counts the
    /// key (the counter wraps at `usize::MAX`).
    fn set(&mut self, key: &[u8]) -> (r: bool)
        ensures
            r == !old(self)@.contains(key@),
            final(self)@ == old(self)@.insert(key@),
            final(self)@.wf(),
    {
        proof {
            use_type_invariant(&*self);
        }
        let ghost m = self@;
        let (page, subs) = page_hash(key);
        let off = self.page_offset(page);
        let mut present = true;
        let mut i: u8 = 0;
        assert forall|j: int| 0 <= j < m.data.len() implies #[trigger] self.data@[j] == m.data[j]
            | m.probe_mask(key@, j, 0) by {
            lemma_or_zero(m.data[j]);
        }
        while i < self.way
            invariant
                m.wf(),
                self.way == m.way,
                self.page_level == m.page_level,
                self.page_num == m.page_num,
                self.unique_cnt == m.unique_cnt,
                self.data@.len() == m.data.len(),
                i <= m.way,
                page == page_code(key@),
                off == m.page_start(page),
                off + m.page_size() <= m.data.len(),
                forall|k: int| 0 <= k < 8 ==> #[trigger] subs[k] == sub_index(key@, k),
                forall|j: int|
                    0 <= j < m.data.len() ==> #[trigger] self.data@[j] == m.data[j] | m.probe_mask(
                        key@,
                        j,
                        i as nat,
                    ),
                present == (forall|q: int| 0 <= q < i ==> #[trigger] m.probe_set(key@, q)),
            decreases m.way - i,
        {
            let (pos, bit) = self.probe_at(off, subs[i as usize]);
            let cur = self.data[pos];
            let ghost q = i as int;
            let ghost b = m.probe_bit(key@, q);
            let ghost pm = m.probe_mask(key@, pos as int, i as nat);
            proof {
                assert(pos == m.probe_byte(key@, q));
                assert(b < 8);
                lemma_bit_test(cur, b);
                lemma_bit_or(m.data[pos as int], pm, b);
                m.lemma_probe_mask_bit(key@, pos as int, i as nat, b);
                if present && bit_is_set(pm, b) {
                    let q2 = choose|q2: int|
                        0 <= q2 < i && m.probe_byte(key@, q2) == pos && #[trigger] m.probe_bit(
                            key@,
                            q2,
                        ) == b;
                    assert(m.probe_set(key@, q2));
                }
                assert((present && (cur & bit != 0u8)) == (present && m.probe_set(key@, q)));
            }
            present = present && (cur & bit != 0u8);
            self.data[pos] = cur | bit;
            proof {
                lemma_or_assoc(m.data[pos as int], pm, bit);
            }
            i += 1;
        }
        assert(self@.data =~= m.insert(key@).data);
        if present {
            return false;
        }
        self.unique_cnt = self.unique_cnt.wrapping_add(1);
        true
    }

    /// Whether every probe bit of the key is set: `false` means the key was never set.
    fn test(&self, key: &[u8]) -> (r: bool)
        ensures
            r == self@.contains(key@),
            self@.wf(),
    {
        proof {
            use_type_invariant(self);
        }
        let (page, subs) = page_hash(key);
        let off = self.page_offset(page);
        let mut i: u8 = 0;
        while i < self.way
            invariant
                self@.wf(),
                i <= self.way,
                page == page_code(key@),
                off == self@.page_start(page),
                off + self@.page_size() <= self@.data.len(),
                forall|k: int| 0 <= k < 8 ==> #[trigger] subs[k] == sub_index(key@, k),
                forall|q: int| 0 <= q < i ==> #[trigger] self@.probe_set(key@, q),
            decreases self.way - i,
        {
            let (pos, bit) = self.probe_at(off, subs[i as usize]);
            proof {
                assert(pos == self@.probe_byte(key@, i as int));
                lemma_bit_test(self.data@[pos as int], self@.probe_bit(key@, i as int));
            }
            if self.data[pos] & bit == 0 {
                assert(!self@.probe_set(key@, i as int));
                return false;
            }
            i += 1;
        }
        true
    }
}

impl PageBloomFilter {
    /// Rebuilds a filter from a buffer that `get_data` handed out and the counter it had.
    pub fn recover(way: u8, page_level: u8, data: &Vec<u8>, unique_cnt: usize) -> (r: Result<
        PageBloomFilter,
        PbfError,
    >)
        ensures
            match r {
                Ok(f) => recover_spec(way, page_level, data@, unique_cnt) == Ok::<
                    FilterModel,
                    PbfError,
                >(f@) && f@.wf(),
                Err(e) => recover_spec(way, page_level, data@, unique_cnt) == Err::<
                    FilterModel,
                    PbfError,
                >(e),
            },
    {
        if way < 4 || way > 8 || page_level < 8 - 8 / way || page_level > 13 {
            return Err(PbfError::Config);
        }
        proof {
            lemma_page_size(page_level);
        }
        let page_size: usize = 1usize << page_level;
        if data.len() == 0 || data.len() % page_size != 0 {
            return Err(PbfError::BadData);
        }
        let page_num = data.len() / page_size;
        if page_num > 0xffff_ffff {
            return Err(PbfError::TooLarge);
        }
        let mut copy: Vec<u8> = Vec::new();
        let mut i: usize = 0;
        while i < data.len()
            invariant
                i <= data.len(),
                copy@ =~= data@.subrange(0, i as int),
            decreases data.len() - i,
        {
            copy.push(data[i]);
            i += 1;
        }
        proof {
            assert(copy@ =~= data@);
            vstd::arithmetic::div_mod::lemma_fundamental_div_mod(
                data.len() as int,
                page_size as int,
            );
            assert(data.len() == page_num * page_size) by (nonlinear_arith)
                requires
                    data.len() as int == page_size * (data.len() as int / page_size as int) + (
                    data.len() as int) % (page_size as int),
                    (data.len() as int) % (page_size as int) == 0,
                    page_num == data.len() as int / page_size as int,
            ;
            assert(page_num >= 1) by (nonlinear_arith)
                requires
                    data.len() == page_num * page_size,
                    data.len() > 0,
            ;
        }
        Ok(PageBloomFilter { way, page_level, page_num: page_num as u32, unique_cnt, data: copy })
    }
}

/// Builds an empty filter of the given geometry.
pub fn new_pbf(way: u8, page_level: u8, page_num: u32) -> (r: Result<PageBloomFilter, PbfError>)
    ensures
        match r {
            Ok(f) => new_spec(way, page_level, page_num) == Ok::<FilterModel, PbfError>(f@)
                && f@.wf(),
            Err(e) => new_spec(way, page_level, page_num) == Err::<FilterModel, PbfError>(e),
        },
{
    PageBloomFilter::new(way, page_level, page_num)
}

/// Rebuilds a filter from its geometry, its buffer and its counter.
pub fn recover_pbf(way: u8, page_level: u8, data: &Vec<u8>, unique_cnt: usize) -> (r: Result<
    PageBloomFilter,
    PbfError,
>)
    ensures
        match r {
            Ok(f) => recover_spec(way, page_level, data@, unique_cnt) == Ok::<FilterModel, PbfError>(
                f@,
            ) && f@.wf(),
            Err(e) => recover_spec(way, page_level, data@, unique_cnt) == Err::<
                FilterModel,
                PbfError,
            >(e),
        },
{
    PageBloomFilter::recover(way, page_level, data, unique_cnt)
}

/// `way` brought into `4..=8`.
pub open spec fn clamp_way(way: u8) -> u8 {
    if way < 4 {
        4
    } else if way > 8 {
        8
    } else {
        way
    }
}

/// The smallest level `L` from `level` up to 11 with `total < 4 * 2^L`; 12 when there is none.
pub open spec fn first_fit_level(total: nat, level: nat) -> nat
    decreases 12 - level,
{
    if level >= 12 {
        12
    } else if total < pow2(level + 2) {
        level
    } else {
        first_fit_level(total, level + 1)
    }
}

/// The page level chosen for a budget of `total` whole bytes (a fraction of a byte more does
/// not change it), raised to the floor that `way` sets.
pub open spec fn sized_level(way: u8, total: nat) -> u8 {
    let level = first_fit_level(total, 6);
    if level < min_page_level(way) {
        min_page_level(way) as u8
    } else {
        level as u8
    }
}

/// The number of pages of `page_size` bytes that hold a budget of `total` whole bytes, plus a
/// fraction of a byte when `fraction` holds: the budget divided by the page size, rounded up.
/// A budget is positive, so an empty one still gets a page.
pub open spec fn pages_for(total: nat, fraction: bool, page_size: nat) -> nat {
    let pages = if fraction || total % page_size != 0 {
        total / page_size + 1
    } else {
        total / page_size
    };
    if pages == 0 {
        1
    } else {
        pages
    }
}

/// What `new_sized_pbf` yields for a probe count estimate and a byte budget.
pub open spec fn sized_spec(way_hint: u8, total_bytes: usize, fraction: bool) -> Result<
    FilterModel,
    PbfError,
> {
    let way = clamp_way(way_hint);
    let level = sized_level(way, total_bytes as nat);
    let pages = pages_for(total_bytes as nat, fraction, pow2(level as nat));
    if pages > u32::MAX {
        Err(PbfError::TooLarge)
    } else {
        new_spec(way, level, pages as u32)
    }
}

/// Builds an empty filter for a budget of `total_bytes` bytes of bits, plus a fraction of a byte
/// when `fraction` holds, with about `way_hint` probes per key.
pub fn new_sized_pbf(way_hint: u8, total_bytes: usize, fraction: bool) -> (r: Result<
    PageBloomFilter,
    PbfError,
>)
    ensures
        match r {
            Ok(f) => sized_spec(way_hint, total_bytes, fraction) == Ok::<FilterModel, PbfError>(f@)
                && f@.wf(),
            Err(e) => sized_spec(way_hint, total_bytes, fraction) == Err::<FilterModel, PbfError>(
                e,
            ),
        },
{
    let way: u8 = if way_hint < 4 {
        4
    } else if way_hint > 8 {
        8
    } else {
        way_hint
    };
    proof {
        lemma2_to64();
        vstd::arithmetic::power2::lemma_pow2_strictly_increases(13, 14);
    }
    let mut level: u8 = 6;
    while level < 12 && total_bytes >= (1usize << (level + 2))
        invariant
            6 <= level <= 12,
            first_fit_level(total_bytes as nat, 6) == first_fit_level(
                total_bytes as nat,
                level as nat,
            ),
        decreases 12 - level,
    {
        proof {
            lemma_page_size((level + 2) as u8);
            lemma_usize_shl_is_mul(1, (level + 2) as usize);
        }
        level += 1;
    }
    proof {
        if level < 12 {
            lemma_page_size((level + 2) as u8);
            lemma_usize_shl_is_mul(1, (level + 2) as usize);
        }
    }
    let floor: u8 = 8 - 8 / way;
    if level < floor {
        level = floor;
    }
    proof {
        lemma_page_size(level);
    }
    let page_size: usize = 1usize << level;
    proof {
        if total_bytes > 0 {
            vstd::arithmetic::div_mod::lemma_div_decreases(total_bytes as int, page_size as int);
        }
    }
    let mut pages: usize = total_bytes / page_size;
    if fraction || total_bytes % page_size != 0 {
        pages += 1;
    }
    if pages == 0 {
        pages = 1;
    }
    if pages > 0xffff_ffff {
        return Err(PbfError::TooLarge);
    }
    PageBloomFilter::new(way, level, pages as u32)
}

proof fn lemma_or_absorb(a: u8, b: u8)
    by (bit_vector)
    ensures
        (a | b) | b == a | b,
{
}

impl FilterModel {
    /// The probe mask depends on the geometry alone, not on the buffer or the counter.
    pub proof fn lemma_probe_mask_geometry(self, other: FilterModel, key: Seq<u8>, j: int, n: nat)
        requires
            self.way == other.way,
            self.page_level == other.page_level,
            self.page_num == other.page_num,
        ensures
            self.probe_mask(key, j, n) == other.probe_mask(key, j, n),
        decreases n,
    {
        if n > 0 {
            self.lemma_probe_mask_geometry(other, key, j, (n - 1) as nat);
        }
    }

    /// Every probe of a key lands inside the buffer, on one of a byte's eight bits.
    pub proof fn lemma_probe_in_range(self, key: Seq<u8>, i: int)
        requires
            self.wf(),
        ensures
            0 <= self.probe_byte(key, i) < self.data.len(),
            self.probe_bit(key, i) < 8,
    {
        lemma_page_size(self.page_level);
        let p = page_code(key) % self.page_num;
        let ps = self.page_size();
        let n = self.page_num as int;
        assert(p * ps + ps <= n * ps) by (nonlinear_arith)
            requires
                p < n,
                ps > 0,
        ;
        assert(self.in_page_bit(sub_index(key, i)) / 8 < ps);
    }

    /// A key that was set tests present.
    pub proof fn lemma_set_then_test(self, key: Seq<u8>)
        requires
            self.wf(),
        ensures
            self.insert(key).wf(),
            self.insert(key).contains(key),
    {
        let g = self.insert(key);
        assert forall|i: int| 0 <= i < self.way implies #[trigger] g.probe_set(key, i) by {
            self.lemma_probe_in_range(key, i);
            let j = self.probe_byte(key, i);
            let b = self.probe_bit(key, i);
            let pm = self.probe_mask(key, j, self.way as nat);
            self.lemma_probe_mask_bit(key, j, self.way as nat, b);
            lemma_bit_or(self.data[j], pm, b);
        }
    }

    /// Setting a key keeps every key that tested present still present.
    pub proof fn lemma_set_keeps_present(self, key: Seq<u8>, other: Seq<u8>)
        requires
            self.wf(),
            self.contains(other),
        ensures
            self.insert(key).contains(other),
    {
        let g = self.insert(key);
        assert forall|i: int| 0 <= i < self.way implies #[trigger] g.probe_set(other, i) by {
            self.lemma_probe_in_range(other, i);
            let j = self.probe_byte(other, i);
            let b = self.probe_bit(other, i);
            assert(self.probe_set(other, i));
            lemma_bit_or(self.data[j], self.probe_mask(key, j, self.way as nat), b);
        }
    }

    /// Setting a key counts it when one of its bits was clear; setting it again finds it
    /// present and changes nothing.
    pub proof fn lemma_set_twice(self, key: Seq<u8>)
        requires
            self.wf(),
        ensures
            !self.contains(key) ==> self.insert(key).unique_cnt == next_count(self.unique_cnt),
            !self.contains(key) && self.unique_cnt < usize::MAX ==> self.insert(key).unique_cnt
                == self.unique_cnt + 1,
            self.insert(key).contains(key),
            self.insert(key).insert(key) == self.insert(key),
    {
        self.lemma_set_then_test(key);
        let g = self.insert(key);
        assert forall|j: int| 0 <= j < g.data.len() implies #[trigger] g.insert(key).data[j]
            == g.data[j] by {
            g.lemma_probe_mask_geometry(self, key, j, self.way as nat);
            lemma_or_absorb(self.data[j], self.probe_mask(key, j, self.way as nat));
        }
        assert(g.insert(key).data =~= g.data);
    }

    /// Recovering a filter from its own geometry, buffer and counter gives the same filter.
    pub proof fn lemma_recover_round_trip(self)
        requires
            self.wf(),
        ensures
            recover_spec(self.way, self.page_level, self.data, self.unique_cnt) == Ok::<
                FilterModel,
                PbfError,
            >(self),
    {
        lemma_page_size(self.page_level);
        let ps = self.page_size() as int;
        let n = self.page_num as int;
        vstd::arithmetic::div_mod::lemma_mod_multiples_basic(n, ps);
        vstd::arithmetic::div_mod::lemma_div_multiples_vanish(n, ps);
        assert(ps * n == n * ps) by (nonlinear_arith);
        assert((self.data.len() as int) % ps == 0);
        assert((self.data.len() as int) / ps == n);
        assert(n * ps > 0) by (nonlinear_arith)
            requires
                n >= 1,
                ps > 0,
        ;
    }
}

/// A probe count outside `4..=8`, a page level under its floor or over 13, or no pages at all
/// is refused as a configuration error, by `new` and, for the geometry, by `recover`.
pub proof fn lemma_bad_geometry_rejected(way: u8, page_level: u8, page_num: u32, data: Seq<u8>, unique_cnt: usize)
    requires
        way < 4 || way > 8 || page_level < min_page_level(way) || page_level > 13 || page_num == 0,
    ensures
        new_spec(way, page_level, page_num) == Err::<FilterModel, PbfError>(PbfError::Config),
        !geometry_ok(way, page_level) ==> recover_spec(way, page_level, data, unique_cnt) == Err::<
            FilterModel,
            PbfError,
        >(PbfError::Config),
{
}

impl FilterModel {
    /// On a filter whose buffer is all zero (fresh, or cleared), no key tests present, so
    /// setting any key reports it as new and adds one to the counter.
    pub proof fn lemma_set_on_empty_counts(self, key: Seq<u8>)
        requires
            self.wf(),
            forall|j: int| 0 <= j < self.data.len() ==> self.data[j] == 0u8,
        ensures
            !self.contains(key),
            self.insert(key).unique_cnt == next_count(self.unique_cnt),
            self.unique_cnt < usize::MAX ==> self.insert(key).unique_cnt == self.unique_cnt + 1,
    {
        self.lemma_probe_in_range(key, 0);
        lemma_bit_zero(self.probe_bit(key, 0));
        assert(!self.probe_set(key, 0));
    }
}

proof fn lemma_first_fit_range(total: nat, level: nat)
    requires
        level <= 12,
    ensures
        level <= first_fit_level(total, level) <= 12,
    decreases 12 - level,
{
    if level < 12 && total >= pow2(level + 2) {
        lemma_first_fit_range(total, level + 1);
    }
}

/// Sizing never refuses the geometry it picks: it fails only when the page count does not fit,
/// and the buffer it builds holds the whole budget.
pub proof fn lemma_sized_fits_budget(way_hint: u8, total_bytes: usize, fraction: bool)
    ensures
        sized_spec(way_hint, total_bytes, fraction) != Err::<FilterModel, PbfError>(
            PbfError::Config,
        ),
        sized_spec(way_hint, total_bytes, fraction) matches Ok(f) ==> f.data.len() >= total_bytes
            + if fraction {
            1int
        } else {
            0int
        },
{
    let way = clamp_way(way_hint);
    lemma_first_fit_range(total_bytes as nat, 6);
    let level = sized_level(way, total_bytes as nat);
    assert(8int / (way as int) >= 1) by (nonlinear_arith)
        requires
            4 <= way <= 8,
    ;
    assert(geometry_ok(way, level));
    lemma_page_size(level);
    let ps = pow2(level as nat) as int;
    let t = total_bytes as int;
    vstd::arithmetic::div_mod::lemma_fundamental_div_mod(t, ps);
    let q = t / ps;
    let pages = pages_for(total_bytes as nat, fraction, ps as nat) as int;
    if fraction || t % ps != 0 {
        assert(pages * ps >= t + 1) by (nonlinear_arith)
            requires
                pages == q + 1,
                t == ps * q + t % ps,
                t % ps < ps,
        ;
    } else {
        assert(pages * ps >= t) by (nonlinear_arith)
            requires
                pages >= q,
                q >= 0,
                ps > 0,
                t == ps * q,
        ;
    }
}

} // verus!
