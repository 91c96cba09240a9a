//! Hamming-space locality-sensitive hashing over 128-bit descriptors: `L`
//! tables, each projecting a descriptor onto `K` of its bits to pick a bucket.
use vstd::prelude::*;
use crate::gray::lemma_index_in_bounds;
use crate::rbrief::bit;

verus! {

/// Number of positions below `n` where the bits of `a` and `b` differ.
pub open spec fn diff_bits(a: u128, b: u128, n: nat) -> nat
    decreases n,
{
    if n == 0 {
        0
    } else {
        diff_bits(a, b, (n - 1) as nat) + if bit(a, n - 1) != bit(b, n - 1) {
            1nat
        } else {
            0nat
        }
    }
}

/// The Hamming distance of two descriptors: `popcount(a ^ b)`.
pub open spec fn hamming_spec(a: u128, b: u128) -> nat {
    diff_bits(a, b, 128)
}

proof fn lemma_bit01(a: u128, i: u128)
    by (bit_vector)
    requires
        i < 128,
    ensures
        (a >> i) & 1 == 0 || (a >> i) & 1 == 1,
{
}

/// The number of bit positions where `a` and `b` differ.
pub fn hamming_distance(a: u128, b: u128) -> (r: u32)
    ensures
        r == hamming_spec(a, b),
{
    let mut n: u32 = 0;
    let mut i: u32 = 0;
    while i < 128
        invariant
            i <= 128,
            n == diff_bits(a, b, i as nat),
            n <= i,
        decreases 128 - i,
    {
        proof {
            lemma_bit01(a, i as u128);
            lemma_bit01(b, i as u128);
        }
        if (a >> (i as u128)) & 1 != (b >> (i as u128)) & 1 {
            n = n + 1;
        }
        i = i + 1;
    }
    n
}

pub open spec fn pow2(n: nat) -> nat
    decreases n,
{
    if n == 0 {
        1
    } else {
        2 * pow2((n - 1) as nat)
    }
}

/// The projection of `d` through the bit positions `pos`: bit `m` of the
/// result is bit `pos[m]` of `d`.
pub open spec fn proj(d: u128, pos: Seq<u8>) -> nat
    decreases pos.len(),
{
    if pos.len() == 0 {
        0
    } else {
        proj(d, pos.drop_last()) + if bit(d, pos.last() as int) {
            pow2((pos.len() - 1) as nat)
        } else {
            0
        }
    }
}

proof fn lemma_pow2_add(a: nat, b: nat)
    ensures
        pow2(a + b) == pow2(a) * pow2(b),
    decreases b,
{
    if b > 0 {
        let c = (b - 1) as nat;
        lemma_pow2_add(a, c);
        assert(pow2(a + b) == 2 * pow2(a + c));
        assert(pow2(b) == 2 * pow2(c));
        assert(pow2(a) * (2 * pow2(c)) == 2 * (pow2(a) * pow2(c))) by (nonlinear_arith);
    } else {
        assert(pow2(0) == 1);
    }
}

proof fn lemma_pow2_127()
    ensures
        pow2(127) == 0x8000_0000_0000_0000_0000_0000_0000_0000,
{
    reveal_with_fuel(pow2, 17);
    assert(pow2(16) == 0x1_0000);
    assert(pow2(15) == 0x8000);
    lemma_pow2_add(16, 16);
    assert(pow2(32) == 0x1_0000_0000);
    lemma_pow2_add(32, 32);
    assert(pow2(64) == 0x1_0000_0000_0000_0000);
    lemma_pow2_add(64, 32);
    assert(pow2(96) == 0x1_0000_0000_0000_0000_0000_0000);
    lemma_pow2_add(96, 16);
    assert(pow2(112) == 0x1_0000_0000_0000_0000_0000_0000_0000);
    lemma_pow2_add(112, 15);
}

/// `pow2(n)` fits in 127 bits' worth of doubling for `n <= 127`.
proof fn lemma_pow2_bound(n: nat)
    requires
        n <= 127,
    ensures
        1 <= pow2(n) <= 0x8000_0000_0000_0000_0000_0000_0000_0000,
{
    lemma_pow2_mono(n, 127);
    lemma_pow2_mono(0, n);
    lemma_pow2_127();
}

proof fn lemma_pow2_mono(a: nat, b: nat)
    requires
        a <= b,
    ensures
        pow2(a) <= pow2(b),
    decreases b - a,
{
    if a < b {
        lemma_pow2_mono(a, (b - 1) as nat);
    }
}

/// Entries whose descriptor projects through `pos` onto `h`.
pub open spec fn in_bucket(pos: Seq<u8>, h: nat) -> spec_fn((u128, usize)) -> bool {
    |e: (u128, usize)| proj(e.0, pos) == h
}

/// The entries probed for `q`: table by table, the bucket that `q` projects
/// onto, each in insertion order.
pub open spec fn candidates(entries: Seq<(u128, usize)>, tables: Seq<Vec<u8>>, q: u128) -> Seq<
    (u128, usize),
>
    decreases tables.len(),
{
    if tables.len() == 0 {
        Seq::empty()
    } else {
        candidates(entries, tables.drop_last(), q) + entries.filter(
            in_bucket(tables.last()@, proj(q, tables.last()@)),
        )
    }
}

/// `acc` updated with entry `e`: `e` replaces it when its distance to `q` is
/// within `max` and strictly below the distance held.
pub open spec fn step(acc: Option<(u32, usize)>, e: (u128, usize), q: u128, max: u32) -> Option<
    (u32, usize),
> {
    let d = hamming_spec(q, e.0);
    if d <= max && (acc.is_none() || d < acc.unwrap().0) {
        Some((d as u32, e.1))
    } else {
        acc
    }
}

/// `acc` updated with every entry of `s` in turn.
pub open spec fn best_from(acc: Option<(u32, usize)>, s: Seq<(u128, usize)>, q: u128, max: u32) -> Option<
    (u32, usize),
>
    decreases s.len(),
{
    if s.len() == 0 {
        acc
    } else {
        step(best_from(acc, s.drop_last(), q, max), s.last(), q, max)
    }
}

/// The first entry of `s` nearest to `q` within `max`, with its distance.
pub open spec fn best_of(s: Seq<(u128, usize)>, q: u128, max: u32) -> Option<(u32, usize)> {
    best_from(None, s, q, max)
}

/// An index of `(descriptor, value)` entries. Its buckets are listed as
/// triples: bucket `b` belongs to table `bucket_table[b]`, holds the entries
/// projecting onto `bucket_key[b]` there, and exists once some entry does.
pub struct LshIndex {
    /// Bits per projection.
    pub k: usize,
    /// The bit positions of each table.
    pub tables: Vec<Vec<u8>>,
    pub bucket_table: Vec<usize>,
    pub bucket_key: Vec<u128>,
    pub buckets: Vec<Vec<(u128, usize)>>,
    /// Every entry inserted, in order.
    pub entries: Ghost<Seq<(u128, usize)>>,
}

/// `k` pairwise distinct bit positions below 128.
pub open spec fn positions_ok(pos: Seq<u8>, k: int) -> bool {
    &&& pos.len() == k
    &&& forall|m: int| 0 <= m < k ==> #[trigger] pos[m] < 128
    &&& forall|a: int, b: int| 0 <= a < b < k ==> #[trigger] pos[a] != #[trigger] pos[b]
}

/// Relies on rand::seq::index::sample with the thread-local generator: `k`
/// distinct positions below 128 (it panics for `k > 128`).
#[verifier::external_body]
fn random_positions(k: usize) -> (r: Vec<u8>)
    requires
        k <= 128,
    ensures
        positions_ok(r@, k as int),
{
    rand::seq::index::sample(&mut rand::thread_rng(), 128, k).into_iter().map(|i| i as u8).collect()
}

proof fn lemma_filter_none(s: Seq<(u128, usize)>, pred: spec_fn((u128, usize)) -> bool)
    requires
        forall|i: int| 0 <= i < s.len() ==> !pred(#[trigger] s[i]),
    ensures
        s.filter(pred) == Seq::<(u128, usize)>::empty(),
    decreases s.len(),
{
    reveal(Seq::filter);
    if s.len() > 0 {
        lemma_filter_none(s.drop_last(), pred);
        assert(!pred(s[s.len() - 1]));
    }
    assert(s.filter(pred) =~= Seq::<(u128, usize)>::empty());
}

impl LshIndex {
    /// Bucket `b` is that of table `t` and key `h`.
    pub open spec fn is_bucket(&self, b: int, t: int, h: nat) -> bool {
        0 <= b < self.buckets@.len() && self.bucket_table@[b] == t && self.bucket_key@[b] == h
    }

    /// Some bucket belongs to table `t` and key `h`.
    pub open spec fn has_bucket(&self, t: int, h: nat) -> bool {
        exists|b: int| self.is_bucket(b, t, h)
    }

    /// Each table has `k` distinct positions below 128; each bucket holds, in
    /// insertion order, the entries projecting onto its key in its table; no
    /// two buckets share table and key; every entry has its bucket in every
    /// table.
    pub open spec fn wf(&self) -> bool {
        &&& self.k <= 128
        &&& forall|t: int| 0 <= t < self.tables@.len() ==> positions_ok((#[trigger] self.tables@[t])@, self.k as int)
        &&& self.bucket_table@.len() == self.buckets@.len()
        &&& self.bucket_key@.len() == self.buckets@.len()
        &&& forall|b: int|
            0 <= b < self.buckets@.len() ==> #[trigger] self.bucket_table@[b] < self.tables@.len()
                && self.buckets@[b]@ == self.entries@.filter(
                in_bucket(self.tables@[self.bucket_table@[b] as int]@, self.bucket_key@[b] as nat),
            )
        &&& forall|a: int, b: int|
            0 <= a < b < self.buckets@.len() ==> !(#[trigger] self.bucket_table@[a] == #[trigger] self.bucket_table@[b]
                && self.bucket_key@[a] == self.bucket_key@[b])
        &&& forall|i: int, t: int|
            0 <= i < self.entries@.len() && 0 <= t < self.tables@.len() ==> #[trigger] self.has_bucket(
                t,
                proj(self.entries@[i].0, self.tables@[t]@),
            )
    }

    /// What `get(q, max)` returns.
    pub open spec fn get_spec(&self, q: u128, max: u32) -> Option<(u32, usize)> {
        best_of(candidates(self.entries@, self.tables@, q), q, max)
    }

    /// Checks that `pos` holds `k` distinct positions below 128.
    fn check_positions(pos: &Vec<u8>, k: usize) -> (r: bool)
        ensures
            r == positions_ok(pos@, k as int),
    {
        if pos.len() != k {
            return false;
        }
        let mut a: usize = 0;
        while a < k
            invariant
                pos@.len() == k,
                a <= k,
                forall|m: int| 0 <= m < a ==> #[trigger] pos@[m] < 128,
                forall|x: int, y: int| 0 <= x < y < k && x < a ==> #[trigger] pos@[x] != #[trigger] pos@[y],
            decreases k - a,
        {
            if pos[a] >= 128 {
                return false;
            }
            let mut b: usize = a + 1;
            while b < k
                invariant
                    pos@.len() == k,
                    a < b <= k,
                    forall|y: int| a < y < b ==> pos@[a as int] != #[trigger] pos@[y],
                decreases k - b,
            {
                if pos[a] == pos[b] {
                    return false;
                }
                b = b + 1;
            }
            a = a + 1;
        }
        true
    }

    /// An empty index over the given tables of bit positions; `None` unless
    /// every table has `k` distinct positions below 128.
    pub fn from_positions(k: usize, tables: Vec<Vec<u8>>) -> (r: Option<LshIndex>)
        ensures
            r.is_some() <==> k <= 128 && forall|t: int|
                0 <= t < tables@.len() ==> positions_ok((#[trigger] tables@[t])@, k as int),
            r.is_some() ==> r.unwrap().wf() && r.unwrap().k == k && r.unwrap().tables@ == tables@
                && r.unwrap().entries@ == Seq::<(u128, usize)>::empty(),
    {
        if k > 128 {
            return None;
        }
        let mut t: usize = 0;
        while t < tables.len()
            invariant
                t <= tables@.len(),
                forall|q: int| 0 <= q < t ==> positions_ok((#[trigger] tables@[q])@, k as int),
            decreases tables@.len() - t,
        {
            if !LshIndex::check_positions(&tables[t], k) {
                return None;
            }
            t = t + 1;
        }
        Some(
            LshIndex {
                k,
                tables,
                bucket_table: Vec::new(),
                bucket_key: Vec::new(),
                buckets: Vec::new(),
                entries: Ghost(Seq::empty()),
            },
        )
    }

    /// An empty index of `l` tables, each of `k` distinct random positions;
    /// `None` when `k > 128`.
    pub fn new(k: usize, l: usize) -> (r: Option<LshIndex>)
        ensures
            r.is_some() <==> k <= 128,
            r.is_some() ==> r.unwrap().wf() && r.unwrap().k == k && r.unwrap().tables@.len() == l
                && r.unwrap().entries@ == Seq::<(u128, usize)>::empty(),
    {
        if k > 128 {
            return None;
        }
        let mut tables: Vec<Vec<u8>> = Vec::new();
        let mut t: usize = 0;
        while t < l
            invariant
                k <= 128,
                t <= l,
                tables@.len() == t,
                forall|q: int| 0 <= q < t ==> positions_ok((#[trigger] tables@[q])@, k as int),
            decreases l - t,
        {
            tables.push(random_positions(k));
            t = t + 1;
        }
        LshIndex::from_positions(k, tables)
    }

    /// The bucket of table `t` and key `key`, if there is one.
    fn find_bucket(&self, t: usize, key: u128) -> (r: Option<usize>)
        requires
            self.bucket_table@.len() == self.buckets@.len(),
            self.bucket_key@.len() == self.buckets@.len(),
        ensures
            r.is_some() ==> self.is_bucket(r.unwrap() as int, t as int, key as nat),
            r.is_none() ==> forall|b: int| !#[trigger] self.is_bucket(b, t as int, key as nat),
    {
        let mut b: usize = 0;
        while b < self.buckets.len()
            invariant
                self.bucket_table@.len() == self.buckets@.len(),
                self.bucket_key@.len() == self.buckets@.len(),
                b <= self.buckets@.len(),
                forall|c: int| 0 <= c < b ==> !#[trigger] self.is_bucket(c, t as int, key as nat),
            decreases self.buckets@.len() - b,
        {
            if self.bucket_table[b] == t && self.bucket_key[b] == key {
                return Some(b);
            }
            b = b + 1;
        }
        None
    }
}

/// The projection of `d` through `pos`.
fn project(d: u128, pos: &Vec<u8>) -> (h: u128)
    requires
        pos@.len() <= 128,
        forall|m: int| 0 <= m < pos@.len() ==> #[trigger] pos@[m] < 128,
    ensures
        h == proj(d, pos@),
{
    let mut h: u128 = 0;
    let mut p: u128 = 1;
    let mut m: usize = 0;
    while m < pos.len()
        invariant
            pos@.len() <= 128,
            forall|q: int| 0 <= q < pos@.len() ==> #[trigger] pos@[q] < 128,
            m <= pos@.len(),
            m < pos@.len() ==> p == pow2(m as nat),
            h == proj(d, pos@.take(m as int)),
            h < pow2(m as nat),
        decreases pos@.len() - m,
    {
        proof {
            lemma_pow2_bound(m as nat);
            lemma_bit01(d, pos@[m as int] as u128);
            assert(pos@.take(m + 1).drop_last() =~= pos@.take(m as int));
        }
        if (d >> (pos[m] as u128)) & 1 == 1 {
            h = h + p;
        }
        if m + 1 < pos.len() {
            proof {
                lemma_pow2_bound((m + 1) as nat);
            }
            p = p * 2;
        }
        m = m + 1;
    }
    proof {
        assert(pos@.take(m as int) =~= pos@);
    }
    h
}

impl LshIndex {
    /// Appends `(descriptor, value)` to the bucket it projects onto in every
    /// table, making that bucket where there is none yet.
    pub fn insert(&mut self, descriptor: u128, value: usize)
        requires
            old(self).wf(),
        ensures
            final(self).wf(),
            final(self).k == old(self).k,
            final(self).tables@ == old(self).tables@,
            final(self).entries@ == old(self).entries@.push((descriptor, value)),
    {
        let ghost old_entries = self.entries@;
        let ghost e = (descriptor, value);
        let ghost new_entries = old_entries.push(e);
        let ghost k0 = self.k;
        let ghost tables0 = self.tables@;
        proof {
            assert(new_entries.drop_last() =~= old_entries);
        }
        let mut t: usize = 0;
        while t < self.tables.len()
            invariant
                self.k == k0,
                self.tables@ == tables0,
                self.k <= 128,
                forall|q: int| 0 <= q < self.tables@.len() ==> positions_ok((#[trigger] self.tables@[q])@, self.k as int),
                self.entries@ == old_entries,
                new_entries == old_entries.push(e),
                new_entries.drop_last() == old_entries,
                e == (descriptor, value),
                t <= self.tables@.len(),
                self.bucket_table@.len() == self.buckets@.len(),
                self.bucket_key@.len() == self.buckets@.len(),
                forall|b: int|
                    0 <= b < self.buckets@.len() ==> #[trigger] self.bucket_table@[b] < self.tables@.len()
                        && self.buckets@[b]@ == (if self.bucket_table@[b] < t {
                        new_entries
                    } else {
                        old_entries
                    }).filter(in_bucket(self.tables@[self.bucket_table@[b] as int]@, self.bucket_key@[b] as nat)),
                forall|a: int, b: int|
                    0 <= a < b < self.buckets@.len() ==> !(#[trigger] self.bucket_table@[a] == #[trigger] self.bucket_table@[b]
                        && self.bucket_key@[a] == self.bucket_key@[b]),
                forall|i: int, q: int|
                    0 <= i < new_entries.len() && 0 <= q < self.tables@.len() && (i < old_entries.len() || q < t)
                        ==> #[trigger] self.has_bucket(q, proj(new_entries[i].0, self.tables@[q]@)),
            decreases self.tables@.len() - t,
        {
            let key = project(descriptor, &self.tables[t]);
            let ghost pos = self.tables@[t as int]@;
            let ghost bt0 = self.bucket_table@;
            let ghost bk0 = self.bucket_key@;
            let ghost bs0 = self.buckets@;
            proof {
                reveal(Seq::filter);
            }
            let ghost before = *self;
            let ghost mut wt: int = 0;
            match self.find_bucket(t, key) {
                Some(b) => {
                    self.buckets[b].push((descriptor, value));
                    proof {
                        wt = b as int;
                        assert forall|c: int|
                            0 <= c < self.buckets@.len() implies #[trigger] self.bucket_table@[c] < self.tables@.len()
                                && self.buckets@[c]@ == (if self.bucket_table@[c] < t + 1 {
                                new_entries
                            } else {
                                old_entries
                            }).filter(in_bucket(self.tables@[self.bucket_table@[c] as int]@, self.bucket_key@[c] as nat)) by {
                            if c != b {
                                assert(self.buckets@[c] == bs0[c]);
                            }
                        }
                    }
                },
                None => {
                    proof {
                        assert forall|i: int| 0 <= i < old_entries.len() implies !#[trigger] in_bucket(pos, key as nat)(old_entries[i]) by {
                            assert(new_entries[i] == old_entries[i]);
                            if proj(old_entries[i].0, pos) == key as nat {
                                assert(self.has_bucket(t as int, proj(new_entries[i].0, pos)));
                                let w = choose|w: int| self.is_bucket(w, t as int, proj(new_entries[i].0, pos));
                                assert(self.is_bucket(w, t as int, key as nat));
                            }
                        }
                        lemma_filter_none(old_entries, in_bucket(pos, key as nat));
                        assert forall|c: int| 0 <= c < bs0.len() && bt0[c] == t implies #[trigger] bk0[c] != key by {
                            assert(!self.is_bucket(c, t as int, key as nat));
                        }
                    }
                    let mut bucket: Vec<(u128, usize)> = Vec::new();
                    bucket.push((descriptor, value));
                    self.bucket_table.push(t);
                    self.bucket_key.push(key);
                    self.buckets.push(bucket);
                    proof {
                        let nb = self.buckets@.len() - 1;
                        wt = nb;
                        assert(self.buckets@[nb]@ =~= new_entries.filter(in_bucket(pos, key as nat)));
                        assert forall|c: int|
                            0 <= c < self.buckets@.len() implies #[trigger] self.bucket_table@[c] < self.tables@.len()
                                && self.buckets@[c]@ == (if self.bucket_table@[c] < t + 1 {
                                new_entries
                            } else {
                                old_entries
                            }).filter(in_bucket(self.tables@[self.bucket_table@[c] as int]@, self.bucket_key@[c] as nat)) by {
                            if c < nb {
                                assert(self.buckets@[c] == bs0[c]);
                                assert(self.bucket_table@[c] == bt0[c]);
                                assert(self.bucket_key@[c] == bk0[c]);
                                if bt0[c] == t {
                                    assert(bk0[c] != key);
                                }
                            }
                        }
                        assert forall|a: int, b: int|
                            0 <= a < b < self.buckets@.len() implies !(#[trigger] self.bucket_table@[a] == #[trigger] self.bucket_table@[b]
                                && self.bucket_key@[a] == self.bucket_key@[b]) by {
                            if b == nb {
                                assert(!self.is_bucket(a, t as int, key as nat));
                                assert(self.bucket_table@[a] == bt0[a] && self.bucket_key@[a] == bk0[a]);
                                assert(!(bt0[a] == t && bk0[a] == key));
                            } else {
                                assert(self.bucket_table@[a] == bt0[a] && self.bucket_key@[a] == bk0[a]);
                                assert(self.bucket_table@[b] == bt0[b] && self.bucket_key@[b] == bk0[b]);
                            }
                        }
                    }
                },
            }
            proof {
                assert(self.is_bucket(wt, t as int, key as nat));
                assert(self.buckets@.len() >= bs0.len());
                assert forall|w: int| 0 <= w < bs0.len() implies #[trigger] self.bucket_table@[w] == bt0[w]
                    && self.bucket_key@[w] == bk0[w] by {}
                assert forall|i: int, q: int|
                    0 <= i < new_entries.len() && 0 <= q < self.tables@.len() && (i < old_entries.len() || q < t + 1)
                        implies #[trigger] self.has_bucket(q, proj(new_entries[i].0, self.tables@[q]@)) by {
                    if i < old_entries.len() || q < t {
                        assert(before.has_bucket(q, proj(new_entries[i].0, self.tables@[q]@)));
                        let w = choose|w: int| before.is_bucket(w, q, proj(new_entries[i].0, self.tables@[q]@));
                        assert(self.is_bucket(w, q, proj(new_entries[i].0, self.tables@[q]@)));
                    } else {
                        assert(new_entries[i] == e);
                        assert(self.is_bucket(wt, q, proj(new_entries[i].0, self.tables@[q]@)));
                    }
                }
            }
            t = t + 1;
        }
        let ghost fin = *self;
        self.entries = Ghost(new_entries);
        proof {
            assert forall|b: int|
                0 <= b < self.buckets@.len() implies #[trigger] self.bucket_table@[b] < self.tables@.len()
                    && self.buckets@[b]@ == self.entries@.filter(
                    in_bucket(self.tables@[self.bucket_table@[b] as int]@, self.bucket_key@[b] as nat),
                ) by {}
            assert forall|i: int, q: int|
                0 <= i < self.entries@.len() && 0 <= q < self.tables@.len() implies #[trigger] self.has_bucket(
                q,
                proj(self.entries@[i].0, self.tables@[q]@),
            ) by {
                assert(fin.has_bucket(q, proj(new_entries[i].0, fin.tables@[q]@)));
                let w = choose|w: int| fin.is_bucket(w, q, proj(new_entries[i].0, fin.tables@[q]@));
                assert(self.is_bucket(w, q, proj(self.entries@[i].0, self.tables@[q]@)));
            }
        }
    }

    /// The first probed entry nearest to `query` within `max_distance`, with
    /// its distance; `None` when no probed entry is that close.
    pub fn get(&self, query: u128, max_distance: u32) -> (r: Option<(u32, usize)>)
        requires
            self.wf(),
        ensures
            r == self.get_spec(query, max_distance),
    {
        let mut best: Option<(u32, usize)> = None;
        let mut t: usize = 0;
        while t < self.tables.len()
            invariant
                self.wf(),
                t <= self.tables@.len(),
                best == best_of(
                    candidates(self.entries@, self.tables@.take(t as int), query),
                    query,
                    max_distance,
                ),
            decreases self.tables@.len() - t,
        {
            let key = project(query, &self.tables[t]);
            let ghost pos = self.tables@[t as int]@;
            let ghost prefix = candidates(self.entries@, self.tables@.take(t as int), query);
            let ghost bucket_spec = self.entries@.filter(in_bucket(pos, key as nat));
            proof {
                assert(self.tables@.take(t + 1).drop_last() =~= self.tables@.take(t as int));
                assert(self.tables@.take(t + 1).last() == self.tables@[t as int]);
            }
            match self.find_bucket(t, key) {
                Some(b) => {
                    let bucket = &self.buckets[b];
                    assert(bucket@ == bucket_spec);
                    let mut j: usize = 0;
                    while j < bucket.len()
                        invariant
                            j <= bucket@.len(),
                            best == best_of(prefix + bucket@.take(j as int), query, max_distance),
                        decreases bucket@.len() - j,
                    {
                        let e = bucket[j];
                        let d = hamming_distance(query, e.0);
                        proof {
                            assert((prefix + bucket@.take(j + 1)).drop_last() =~= prefix + bucket@.take(
                                j as int,
                            ));
                        }
                        if d <= max_distance && (best.is_none() || d < best.unwrap().0) {
                            best = Some((d, e.1));
                        }
                        j = j + 1;
                    }
                    proof {
                        assert(bucket@.take(j as int) =~= bucket@);
                    }
                },
                None => {
                    proof {
                        assert forall|i: int| 0 <= i < self.entries@.len() implies !#[trigger] in_bucket(pos, key as nat)(
                            self.entries@[i],
                        ) by {
                            if proj(self.entries@[i].0, pos) == key as nat {
                                assert(self.has_bucket(t as int, proj(self.entries@[i].0, pos)));
                                let w = choose|w: int| self.is_bucket(w, t as int, proj(self.entries@[i].0, pos));
                                assert(self.is_bucket(w, t as int, key as nat));
                            }
                        }
                        lemma_filter_none(self.entries@, in_bucket(pos, key as nat));
                        assert(prefix + bucket_spec =~= prefix);
                    }
                },
            }
            t = t + 1;
        }
        proof {
            assert(self.tables@.take(t as int) =~= self.tables@);
        }
        best
    }
}

proof fn lemma_diff_bits_self(a: u128, n: nat)
    ensures
        diff_bits(a, a, n) == 0,
    decreases n,
{
    if n > 0 {
        lemma_diff_bits_self(a, (n - 1) as nat);
    }
}

proof fn lemma_diff_bits_bound(a: u128, b: u128, n: nat)
    ensures
        diff_bits(a, b, n) <= n,
    decreases n,
{
    if n > 0 {
        lemma_diff_bits_bound(a, b, (n - 1) as nat);
    }
}

proof fn lemma_best_concat(acc: Option<(u32, usize)>, a: Seq<(u128, usize)>, b: Seq<(u128, usize)>, q: u128, max: u32)
    ensures
        best_from(acc, a + b, q, max) == best_from(best_from(acc, a, q, max), b, q, max),
    decreases b.len(),
{
    if b.len() == 0 {
        assert(a + b =~= a);
    } else {
        lemma_best_concat(acc, a, b.drop_last(), q, max);
        assert((a + b).drop_last() =~= a + b.drop_last());
    }
}

/// What the scan over `s` from `acc` keeps: the distance held never exceeds
/// `max` or that of any entry of `s` within `max`, and the value comes from
/// `acc` or from an entry at that distance.
proof fn lemma_best_min(acc: Option<(u32, usize)>, s: Seq<(u128, usize)>, q: u128, max: u32)
    requires
        acc.is_some() ==> acc.unwrap().0 <= max,
    ensures
        best_from(acc, s, q, max).is_some() ==> best_from(acc, s, q, max).unwrap().0 <= max,
        forall|i: int|
            0 <= i < s.len() && hamming_spec(q, s[i].0) <= max ==> best_from(acc, s, q, max).is_some()
                && best_from(acc, s, q, max).unwrap().0 <= hamming_spec(q, #[trigger] s[i].0),
        acc.is_some() ==> best_from(acc, s, q, max).is_some() && best_from(acc, s, q, max).unwrap().0
            <= acc.unwrap().0,
        best_from(acc, s, q, max) == acc || exists|i: int|
            0 <= i < s.len() && (#[trigger] s[i]).1 == best_from(acc, s, q, max).unwrap().1
                && hamming_spec(q, s[i].0) == best_from(acc, s, q, max).unwrap().0,
    decreases s.len(),
{
    if s.len() > 0 {
        let t = s.drop_last();
        lemma_best_min(acc, t, q, max);
        let r = best_from(acc, s, q, max);
        let prev = best_from(acc, t, q, max);
        assert forall|i: int| 0 <= i < s.len() && hamming_spec(q, s[i].0) <= max implies r.is_some()
            && r.unwrap().0 <= hamming_spec(q, #[trigger] s[i].0) by {
            if i < t.len() {
                assert(s[i] == t[i]);
            }
        }
        if r != acc && r != prev {
            assert(s[s.len() - 1] == s.last());
        } else if r != acc {
            let i = choose|i: int|
                0 <= i < t.len() && (#[trigger] t[i]).1 == prev.unwrap().1 && hamming_spec(q, t[i].0)
                    == prev.unwrap().0;
            assert(s[i] == t[i]);
        }
    }
}

proof fn lemma_best_stays(x: (u32, usize), s: Seq<(u128, usize)>, q: u128, max: u32)
    requires
        forall|i: int| 0 <= i < s.len() ==> x.0 <= hamming_spec(q, #[trigger] s[i].0),
    ensures
        best_from(Some(x), s, q, max) == Some(x),
    decreases s.len(),
{
    if s.len() > 0 {
        let t = s.drop_last();
        assert forall|i: int| 0 <= i < t.len() implies x.0 <= hamming_spec(q, #[trigger] t[i].0) by {
            assert(s[i] == t[i]);
        }
        lemma_best_stays(x, t, q, max);
        assert(x.0 <= hamming_spec(q, s[s.len() - 1].0));
    }
}

proof fn lemma_single_bucket(e: (u128, usize), pos: Seq<u8>)
    ensures
        seq![e].filter(in_bucket(pos, proj(e.0, pos))) == seq![e],
{
    reveal(Seq::filter);
    assert(seq![e].drop_last() =~= Seq::<(u128, usize)>::empty());
}

proof fn lemma_filter_all(s: Seq<(u128, usize)>, pred: spec_fn((u128, usize)) -> bool)
    requires
        forall|e: (u128, usize)| #[trigger] pred(e),
    ensures
        s.filter(pred) == s,
    decreases s.len(),
{
    reveal(Seq::filter);
    if s.len() > 0 {
        lemma_filter_all(s.drop_last(), pred);
        assert(s.drop_last().push(s.last()) =~= s);
    }
}

proof fn lemma_round_trip_tables(e: (u128, usize), tables: Seq<Vec<u8>>)
    requires
        tables.len() > 0,
    ensures
        best_of(candidates(seq![e], tables, e.0), e.0, 0) == Some((0u32, e.1)),
    decreases tables.len(),
{
    let t = tables.drop_last();
    lemma_single_bucket(e, tables.last()@);
    lemma_diff_bits_self(e.0, 128);
    let c = candidates(seq![e], t, e.0);
    assert((c + seq![e]).drop_last() =~= c);
    if t.len() > 0 {
        lemma_round_trip_tables(e, t);
    }
}

/// A descriptor just inserted into an empty index is found again, at
/// distance 0 and with its value, even when no other distance is allowed.
pub proof fn lemma_insert_get_round_trip(idx: LshIndex, descriptor: u128, value: usize)
    requires
        idx.wf(),
        idx.tables@.len() > 0,
        idx.entries@ == seq![(descriptor, value)],
    ensures
        idx.get_spec(descriptor, 0) == Some((0u32, value)),
{
    lemma_round_trip_tables((descriptor, value), idx.tables@);
}

proof fn lemma_exhaustive_tables(entries: Seq<(u128, usize)>, tables: Seq<Vec<u8>>, q: u128)
    requires
        tables.len() > 0,
        forall|t: int| 0 <= t < tables.len() ==> (#[trigger] tables[t])@.len() == 0,
    ensures
        best_of(candidates(entries, tables, q), q, 128) == best_of(entries, q, 128),
    decreases tables.len(),
{
    let t = tables.drop_last();
    assert(tables.last() == tables[tables.len() - 1]);
    lemma_filter_all(entries, in_bucket(tables.last()@, proj(q, tables.last()@)));
    let c = candidates(entries, t, q);
    lemma_best_concat(None, c, entries, q, 128);
    if t.len() > 0 {
        assert forall|i: int| 0 <= i < t.len() implies (#[trigger] t[i])@.len() == 0 by {
            assert(t[i] == tables[i]);
        }
        lemma_exhaustive_tables(entries, t, q);
        lemma_best_min(None, entries, q, 128);
        let b = best_of(entries, q, 128);
        if b.is_some() {
            assert forall|i: int| 0 <= i < entries.len() implies b.unwrap().0 <= hamming_spec(
                q,
                #[trigger] entries[i].0,
            ) by {
                lemma_diff_bits_bound(q, entries[i].0, 128);
            }
            lemma_best_stays(b.unwrap(), entries, q, 128);
        }
    } else {
        assert(c + entries =~= entries);
    }
}

/// With projections of no bits and no bound on the distance, a query returns
/// the first of the entries nearest to it among all inserted ones.
pub proof fn lemma_exhaustive_nearest(idx: LshIndex, q: u128)
    requires
        idx.wf(),
        idx.k == 0,
        idx.tables@.len() > 0,
    ensures
        idx.get_spec(q, 128) == best_of(idx.entries@, q, 128),
        idx.entries@.len() > 0 ==> idx.get_spec(q, 128).is_some(),
        idx.get_spec(q, 128).is_some() ==> {
            let (d, v) = idx.get_spec(q, 128).unwrap();
            &&& forall|i: int| 0 <= i < idx.entries@.len() ==> d <= hamming_spec(q, #[trigger] idx.entries@[i].0)
            &&& exists|i: int|
                0 <= i < idx.entries@.len() && (#[trigger] idx.entries@[i]).1 == v && hamming_spec(
                    q,
                    idx.entries@[i].0,
                ) == d
        },
{
    let e = idx.entries@;
    lemma_exhaustive_tables(e, idx.tables@, q);
    lemma_best_min(None, e, q, 128);
    assert forall|i: int| 0 <= i < e.len() implies hamming_spec(q, #[trigger] e[i].0) <= 128 by {
        lemma_diff_bits_bound(q, e[i].0, 128);
    }
    if e.len() > 0 {
        assert(hamming_spec(q, e[0].0) <= 128);
    }
}

/// Any inserted descriptor, queried itself, is matched at distance 0
/// whatever bound is given.
pub proof fn lemma_inserted_found(idx: LshIndex, i: int, max: u32)
    requires
        idx.wf(),
        idx.tables@.len() > 0,
        0 <= i < idx.entries@.len(),
    ensures
        idx.get_spec(idx.entries@[i].0, max).is_some(),
        idx.get_spec(idx.entries@[i].0, max).unwrap().0 == 0,
{
    let e = idx.entries@[i];
    let tables = idx.tables@;
    let pos = tables.last()@;
    let pred = in_bucket(pos, proj(e.0, pos));
    idx.entries@.lemma_filter_contains(pred, i);
    let f = idx.entries@.filter(pred);
    let j = choose|j: int| 0 <= j < f.len() && f[j] == e;
    let c = candidates(idx.entries@, tables.drop_last(), e.0);
    let all = candidates(idx.entries@, tables, e.0);
    assert(all[c.len() + j] == e);
    lemma_diff_bits_self(e.0, 128);
    lemma_best_min(None, all, e.0, max);
    assert(hamming_spec(e.0, all[c.len() + j].0) == 0);
}

} // verus!
