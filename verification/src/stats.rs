//! Column statistics gathered while a table is loaded: bounds, whether
//! the column is stored in order, a reservoir sample for histograms, and
//! the number of distinct values (exact up to a limit, then estimated
//! with HyperLogLog registers).
use vstd::prelude::*;
use std::collections::hash_map::DefaultHasher;
use std::hash::Hasher;
use rand::Rng;
use vstd::std_specs::hash::DefaultHasherAdditionalSpecFns;
use crate::bytes::{le_bytes, push_le};
use crate::data::{data_partial_compare, value_partial_order, Comparison, Data, Value};
use crate::row::{bits_of_i32, bits_of_i64, u32_of_i32, u64_of_i64};

verus! {

/// How statistics are gathered.
#[derive(Debug, Clone, Copy, PartialEq, Eq, Structural)]
pub struct StatsConfig {
    /// The most values kept in the reservoir sample.
    pub reservoir_capacity: usize,
    /// The most distinct values counted exactly before estimating.
    pub exact_limit: usize,
    /// The HyperLogLog precision: `2^hll_p` registers.
    pub hll_p: u8,
    /// The most buckets of a histogram.
    pub max_histogram_buckets: usize,
    /// A string column gets a histogram only with at most this many
    /// distinct values.
    pub max_string_unique_for_histogram: u64,
}

/// The default configuration: a sample of 10 000 values, exact counts up
/// to 10 000 distinct values, 4096 registers, 10 buckets, and histograms
/// for string columns of at most 50 distinct values.
pub open spec fn default_stats_config() -> StatsConfig {
    StatsConfig {
        reservoir_capacity: 10000,
        exact_limit: 10000,
        hll_p: 12,
        max_histogram_buckets: 10,
        max_string_unique_for_histogram: 50,
    }
}

impl Default for StatsConfig {
    fn default() -> (r: StatsConfig)
        ensures
            r == default_stats_config(),
    {
        StatsConfig {
            reservoir_capacity: 10000,
            exact_limit: 10000,
            hll_p: 12,
            max_histogram_buckets: 10,
            max_string_unique_for_histogram: 50,
        }
    }
}

// ─── Hashing a value ─────────────────────────────────────────────────────

/// What hashing a value writes to the hasher: a tag byte for its type,
/// then its bytes (little-endian numbers; a string's UTF-8 bytes followed
/// by `0xff`).
pub open spec fn hash_writes(v: Value) -> Seq<Seq<u8>> {
    match v {
        Value::Int32(x) => seq![seq![1u8], le_bytes(u32_of_i32(x), 4)],
        Value::Int64(x) => seq![seq![2u8], le_bytes(u64_of_i64(x), 8)],
        Value::Float32(b) => seq![seq![3u8], le_bytes(b as nat, 4)],
        Value::Float64(b) => seq![seq![4u8], le_bytes(b as nat, 8)],
        Value::Str(s) => seq![seq![5u8], s, seq![0xffu8]],
    }
}

/// The hash of a value with the standard library's default hasher.
pub fn data_hash(v: &Data) -> (r: u64)
    ensures
        r == DefaultHasher::spec_finish(hash_writes(v@)),
{
    let mut h = DefaultHasher::new();
    let mut tag: Vec<u8> = Vec::new();
    let mut bytes: Vec<u8> = Vec::new();
    match v {
        Data::Int32(x) => {
            tag.push(1u8);
            push_le(&mut bytes, bits_of_i32(*x), 4);
        },
        Data::Int64(x) => {
            tag.push(2u8);
            push_le(&mut bytes, bits_of_i64(*x), 8);
        },
        Data::Float32(b) => {
            tag.push(3u8);
            push_le(&mut bytes, *b as u64, 4);
        },
        Data::Float64(b) => {
            tag.push(4u8);
            push_le(&mut bytes, *b, 8);
        },
        Data::String(s) => {
            tag.push(5u8);
            let mut end: Vec<u8> = Vec::new();
            end.push(0xffu8);
            h.write(tag.as_slice());
            h.write(s.as_slice());
            h.write(end.as_slice());
            proof {
                let w = hash_writes(v@);
                assert(h@[0] =~= w[0]);
                assert(h@[2] =~= w[2]);
                assert(h@ =~= w);
            }
            return h.finish();
        },
    }
    h.write(tag.as_slice());
    h.write(bytes.as_slice());
    proof {
        let w = hash_writes(v@);
        assert(h@[0] =~= w[0]);
        assert(h@[1] =~= w[1]);
        assert(h@ =~= w);
    }
    h.finish()
}

// ─── HyperLogLog registers ───────────────────────────────────────────────

/// The register a hash goes to: its top `p` bits.
pub open spec fn register_index(hash: u64, p: u8) -> int {
    (hash >> ((64 - p) as u64)) as int
}

/// The rank a hash gives: one more than the leading zeros of the bits
/// after the register index.
pub open spec fn hash_rank(hash: u64, p: u8) -> u8 {
    (vstd::std_specs::bits::u64_leading_zeros((hash << (p as u64)) as u64) + 1) as u8
}

/// The registers after adding a hash: its register keeps the larger of
/// its value and the hash's rank.
pub open spec fn registers_after(regs: Seq<u8>, hash: u64, p: u8) -> Seq<u8> {
    let i = register_index(hash, p);
    let r = hash_rank(hash, p);
    if r > regs[i] { regs.update(i, r) } else { regs }
}

/// Adding a hash never lowers a register, and changes at most the one
/// register the hash names.
pub proof fn lemma_registers_grow(regs: Seq<u8>, hash: u64, p: u8, i: int)
    requires
        0 <= register_index(hash, p) < regs.len(),
        0 <= i < regs.len(),
    ensures
        registers_after(regs, hash, p).len() == regs.len(),
        registers_after(regs, hash, p)[i] >= regs[i],
        i != register_index(hash, p) ==> registers_after(regs, hash, p)[i] == regs[i],
{
}

/// The registers of a HyperLogLog estimate of distinct values.
#[derive(Debug)]
pub struct HyperLogLog {
    registers: Vec<u8>,
    p: u8,
}

impl HyperLogLog {
    pub closed spec fn wf(&self) -> bool {
        &&& 1 <= self.p <= 30
        &&& self.registers@.len() == vstd::arithmetic::power2::pow2(self.p as nat)
    }

    pub closed spec fn spec_registers(&self) -> Seq<u8> {
        self.registers@
    }

    pub closed spec fn spec_p(&self) -> u8 {
        self.p
    }

    /// `2^p` registers at zero.
    pub fn new(p: u8) -> (r: HyperLogLog)
        requires
            1 <= p <= 30,
        ensures
            r.wf(),
            r.spec_p() == p,
            r.spec_registers() == Seq::new(vstd::arithmetic::power2::pow2(p as nat), |i: int| 0u8),
    {
        proof {
            vstd::arithmetic::power2::lemma2_to64();
            if p < 31 {
                vstd::arithmetic::power2::lemma_pow2_strictly_increases(p as nat, 31);
            }
            vstd::bits::lemma_usize_shl_is_mul(1usize, p as usize);
        }
        let m: usize = 1usize << (p as usize);
        let mut registers: Vec<u8> = Vec::new();
        let mut i: usize = 0;
        while i < m
            invariant
                i <= m,
                registers@ == Seq::new(i as nat, |k: int| 0u8),
            decreases m - i,
        {
            registers.push(0u8);
            i += 1;
            assert(registers@ =~= Seq::new(i as nat, |k: int| 0u8));
        }
        HyperLogLog { registers, p }
    }

    /// Adds a hash.
    pub fn add_hash(&mut self, hash: u64)
        requires
            old(self).wf(),
        ensures
            final(self).wf(),
            final(self).spec_p() == old(self).spec_p(),
            final(self).spec_registers() == registers_after(old(self).spec_registers(), hash, old(self).spec_p()),
    {
        let p = self.p;
        let shift: u64 = (64 - p) as u64;
        let top: u64 = hash >> shift;
        proof {
            lemma_top_bits(hash, p);
            vstd::arithmetic::power2::lemma2_to64();
            if p < 30 {
                vstd::arithmetic::power2::lemma_pow2_strictly_increases(p as nat, 30);
            }
        }
        let index = top as usize;
        assert(index as int == register_index(hash, p));
        let w: u64 = hash << (p as u64);
        let lz = w.leading_zeros();
        proof {
            vstd::std_specs::bits::axiom_u64_leading_zeros(w);
        }
        let rank = (lz + 1) as u8;
        assert(rank == hash_rank(hash, p));
        let ghost regs = self.registers@;
        if rank > self.registers[index] {
            self.registers.set(index, rank);
        }
        assert(self.registers@ == registers_after(regs, hash, p));
    }

    /// Adds a value.
    pub fn add(&mut self, v: &Data)
        requires
            old(self).wf(),
        ensures
            final(self).wf(),
            final(self).spec_p() == old(self).spec_p(),
            final(self).spec_registers() == registers_after(
                old(self).spec_registers(),
                DefaultHasher::spec_finish(hash_writes(v@)),
                old(self).spec_p(),
            ),
    {
        let h = data_hash(v);
        self.add_hash(h);
    }

    /// The registers, for the estimate.
    pub fn registers(&self) -> (r: &Vec<u8>)
        ensures
            r@ == self.spec_registers(),
    {
        &self.registers
    }
}

/// The top `p` bits of a hash name one of `2^p` registers.
proof fn lemma_top_bits(hash: u64, p: u8)
    requires
        1 <= p <= 30,
    ensures
        hash >> ((64 - p) as u64) < vstd::arithmetic::power2::pow2(p as nat),
{
    let s = (64 - p) as u64;
    vstd::bits::lemma_u64_shr_is_div(hash, s);
    vstd::arithmetic::power2::lemma_pow2_adds(p as nat, s as nat);
    vstd::arithmetic::power2::lemma_pow2_pos(s as nat);
    vstd::arithmetic::power2::lemma_pow2_pos(p as nat);
    vstd::arithmetic::power2::lemma2_to64();
    let a = vstd::arithmetic::power2::pow2(p as nat);
    let b = vstd::arithmetic::power2::pow2(s as nat);
    assert(a * b == 0x1_0000_0000_0000_0000);
    assert((hash as nat) / b < a) by (nonlinear_arith)
        requires hash < a * b, b > 0, a > 0;
}

// ─── Gathering ───────────────────────────────────────────────────────────

/// A position below `n`, drawn with `rand::thread_rng().gen_range(0..n)`.
/// Which one is left to chance; only that it is below `n` is stated.
#[verifier::external_body]
fn random_below(n: u64) -> (r: u64)
    requires
        n > 0,
    ensures
        r < n,
{
    rand::thread_rng().gen_range(0..n)
}

/// Two values the distinct count takes as the same: equal, or not
/// comparable (the ordered set of distinct values treats incomparable
/// values as equal).
pub open spec fn same_for_count(a: Value, b: Value) -> bool {
    match value_partial_order(a, b) {
        Some(c) => c == Comparison::Equal,
        None => true,
    }
}

/// The distinct values after adding `v`.
pub open spec fn distinct_after(set: Seq<Value>, v: Value) -> Seq<Value> {
    if exists|i: int| 0 <= i < set.len() && same_for_count(#[trigger] set[i], v) {
        set
    } else {
        set.push(v)
    }
}

/// The registers after adding every value of `vs`, in order.
pub open spec fn registers_of_all(regs: Seq<u8>, vs: Seq<Value>, p: u8) -> Seq<u8>
    decreases vs.len(),
{
    if vs.len() == 0 {
        regs
    } else {
        registers_after(registers_of_all(regs, vs.drop_last(), p), DefaultHasher::spec_finish(hash_writes(vs.last())), p)
    }
}

/// What a gatherer holds at the end of a column.
#[derive(Debug)]
pub struct StatsParts {
    pub config: StatsConfig,
    pub is_physically_ordered: bool,
    pub total_count: u64,
    pub last_element: Option<Data>,
    pub lower_bound: Option<Data>,
    pub upper_bound: Option<Data>,
    pub reservoir: Vec<Data>,
    pub exact_distinct: Option<Vec<Data>>,
    pub approx_registers: Option<Vec<u8>>,
}

/// The statistics of one column, gathered value by value.
#[derive(Debug)]
pub struct StatsGenerator {
    config: StatsConfig,
    is_physically_ordered: bool,
    total_count: u64,
    last_element: Option<Data>,
    lower_bound: Option<Data>,
    upper_bound: Option<Data>,
    reservoir: Vec<Data>,
    exact_distinct: Option<Vec<Data>>,
    approx_distinct: Option<HyperLogLog>,
}

pub open spec fn opt_view(o: Option<Data>) -> Option<Value> {
    match o {
        Some(d) => Some(d@),
        None => None,
    }
}

pub open spec fn data_seq_view(s: Seq<Data>) -> Seq<Value> {
    s.map_values(|d: Data| d@)
}

fn copy_data(d: &Data) -> (r: Data)
    ensures
        r@ == d@,
{
    d.copy()
}

impl StatsGenerator {
    pub closed spec fn wf(&self) -> bool {
        &&& 1 <= self.config.hll_p <= 30
        &&& self.exact_distinct is Some <==> self.approx_distinct is None
        &&& (self.approx_distinct matches Some(h) ==> h.wf() && h.spec_p() == self.config.hll_p)
        &&& self.reservoir@.len() <= self.config.reservoir_capacity
    }

    pub closed spec fn spec_config(&self) -> StatsConfig {
        self.config
    }

    pub closed spec fn total(&self) -> u64 {
        self.total_count
    }

    pub closed spec fn ordered(&self) -> bool {
        self.is_physically_ordered
    }

    pub closed spec fn last(&self) -> Option<Value> {
        opt_view(self.last_element)
    }

    pub closed spec fn lower(&self) -> Option<Value> {
        opt_view(self.lower_bound)
    }

    pub closed spec fn upper(&self) -> Option<Value> {
        opt_view(self.upper_bound)
    }

    pub closed spec fn sample(&self) -> Seq<Value> {
        data_seq_view(self.reservoir@)
    }

    /// The distinct values, while they are counted exactly.
    pub closed spec fn exact(&self) -> Option<Seq<Value>> {
        match self.exact_distinct {
            Some(v) => Some(data_seq_view(v@)),
            None => None,
        }
    }

    /// The HyperLogLog registers, once the count is estimated.
    pub closed spec fn approx(&self) -> Option<Seq<u8>> {
        match self.approx_distinct {
            Some(h) => Some(h.spec_registers()),
            None => None,
        }
    }

    /// A gatherer with the default configuration.
    pub fn new() -> (r: StatsGenerator)
        ensures
            r.wf(),
            r.spec_config() == default_stats_config(),
            r.total() == 0,
            r.ordered(),
            r.last() is None && r.lower() is None && r.upper() is None,
            r.sample() == Seq::<Value>::empty(),
            r.exact() == Some(Seq::<Value>::empty()),
    {
        Self::with_config(StatsConfig::default())
    }

    /// A gatherer with the given configuration.
    pub fn with_config(config: StatsConfig) -> (r: StatsGenerator)
        requires
            1 <= config.hll_p <= 30,
        ensures
            r.wf(),
            r.spec_config() == config,
            r.total() == 0,
            r.ordered(),
            r.last() is None && r.lower() is None && r.upper() is None,
            r.sample() == Seq::<Value>::empty(),
            r.exact() == Some(Seq::<Value>::empty()),
    {
        let r = StatsGenerator {
            config,
            is_physically_ordered: true,
            total_count: 0,
            last_element: None,
            lower_bound: None,
            upper_bound: None,
            reservoir: Vec::new(),
            exact_distinct: Some(Vec::new()),
            approx_distinct: None,
        };
        assert(r.sample() =~= Seq::<Value>::empty());
        assert(data_seq_view(Seq::<Data>::empty()) =~= Seq::<Value>::empty());
        r
    }

    /// Takes one more value, with `draw` the position the reservoir sample
    /// would give it once full: the value replaces the sampled one there if
    /// `draw` falls inside the sample, else the sample is unchanged.
    pub fn update_with_draw(&mut self, element: Data, draw: u64)
        requires
            old(self).wf(),
            old(self).total() < u64::MAX,
        ensures
            final(self).wf(),
            final(self).spec_config() == old(self).spec_config(),
            final(self).total() == old(self).total() + 1,
            final(self).lower() == Some(match old(self).lower() {
                Some(b) => if value_partial_order(element@, b) == Some(Comparison::Less) { element@ } else { b },
                None => element@,
            }),
            final(self).upper() == Some(match old(self).upper() {
                Some(b) => if value_partial_order(element@, b) == Some(Comparison::Greater) { element@ } else { b },
                None => element@,
            }),
            final(self).ordered() == (old(self).ordered() && !(old(self).last() matches Some(l)
                && value_partial_order(l, element@) == Some(Comparison::Greater))),
            final(self).last() == Some(element@),
            old(self).sample().len() < old(self).spec_config().reservoir_capacity ==> final(self).sample()
                == old(self).sample().push(element@),
            old(self).sample().len() >= old(self).spec_config().reservoir_capacity ==> final(self).sample() == if draw
                < old(self).spec_config().reservoir_capacity && draw < old(self).sample().len() {
                old(self).sample().update(draw as int, element@)
            } else {
                old(self).sample()
            },
            old(self).exact() matches Some(set) ==> ({
                let s2 = distinct_after(set, element@);
                if s2.len() > old(self).spec_config().exact_limit {
                    &&& final(self).exact() is None
                    &&& final(self).approx() == Some(registers_of_all(
                        Seq::new(vstd::arithmetic::power2::pow2(old(self).spec_config().hll_p as nat), |i: int| 0u8),
                        s2,
                        old(self).spec_config().hll_p,
                    ))
                } else {
                    &&& final(self).exact() == Some(s2)
                    &&& final(self).approx() is None
                }
            }),
            old(self).approx() matches Some(regs) ==> final(self).exact() is None && final(self).approx() == Some(
                registers_after(regs, DefaultHasher::spec_finish(hash_writes(element@)), old(self).spec_config().hll_p)),
    {
        self.total_count = self.total_count + 1;
        let new_lower = match &self.lower_bound {
            Some(b) => match data_partial_compare(&element, b) {
                Some(Comparison::Less) => copy_data(&element),
                _ => copy_data(b),
            },
            None => copy_data(&element),
        };
        self.lower_bound = Some(new_lower);
        let new_upper = match &self.upper_bound {
            Some(b) => match data_partial_compare(&element, b) {
                Some(Comparison::Greater) => copy_data(&element),
                _ => copy_data(b),
            },
            None => copy_data(&element),
        };
        self.upper_bound = Some(new_upper);
        match &self.last_element {
            Some(l) => {
                if data_partial_compare(l, &element) == Some(Comparison::Greater) {
                    self.is_physically_ordered = false;
                }
            },
            None => {},
        }
        let ghost sample0 = self.sample();
        if self.reservoir.len() < self.config.reservoir_capacity {
            self.reservoir.push(copy_data(&element));
            assert(self.sample() =~= sample0.push(element@));
        } else {
            if draw < self.config.reservoir_capacity as u64 && draw < self.reservoir.len() as u64 {
                let j = draw as usize;
                self.reservoir.set(j, copy_data(&element));
                assert(self.sample() =~= sample0.update(j as int, element@));
            }
        }
        let mut exact = None;
        std::mem::swap(&mut exact, &mut self.exact_distinct);
        match exact {
            Some(mut set) => {
                let ghost set0 = data_seq_view(set@);
                let mut found = false;
                let mut i: usize = 0;
                while i < set.len()
                    invariant
                        i <= set@.len(),
                        set0 == data_seq_view(set@),
                        found ==> exists|k: int| 0 <= k < set0.len() && same_for_count(#[trigger] set0[k], element@),
                        !found ==> forall|k: int| 0 <= k < i ==> !same_for_count(#[trigger] set0[k], element@),
                    decreases set.len() - i,
                {
                    match data_partial_compare(&set[i], &element) {
                        Some(Comparison::Equal) | None => {
                            found = true;
                            assert(same_for_count(set0[i as int], element@));
                        },
                        _ => {},
                    }
                    i += 1;
                }
                if !found {
                    set.push(copy_data(&element));
                    assert(data_seq_view(set@) =~= set0.push(element@));
                }
                let ghost s2 = distinct_after(set0, element@);
                assert(data_seq_view(set@) == s2);
                if set.len() > self.config.exact_limit {
                    let mut hll = HyperLogLog::new(self.config.hll_p);
                    let ghost zeros = hll.spec_registers();
                    let mut k: usize = 0;
                    while k < set.len()
                        invariant
                            k <= set@.len(),
                            hll.wf(),
                            hll.spec_p() == self.config.hll_p,
                            s2 == data_seq_view(set@),
                            hll.spec_registers() == registers_of_all(zeros, s2.subrange(0, k as int), self.config.hll_p),
                        decreases set.len() - k,
                    {
                        hll.add(&set[k]);
                        assert(s2.subrange(0, k + 1).drop_last() =~= s2.subrange(0, k as int));
                        k += 1;
                    }
                    assert(s2.subrange(0, k as int) =~= s2);
                    self.approx_distinct = Some(hll);
                } else {
                    self.exact_distinct = Some(set);
                }
            },
            None => {
                match &mut self.approx_distinct {
                    Some(h) => h.add(&element),
                    None => {},
                }
            },
        }
        self.last_element = Some(element);
    }

    /// Counts one more value of the column.
    pub fn update(&mut self, element: Data)
        requires
            old(self).wf(),
            old(self).total() < u64::MAX,
        ensures
            final(self).wf(),
            final(self).spec_config() == old(self).spec_config(),
            final(self).total() == old(self).total() + 1,
            final(self).lower() == Some(match old(self).lower() {
                Some(b) => if value_partial_order(element@, b) == Some(Comparison::Less) { element@ } else { b },
                None => element@,
            }),
            final(self).upper() == Some(match old(self).upper() {
                Some(b) => if value_partial_order(element@, b) == Some(Comparison::Greater) { element@ } else { b },
                None => element@,
            }),
            final(self).ordered() == (old(self).ordered() && !(old(self).last() matches Some(l)
                && value_partial_order(l, element@) == Some(Comparison::Greater))),
            final(self).last() == Some(element@),
            old(self).sample().len() < old(self).spec_config().reservoir_capacity ==> final(self).sample()
                == old(self).sample().push(element@),
            old(self).sample().len() >= old(self).spec_config().reservoir_capacity ==> (final(self).sample()
                == old(self).sample() || exists|j: int| 0 <= j < old(self).sample().len() && final(self).sample()
                == old(self).sample().update(j, element@)),
            old(self).exact() matches Some(set) ==> ({
                let s2 = distinct_after(set, element@);
                if s2.len() > old(self).spec_config().exact_limit {
                    &&& final(self).exact() is None
                    &&& final(self).approx() == Some(registers_of_all(
                        Seq::new(vstd::arithmetic::power2::pow2(old(self).spec_config().hll_p as nat), |i: int| 0u8),
                        s2,
                        old(self).spec_config().hll_p,
                    ))
                } else {
                    &&& final(self).exact() == Some(s2)
                    &&& final(self).approx() is None
                }
            }),
            old(self).approx() matches Some(regs) ==> final(self).exact() is None && final(self).approx() == Some(
                registers_after(regs, DefaultHasher::spec_finish(hash_writes(element@)), old(self).spec_config().hll_p)),
    {
        let draw = if self.reservoir.len() < self.config.reservoir_capacity {
            0
        } else {
            random_below(self.total_count + 1)
        };
        self.update_with_draw(element, draw);
    }


    /// What has been gathered, handed over to build the statistics.
    pub fn into_parts(self) -> (r: StatsParts)
        requires
            self.wf(),
        ensures
            r.config == self.spec_config(),
            r.is_physically_ordered == self.ordered(),
            r.total_count == self.total(),
            opt_view(r.last_element) == self.last(),
            opt_view(r.lower_bound) == self.lower(),
            opt_view(r.upper_bound) == self.upper(),
            data_seq_view(r.reservoir@) == self.sample(),
            match r.exact_distinct {
                Some(v) => self.exact() == Some(data_seq_view(v@)),
                None => self.exact() is None,
            },
            match r.approx_registers {
                Some(regs) => self.approx() == Some(regs@),
                None => self.approx() is None,
            },
    {
        let approx_registers = match &self.approx_distinct {
            Some(h) => Some(crate::data::copy_bytes(h.registers())),
            None => None,
        };
        StatsParts {
            config: self.config,
            is_physically_ordered: self.is_physically_ordered,
            total_count: self.total_count,
            last_element: self.last_element,
            lower_bound: self.lower_bound,
            upper_bound: self.upper_bound,
            reservoir: self.reservoir,
            exact_distinct: self.exact_distinct,
            approx_registers,
        }
    }
}

} // verus!
