//! Whether a configuration fits in memory, decided before the first allocation.
//!
//! What a configuration needs is predicted class by class: weights, the key-value cache,
//! convolution state, activations and scratch. It is admitted where the classes together stay
//! within a budget, and what the budget leaves over bounds everything that no class names. A
//! refusal reports the arithmetic and what could be given up; nothing is reduced silently.

use vstd::prelude::*;

use crate::buffer_pool::PoolOccupancySnapshot;
use crate::scratch::{PartialsGeometry, Sizing};
use crate::sums;
use crate::text;

verus! {

/// Bytes of key-value cache per token: keys and values, 8 heads of 64 dimensions, 2 bytes each,
/// over 8 attention layers.
pub const KV_BYTES_PER_TOKEN: u64 = 16_384;

/// Bytes of convolution state per sequence: 22 layers of 2048 channels, 3 steps, 2 bytes each.
pub const CONV_STATE_BYTES: u64 = 270_336;

/// Bytes of the activation arena per sequence where one token is processed at a time, as
/// measured. Activations of longer passes are another quantity.
pub const ACTIVATION_ARENA_BYTES: u64 = 69_632;

/// The most that released buffers were measured to strand, over 400 tokens. A residual below this
/// can be exhausted by an allocation shape that was observed.
pub const OBSERVED_STRANDING_BYTES: u64 = 8_398_000_000;

/// How far a prediction of the weights may be off. Well above what is known to be unaccounted for,
/// and well below the smallest component that a caller could forget.
pub const WEIGHT_RECONCILE_TOLERANCE: u64 = 256_000_000;

/// Attention layers that hold a key-value cache.
pub const N_ATTENTION_LAYERS: u64 = 8;

/// The geometry of a model, for the class whose size depends on it.
#[derive(Clone, Copy, Debug, PartialEq, Eq, Structural)]
pub struct PrefillGeometry {
    pub attention_layers: u64,
    pub conv_layers: u64,
    /// Query heads, not the heads of the cache: scores are formed after the expansion.
    pub query_heads: u64,
    pub head_dim: u64,
    pub hidden: u64,
    pub intermediate: u64,
}

impl Default for PrefillGeometry {
    fn default() -> (g: Self)
        ensures
            g == PrefillGeometry::measured(),
    {
        PrefillGeometry {
            attention_layers: 8,
            conv_layers: 22,
            query_heads: 32,
            head_dim: 64,
            hidden: 2048,
            intermediate: 10752,
        }
    }
}

impl PrefillGeometry {
    /// The geometry of the model that the measured figures are of.
    pub open spec fn measured() -> PrefillGeometry {
        PrefillGeometry {
            attention_layers: 8,
            conv_layers: 22,
            query_heads: 32,
            head_dim: 64,
            hidden: 2048,
            intermediate: 10752,
        }
    }

    /// Elements of a tensor that holds a vector per head and token.
    pub open spec fn heads(self, p: int, batch: int) -> int {
        (batch * self.query_heads) * (p * self.head_dim)
    }

    /// Elements of a tensor that holds a score per head and pair of tokens.
    pub open spec fn scores(self, p: int, batch: int) -> int {
        (batch * self.query_heads) * (p * p)
    }

    /// One attention layer: keys and values expanded to the query heads, queries, keys and values
    /// at four bytes, the scores three times over, a causal mask of one byte, and the output.
    pub open spec fn attention_bytes(self, p: int, batch: int) -> int {
        2 * self.heads(p, batch) * 2 + 3 * self.heads(p, batch) * 4 + 3 * self.scores(p, batch) * 4
            + p * p + self.heads(p, batch) * 2
    }

    /// One convolution layer: the input projection, which is three times as wide, and two results.
    pub open spec fn conv_bytes(self, p: int, batch: int) -> int {
        (batch * p) * (3 * self.hidden * 2) + (batch * p) * (2 * self.hidden * 2)
    }

    /// The feed-forward part of a layer: gate, up and their product, and the output.
    pub open spec fn mlp_bytes(self, p: int, batch: int) -> int {
        (batch * p) * (3 * self.intermediate * 2) + (batch * p) * (self.hidden * 2)
    }

    /// What the activations of one pass over `p` tokens take. Layers do not share: what one has
    /// used comes back only once the device is done with it.
    pub open spec fn pass_bytes(self, p: int, batch: int) -> int {
        self.attention_layers * self.attention_bytes(p, batch) + self.conv_layers * self.conv_bytes(
            p,
            batch,
        ) + (self.attention_layers + self.conv_layers) * self.mlp_bytes(p, batch)
    }

    /// What the activations take: the measured arena for one token, a pass otherwise.
    pub open spec fn activation_bytes(self, seq_len: int, batch: int) -> int {
        if seq_len <= 1 {
            batch * ACTIVATION_ARENA_BYTES
        } else {
            self.pass_bytes(seq_len, batch)
        }
    }

    /// Every term of that sum is a number of 64 bits, and so is the sum.
    pub open spec fn countable(self, seq_len: int, batch: int) -> bool {
        &&& self.activation_bytes(seq_len, batch) <= u64::MAX
        &&& seq_len > 1 ==> self.attention_bytes(seq_len, batch) <= u64::MAX && self.conv_bytes(
            seq_len,
            batch,
        ) <= u64::MAX && self.mlp_bytes(seq_len, batch) <= u64::MAX
    }
}

proof fn lemma_product_grows(a: int, b: int, c: int, d: int)
    requires
        0 <= a <= b,
        0 <= c <= d,
    ensures
        0 <= a * c <= b * d,
{
    assert(0 <= a * c <= b * d) by (nonlinear_arith)
        requires
            0 <= a <= b,
            0 <= c <= d,
    ;
}

/// Each term grows with the length of the pass.
proof fn lemma_terms_grow(g: PrefillGeometry, p: int, q: int, batch: int)
    requires
        0 <= p <= q,
        0 <= batch,
    ensures
        0 <= g.heads(p, batch) <= g.heads(q, batch),
        0 <= g.scores(p, batch) <= g.scores(q, batch),
        0 <= p * p <= q * q,
        0 <= g.attention_bytes(p, batch) <= g.attention_bytes(q, batch),
        0 <= g.conv_bytes(p, batch) <= g.conv_bytes(q, batch),
        0 <= g.mlp_bytes(p, batch) <= g.mlp_bytes(q, batch),
        0 <= g.pass_bytes(p, batch) <= g.pass_bytes(q, batch),
{
    let rows = batch * g.query_heads;
    lemma_product_grows(batch, batch, g.query_heads as int, g.query_heads as int);
    lemma_product_grows(p, q, g.head_dim as int, g.head_dim as int);
    lemma_product_grows(p, q, p, q);
    lemma_product_grows(rows, rows, p * g.head_dim, q * g.head_dim);
    lemma_product_grows(rows, rows, p * p, q * q);
    lemma_product_grows(batch, batch, p, q);
    lemma_product_grows(batch * p, batch * q, 3 * g.hidden * 2, 3 * g.hidden * 2);
    lemma_product_grows(batch * p, batch * q, 2 * g.hidden * 2, 2 * g.hidden * 2);
    lemma_product_grows(batch * p, batch * q, 3 * g.intermediate * 2, 3 * g.intermediate * 2);
    lemma_product_grows(batch * p, batch * q, g.hidden * 2, g.hidden * 2);
    let al = g.attention_layers as int;
    let cl = g.conv_layers as int;
    lemma_product_grows(al, al, g.attention_bytes(p, batch), g.attention_bytes(q, batch));
    lemma_product_grows(cl, cl, g.conv_bytes(p, batch), g.conv_bytes(q, batch));
    lemma_product_grows(al + cl, al + cl, g.mlp_bytes(p, batch), g.mlp_bytes(q, batch));
}

/// A longer pass never takes less.
pub proof fn law_activations_grow_with_the_pass(g: PrefillGeometry, p: int, q: int, batch: int)
    requires
        2 <= p <= q,
        0 <= batch,
    ensures
        g.activation_bytes(p, batch) <= g.activation_bytes(q, batch),
{
    lemma_terms_grow(g, p, q, batch);
}

/// A product that is known to stay within 64 bits.
fn narrow_product(a: u128, b: u128) -> (p: u64)
    requires
        a * b <= u64::MAX,
    ensures
        p == a * b,
{
    (a * b) as u64
}

/// What the activations take, for a pass over `seq_len` tokens of `batch` sequences.
pub fn prefill_activation_bytes(seq_len: u64, batch: u64, geom: PrefillGeometry) -> (n: u64)
    requires
        geom.countable(seq_len as int, batch as int),
    ensures
        n == geom.activation_bytes(seq_len as int, batch as int),
{
    if seq_len <= 1 {
        return batch * ACTIVATION_ARENA_BYTES;
    }
    proof {
        lemma_terms_grow(geom, seq_len as int, seq_len as int, batch as int);
        let p = seq_len as int;
        let b = batch as int;
        lemma_product_grows(b, b, p, p);
        lemma_product_grows(b * p, b * p, 3 * geom.hidden * 2, 3 * geom.hidden * 2);
        lemma_product_grows(b * p, b * p, 2 * geom.hidden * 2, 2 * geom.hidden * 2);
        lemma_product_grows(b * p, b * p, 3 * geom.intermediate * 2, 3 * geom.intermediate * 2);
        lemma_product_grows(b * p, b * p, geom.hidden * 2, geom.hidden * 2);
        let al = geom.attention_layers as int;
        let cl = geom.conv_layers as int;
        lemma_product_grows(al, al, geom.attention_bytes(p, b), geom.attention_bytes(p, b));
        lemma_product_grows(cl, cl, geom.conv_bytes(p, b), geom.conv_bytes(p, b));
        lemma_product_grows(al + cl, al + cl, geom.mlp_bytes(p, b), geom.mlp_bytes(p, b));
    }
    let rows: u128 = sums::product(batch, geom.query_heads);
    let square: u128 = sums::product(seq_len, seq_len);
    let heads: u64 = narrow_product(rows, sums::product(seq_len, geom.head_dim));
    let scores: u64 = narrow_product(rows, square);
    let tokens: u128 = sums::product(batch, seq_len);
    let hidden: u128 = geom.hidden as u128;
    let attn: u64 = 2 * heads * 2 + 3 * heads * 4 + 3 * scores * 4 + square as u64 + heads * 2;
    let conv: u64 = narrow_product(tokens, 3 * hidden * 2) + narrow_product(tokens, 2 * hidden * 2);
    let mlp: u64 = narrow_product(tokens, 3 * geom.intermediate as u128 * 2) + narrow_product(
        tokens,
        hidden * 2,
    );
    let layers: u128 = geom.attention_layers as u128 + geom.conv_layers as u128;
    narrow_product(geom.attention_layers as u128, attn as u128) + narrow_product(
        geom.conv_layers as u128,
        conv as u128,
    ) + narrow_product(layers, mlp as u128)
}

/// The activations without a bound on their size, and whether each term of them is a number of 64
/// bits.
fn measure_activations(seq_len: u64, batch: u64, geom: PrefillGeometry) -> (r: (sums::Capped, bool))
    ensures
        r.0@ == geom.activation_bytes(seq_len as int, batch as int),
        r.1 && r.0@ <= u64::MAX <==> geom.countable(seq_len as int, batch as int),
{
    let b = sums::Capped::of(batch);
    if seq_len <= 1 {
        return (b.times(sums::Capped::of(ACTIVATION_ARENA_BYTES)), true);
    }
    let p = sums::Capped::of(seq_len);
    let rows = b.times(sums::Capped::of(geom.query_heads));
    let square = p.times(p);
    let heads = rows.times(p.times(sums::Capped::of(geom.head_dim)));
    let scores = rows.times(square);
    let tokens = b.times(p);
    let hidden = sums::Capped::of(geom.hidden);
    let intermediate = sums::Capped::of(geom.intermediate);
    let attn = heads.times(sums::Capped::of(18)).plus(scores.times(sums::Capped::of(12))).plus(
        square,
    );
    let conv = tokens.times(hidden.times(sums::Capped::of(6))).plus(
        tokens.times(hidden.times(sums::Capped::of(4))),
    );
    let mlp = tokens.times(intermediate.times(sums::Capped::of(6))).plus(
        tokens.times(hidden.times(sums::Capped::of(2))),
    );
    let attention_layers = sums::Capped::of(geom.attention_layers);
    let conv_layers = sums::Capped::of(geom.conv_layers);
    let all = attention_layers.times(attn).plus(conv_layers.times(conv)).plus(
        attention_layers.plus(conv_layers).times(mlp),
    );
    assert(attn@ == geom.attention_bytes(seq_len as int, batch as int));
    assert(conv@ == geom.conv_bytes(seq_len as int, batch as int));
    assert(mlp@ == geom.mlp_bytes(seq_len as int, batch as int));
    (all, attn.fits() && conv.fits() && mlp.fits())
}

/// What a configuration is predicted to need, class by class, in bytes.
///
/// The buffer pool is no class of its own: it is where weights, cache and scratch are served from.
#[derive(Clone, Copy, Debug, PartialEq, Eq, Structural)]
pub struct Footprint {
    pub weights: u64,
    /// The key-value cache, as reserved.
    pub kv: u64,
    /// Convolution state.
    pub conv: u64,
    pub activations: u64,
    /// Partial results of attention.
    pub scratch: u64,
}

impl Default for Footprint {
    fn default() -> (f: Self)
        ensures
            f == (Footprint { weights: 0, kv: 0, conv: 0, activations: 0, scratch: 0 }),
    {
        Footprint { weights: 0, kv: 0, conv: 0, activations: 0, scratch: 0 }
    }
}

impl Footprint {
    pub open spec fn total(self) -> int {
        self.weights + self.kv + self.conv + self.activations + self.scratch
    }

    /// The predicted peak: the five classes together.
    pub fn predicted(&self) -> (n: u64)
        requires
            self.total() <= u64::MAX,
        ensures
            n == self.total(),
    {
        self.weights + self.kv + self.conv + self.activations + self.scratch
    }
}

/// The configuration that admission is asked about.
#[derive(Clone, Copy, Debug, PartialEq, Eq, Structural)]
pub struct Budget {
    /// Sequences at a time.
    pub batch: u64,
    /// Tokens of cache reserved per sequence.
    pub kv_capacity: u64,
    /// The context that scratch is sized for.
    pub max_context: u64,
    pub weights: u64,
    /// Convolution state per sequence.
    pub conv_state_bytes: u64,
    pub scratch_sizing: Sizing,
    pub partials: PartialsGeometry,
    /// The longest single pass that will run: 1 where tokens are decoded one by one, the prompt's
    /// length where it is processed at once, the chunk's where it is processed in chunks.
    pub max_seq_len: u64,
    pub prefill_geometry: PrefillGeometry,
}

impl Budget {
    pub open spec fn kv_bytes(self) -> int {
        self.batch * self.kv_capacity * KV_BYTES_PER_TOKEN
    }

    pub open spec fn conv_bytes(self) -> int {
        self.batch * self.conv_state_bytes
    }

    /// The geometry that scratch is sized from, with this configuration's batch.
    pub open spec fn batched_partials(self) -> PartialsGeometry {
        PartialsGeometry { batch: self.batch, ..self.partials }
    }

    /// The chunks that the context begins.
    pub open spec fn scratch_chunks(self) -> int {
        self.batched_partials().spec_chunks(self.max_context as int)
    }

    /// Scratch is predicted at its largest, whatever the sizing.
    pub open spec fn scratch_bytes(self) -> int {
        N_ATTENTION_LAYERS * self.batched_partials().spec_partials_bytes(
            self.batched_partials().spec_chunks(self.max_context as int),
        )
    }

    pub open spec fn activation_bytes(self) -> int {
        self.prefill_geometry.activation_bytes(self.max_seq_len as int, self.batch as int)
    }

    /// Every class, and all of them together, is a number of 64 bits.
    pub open spec fn countable(self) -> bool {
        &&& self.partials.chunk_tokens > 0
        &&& self.prefill_geometry.countable(self.max_seq_len as int, self.batch as int)
        &&& self.weights + self.kv_bytes() + self.conv_bytes() + self.activation_bytes()
            + self.scratch_bytes() <= u64::MAX
    }

    /// The classes of this configuration.
    pub open spec fn spec_footprint(self) -> Footprint {
        Footprint {
            weights: self.weights,
            kv: self.kv_bytes() as u64,
            conv: self.conv_bytes() as u64,
            activations: self.activation_bytes() as u64,
            scratch: self.scratch_bytes() as u64,
        }
    }

    /// One sequence, decoded token by token, with the figures of the measured model.
    pub fn new(weights: u64, kv_capacity: u64, max_context: u64) -> (b: Self)
        ensures
            b == (Budget {
                batch: 1,
                kv_capacity,
                max_context,
                weights,
                conv_state_bytes: CONV_STATE_BYTES,
                scratch_sizing: Sizing::Reserve,
                partials: PartialsGeometry {
                    batch: 1,
                    n_heads: 32,
                    head_dim: 64,
                    chunk_tokens: 256,
                },
                max_seq_len: 1,
                prefill_geometry: PrefillGeometry::measured(),
            }),
    {
        Budget {
            batch: 1,
            kv_capacity,
            max_context,
            weights,
            conv_state_bytes: CONV_STATE_BYTES,
            scratch_sizing: Sizing::Reserve,
            partials: PartialsGeometry::default(),
            max_seq_len: 1,
            prefill_geometry: PrefillGeometry::default(),
        }
    }

    /// The same, for a single pass over `seq_len` tokens.
    pub fn with_prefill(self, seq_len: u64) -> (b: Self)
        ensures
            b == (Budget { max_seq_len: seq_len, ..self }),
    {
        Budget { max_seq_len: seq_len, ..self }
    }

    /// The five classes.
    pub fn footprint(&self) -> (f: Footprint)
        requires
            self.countable(),
        ensures
            f == self.spec_footprint(),
            f.total() <= u64::MAX,
            f.kv == self.kv_bytes(),
            f.conv == self.conv_bytes(),
            f.activations == self.activation_bytes(),
            f.scratch == self.scratch_bytes(),
    {
        let partials = PartialsGeometry {
            batch: self.batch,
            n_heads: self.partials.n_heads,
            head_dim: self.partials.head_dim,
            chunk_tokens: self.partials.chunk_tokens,
        };
        let chunks: u64 = partials.chunks(self.max_context);
        proof {
            let b = self.batch as int;
            lemma_product_grows(b, b, self.kv_capacity as int, self.kv_capacity as int);
            lemma_product_grows(b, b, self.conv_state_bytes as int, self.conv_state_bytes as int);
            lemma_partials_positive(partials, chunks as int);
            lemma_terms_grow(self.prefill_geometry, self.max_seq_len as int, self.max_seq_len as int, b);
        }
        Footprint {
            weights: self.weights,
            kv: self.batch * self.kv_capacity * KV_BYTES_PER_TOKEN,
            conv: self.batch * self.conv_state_bytes,
            activations: prefill_activation_bytes(
                self.max_seq_len,
                self.batch,
                self.prefill_geometry,
            ),
            scratch: N_ATTENTION_LAYERS * partials.partials_bytes(chunks),
        }
    }

    /// Whether the footprint of this configuration can be counted at all.
    pub fn is_countable(&self) -> (b: bool)
        ensures
            b == self.countable(),
    {
        if self.partials.chunk_tokens == 0 {
            return false;
        }
        let (activations, terms) = measure_activations(
            self.max_seq_len,
            self.batch,
            self.prefill_geometry,
        );
        let batch = sums::Capped::of(self.batch);
        let kv = batch.times(sums::Capped::of(self.kv_capacity)).times(
            sums::Capped::of(KV_BYTES_PER_TOKEN),
        );
        let conv = batch.times(sums::Capped::of(self.conv_state_bytes));
        let partials = PartialsGeometry { batch: self.batch, ..self.partials };
        let chunks: u64 = partials.chunks(self.max_context);
        let row = sums::Capped::of(partials.head_dim).plus(sums::Capped::of(2));
        let layer = batch.times(sums::Capped::of(partials.n_heads)).times(
            sums::Capped::of(chunks),
        ).times(row).times(sums::Capped::of(4));
        let scratch = sums::Capped::of(N_ATTENTION_LAYERS).times(layer);
        let all = sums::Capped::of(self.weights).plus(kv).plus(conv).plus(activations).plus(scratch);
        assert(all@ == self.weights + self.kv_bytes() + self.conv_bytes() + self.activation_bytes()
            + self.scratch_bytes());
        terms && all.fits()
    }

    /// Hold this configuration against `budget` bytes, a part of the `working_set` bytes that the
    /// device recommends to use at most.
    pub fn evaluate(&self, working_set: u64, budget: u64) -> (a: Admission)
        requires
            self.countable(),
        ensures
            a == (Admission {
                footprint: self.spec_footprint(),
                budget,
                working_set,
                residual: if budget >= self.spec_footprint().total() {
                    (budget - self.spec_footprint().total()) as u64
                } else {
                    0
                },
                fits: self.spec_footprint().total() <= budget,
                max_seq_len: self.max_seq_len,
                prefill_geometry: self.prefill_geometry,
                batch: self.batch,
            }),
            a.consistent(),
    {
        let footprint = self.footprint();
        let predicted: u64 = footprint.predicted();
        Admission {
            footprint,
            budget,
            working_set,
            residual: budget.saturating_sub(predicted),
            fits: predicted <= budget,
            max_seq_len: self.max_seq_len,
            prefill_geometry: self.prefill_geometry,
            batch: self.batch,
        }
    }
}

proof fn lemma_partials_positive(g: PartialsGeometry, chunks: int)
    requires
        chunks >= 0,
    ensures
        g.spec_partials_bytes(chunks) >= 0,
{
    lemma_product_grows(g.batch as int, g.batch as int, g.n_heads as int, g.n_heads as int);
    let rows = g.batch * g.n_heads;
    lemma_product_grows(rows, rows, chunks, chunks);
    lemma_product_grows(rows * chunks, rows * chunks, g.head_dim + 2, g.head_dim + 2);
}

/// The verdict, with the arithmetic that produced it.
#[derive(Clone, Copy, Debug, PartialEq, Eq, Structural)]
pub struct Admission {
    pub footprint: Footprint,
    /// What the process may claim.
    pub budget: u64,
    /// What the device recommends to use at most.
    pub working_set: u64,
    /// What the budget leaves over: the bound on everything that the five classes do not name.
    pub residual: u64,
    pub fits: bool,
    /// The length of the pass that the verdict is for, with the geometry and the batch, so that a
    /// refusal can say which length would fit.
    pub max_seq_len: u64,
    pub prefill_geometry: PrefillGeometry,
    pub batch: u64,
}

impl Admission {
    /// The parts agree with one another.
    pub open spec fn consistent(self) -> bool {
        &&& self.footprint.total() <= u64::MAX
        &&& self.fits == (self.footprint.total() <= self.budget)
        &&& self.residual == (if self.fits {
            self.budget - self.footprint.total()
        } else {
            0
        })
        &&& self.footprint.activations == self.activations_at(self.max_seq_len as int)
        &&& self.prefill_geometry.countable(self.max_seq_len as int, self.batch as int)
    }

    /// The activations of a pass of another length.
    pub open spec fn activations_at(self, seq_len: int) -> int {
        self.prefill_geometry.activation_bytes(seq_len, self.batch as int)
    }

    /// What the budget leaves for activations.
    pub open spec fn headroom(self) -> int {
        let others = self.footprint.total() - self.footprint.activations;
        if self.budget >= others {
            self.budget - others
        } else {
            0
        }
    }

    /// All the classes, for a pass of another length.
    pub open spec fn total_at(self, seq_len: int) -> int {
        self.footprint.total() - self.footprint.activations + self.activations_at(seq_len)
    }

    /// What the budget leaves over, below zero where it is exceeded.
    pub fn residual_signed(&self) -> (n: i128)
        requires
            self.footprint.total() <= u64::MAX,
        ensures
            n == self.budget - self.footprint.total(),
    {
        self.budget as i128 - self.footprint.predicted() as i128
    }

    /// Whether it fits, and leaves less over than an observed allocation shape can consume.
    pub fn is_tight(&self) -> (b: bool)
        ensures
            b == (self.fits && self.residual < OBSERVED_STRANDING_BYTES),
    {
        self.fits && self.residual < OBSERVED_STRANDING_BYTES
    }

    /// `chunk` is the longest pass whose activations fit; 1 where no longer one does.
    pub open spec fn is_longest_chunk(self, chunk: int) -> bool {
        &&& 1 <= chunk <= self.max_seq_len
        &&& chunk > 1 ==> self.activations_at(chunk) <= self.headroom()
        &&& chunk < self.max_seq_len ==> self.activations_at(chunk + 1) > self.headroom()
    }

    /// The longest pass whose activations fit. The class grows with the length, so a bisection is
    /// exact to one token.
    pub fn longest_chunk(&self) -> (chunk: u64)
        requires
            self.consistent(),
            self.max_seq_len >= 1,
        ensures
            self.is_longest_chunk(chunk as int),
    {
        let others: u64 = self.footprint.predicted() - self.footprint.activations;
        let headroom: u64 = self.budget.saturating_sub(others);
        let mut lo: u64 = 1;
        let mut hi: u64 = self.max_seq_len;
        while lo < hi
            invariant
                self.consistent(),
                headroom == self.headroom(),
                1 <= lo <= hi <= self.max_seq_len,
                lo > 1 ==> self.activations_at(lo as int) <= headroom,
                hi < self.max_seq_len ==> self.activations_at(hi + 1) > headroom,
            decreases hi - lo,
        {
            let mid: u64 = lo + ((hi - lo) / 2 + (hi - lo) % 2);
            proof {
                lemma_terms_grow(
                    self.prefill_geometry,
                    mid as int,
                    self.max_seq_len as int,
                    self.batch as int,
                );
            }
            let need: u64 = prefill_activation_bytes(mid, self.batch, self.prefill_geometry);
            if need <= headroom {
                lo = mid;
            } else {
                hi = mid - 1;
            }
        }
        lo
    }
}

/// There is one longest chunk.
proof fn lemma_one_longest_chunk(a: Admission, c: int, d: int)
    requires
        a.is_longest_chunk(c),
        a.is_longest_chunk(d),
    ensures
        c == d,
{
    if c < d {
        lemma_terms_grow(a.prefill_geometry, c + 1, d, a.batch as int);
    } else if d < c {
        lemma_terms_grow(a.prefill_geometry, d + 1, c, a.batch as int);
    }
}

/// The classes in the order of a report: their names.
pub open spec fn class_name(i: int) -> Seq<char> {
    if i == 0 {
        "weights"@
    } else if i == 1 {
        "KV"@
    } else if i == 2 {
        "scratch"@
    } else if i == 3 {
        "conv"@
    } else {
        "act"@
    }
}

impl Footprint {
    /// The classes in the order of a report: their bytes.
    pub open spec fn class(self, i: int) -> u64 {
        if i == 0 {
            self.weights
        } else if i == 1 {
            self.kv
        } else if i == 2 {
            self.scratch
        } else if i == 3 {
            self.conv
        } else {
            self.activations
        }
    }

    /// Class `i` is the largest, and the last of those as large.
    pub open spec fn is_dominant(self, i: int) -> bool {
        &&& 0 <= i < 5
        &&& forall|j: int| 0 <= j < 5 ==> #[trigger] self.class(j) <= self.class(i)
        &&& forall|j: int| i < j < 5 ==> #[trigger] self.class(j) < self.class(i)
    }

    proof fn lemma_one_dominant(self, i: int, j: int)
        requires
            0 <= i < 5,
            self.is_dominant(j),
        ensures
            self.is_dominant(i) <==> i == j,
    {
        if self.is_dominant(i) {
            assert(self.class(i) <= self.class(j));
            assert(self.class(j) <= self.class(i));
        }
    }

    fn dominant(&self) -> (i: usize)
        ensures
            self.is_dominant(i as int),
    {
        let mut i: usize = 0;
        let mut most: u64 = self.weights;
        if self.kv >= most {
            i = 1;
            most = self.kv;
        }
        if self.scratch >= most {
            i = 2;
            most = self.scratch;
        }
        if self.conv >= most {
            i = 3;
            most = self.conv;
        }
        if self.activations >= most {
            i = 4;
        }
        i
    }

    /// The line of class `i`, marked where it is the dominant one.
    pub open spec fn class_line(self, i: int) -> Seq<char> {
        "    "@ + text::left_aligned(class_name(i), 9) + " "@ + text::right_aligned(
            text::gb_text(self.class(i) as int, 2),
            7,
        ) + " GB"@ + (if self.is_dominant(i) {
            "   <- dominant"@
        } else {
            Seq::empty()
        }) + "\n"@
    }

    fn push_class_line(&self, s: &mut String, name: &str, bytes: u64, dominant: bool, Ghost(i): Ghost<int>)
        requires
            name@ == class_name(i),
            bytes == self.class(i),
            dominant == self.is_dominant(i),
        ensures
            final(s)@ == old(s)@ + self.class_line(i),
    {
        s.push_str("    ");
        text::push_left(s, name, 9);
        s.push_str(" ");
        text::push_gb_right(s, bytes, 7);
        s.push_str(" GB");
        if dominant {
            s.push_str("   <- dominant");
        }
        s.push_str("\n");
        assert(s@ =~= old(s)@ + self.class_line(i));
    }

    /// The lines of the five classes.
    pub open spec fn class_lines(self) -> Seq<char> {
        self.class_line(0) + self.class_line(1) + self.class_line(2) + self.class_line(3)
            + self.class_line(4)
    }

    fn push_class_lines(&self, s: &mut String, dominant: usize)
        requires
            self.is_dominant(dominant as int),
        ensures
            final(s)@ == old(s)@ + self.class_lines(),
    {
        proof {
            assert forall|i: int| 0 <= i < 5 implies (#[trigger] self.is_dominant(i) <==> i == dominant) by {
                self.lemma_one_dominant(i, dominant as int);
            }
        }
        self.push_class_line(s, "weights", self.weights, dominant == 0, Ghost(0));
        self.push_class_line(s, "KV", self.kv, dominant == 1, Ghost(1));
        self.push_class_line(s, "scratch", self.scratch, dominant == 2, Ghost(2));
        self.push_class_line(s, "conv", self.conv, dominant == 3, Ghost(3));
        self.push_class_line(s, "act", self.activations, dominant == 4, Ghost(4));
        proof {
            lemma_five_pieces(
                old(s)@,
                self.class_line(0),
                self.class_line(1),
                self.class_line(2),
                self.class_line(3),
                self.class_line(4),
            );
        }
    }
}

proof fn lemma_five_pieces(
    s: Seq<char>,
    a: Seq<char>,
    b: Seq<char>,
    c: Seq<char>,
    d: Seq<char>,
    e: Seq<char>,
)
    ensures
        s + a + b + c + d + e == s + (a + b + c + d + e),
{
    assert(s + a + b + c + d + e =~= s + (a + b + c + d + e));
}

impl Admission {
    /// The longest pass whose activations fit; 1 where no longer one does.
    pub open spec fn chunk(self) -> int {
        choose|c: int| #[trigger] self.is_longest_chunk(c)
    }

    /// A refusal is told which pass length would fit: activations weigh most, there is a length to
    /// give up, and with a shorter one the whole stays within the budget.
    pub open spec fn offers_chunks(self) -> bool {
        &&& self.footprint.is_dominant(4)
        &&& self.max_seq_len > 1
        &&& self.total_at(self.chunk()) <= self.budget
    }

    /// The report of an admission: what is left, and what it is held against.
    pub open spec fn welcome(self) -> Seq<char> {
        "memory budget OK: predicted peak "@ + text::gb_text(self.footprint.total(), 2)
            + " GB, budget "@ + text::gb_text(self.budget as int, 2) + " GB\n  residual "@
            + text::gb_text(self.residual as int, 2)
            + " GB   for pool, intermediates, and anything unplanned\n"@ + text::spaces(24)
            + "(§6.3b's stranding is "@ + text::gb_text(OBSERVED_STRANDING_BYTES as int, 2)
            + " GB over 400 tokens)"@ + (if self.fits && self.residual < OBSERVED_STRANDING_BYTES {
            "\n  TIGHT: the residual is below a stranding figure this project has measured."@
        } else {
            Seq::empty()
        })
    }

    /// The first lines of a refusal: the arithmetic.
    pub open spec fn refusal(self, fraction: Seq<char>) -> Seq<char> {
        "memory budget exceeded: predicted peak "@ + text::gb_text(self.footprint.total(), 2)
            + " GB > budget "@ + text::gb_text(self.budget as int, 2) + " GB\n  ("@ + fraction
            + " x recommendedMaxWorkingSetSize = "@ + text::gb_text(self.working_set as int, 2)
            + " GB)\n"@
    }

    /// How far over the budget it is.
    pub open spec fn shortfall(self) -> Seq<char> {
        "  residual "@ + text::right_aligned(
            "-"@ + text::gb_text(self.footprint.total() - self.budget, 2),
            7,
        ) + " GB   budget - predicted   <- NEGATIVE: nothing left to allocate into\n"@
            + "  reductions that would fit, in order of what they cost:\n"@
    }

    /// The chunk that would fit, where activations weigh most and there is one.
    pub open spec fn chunk_offer(self) -> Seq<char> {
        if self.offers_chunks() {
            let chunk = self.chunk();
            "    chunk the prefill at "@ + text::decimal(chunk as nat) + " tokens   frees "@
                + text::right_aligned(
                text::gb_text(self.footprint.activations - self.activations_at(chunk), 2),
                6,
            ) + " GB   (§13.2b; kv_len grows by chunk, §4.1)\n"@
        } else {
            Seq::empty()
        }
    }

    /// What else could be given up.
    pub open spec fn other_offers(self) -> Seq<char> {
        let f = self.footprint;
        "    halve max_context             frees "@ + text::right_aligned(
            text::gb_text(f.kv as int / 2 + f.scratch as int / 2, 2),
            6,
        ) + " GB\n"@ + "    halve B                       frees "@ + text::right_aligned(
            text::gb_text((f.kv + f.conv + f.activations + f.scratch) / 2, 2),
            6,
        ) + " GB\n"@ + "    scratch Reserve -> Grow       (see §9.1a)\n"@
            + "    text-only (no vision tower)   frees   0.86 GB   (#162)\n"@
    }

    /// The report.
    pub open spec fn report(self, fraction: Seq<char>) -> Seq<char> {
        if self.fits {
            self.welcome()
        } else {
            self.refusal(fraction) + self.footprint.class_lines() + self.shortfall()
                + self.chunk_offer() + self.other_offers()
        }
    }

    fn push_welcome(&self, s: &mut String)
        requires
            self.consistent(),
        ensures
            final(s)@ == old(s)@ + self.welcome(),
    {
        s.push_str("memory budget OK: predicted peak ");
        text::push_gb(s, self.footprint.predicted() as u128, 2);
        s.push_str(" GB, budget ");
        text::push_gb(s, self.budget as u128, 2);
        s.push_str(" GB\n  residual ");
        text::push_gb(s, self.residual as u128, 2);
        s.push_str(" GB   for pool, intermediates, and anything unplanned\n");
        text::push_spaces(s, 24);
        s.push_str("(§6.3b's stranding is ");
        text::push_gb(s, OBSERVED_STRANDING_BYTES as u128, 2);
        s.push_str(" GB over 400 tokens)");
        if self.is_tight() {
            s.push_str(
                "\n  TIGHT: the residual is below a stranding figure this project has measured.",
            );
        }
        assert(s@ =~= old(s)@ + self.welcome());
    }

    fn push_refusal(&self, s: &mut String, fraction: &str)
        requires
            self.consistent(),
        ensures
            final(s)@ == old(s)@ + self.refusal(fraction@),
    {
        s.push_str("memory budget exceeded: predicted peak ");
        text::push_gb(s, self.footprint.predicted() as u128, 2);
        s.push_str(" GB > budget ");
        text::push_gb(s, self.budget as u128, 2);
        s.push_str(" GB\n  (");
        s.push_str(fraction);
        s.push_str(" x recommendedMaxWorkingSetSize = ");
        text::push_gb(s, self.working_set as u128, 2);
        s.push_str(" GB)\n");
        assert(s@ =~= old(s)@ + self.refusal(fraction@));
    }

    fn push_shortfall(&self, s: &mut String)
        requires
            self.consistent(),
            !self.fits,
        ensures
            final(s)@ == old(s)@ + self.shortfall(),
    {
        let mut t = String::new();
        t.push_str("-");
        text::push_gb(&mut t, (self.footprint.predicted() - self.budget) as u128, 2);
        assert(t@ =~= "-"@ + text::gb_text(self.footprint.total() - self.budget, 2));
        s.push_str("  residual ");
        text::push_right(s, t.as_str(), 7);
        s.push_str(" GB   budget - predicted   <- NEGATIVE: nothing left to allocate into\n");
        s.push_str("  reductions that would fit, in order of what they cost:\n");
        assert(s@ =~= old(s)@ + self.shortfall());
    }

    fn push_chunk_offer(&self, s: &mut String)
        requires
            self.consistent(),
            !self.fits,
            self.footprint.is_dominant(4),
            self.max_seq_len > 1,
        ensures
            final(s)@ == old(s)@ + self.chunk_offer(),
    {
        let chunk: u64 = self.longest_chunk();
        proof {
            assert(self.is_longest_chunk(self.chunk()));
            lemma_one_longest_chunk(*self, self.chunk(), chunk as int);
            lemma_terms_grow(
                self.prefill_geometry,
                chunk as int,
                self.max_seq_len as int,
                self.batch as int,
            );
        }
        let others: u64 = self.footprint.predicted() - self.footprint.activations;
        if others > self.budget || chunk == 1 && sums::product(self.batch, ACTIVATION_ARENA_BYTES)
            > (self.budget - others) as u128 {
            assert(s@ =~= old(s)@ + self.chunk_offer());
            return;
        }
        let need: u64 = prefill_activation_bytes(chunk, self.batch, self.prefill_geometry);
        s.push_str("    chunk the prefill at ");
        text::push_u64(s, chunk);
        s.push_str(" tokens   frees ");
        text::push_gb_right(s, self.footprint.activations - need, 6);
        s.push_str(" GB   (§13.2b; kv_len grows by chunk, §4.1)\n");
        assert(s@ =~= old(s)@ + self.chunk_offer());
    }

    fn push_other_offers(&self, s: &mut String)
        requires
            self.consistent(),
        ensures
            final(s)@ == old(s)@ + self.other_offers(),
    {
        let f = self.footprint;
        s.push_str("    halve max_context             frees ");
        text::push_gb_right(s, f.kv / 2 + f.scratch / 2, 6);
        s.push_str(" GB\n");
        s.push_str("    halve B                       frees ");
        text::push_gb_right(s, (f.kv + f.conv + f.activations + f.scratch) / 2, 6);
        s.push_str(" GB\n");
        s.push_str("    scratch Reserve -> Grow       (see §9.1a)\n");
        s.push_str("    text-only (no vision tower)   frees   0.86 GB   (#162)\n");
        assert(s@ =~= old(s)@ + self.other_offers());
    }

    /// The report: the residual where the configuration is admitted, and the classes with what
    /// could be given up where it is refused. `fraction` is the part of the working set that the
    /// budget is, in words.
    pub fn describe(&self, fraction: &str) -> (s: String)
        requires
            self.consistent(),
        ensures
            s@ == self.report(fraction@),
    {
        let mut s = String::new();
        if self.fits {
            self.push_welcome(&mut s);
            assert(s@ =~= self.report(fraction@));
            return s;
        }
        self.push_refusal(&mut s, fraction);
        let dominant: usize = self.footprint.dominant();
        self.footprint.push_class_lines(&mut s, dominant);
        self.push_shortfall(&mut s);
        let ghost before = s@;
        if dominant == 4 && self.max_seq_len > 1 {
            self.push_chunk_offer(&mut s);
        } else {
            proof {
                self.footprint.lemma_one_dominant(4, dominant as int);
            }
        }
        assert(s@ =~= before + self.chunk_offer());
        self.push_other_offers(&mut s);
        assert(s@ =~= self.report(fraction@));
        s
    }
}

/// Bytes that the pools hold and no class accounts for.
///
/// Weights, cache and scratch are served by the pools, so what the pools hold is held against
/// those. What is free or awaits the device counts too. Early in a run the pools hold less than is
/// planned, and nothing is unplanned.
pub fn unplanned_bytes(occupancy: &PoolOccupancySnapshot, planned_in_pool: u64) -> (n: u64)
    requires
        occupancy.live_bytes + occupancy.free_bytes + occupancy.pending_bytes <= u64::MAX,
    ensures
        n == (if occupancy.live_bytes + occupancy.free_bytes + occupancy.pending_bytes
            >= planned_in_pool {
            occupancy.live_bytes + occupancy.free_bytes + occupancy.pending_bytes - planned_in_pool
        } else {
            0
        }),
{
    let held: u64 = occupancy.live_bytes as u64 + occupancy.free_bytes as u64
        + occupancy.pending_bytes as u64;
    held.saturating_sub(planned_in_pool)
}

/// The classes that the pools serve. The arena is allocated from the device itself.
pub fn planned_in_pool(footprint: &Footprint) -> (n: u64)
    requires
        footprint.total() <= u64::MAX,
    ensures
        n == footprint.weights + footprint.kv + footprint.scratch + footprint.conv,
{
    footprint.weights + footprint.kv + footprint.scratch + footprint.conv
}

/// What the weights were predicted to be, held against what was allocated.
///
/// A prediction that is too large refuses what would have fitted, and is noticed. One that is too
/// small leaves a budget that bounds nothing, and nothing else reports it.
#[derive(Clone, Copy, Debug, PartialEq, Eq, Structural)]
pub struct WeightReconciliation {
    pub predicted: u64,
    /// What the pool holds, without the other classes that it serves.
    pub observed: u64,
    /// What was observed beyond the prediction; below zero where less was.
    pub divergence: i128,
    /// How far off the verdict lets the prediction be.
    pub tolerance: u64,
}

impl WeightReconciliation {
    pub open spec fn too_small(self) -> bool {
        self.divergence > self.tolerance
    }

    pub open spec fn too_large(self) -> bool {
        self.divergence < -(self.tolerance as int)
    }

    /// Fewer bytes were predicted than were allocated, beyond the tolerance.
    pub fn under_predicted(&self) -> (b: bool)
        ensures
            b == self.too_small(),
    {
        self.divergence > self.tolerance as i128
    }

    /// More bytes were predicted than were allocated, beyond the tolerance.
    pub fn over_predicted(&self) -> (b: bool)
        ensures
            b == self.too_large(),
    {
        self.divergence < -(self.tolerance as i128)
    }

    /// Neither.
    pub fn agrees(&self) -> (b: bool)
        ensures
            b == (!self.too_small() && !self.too_large()),
    {
        !self.under_predicted() && !self.over_predicted()
    }

    pub open spec fn arithmetic(self) -> Seq<char> {
        "weight prediction "@ + text::gb_text(self.predicted as int, 3) + " GB against "@
            + text::gb_text(self.observed as int, 3) + " GB allocated (divergence "@
            + text::signed_gb_text(self.divergence as int, 3) + " GB, tolerance "@ + text::gb_text(
            self.tolerance as int,
            3,
        ) + " GB)"@
    }

    /// What a prediction that is too small means.
    pub open spec fn on_too_small() -> Seq<char> {
        ": admission was given a smaller weight "@
            + "figure than the process allocated, so the "@
            + "budget it computed is not a bound on this "@
            + "run. §3.5: nothing else reports an overrun. "@
            + "A caller passing the language-model figure "@
            + "for a load that also brings the vision "@
            + "tower is short by 0.825 GB (#162)."@
    }

    /// What a prediction that is too large means.
    pub open spec fn on_too_large() -> Seq<char> {
        ": admission was given a larger weight "@
            + "figure than the process allocated, so it "@
            + "may refuse a configuration that would have "@
            + "fit. A caller passing the full checkpoint "@
            + "for a text-only load is long by 0.825 GB "@
            + "(#162)."@
    }

    pub open spec fn verdict(self) -> Seq<char> {
        if self.too_small() {
            "\n  "@ + "UNDER-PREDICTED"@ + Self::on_too_small()
        } else if self.too_large() {
            "\n  "@ + "over-predicted"@ + Self::on_too_large()
        } else {
            Seq::empty()
        }
    }

    fn push_too_small(s: &mut String)
        ensures
            final(s)@ == old(s)@ + Self::on_too_small(),
    {
        s.push_str(": admission was given a smaller weight ");
        s.push_str("figure than the process allocated, so the ");
        s.push_str("budget it computed is not a bound on this ");
        s.push_str("run. §3.5: nothing else reports an overrun. ");
        s.push_str("A caller passing the language-model figure ");
        s.push_str("for a load that also brings the vision ");
        s.push_str("tower is short by 0.825 GB (#162).");
        assert(s@ =~= old(s)@ + Self::on_too_small());
    }

    fn push_too_large(s: &mut String)
        ensures
            final(s)@ == old(s)@ + Self::on_too_large(),
    {
        s.push_str(": admission was given a larger weight ");
        s.push_str("figure than the process allocated, so it ");
        s.push_str("may refuse a configuration that would have ");
        s.push_str("fit. A caller passing the full checkpoint ");
        s.push_str("for a text-only load is long by 0.825 GB ");
        s.push_str("(#162).");
        assert(s@ =~= old(s)@ + Self::on_too_large());
    }

    /// The report: the arithmetic, then what it means.
    pub fn describe(&self) -> (s: String)
        ensures
            s@ == self.arithmetic() + self.verdict(),
    {
        let mut s = String::new();
        s.push_str("weight prediction ");
        text::push_gb(&mut s, self.predicted as u128, 3);
        s.push_str(" GB against ");
        text::push_gb(&mut s, self.observed as u128, 3);
        s.push_str(" GB allocated (divergence ");
        text::push_signed_gb(&mut s, self.divergence, 3);
        s.push_str(" GB, tolerance ");
        text::push_gb(&mut s, self.tolerance as u128, 3);
        s.push_str(" GB)");
        assert(s@ =~= self.arithmetic());
        if self.under_predicted() {
            s.push_str("\n  ");
            s.push_str("UNDER-PREDICTED");
            Self::push_too_small(&mut s);
        } else if self.over_predicted() {
            s.push_str("\n  ");
            s.push_str("over-predicted");
            Self::push_too_large(&mut s);
        }
        assert(s@ =~= self.arithmetic() + self.verdict());
        s
    }
}

/// Hold the predicted weights against what the pool holds, less the other classes that it serves.
/// The tolerance is the caller's, from what it knows to be unaccounted for.
pub fn reconcile_weights(
    predicted_weights: u64,
    occupancy: &PoolOccupancySnapshot,
    non_weight_classes_in_pool: u64,
    tolerance: u64,
) -> (r: WeightReconciliation)
    requires
        occupancy.live_bytes + occupancy.free_bytes + occupancy.pending_bytes <= u64::MAX,
    ensures
        r.predicted == predicted_weights,
        r.tolerance == tolerance,
        r.observed == (if occupancy.live_bytes + occupancy.free_bytes + occupancy.pending_bytes
            >= non_weight_classes_in_pool {
            occupancy.live_bytes + occupancy.free_bytes + occupancy.pending_bytes
                - non_weight_classes_in_pool
        } else {
            0
        }),
        r.divergence == r.observed - predicted_weights,
{
    let observed: u64 = unplanned_bytes(occupancy, non_weight_classes_in_pool);
    WeightReconciliation {
        predicted: predicted_weights,
        observed,
        divergence: observed as i128 - predicted_weights as i128,
        tolerance,
    }
}

/// A report of a reconciliation says that too little was predicted exactly where it was, and that
/// too much was exactly where it was, and goes on in a second line exactly where either holds.
pub proof fn law_a_reconciliation_says_which(r: WeightReconciliation)
    ensures
        text::says(r.arithmetic() + r.verdict(), "UNDER-PREDICTED"@) <==> r.too_small(),
        text::says(r.arithmetic() + r.verdict(), "over-predicted"@) <==> r.too_large(),
        text::on_one_line(r.arithmetic() + r.verdict()) <==> !r.too_small() && !r.too_large(),
{
    lemma_arithmetic_is_plain(r);
    if r.too_small() {
        lemma_too_small_is_plain();
        lemma_says_too_small(r.arithmetic(), WeightReconciliation::on_too_small());
    } else if r.too_large() {
        lemma_too_large_is_plain();
        lemma_says_too_large(r.arithmetic(), WeightReconciliation::on_too_large());
    } else {
        lemma_says_neither(r.arithmetic());
    }
}

/// What a report says that begins with `head` and goes on in these words.
proof fn lemma_says_too_small(head: Seq<char>, rest: Seq<char>)
    requires
        text::no_r_hyphen(head),
        text::no_r_hyphen(rest),
        rest.len() > 0,
        rest[0] != '-',
    ensures
        text::says(head + ("\n  "@ + "UNDER-PREDICTED"@ + rest), "UNDER-PREDICTED"@),
        !text::says(head + ("\n  "@ + "UNDER-PREDICTED"@ + rest), "over-predicted"@),
        !text::on_one_line(head + ("\n  "@ + "UNDER-PREDICTED"@ + rest)),
{
    let gap = "\n  "@;
    let words = "UNDER-PREDICTED"@;
    let others = "over-predicted"@;
    assert(gap.len() > 0 && gap[0] == '\n' && text::no_r_hyphen(gap)) by {
        reveal_strlit("\n  ");
    }
    assert(words.len() > 0 && words[0] != '-' && text::no_r_hyphen(words)) by {
        reveal_strlit("UNDER-PREDICTED");
    }
    assert(others.len() == 14 && others[3] == 'r' && others[4] == '-') by {
        reveal_strlit("over-predicted");
    }
    text::lemma_says(head, gap, words, rest);
    text::lemma_no_r_hyphen_all(head, gap, words, rest);
    text::lemma_lacks_hyphened(head + (gap + words + rest), others, 3);
}

proof fn lemma_says_too_large(head: Seq<char>, rest: Seq<char>)
    requires
        text::lacks(head, 'U'),
        text::lacks(rest, 'U'),
    ensures
        !text::says(head + ("\n  "@ + "over-predicted"@ + rest), "UNDER-PREDICTED"@),
        text::says(head + ("\n  "@ + "over-predicted"@ + rest), "over-predicted"@),
        !text::on_one_line(head + ("\n  "@ + "over-predicted"@ + rest)),
{
    let gap = "\n  "@;
    let words = "over-predicted"@;
    let others = "UNDER-PREDICTED"@;
    assert(gap.len() > 0 && gap[0] == '\n' && text::lacks(gap, 'U')) by {
        reveal_strlit("\n  ");
    }
    assert(text::lacks(words, 'U')) by {
        reveal_strlit("over-predicted");
    }
    assert(others.len() == 15 && others[0] == 'U') by {
        reveal_strlit("UNDER-PREDICTED");
    }
    text::lemma_says(head, gap, words, rest);
    text::lemma_lacks_all(head, gap, words, rest, 'U');
    text::lemma_lacks_words(head + (gap + words + rest), others, 0);
}

proof fn lemma_says_neither(head: Seq<char>)
    requires
        text::lacks(head, 'U'),
        text::no_r_hyphen(head),
        text::on_one_line(head),
    ensures
        !text::says(head + Seq::empty(), "UNDER-PREDICTED"@),
        !text::says(head + Seq::empty(), "over-predicted"@),
        text::on_one_line(head + Seq::empty()),
{
    assert(head + Seq::empty() =~= head);
    reveal_strlit("UNDER-PREDICTED");
    reveal_strlit("over-predicted");
    text::lemma_lacks_words(head, "UNDER-PREDICTED"@, 0);
    text::lemma_lacks_hyphened(head, "over-predicted"@, 3);
}

proof fn lemma_too_small_is_plain()
    ensures
        text::no_r_hyphen(WeightReconciliation::on_too_small()),
        WeightReconciliation::on_too_small()[0] != '-',
        WeightReconciliation::on_too_small().len() > 0,
{
    reveal_strlit(": admission was given a smaller weight ");
    reveal_strlit("figure than the process allocated, so the ");
    reveal_strlit("budget it computed is not a bound on this ");
    reveal_strlit("run. §3.5: nothing else reports an overrun. ");
    reveal_strlit("A caller passing the language-model figure ");
    reveal_strlit("for a load that also brings the vision ");
    reveal_strlit("tower is short by 0.825 GB (#162).");
    assert(text::no_r_hyphen(": admission was given a smaller weight "@));
    assert(text::no_r_hyphen("figure than the process allocated, so the "@));
    assert(text::no_r_hyphen("budget it computed is not a bound on this "@));
    assert(text::no_r_hyphen("run. §3.5: nothing else reports an overrun. "@));
    assert(text::no_r_hyphen("A caller passing the language-model figure "@));
    assert(text::no_r_hyphen("for a load that also brings the vision "@));
    assert(text::no_r_hyphen("tower is short by 0.825 GB (#162)."@));
}

proof fn lemma_too_large_is_plain()
    ensures
        text::lacks(WeightReconciliation::on_too_large(), 'U'),
{
    reveal_strlit(": admission was given a larger weight ");
    reveal_strlit("figure than the process allocated, so it ");
    reveal_strlit("may refuse a configuration that would have ");
    reveal_strlit("fit. A caller passing the full checkpoint ");
    reveal_strlit("for a text-only load is long by 0.825 GB ");
    reveal_strlit("(#162).");
    assert(text::lacks(": admission was given a larger weight "@, 'U'));
    assert(text::lacks("figure than the process allocated, so it "@, 'U'));
    assert(text::lacks("may refuse a configuration that would have "@, 'U'));
    assert(text::lacks("fit. A caller passing the full checkpoint "@, 'U'));
    assert(text::lacks("for a text-only load is long by 0.825 GB "@, 'U'));
    assert(text::lacks("(#162)."@, 'U'));
}

proof fn lemma_arithmetic_is_plain(r: WeightReconciliation)
    ensures
        text::on_one_line(r.arithmetic()),
        text::lacks(r.arithmetic(), 'U'),
        text::no_r_hyphen(r.arithmetic()),
{
    reveal_strlit("weight prediction ");
    reveal_strlit(" GB against ");
    reveal_strlit(" GB allocated (divergence ");
    reveal_strlit(" GB, tolerance ");
    reveal_strlit(" GB)");
    text::lemma_gb_is_numeric(r.predicted as int, 3);
    text::lemma_gb_is_numeric(r.observed as int, 3);
    text::lemma_gb_is_numeric(r.divergence as int, 3);
    text::lemma_gb_is_numeric(r.tolerance as int, 3);
    assert(text::on_one_line("weight prediction "@));
    assert(text::on_one_line(" GB against "@));
    assert(text::on_one_line(" GB allocated (divergence "@));
    assert(text::on_one_line(" GB, tolerance "@));
    assert(text::on_one_line(" GB)"@));
    assert(text::lacks("weight prediction "@, 'U'));
    assert(text::lacks(" GB against "@, 'U'));
    assert(text::lacks(" GB allocated (divergence "@, 'U'));
    assert(text::lacks(" GB, tolerance "@, 'U'));
    assert(text::lacks(" GB)"@, 'U'));
    assert(text::no_r_hyphen("weight prediction "@));
    assert(text::no_r_hyphen(" GB against "@));
    assert(text::no_r_hyphen(" GB allocated (divergence "@));
    assert(text::no_r_hyphen(" GB, tolerance "@));
    assert(text::no_r_hyphen(" GB)"@));
}

/// For the measured model and one sequence, activations are a square and a linear term of the
/// length, and nothing else.
pub proof fn law_measured_activations(p: int)
    requires
        p >= 2,
    ensures
        PrefillGeometry::measured().activation_bytes(p, 1) == 3080 * (p * p) + 2_803_712 * p,
{
    let g = PrefillGeometry::measured();
    assert(g.heads(p, 1) == 2048 * p) by {
        assert((1 * 32) * (p * 64) == 2048 * p) by (nonlinear_arith);
    }
    assert(g.scores(p, 1) == 32 * (p * p)) by {
        assert((1 * 32) * (p * p) == 32 * (p * p)) by (nonlinear_arith);
    }
    assert((1 * p) * (3 * 2048 * 2) == 12288 * p) by (nonlinear_arith);
    assert((1 * p) * (2 * 2048 * 2) == 8192 * p) by (nonlinear_arith);
    assert((1 * p) * (3 * 10752 * 2) == 64512 * p) by (nonlinear_arith);
    assert((1 * p) * (2048 * 2) == 4096 * p) by (nonlinear_arith);
    assert(g.conv_bytes(p, 1) == 20480 * p);
    assert(g.mlp_bytes(p, 1) == 68608 * p);
    assert(g.attention_bytes(p, 1) == 36864 * p + 385 * (p * p));
    lemma_measured_pass(p, 1);
}

proof fn lemma_measured_pass(p: int, batch: int)
    ensures
        ({
            let g = PrefillGeometry::measured();
            g.pass_bytes(p, batch) == 8 * g.attention_bytes(p, batch) + 22 * g.conv_bytes(p, batch)
                + 30 * g.mlp_bytes(p, batch)
        }),
{
    let g = PrefillGeometry::measured();
    let a = g.attention_bytes(p, batch);
    let c = g.conv_bytes(p, batch);
    let m = g.mlp_bytes(p, batch);
    let al = g.attention_layers as int;
    let cl = g.conv_layers as int;
    assert(al * a + cl * c + (al + cl) * m == 8 * a + 22 * c + 30 * m) by (nonlinear_arith)
        requires
            al == 8,
            cl == 22,
    ;
}

/// For the measured model, a pass of any length takes at least what one token takes.
pub proof fn law_decoding_takes_least(p: int, batch: int)
    requires
        p >= 1,
        batch >= 0,
    ensures
        PrefillGeometry::measured().activation_bytes(1, batch)
            <= PrefillGeometry::measured().activation_bytes(p, batch),
{
    let g = PrefillGeometry::measured();
    if p >= 2 {
        lemma_terms_grow(g, 2, p, batch);
        lemma_terms_grow(g, 0, 2, batch);
        lemma_measured_pass(2, batch);
        lemma_product_grows(batch, batch, 0, 2);
        lemma_product_grows(0, batch * 2, 4096, 4096);
        assert((batch * 2) * (3 * 10752 * 2) == batch * 129024) by (nonlinear_arith);
    }
}

/// The chunk that a refusal names is shorter than the pass and fits, and one token more does not.
/// It is offered wherever activations weigh most and some pass of more than one token fits.
pub proof fn law_the_offered_chunk_is_exact(a: Admission)
    requires
        a.consistent(),
        !a.fits,
    ensures
        a.offers_chunks() ==> {
            &&& 1 <= a.chunk() < a.max_seq_len
            &&& a.total_at(a.chunk()) <= a.budget
            &&& a.total_at(a.chunk() + 1) > a.budget
        },
        forall|n: int|
            a.footprint.is_dominant(4) && 1 < n <= a.max_seq_len && #[trigger] a.total_at(n)
                <= a.budget ==> a.offers_chunks() && n <= a.chunk(),
{
    if a.max_seq_len >= 1 {
        lemma_some_longest_chunk(a, a.max_seq_len as int);
    }
    assert forall|n: int|
        a.footprint.is_dominant(4) && 1 < n <= a.max_seq_len && #[trigger] a.total_at(n)
            <= a.budget implies a.offers_chunks() && n <= a.chunk() by {
        let c = a.chunk();
        if c < n {
            lemma_terms_grow(a.prefill_geometry, c + 1, n, a.batch as int);
        }
    }
}

/// There is a longest chunk of at most `n` tokens, where one token more than that does not fit.
proof fn lemma_some_longest_chunk(a: Admission, n: int)
    requires
        1 <= n <= a.max_seq_len,
        n < a.max_seq_len ==> a.activations_at(n + 1) > a.headroom(),
    ensures
        a.is_longest_chunk(a.chunk()),
    decreases n,
{
    if n > 1 && a.activations_at(n) > a.headroom() {
        lemma_some_longest_chunk(a, n - 1);
    } else {
        assert(a.is_longest_chunk(n));
    }
}

/// A configuration is admitted exactly where what is predicted stays within the budget, and what
/// is left over is then the difference.
pub proof fn law_the_residual_is_what_is_left(a: Admission)
    requires
        a.consistent(),
    ensures
        a.fits <==> a.footprint.total() <= a.budget,
        a.fits ==> a.footprint.total() + a.residual == a.budget,
        !a.fits ==> a.residual == 0,
{
}

/// What a pass over `p` tokens of `batch` sequences takes, for any geometry: every tensor is as
/// large as the batch makes it, but for one causal mask of a byte per pair of tokens in each
/// attention layer.
pub proof fn law_activations_by_tensor(g: PrefillGeometry, p: int, batch: int)
    requires
        p >= 2,
        batch >= 0,
    ensures
        ({
            let vectors = batch * (g.query_heads * g.head_dim) * p;
            let scores = batch * g.query_heads * (p * p);
            let tokens = batch * p;
            g.activation_bytes(p, batch) == g.attention_layers * (18 * vectors + 12 * scores + p * p)
                + g.conv_layers * (10 * (tokens * g.hidden)) + (g.attention_layers + g.conv_layers)
                * (6 * (tokens * g.intermediate) + 2 * (tokens * g.hidden))
        }),
{
    let qh = g.query_heads as int;
    let hd = g.head_dim as int;
    let vectors = batch * (qh * hd) * p;
    let scores = batch * qh * (p * p);
    let tokens = batch * p;
    assert((batch * qh) * (p * hd) == vectors) by (nonlinear_arith)
        requires
            vectors == batch * (qh * hd) * p,
    ;
    assert(g.heads(p, batch) == vectors);
    assert((batch * qh) * (p * p) == scores);
    assert(g.scores(p, batch) == scores);
    assert(tokens * (3 * g.hidden * 2) == 6 * (tokens * g.hidden)) by (nonlinear_arith);
    assert(tokens * (2 * g.hidden * 2) == 4 * (tokens * g.hidden)) by (nonlinear_arith);
    assert(tokens * (3 * g.intermediate * 2) == 6 * (tokens * g.intermediate)) by (nonlinear_arith);
    assert(tokens * (g.hidden * 2) == 2 * (tokens * g.hidden)) by (nonlinear_arith);
    assert(g.attention_bytes(p, batch) == 18 * vectors + 12 * scores + p * p);
    assert(g.conv_bytes(p, batch) == 10 * (tokens * g.hidden));
    assert(g.mlp_bytes(p, batch) == 6 * (tokens * g.intermediate) + 2 * (tokens * g.hidden));
}

/// Activations are proportional to the batch, but for the causal mask, which the sequences share;
/// where tokens are decoded one by one, they are so altogether.
pub proof fn law_activations_scale_with_the_batch(g: PrefillGeometry, p: int, batch: int)
    requires
        batch >= 0,
    ensures
        p >= 2 ==> g.activation_bytes(p, batch) == batch * (g.activation_bytes(p, 1)
            - g.attention_layers * (p * p)) + g.attention_layers * (p * p),
        p <= 1 ==> g.activation_bytes(p, batch) == batch * g.activation_bytes(p, 1),
        p <= 1 ==> g.activation_bytes(p, 1) == 69_632,
{
    if p >= 2 {
        law_activations_by_tensor(g, p, batch);
        law_activations_by_tensor(g, p, 1);
        let al = g.attention_layers as int;
        let cl = g.conv_layers as int;
        let qd = g.query_heads * g.head_dim;
        let pp = p * p;
        let v1 = 1 * qd * p;
        let s1 = 1 * g.query_heads * pp;
        let t1 = 1 * p;
        let vb = batch * qd * p;
        let sb = batch * g.query_heads * pp;
        let tb = batch * p;
        assert(vb == batch * v1) by (nonlinear_arith)
            requires
                vb == batch * qd * p,
                v1 == 1 * qd * p,
        ;
        assert(sb == batch * s1) by (nonlinear_arith)
            requires
                sb == batch * g.query_heads * pp,
                s1 == 1 * g.query_heads * pp,
        ;
        let h1 = t1 * g.hidden;
        let i1 = t1 * g.intermediate;
        let hb = tb * g.hidden;
        let ib = tb * g.intermediate;
        assert(hb == batch * h1) by (nonlinear_arith)
            requires
                hb == tb * g.hidden,
                tb == batch * p,
                h1 == t1 * g.hidden,
                t1 == 1 * p,
        ;
        assert(ib == batch * i1) by (nonlinear_arith)
            requires
                ib == tb * g.intermediate,
                tb == batch * p,
                i1 == t1 * g.intermediate,
                t1 == 1 * p,
        ;
        let a1 = 18 * v1 + 12 * s1;
        let m1 = 6 * i1 + 2 * h1;
        assert(18 * vb + 12 * sb == batch * a1) by (nonlinear_arith)
            requires
                vb == batch * v1,
                sb == batch * s1,
                a1 == 18 * v1 + 12 * s1,
        ;
        assert(6 * ib + 2 * hb == batch * m1) by (nonlinear_arith)
            requires
                ib == batch * i1,
                hb == batch * h1,
                m1 == 6 * i1 + 2 * h1,
        ;
        lemma_scaled(batch, al, a1, pp);
        lemma_scaled(batch, cl, 10 * h1, 0);
        lemma_scaled(batch, al + cl, m1, 0);
        assert(batch * (10 * h1) == 10 * hb) by (nonlinear_arith)
            requires
                hb == batch * h1,
        ;
        let x = al * a1;
        let y = cl * (10 * h1);
        let z = (al + cl) * m1;
        assert(batch * (x + y + z) == batch * x + batch * y + batch * z) by (nonlinear_arith);
    }
}

proof fn lemma_scaled(batch: int, n: int, a: int, c: int)
    ensures
        n * (batch * a + c) == batch * (n * a) + n * c,
        n * (a + c) == n * a + n * c,
        n * (batch * a) == batch * (n * a),
{
    assert(n * (batch * a + c) == batch * (n * a) + n * c) by (nonlinear_arith);
    assert(n * (a + c) == n * a + n * c) by (nonlinear_arith);
    assert(n * (batch * a) == batch * (n * a)) by (nonlinear_arith);
}

/// For the measured model and any batch, the causal mask is eight bytes per pair of tokens, and all
/// else is a square and a linear term of the length for each sequence.
pub proof fn law_measured_activations_of_a_batch(p: int, batch: int)
    requires
        p >= 2,
        batch >= 0,
    ensures
        PrefillGeometry::measured().activation_bytes(p, batch) == 8 * (p * p) + batch * (3072 * (p
            * p) + 2_803_712 * p),
        PrefillGeometry::measured().activation_bytes(1, batch) == batch * 69_632,
{
    let g = PrefillGeometry::measured();
    law_measured_activations(p);
    law_activations_scale_with_the_batch(g, p, batch);
    assert(g.attention_layers * (p * p) == 8 * (p * p)) by (nonlinear_arith)
        requires
            g.attention_layers == 8,
    ;
}

/// The five classes of a configuration, each from what the caller set: 16384 bytes of cache for
/// every token of every sequence, the convolution state of every sequence, and eight layers of
/// partial results, one of a head's dimension and two more numbers of four bytes for every head of
/// every sequence and every chunk that the context begins.
pub proof fn law_classes_by_configuration(b: Budget)
    requires
        b.countable(),
    ensures
        ({
            let f = b.spec_footprint();
            let begun = b.scratch_chunks();
            &&& f.weights == b.weights
            &&& f.kv == 16_384 * (b.batch * b.kv_capacity)
            &&& f.conv == b.batch * b.conv_state_bytes
            &&& f.scratch == 32 * (b.batch * b.partials.n_heads * begun * (b.partials.head_dim + 2))
            &&& (begun - 1) * b.partials.chunk_tokens < b.max_context <= begun
                * b.partials.chunk_tokens
            &&& f.activations == b.prefill_geometry.activation_bytes(
                b.max_seq_len as int,
                b.batch as int,
            )
            &&& f.total() == f.weights + f.kv + f.conv + f.activations + f.scratch
        }),
{
    let bt = b.batch as int;
    let cap = b.kv_capacity as int;
    lemma_product_grows(bt, bt, cap, cap);
    lemma_product_grows(bt, bt, b.conv_state_bytes as int, b.conv_state_bytes as int);
    let begun = b.scratch_chunks();
    let c = b.partials.chunk_tokens as int;
    let t = b.max_context as int;
    assert(begun == (t + c - 1) / c);
    assert((begun - 1) * c < t && t <= begun * c && begun >= 0) by (nonlinear_arith)
        requires
            c >= 1,
            t >= 0,
            begun == (t + c - 1) / c,
    ;
    lemma_partials_positive(b.batched_partials(), begun);
    lemma_terms_grow(b.prefill_geometry, b.max_seq_len as int, b.max_seq_len as int, bt);
    assert(b.kv_bytes() == 16_384 * (bt * cap)) by (nonlinear_arith)
        requires
            b.kv_bytes() == bt * cap * 16_384,
    ;
    let rows = bt * b.partials.n_heads * begun;
    assert(8 * (rows * (b.partials.head_dim + 2) * 4) == 32 * (rows * (b.partials.head_dim + 2)))
        by (nonlinear_arith);
    assert(b.scratch_bytes() == 8 * (rows * (b.partials.head_dim + 2) * 4));
}

/// A configuration of twice the batch takes twice the cache, convolution state and scratch, and the
/// same weights.
pub proof fn law_twice_the_batch_takes_twice_as_much(b: Budget, c: Budget)
    requires
        b.countable(),
        c.countable(),
        c == (Budget { batch: c.batch, ..b }),
        c.batch == 2 * b.batch,
    ensures
        c.spec_footprint().weights == b.spec_footprint().weights,
        c.spec_footprint().kv == 2 * b.spec_footprint().kv,
        c.spec_footprint().conv == 2 * b.spec_footprint().conv,
        c.spec_footprint().scratch == 2 * b.spec_footprint().scratch,
{
    law_classes_by_configuration(b);
    law_classes_by_configuration(c);
    let bt = b.batch as int;
    let ct = c.batch as int;
    let n = b.partials.n_heads as int;
    let k = b.scratch_chunks();
    let d = b.partials.head_dim + 2;
    assert(16_384 * (ct * b.kv_capacity) == 2 * (16_384 * (bt * b.kv_capacity))) by (nonlinear_arith)
        requires
            ct == 2 * bt,
    ;
    assert(ct * b.conv_state_bytes == 2 * (bt * b.conv_state_bytes)) by (nonlinear_arith)
        requires
            ct == 2 * bt,
    ;
    assert(32 * (ct * n * k * d) == 2 * (32 * (bt * n * k * d))) by (nonlinear_arith)
        requires
            ct == 2 * bt,
    ;
}

/// A configuration is admitted exactly where its weights, cache, convolution state, activations and
/// scratch together are no more than the budget, so that what is admitted under one budget is
/// admitted under every larger one, and never where one class alone exceeds it.
pub proof fn law_admission_holds_the_sum_against_the_budget(a: Admission)
    requires
        a.consistent(),
    ensures
        a.fits <==> a.footprint.weights + a.footprint.kv + a.footprint.conv + a.footprint.activations
            + a.footprint.scratch <= a.budget,
        a.fits ==> a.residual == a.budget - a.footprint.weights - a.footprint.kv - a.footprint.conv
            - a.footprint.activations - a.footprint.scratch,
        forall|n: int| #[trigger]
            a.total_at(n) == a.footprint.weights + a.footprint.kv + a.footprint.conv
                + a.footprint.scratch + a.prefill_geometry.activation_bytes(n, a.batch as int),
        a.budget >= a.footprint.weights + a.footprint.kv + a.footprint.conv + a.footprint.scratch
            ==> a.headroom() == a.budget - a.footprint.weights - a.footprint.kv - a.footprint.conv
            - a.footprint.scratch,
{
}

/// The dominant class is one, is as large as any, and of several as large is the one that a report
/// names last.
pub proof fn law_the_dominant_class_is_the_largest(f: Footprint)
    ensures
        f.is_dominant(0) <==> f.weights > f.kv && f.weights > f.scratch && f.weights > f.conv
            && f.weights > f.activations,
        f.is_dominant(1) <==> f.kv >= f.weights && f.kv > f.scratch && f.kv > f.conv && f.kv
            > f.activations,
        f.is_dominant(2) <==> f.scratch >= f.weights && f.scratch >= f.kv && f.scratch > f.conv
            && f.scratch > f.activations,
        f.is_dominant(3) <==> f.conv >= f.weights && f.conv >= f.kv && f.conv >= f.scratch && f.conv
            > f.activations,
        f.is_dominant(4) <==> f.activations >= f.weights && f.activations >= f.kv && f.activations
            >= f.scratch && f.activations >= f.conv,
{
    assert(f.class(0) == f.weights && f.class(1) == f.kv && f.class(2) == f.scratch && f.class(3)
        == f.conv && f.class(4) == f.activations);
}

/// The verdict on a prediction turns at the tolerance, on either side, and never to both.
pub proof fn law_a_prediction_may_be_off_by_the_tolerance(r: WeightReconciliation)
    ensures
        r.too_small() <==> r.divergence - r.tolerance > 0,
        r.too_large() <==> r.divergence + r.tolerance < 0,
        !(r.too_small() && r.too_large()),
        r.divergence == r.tolerance ==> !r.too_small(),
        r.divergence == -(r.tolerance as int) ==> !r.too_large(),
{
}

} // verus!
