//! The size of the partial results that attention over a long context is split into.

use vstd::prelude::*;

use crate::sums;

verus! {

/// When the memory of the partial results is taken.
#[derive(Clone, Copy, Debug, PartialEq, Eq, Structural)]
pub enum Sizing {
    /// Once, for the longest context.
    Reserve,
    /// As the context grows.
    Grow,
    /// As the context grows, in steps.
    Bucket,
}

/// What the partial results are sized from.
///
/// Each head of each sequence keeps one partial result per chunk of the context: a vector of the
/// head's dimension, a sum and a maximum, four bytes each.
#[derive(Clone, Copy, Debug, PartialEq, Eq, Structural)]
pub struct PartialsGeometry {
    pub batch: u64,
    /// Query heads, not the heads of the cache.
    pub n_heads: u64,
    pub head_dim: u64,
    /// Tokens in a chunk.
    pub chunk_tokens: u64,
}

impl Default for PartialsGeometry {
    fn default() -> (g: Self)
        ensures
            g == (PartialsGeometry { batch: 1, n_heads: 32, head_dim: 64, chunk_tokens: 256 }),
    {
        PartialsGeometry { batch: 1, n_heads: 32, head_dim: 64, chunk_tokens: 256 }
    }
}

impl PartialsGeometry {
    /// How many chunks hold so many tokens: the last one may be partial.
    pub open spec fn spec_chunks(self, tokens: int) -> int {
        (tokens + self.chunk_tokens - 1) / (self.chunk_tokens as int)
    }

    /// The bytes of so many chunks' partial results in one layer.
    pub open spec fn spec_partials_bytes(self, chunks: int) -> int {
        self.batch * self.n_heads * chunks * (self.head_dim + 2) * 4
    }

    /// How many chunks hold so many tokens.
    pub fn chunks(&self, tokens: u64) -> (n: u64)
        requires
            self.chunk_tokens > 0,
        ensures
            n == self.spec_chunks(tokens as int),
    {
        let c: u128 = self.chunk_tokens as u128;
        let n: u128 = (tokens as u128 + c - 1) / c;
        assert(n <= tokens) by (nonlinear_arith)
            requires
                c >= 1,
                n == (tokens + c - 1) / (c as int),
        ;
        n as u64
    }

    /// The bytes of so many chunks' partial results in one layer.
    pub fn partials_bytes(&self, chunks: u64) -> (n: u64)
        requires
            self.spec_partials_bytes(chunks as int) <= u64::MAX,
        ensures
            n == self.spec_partials_bytes(chunks as int),
    {
        let rows: u128 = sums::product(self.batch, self.n_heads);
        let row: u128 = (self.head_dim as u128 + 2) * 4;
        proof {
            let a = self.batch * self.n_heads;
            let b = chunks as int;
            let d = (self.head_dim + 2) * 4;
            assert(a * b * (self.head_dim + 2) * 4 == a * b * d) by (nonlinear_arith)
                requires
                    d == (self.head_dim + 2) * 4,
            ;
            assert(0 <= a * b && a * b <= a * b * d) by (nonlinear_arith)
                requires
                    a >= 0,
                    b >= 0,
                    d >= 1,
            ;
        }
        let cells: u128 = rows * chunks as u128;
        (cells * row) as u64
    }
}

/// The chunks are the fewest that hold the tokens.
pub proof fn law_chunks_are_the_fewest_that_hold_the_tokens(g: PartialsGeometry, tokens: int)
    requires
        g.chunk_tokens > 0,
        tokens >= 0,
    ensures
        tokens <= g.spec_chunks(tokens) * g.chunk_tokens,
        g.spec_chunks(tokens) * g.chunk_tokens < tokens + g.chunk_tokens,
        g.spec_chunks(tokens) >= 0,
{
    let c = g.chunk_tokens as int;
    let n = g.spec_chunks(tokens);
    vstd::arithmetic::div_mod::lemma_fundamental_div_mod(tokens + c - 1, c);
    vstd::arithmetic::div_mod::lemma_mod_bound(tokens + c - 1, c);
    assert(c * n == n * c) by (nonlinear_arith);
    vstd::arithmetic::div_mod::lemma_div_pos_is_pos(tokens + c - 1, c);
}

/// Partial results are of one size each: every chunk of every head of every sequence takes four
/// bytes for each number of its vector and for its sum and its maximum.
pub proof fn law_partials_add_up(g: PartialsGeometry, a: int, b: int)
    requires
        a >= 0,
        b >= 0,
    ensures
        g.spec_partials_bytes(a + b) == g.spec_partials_bytes(a) + g.spec_partials_bytes(b),
        g.spec_partials_bytes(0) == 0,
        g.batch == 1 && g.n_heads == 1 ==> g.spec_partials_bytes(1) == 4 * g.head_dim + 8,
        g.spec_partials_bytes(a) == g.batch * (PartialsGeometry {
            batch: 1,
            ..g
        }).spec_partials_bytes(a),
        g.spec_partials_bytes(a) == g.n_heads * (PartialsGeometry {
            n_heads: 1,
            ..g
        }).spec_partials_bytes(a),
{
    let s = g.batch as int;
    let h = g.n_heads as int;
    let d = g.head_dim + 2;
    assert(s * h * (a + b) * d * 4 == s * h * a * d * 4 + s * h * b * d * 4) by (nonlinear_arith);
    assert(s * h * 0 * d * 4 == 0) by (nonlinear_arith);
    assert(1 * 1 * 1 * d * 4 == 4 * d) by (nonlinear_arith);
    assert(s * h * a * d * 4 == s * (1 * h * a * d * 4)) by (nonlinear_arith);
    assert(s * h * a * d * 4 == h * (s * 1 * a * d * 4)) by (nonlinear_arith);
}

} // verus!
