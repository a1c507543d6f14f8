//! Model dimensions of the morphological network.
use vstd::prelude::*;

verus! {

pub struct AmadeusMConfig {
    pub n_layers: usize,
    pub n_embd: usize,
    pub n_heads: usize,
    pub n_kv_heads: usize,
    pub head_dim: usize,
    pub n_intermediate: usize,
    pub vocab_size: usize,
    pub max_seq_len: usize,
    pub window_size: usize,
    pub d_affect: usize,
    pub d_intent: usize,
    pub d_trace: usize,
    pub n_intents: usize,
}

impl AmadeusMConfig {
    pub fn small() -> (c: Self)
        ensures
            c == (AmadeusMConfig {
                n_layers: 4,
                n_embd: 128,
                n_heads: 4,
                n_kv_heads: 2,
                head_dim: 32,
                n_intermediate: 512,
                vocab_size: 256,
                max_seq_len: 2048,
                window_size: 256,
                d_affect: 16,
                d_intent: 16,
                d_trace: 64,
                n_intents: 8,
            }),
    {
        let n_embd: usize = 128;
        let head_dim: usize = 32;
        AmadeusMConfig {
            n_layers: 4,
            n_embd,
            n_heads: 4,
            n_kv_heads: 2,
            head_dim,
            n_intermediate: 512,
            vocab_size: 256,
            max_seq_len: 2048,
            window_size: 256,
            d_affect: 16,
            d_intent: 16,
            d_trace: 64,
            n_intents: 8,
        }
    }

    pub fn medium() -> (c: Self)
        ensures
            c == (AmadeusMConfig {
                n_layers: 8,
                n_embd: 512,
                n_heads: 8,
                n_kv_heads: 4,
                head_dim: 64,
                n_intermediate: 2048,
                vocab_size: 32000,
                max_seq_len: 8192,
                window_size: 1024,
                d_affect: 32,
                d_intent: 32,
                d_trace: 128,
                n_intents: 8,
            }),
    {
        let n_embd: usize = 512;
        let head_dim: usize = 64;
        AmadeusMConfig {
            n_layers: 8,
            n_embd,
            n_heads: 8,
            n_kv_heads: 4,
            head_dim,
            n_intermediate: 2048,
            vocab_size: 32000,
            max_seq_len: 8192,
            window_size: 1024,
            d_affect: 32,
            d_intent: 32,
            d_trace: 128,
            n_intents: 8,
        }
    }

    /// Query heads per key/value head.
    pub fn n_gqa(&self) -> (g: usize)
        requires
            self.n_kv_heads != 0,
        ensures
            g == self.n_heads / self.n_kv_heads,
    {
        self.n_heads / self.n_kv_heads
    }
}

} // verus!
