pub mod batcher;
pub mod ciphertext;
pub mod client;
pub mod codec;
pub mod comparator;
pub mod context;
pub mod distance;
pub mod keyswitch;
pub mod params;
pub mod primitives;
pub mod quantize;
pub mod ranks;
pub mod server;
pub mod setup;
pub mod soundness;
pub mod table;
pub mod vote;

pub use batcher::{sort_top_k, BatcherSort};
pub use ciphertext::{Accumulator, Ciphertext, GlweCiphertext};
pub use client::KnnClient;
pub use comparator::{ClearCmp, Cmp, EncCmp, EncItem, Step};
pub use params::Parameters;
pub use quantize::{quantize, quantize_row, QuantizeType, MAX_MODEL};
pub use server::KnnServer;
pub use setup::{enc_vec, setup, setup_with_data, SetupError};
pub use vote::majority;
