//! Read-only analytics over a marketplace ledger.
//!
//! The ledger itself (buyers, sellers, products, orders, and their ratings
//! and sales counters) lives in a separate contract; this crate is the
//! reporting layer that ranks and aggregates what that ledger hands back.
//! Callers collect a snapshot of the ledger's answers — a list of
//! identifiers together with the optional value each lookup produced — and
//! the engine turns it into top-N rankings (stable, descending) and
//! overflow-safe per-category statistics.

pub mod engine;
pub mod ranking;
pub mod stats;
pub mod types;

pub use engine::RustaceoLibreRV;
pub use ranking::con_valor_u128;
pub use ranking::con_valor_u8;
pub use ranking::filtra_metrica_u128;
pub use ranking::filtra_metrica_u8;
pub use ranking::ordena_desc_u128;
pub use ranking::ordena_desc_u8;
pub use ranking::top_n_u128;
pub use ranking::top_n_u8;
pub use stats::calificaciones_con_valor;
pub use stats::promedio;
pub use stats::suma_plegada;
pub use stats::sumados;
pub use stats::ventas_de_categoria;
pub use types::AccountId;
pub use types::CategoriaProducto;
pub use types::Producto;
