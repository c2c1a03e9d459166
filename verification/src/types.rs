use vstd::prelude::*;

verus! {

/// Opaque account identifier, as the ledger hands it out: a 32-byte key.
/// The engine never orders identifiers; it only carries them through and,
/// in its contracts, compares them for equality.
#[derive(Clone, Copy, PartialEq, Eq, Hash, Debug)]
pub struct AccountId {
    pub bytes: [u8; 32],
}

/// Category tag carried by every product record; per-category statistics
/// filter sales counters by exact match on this tag.
#[derive(Clone, Copy, PartialEq, Eq, Structural, Debug)]
pub enum CategoriaProducto {
    Alimentos,
    Tecnologia,
    Indumentaria,
    Hogar,
    Otros,
}

/// What the engine reads from a product record the ledger returned:
/// the category tag and the sales counter.
#[derive(Clone, Copy, PartialEq, Eq, Structural, Debug)]
pub struct Producto {
    pub categoria: CategoriaProducto,
    pub ventas: u128,
}

} // verus!
