//! The statistics model: a left fold with checked addition that drops any
//! contribution whose accumulation would overflow, and the average over the
//! contributions that were actually accumulated.
//!
//! Dropping on overflow is a deliberate policy: a value whose addition
//! would wrap is excluded from the total — underestimating it — rather
//! than poisoning the whole aggregate or failing the call.

use vstd::arithmetic::div_mod::lemma_div_nonincreasing;
use vstd::arithmetic::div_mod::lemma_div_pos_is_pos;
use vstd::prelude::*;

use crate::types::CategoriaProducto;
use crate::types::Producto;

verus! {

/// Running total of a left fold with checked addition: a value whose
/// addition would push the total past `u128::MAX` is dropped, and the fold
/// goes on with the remaining values.
pub open spec fn suma_plegada(s: Seq<u128>) -> int
    decreases s.len(),
{
    if s.len() == 0 {
        0
    } else {
        let previa = suma_plegada(s.drop_last());
        if previa + s.last() <= u128::MAX {
            previa + s.last()
        } else {
            previa
        }
    }
}

/// How many values the fold actually accumulated: dropped contributions
/// are not counted, so they cannot dilute the average either.
pub open spec fn sumados(s: Seq<u128>) -> int
    decreases s.len(),
{
    if s.len() == 0 {
        0
    } else {
        let previos = sumados(s.drop_last());
        if suma_plegada(s.drop_last()) + s.last() <= u128::MAX {
            previos + 1
        } else {
            previos
        }
    }
}

/// The average of the accumulated values, by floor division; with nothing
/// accumulated the average is zero by policy, never a division error.
pub open spec fn promedio(s: Seq<u128>) -> int {
    if sumados(s) == 0 {
        0
    } else {
        suma_plegada(s) / sumados(s)
    }
}

/// The plain total, with nothing dropped — what the fold computes whenever
/// no accumulation step overflows.
pub open spec fn suma_total(s: Seq<u128>) -> int
    decreases s.len(),
{
    if s.len() == 0 {
        0
    } else {
        suma_total(s.drop_last()) + s.last()
    }
}

/// The ratings the per-order lookups produced, widened to `u128`, in
/// enumeration order; orders without a recorded rating are excluded.
pub open spec fn calificaciones_con_valor(s: Seq<Option<u8>>) -> Seq<u128>
    decreases s.len(),
{
    if s.len() == 0 {
        Seq::<u128>::empty()
    } else {
        match s.last() {
            Some(c) => calificaciones_con_valor(s.drop_last()).push(c as u128),
            None => calificaciones_con_valor(s.drop_last()),
        }
    }
}

/// The sales counters of the looked-up products whose category tag matches
/// exactly, in enumeration order; failed lookups are excluded.
pub open spec fn ventas_de_categoria(s: Seq<Option<Producto>>, categoria: CategoriaProducto) -> Seq<u128>
    decreases s.len(),
{
    if s.len() == 0 {
        Seq::<u128>::empty()
    } else {
        match s.last() {
            Some(p) => if p.categoria == categoria {
                ventas_de_categoria(s.drop_last(), categoria).push(p.ventas)
            } else {
                ventas_de_categoria(s.drop_last(), categoria)
            },
            None => ventas_de_categoria(s.drop_last(), categoria),
        }
    }
}

/// Overflow-safety of the total: however large the values, the fold's
/// running total stays a valid `u128` value — it never wraps — and it
/// counts no more contributions than there are values.
pub proof fn lema_suma_acotada(s: Seq<u128>)
    ensures
        0 <= suma_plegada(s) <= u128::MAX,
        0 <= sumados(s) <= s.len(),
    decreases s.len(),
{
    if s.len() > 0 {
        lema_suma_acotada(s.drop_last());
    }
}

/// Overflow-safety of the average: the average over the accumulated
/// values is itself within `u128` bounds.
pub proof fn lema_promedio_acotado(s: Seq<u128>)
    ensures
        0 <= promedio(s) <= u128::MAX,
{
    lema_suma_acotada(s);
    if sumados(s) != 0 {
        lemma_div_pos_is_pos(suma_plegada(s), sumados(s));
        lemma_div_nonincreasing(suma_plegada(s), sumados(s));
    }
}

/// Statistics over nothing: with no values at all, total and average are
/// both zero.
pub proof fn lema_estadisticas_vacias()
    ensures
        suma_plegada(Seq::<u128>::empty()) == 0,
        sumados(Seq::<u128>::empty()) == 0,
        promedio(Seq::<u128>::empty()) == 0,
{
}

/// When no accumulation step overflows — the plain total fits in `u128` —
/// nothing is dropped: the fold computes the plain total over all values.
pub proof fn lema_suma_sin_desborde(s: Seq<u128>)
    requires
        suma_total(s) <= u128::MAX,
    ensures
        suma_plegada(s) == suma_total(s),
        sumados(s) == s.len(),
    decreases s.len(),
{
    if s.len() > 0 {
        lema_suma_total_monotona(s);
        lema_suma_sin_desborde(s.drop_last());
    }
}

/// Missing-value exclusion on the aggregation side: an order whose rating
/// lookup came back empty contributes nothing — adding it to the snapshot
/// leaves the retained ratings, and so the statistics, exactly as they were.
pub proof fn lema_pedido_sin_calificacion_no_cuenta(s: Seq<Option<u8>>)
    ensures
        calificaciones_con_valor(s.push(None)) == calificaciones_con_valor(s),
{
    assert(s.push(None).drop_last() =~= s);
}

/// Likewise for sales: a failed product lookup, or a product of another
/// category, adds nothing to the category's sales total.
pub proof fn lema_producto_ajeno_no_cuenta(
    s: Seq<Option<Producto>>,
    p: Option<Producto>,
    categoria: CategoriaProducto,
)
    requires
        p matches Some(q) ==> q.categoria != categoria,
    ensures
        ventas_de_categoria(s.push(p), categoria) == ventas_de_categoria(s, categoria),
{
    assert(s.push(p).drop_last() =~= s);
}

/// Dropping the last value cannot raise the plain total.
proof fn lema_suma_total_monotona(s: Seq<u128>)
    requires
        s.len() > 0,
    ensures
        suma_total(s.drop_last()) <= suma_total(s),
{
}

} // verus!
