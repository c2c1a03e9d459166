//! The reporting engine: holds the address of the ledger it reads from and
//! turns snapshots of that ledger's answers into rankings and statistics.

use vstd::prelude::*;

use crate::ranking::con_valor_u128;
use crate::ranking::con_valor_u8;
use crate::ranking::inserta_desc_u128;
use crate::ranking::inserta_desc_u8;
use crate::ranking::lema_inserta_en_posicion_u128;
use crate::ranking::lema_inserta_en_posicion_u8;
use crate::ranking::lema_ordena_largo_u128;
use crate::ranking::lema_ordena_largo_u8;
use crate::ranking::ordena_desc_u128;
use crate::ranking::ordena_desc_u8;
use crate::ranking::top_n_u128;
use crate::ranking::top_n_u8;
use crate::stats::calificaciones_con_valor;
use crate::stats::promedio;
use crate::stats::suma_plegada;
use crate::stats::sumados;
use crate::stats::ventas_de_categoria;
use crate::types::AccountId;
use crate::types::CategoriaProducto;
use crate::types::Producto;

verus! {

/// Read-only reporting facade over the marketplace ledger. Its only state
/// is the address of the ledger instance its callers query; every query is
/// recomputed from the snapshot it is handed and mutates nothing.
pub struct RustaceoLibreRV {
    pub rl_address: AccountId,
}

impl RustaceoLibreRV {
    /// Remember which ledger instance this engine reports on.
    pub fn new(rl_address: AccountId) -> (rv: Self)
        ensures
            rv.rl_address == rl_address,
    {
        Self { rl_address }
    }

    /// The address of the ledger instance this engine reports on.
    pub fn get_rl_address(&self) -> (r: AccountId)
        ensures
            r == self.rl_address,
    {
        self.rl_address
    }

    /// Sort rating entries by metric descending — stably, so entries with
    /// equal ratings keep their enumeration order — and keep the first `n`.
    pub fn internal_sort_u8(&self, data: Vec<(AccountId, u8)>, n: usize) -> (r: Vec<(AccountId, u8)>)
        ensures
            r@ == ordena_desc_u8(data@).take(vstd::math::min(n as int, data@.len() as int)),
    {
        let mut ordenadas: Vec<(AccountId, u8)> = Vec::new();
        proof {
            assert(data@.take(0) =~= Seq::<(AccountId, u8)>::empty());
        }
        let mut i: usize = 0;
        while i < data.len()
            invariant
                i <= data.len(),
                ordenadas@ == ordena_desc_u8(data@.take(i as int)),
            decreases data.len() - i,
        {
            let x = data[i];
            let mut j: usize = 0;
            while j < ordenadas.len() && ordenadas[j].1 >= x.1
                invariant
                    j <= ordenadas.len(),
                    forall|k: int| 0 <= k < j ==> ordenadas@[k].1 >= x.1,
                decreases ordenadas.len() - j,
            {
                j = j + 1;
            }
            let ghost previas = ordenadas@;
            proof {
                lema_inserta_en_posicion_u8(previas, x, j as int);
            }
            ordenadas.insert(j, x);
            proof {
                assert(ordenadas@ =~= inserta_desc_u8(previas, x));
                assert(data@.take(i as int + 1).drop_last() =~= data@.take(i as int));
                assert(data@.take(i as int + 1).last() == x);
                assert(ordenadas@ == ordena_desc_u8(data@.take(i as int + 1)));
            }
            i = i + 1;
        }
        proof {
            assert(data@.take(data@.len() as int) =~= data@);
            lema_ordena_largo_u8(data@);
            assert(ordena_desc_u8(data@).take(data@.len() as int) =~= ordena_desc_u8(data@));
        }
        ordenadas.truncate(n);
        ordenadas
    }

    /// The five best-rated buyers: from a snapshot pairing every buyer the
    /// ledger enumerated with its optional rating, keep the rated ones,
    /// rank them by rating descending (ties keep enumeration order) and
    /// return at most five.
    pub fn top5_compradores(&self, compradores: Vec<(AccountId, Option<u8>)>) -> (r: Vec<(AccountId, u8)>)
        ensures
            r@ == top_n_u8(compradores@, 5),
    {
        let con_cal = Self::filtra_con_valor_u8(compradores);
        proof {
            lema_ordena_largo_u8(con_valor_u8(compradores@));
        }
        self.internal_sort_u8(con_cal, 5)
    }

    /// The five best-rated sellers, ranked exactly as `top5_compradores`
    /// ranks buyers, over the seller snapshot.
    pub fn top5_vendedores(&self, vendedores: Vec<(AccountId, Option<u8>)>) -> (r: Vec<(AccountId, u8)>)
        ensures
            r@ == top_n_u8(vendedores@, 5),
    {
        let con_cal = Self::filtra_con_valor_u8(vendedores);
        proof {
            lema_ordena_largo_u8(con_valor_u8(vendedores@));
        }
        self.internal_sort_u8(con_cal, 5)
    }

    /// Keep the entries whose lookup produced a value, in enumeration
    /// order; a missing rating excludes its identifier, it never counts
    /// as zero.
    fn filtra_con_valor_u8(datos: Vec<(AccountId, Option<u8>)>) -> (r: Vec<(AccountId, u8)>)
        ensures
            r@ == con_valor_u8(datos@),
    {
        let mut con_cal: Vec<(AccountId, u8)> = Vec::new();
        proof {
            assert(datos@.take(0) =~= Seq::<(AccountId, Option<u8>)>::empty());
        }
        let mut i: usize = 0;
        while i < datos.len()
            invariant
                i <= datos.len(),
                con_cal@ == con_valor_u8(datos@.take(i as int)),
            decreases datos.len() - i,
        {
            let (id, cal) = datos[i];
            if let Some(c) = cal {
                con_cal.push((id, c));
            }
            proof {
                assert(datos@.take(i as int + 1).drop_last() =~= datos@.take(i as int));
                assert(datos@.take(i as int + 1).last() == datos@[i as int]);
            }
            i = i + 1;
        }
        proof {
            assert(datos@.take(datos@.len() as int) =~= datos@);
        }
        con_cal
    }

    /// The `top` best-selling products: from a snapshot pairing every
    /// product id the ledger enumerated with its optional sales counter,
    /// keep the ones with a counter, rank them by sales descending (ties
    /// keep enumeration order) and return at most `top` of them; asking
    /// for more than exist returns all of them.
    pub fn productos_mas_vendidos(&self, top: u128, productos: Vec<(u128, Option<u128>)>) -> (r: Vec<(u128, u128)>)
        ensures
            r@ == top_n_u128(productos@, top as int),
    {
        let con_ventas = Self::filtra_con_valor_u128(productos);
        proof {
            lema_ordena_largo_u128(con_valor_u128(productos@));
        }
        let n: usize = if top >= con_ventas.len() as u128 {
            con_ventas.len()
        } else {
            top as usize
        };
        self.internal_sort_u128(con_ventas, n)
    }

    /// Sort product entries by sales descending, stably, and keep the
    /// first `n`: the `(u128, u128)` twin of `internal_sort_u8`.
    pub fn internal_sort_u128(&self, data: Vec<(u128, u128)>, n: usize) -> (r: Vec<(u128, u128)>)
        ensures
            r@ == ordena_desc_u128(data@).take(vstd::math::min(n as int, data@.len() as int)),
    {
        let mut ordenadas: Vec<(u128, u128)> = Vec::new();
        proof {
            assert(data@.take(0) =~= Seq::<(u128, u128)>::empty());
        }
        let mut i: usize = 0;
        while i < data.len()
            invariant
                i <= data.len(),
                ordenadas@ == ordena_desc_u128(data@.take(i as int)),
            decreases data.len() - i,
        {
            let x = data[i];
            let mut j: usize = 0;
            while j < ordenadas.len() && ordenadas[j].1 >= x.1
                invariant
                    j <= ordenadas.len(),
                    forall|k: int| 0 <= k < j ==> ordenadas@[k].1 >= x.1,
                decreases ordenadas.len() - j,
            {
                j = j + 1;
            }
            let ghost previas = ordenadas@;
            proof {
                lema_inserta_en_posicion_u128(previas, x, j as int);
            }
            ordenadas.insert(j, x);
            proof {
                assert(ordenadas@ =~= inserta_desc_u128(previas, x));
                assert(data@.take(i as int + 1).drop_last() =~= data@.take(i as int));
                assert(data@.take(i as int + 1).last() == x);
                assert(ordenadas@ == ordena_desc_u128(data@.take(i as int + 1)));
            }
            i = i + 1;
        }
        proof {
            assert(data@.take(data@.len() as int) =~= data@);
            lema_ordena_largo_u128(data@);
            assert(ordena_desc_u128(data@).take(data@.len() as int) =~= ordena_desc_u128(data@));
        }
        ordenadas.truncate(n);
        ordenadas
    }

    /// Keep the product entries whose sales lookup produced a counter, in
    /// enumeration order: the product-side twin of `filtra_con_valor_u8`.
    fn filtra_con_valor_u128(datos: Vec<(u128, Option<u128>)>) -> (r: Vec<(u128, u128)>)
        ensures
            r@ == con_valor_u128(datos@),
    {
        let mut con_ventas: Vec<(u128, u128)> = Vec::new();
        proof {
            assert(datos@.take(0) =~= Seq::<(u128, Option<u128>)>::empty());
        }
        let mut i: usize = 0;
        while i < datos.len()
            invariant
                i <= datos.len(),
                con_ventas@ == con_valor_u128(datos@.take(i as int)),
            decreases datos.len() - i,
        {
            let (id, ventas) = datos[i];
            if let Some(v) = ventas {
                con_ventas.push((id, v));
            }
            proof {
                assert(datos@.take(i as int + 1).drop_last() =~= datos@.take(i as int));
                assert(datos@.take(i as int + 1).last() == datos@[i as int]);
            }
            i = i + 1;
        }
        proof {
            assert(datos@.take(datos@.len() as int) =~= datos@);
        }
        con_ventas
    }

    /// How many orders a user has placed: the ledger's answer, verbatim —
    /// absent stays absent, it is never defaulted to zero.
    pub fn ordenes_del_usuario(&self, compras_del_usuario: Option<u128>) -> (r: Option<u128>)
        ensures
            r == compras_del_usuario,
    {
        compras_del_usuario
    }

    /// Per-category statistics from the order-rating and product
    /// snapshots: the average of the recorded order ratings, and the total
    /// sales of the products in the requested category. It always yields a
    /// value — with no data it is `(0, 0)`. The asymmetry is part of the
    /// query's definition: the average runs over every order's rating,
    /// not only the category's, while sales are category-filtered.
    pub fn estadisticas_por_categoria(
        &self,
        categoria: CategoriaProducto,
        calificaciones_pedidos: Vec<Option<u8>>,
        productos: Vec<Option<Producto>>,
    ) -> (r: Option<(u128, u128)>)
        ensures
            r matches Some(est)
                && est.0 as int == promedio(calificaciones_con_valor(calificaciones_pedidos@))
                && est.1 as int == suma_plegada(ventas_de_categoria(productos@, categoria)),
    {
        let mut cals: Vec<u128> = Vec::new();
        proof {
            assert(calificaciones_pedidos@.take(0) =~= Seq::<Option<u8>>::empty());
        }
        let mut i: usize = 0;
        while i < calificaciones_pedidos.len()
            invariant
                i <= calificaciones_pedidos.len(),
                cals@ == calificaciones_con_valor(calificaciones_pedidos@.take(i as int)),
            decreases calificaciones_pedidos.len() - i,
        {
            proof {
                assert(calificaciones_pedidos@.take(i as int + 1).drop_last()
                    =~= calificaciones_pedidos@.take(i as int));
                assert(calificaciones_pedidos@.take(i as int + 1).last()
                    == calificaciones_pedidos@[i as int]);
            }
            if let Some(c) = calificaciones_pedidos[i] {
                cals.push(c as u128);
            }
            i = i + 1;
        }
        proof {
            assert(calificaciones_pedidos@.take(calificaciones_pedidos@.len() as int)
                =~= calificaciones_pedidos@);
        }
        let mut ventas_lista: Vec<u128> = Vec::new();
        proof {
            assert(productos@.take(0) =~= Seq::<Option<Producto>>::empty());
        }
        let mut k: usize = 0;
        while k < productos.len()
            invariant
                k <= productos.len(),
                ventas_lista@ == ventas_de_categoria(productos@.take(k as int), categoria),
            decreases productos.len() - k,
        {
            proof {
                assert(productos@.take(k as int + 1).drop_last() =~= productos@.take(k as int));
                assert(productos@.take(k as int + 1).last() == productos@[k as int]);
            }
            if let Some(p) = productos[k] {
                if p.categoria == categoria {
                    ventas_lista.push(p.ventas);
                }
            }
            k = k + 1;
        }
        proof {
            assert(productos@.take(productos@.len() as int) =~= productos@);
        }
        Some(self.internal_calc_stats(cals, ventas_lista))
    }

    /// Fold each list with checked addition — a contribution whose
    /// accumulation would overflow is dropped, not wrapped and not allowed
    /// to poison the rest — and divide the rating total by the number of
    /// ratings actually accumulated, zero when none were. Returns
    /// `(promedio de calificaciones, total de ventas)`.
    pub fn internal_calc_stats(&self, cals: Vec<u128>, ventas: Vec<u128>) -> (r: (u128, u128))
        ensures
            r.0 as int == promedio(cals@),
            r.1 as int == suma_plegada(ventas@),
    {
        let mut suma: u128 = 0;
        let mut cuantos: u128 = 0;
        proof {
            assert(cals@.take(0) =~= Seq::<u128>::empty());
        }
        let mut i: usize = 0;
        while i < cals.len()
            invariant
                i <= cals.len(),
                suma as int == suma_plegada(cals@.take(i as int)),
                cuantos as int == sumados(cals@.take(i as int)),
                cuantos <= i as u128,
            decreases cals.len() - i,
        {
            proof {
                assert(cals@.take(i as int + 1).drop_last() =~= cals@.take(i as int));
                assert(cals@.take(i as int + 1).last() == cals@[i as int]);
            }
            match suma.checked_add(cals[i]) {
                Some(nueva) => {
                    suma = nueva;
                    cuantos = cuantos + 1;
                },
                None => {},
            }
            i = i + 1;
        }
        proof {
            assert(cals@.take(cals@.len() as int) =~= cals@);
        }
        let promedio_cals: u128 = if cuantos > 0 {
            suma / cuantos
        } else {
            0
        };
        let mut total_ventas: u128 = 0;
        proof {
            assert(ventas@.take(0) =~= Seq::<u128>::empty());
        }
        let mut k: usize = 0;
        while k < ventas.len()
            invariant
                k <= ventas.len(),
                total_ventas as int == suma_plegada(ventas@.take(k as int)),
            decreases ventas.len() - k,
        {
            proof {
                assert(ventas@.take(k as int + 1).drop_last() =~= ventas@.take(k as int));
                assert(ventas@.take(k as int + 1).last() == ventas@[k as int]);
            }
            match total_ventas.checked_add(ventas[k]) {
                Some(nueva) => {
                    total_ventas = nueva;
                },
                None => {},
            }
            k = k + 1;
        }
        proof {
            assert(ventas@.take(ventas@.len() as int) =~= ventas@);
        }
        (promedio_cals, total_ventas)
    }
}

/// Idempotence: every query is a pure function of the snapshot it is
/// handed — two calls over an unchanged source see equal snapshots, and
/// equal snapshots give bit-identical results.
pub proof fn lema_consultas_idempotentes(
    compradores1: Seq<(AccountId, Option<u8>)>,
    compradores2: Seq<(AccountId, Option<u8>)>,
    productos1: Seq<(u128, Option<u128>)>,
    productos2: Seq<(u128, Option<u128>)>,
    pedidos1: Seq<Option<u8>>,
    pedidos2: Seq<Option<u8>>,
    registros1: Seq<Option<Producto>>,
    registros2: Seq<Option<Producto>>,
    categoria: CategoriaProducto,
    n: int,
)
    requires
        compradores1 == compradores2,
        productos1 == productos2,
        pedidos1 == pedidos2,
        registros1 == registros2,
    ensures
        top_n_u8(compradores1, 5) == top_n_u8(compradores2, 5),
        top_n_u128(productos1, n) == top_n_u128(productos2, n),
        promedio(calificaciones_con_valor(pedidos1))
            == promedio(calificaciones_con_valor(pedidos2)),
        suma_plegada(ventas_de_categoria(registros1, categoria))
            == suma_plegada(ventas_de_categoria(registros2, categoria)),
{
}

} // verus!
