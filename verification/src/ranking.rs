//! The top-N ranking model: a stable descending sort by metric, written as
//! an insertion sort over mathematical sequences, plus the lemmas the
//! executable sorters and the ranking laws rest on.
//!
//! Stability is built into `inserta_desc_*`: a new entry goes *after* every
//! already-placed entry whose metric is at least as large, so entries with
//! equal metrics keep the order in which the ledger enumerated them.

use vstd::multiset::Multiset;
use vstd::prelude::*;

use crate::types::AccountId;

verus! {

/// Insert `x` into `s` behind every entry whose metric is `>= x`'s.
/// When `s` is already sorted descending, the result is too, and entries
/// with a metric equal to `x`'s all stay in front of `x`.
pub open spec fn inserta_desc_u8(s: Seq<(AccountId, u8)>, x: (AccountId, u8)) -> Seq<(AccountId, u8)>
    decreases s.len(),
{
    if s.len() == 0 {
        seq![x]
    } else if s[0].1 >= x.1 {
        seq![s[0]] + inserta_desc_u8(s.drop_first(), x)
    } else {
        seq![x] + s
    }
}

/// Stable descending sort by metric: fold the entries in enumeration order
/// into a sorted sequence, each behind its equals.
pub open spec fn ordena_desc_u8(s: Seq<(AccountId, u8)>) -> Seq<(AccountId, u8)>
    decreases s.len(),
{
    if s.len() == 0 {
        Seq::<(AccountId, u8)>::empty()
    } else {
        inserta_desc_u8(ordena_desc_u8(s.drop_last()), s.last())
    }
}

/// The entries whose lookup produced a value, in enumeration order;
/// entries whose lookup came back empty are excluded, never defaulted.
pub open spec fn con_valor_u8(s: Seq<(AccountId, Option<u8>)>) -> Seq<(AccountId, u8)>
    decreases s.len(),
{
    if s.len() == 0 {
        Seq::<(AccountId, u8)>::empty()
    } else {
        match s.last().1 {
            Some(v) => con_valor_u8(s.drop_last()).push((s.last().0, v)),
            None => con_valor_u8(s.drop_last()),
        }
    }
}

/// Sorted descending by metric.
pub open spec fn esta_ordenada_u8(s: Seq<(AccountId, u8)>) -> bool {
    forall|i: int, j: int| 0 <= i <= j < s.len() ==> s[i].1 >= s[j].1
}

/// What a top-N query returns: keep the entries with a value, sort them
/// stably by metric descending, and take the first `min(n, cuantas hay)`.
pub open spec fn top_n_u8(s: Seq<(AccountId, Option<u8>)>, n: int) -> Seq<(AccountId, u8)> {
    let ordenadas = ordena_desc_u8(con_valor_u8(s));
    ordenadas.take(vstd::math::min(n, ordenadas.len() as int))
}

/// Inserting adds exactly one entry.
pub proof fn lema_inserta_largo_u8(s: Seq<(AccountId, u8)>, x: (AccountId, u8))
    ensures
        inserta_desc_u8(s, x).len() == s.len() + 1,
    decreases s.len(),
{
    if s.len() > 0 && s[0].1 >= x.1 {
        lema_inserta_largo_u8(s.drop_first(), x);
    }
}

/// Sorting keeps the length.
pub proof fn lema_ordena_largo_u8(s: Seq<(AccountId, u8)>)
    ensures
        ordena_desc_u8(s).len() == s.len(),
    decreases s.len(),
{
    if s.len() > 0 {
        lema_ordena_largo_u8(s.drop_last());
        lema_inserta_largo_u8(ordena_desc_u8(s.drop_last()), s.last());
    }
}

/// Every entry of an insertion is the inserted entry or one of the old ones.
pub proof fn lema_inserta_pertenencia_u8(s: Seq<(AccountId, u8)>, x: (AccountId, u8))
    ensures
        forall|m: int| 0 <= m < inserta_desc_u8(s, x).len()
            ==> #[trigger] inserta_desc_u8(s, x)[m] == x || s.contains(inserta_desc_u8(s, x)[m]),
    decreases s.len(),
{
    let r = inserta_desc_u8(s, x);
    if s.len() == 0 {
        assert(r =~= seq![x]);
    } else if s[0].1 >= x.1 {
        lema_inserta_pertenencia_u8(s.drop_first(), x);
        let r2 = inserta_desc_u8(s.drop_first(), x);
        assert forall|m: int| 0 <= m < r.len() implies #[trigger] r[m] == x || s.contains(r[m]) by {
            if m == 0 {
                assert(r[0] == s[0]);
                assert(s.contains(s[0]));
            } else {
                assert(r[m] == r2[m - 1]);
                if r2[m - 1] != x {
                    assert(s.drop_first().contains(r2[m - 1]));
                    let k = choose|k: int|
                        0 <= k < s.drop_first().len() && s.drop_first()[k] == r2[m - 1];
                    assert(s[k + 1] == r2[m - 1]);
                    assert(s.contains(r[m]));
                }
            }
        }
    } else {
        assert(r == seq![x] + s);
        assert forall|m: int| 0 <= m < r.len() implies #[trigger] r[m] == x || s.contains(r[m]) by {
            if m > 0 {
                assert(r[m] == s[m - 1]);
                assert(s.contains(s[m - 1]));
            }
        }
    }
}

/// Inserting into a descending-sorted sequence keeps it sorted.
pub proof fn lema_inserta_ordenada_u8(s: Seq<(AccountId, u8)>, x: (AccountId, u8))
    requires
        esta_ordenada_u8(s),
    ensures
        esta_ordenada_u8(inserta_desc_u8(s, x)),
    decreases s.len(),
{
    let r = inserta_desc_u8(s, x);
    if s.len() == 0 {
        assert(r =~= seq![x]);
    } else if s[0].1 >= x.1 {
        assert(esta_ordenada_u8(s.drop_first()));
        lema_inserta_ordenada_u8(s.drop_first(), x);
        lema_inserta_pertenencia_u8(s.drop_first(), x);
        let r2 = inserta_desc_u8(s.drop_first(), x);
        assert forall|i: int, j: int| 0 <= i <= j < r.len() implies r[i].1 >= r[j].1 by {
            if i == 0 && j > 0 {
                assert(r[j] == r2[j - 1]);
                if r2[j - 1] != x {
                    assert(s.drop_first().contains(r2[j - 1]));
                    let k = choose|k: int|
                        0 <= k < s.drop_first().len() && s.drop_first()[k] == r2[j - 1];
                    assert(s[k + 1] == r2[j - 1]);
                    assert(s[0].1 >= s[k + 1].1);
                }
            } else if i > 0 {
                assert(r[i] == r2[i - 1] && r[j] == r2[j - 1]);
            }
        }
    } else {
        assert(r == seq![x] + s);
        assert forall|i: int, j: int| 0 <= i <= j < r.len() implies r[i].1 >= r[j].1 by {
            if i == 0 && j > 0 {
                assert(r[j] == s[j - 1]);
                assert(s[0].1 >= s[j - 1].1);
            } else if i > 0 {
                assert(r[i] == s[i - 1] && r[j] == s[j - 1]);
            }
        }
    }
}

/// The stable sort really sorts: its result is descending by metric.
pub proof fn lema_ordena_ordenada_u8(s: Seq<(AccountId, u8)>)
    ensures
        esta_ordenada_u8(ordena_desc_u8(s)),
    decreases s.len(),
{
    if s.len() > 0 {
        lema_ordena_ordenada_u8(s.drop_last());
        lema_inserta_ordenada_u8(ordena_desc_u8(s.drop_last()), s.last());
    }
}

/// Inserting adds exactly the inserted entry to the bag of entries.
pub proof fn lema_inserta_multiconjunto_u8(s: Seq<(AccountId, u8)>, x: (AccountId, u8))
    ensures
        inserta_desc_u8(s, x).to_multiset() == s.to_multiset().insert(x),
    decreases s.len(),
{
    broadcast use vstd::seq_lib::group_to_multiset_ensures;
    broadcast use vstd::multiset::group_multiset_axioms;

    if s.len() == 0 {
        assert(seq![x] =~= Seq::<(AccountId, u8)>::empty().push(x));
        assert(Seq::<(AccountId, u8)>::empty().to_multiset().len() == 0);
        assert(Seq::<(AccountId, u8)>::empty().to_multiset() =~= Multiset::<(AccountId, u8)>::empty());
        assert(inserta_desc_u8(s, x).to_multiset() =~= s.to_multiset().insert(x));
    } else if s[0].1 >= x.1 {
        lema_inserta_multiconjunto_u8(s.drop_first(), x);
        vstd::seq_lib::lemma_multiset_commutative(seq![s[0]], inserta_desc_u8(s.drop_first(), x));
        vstd::seq_lib::lemma_multiset_commutative(seq![s[0]], s.drop_first());
        assert(s =~= seq![s[0]] + s.drop_first());
        assert(inserta_desc_u8(s, x).to_multiset() =~= s.to_multiset().insert(x));
    } else {
        vstd::seq_lib::lemma_multiset_commutative(seq![x], s);
        assert(seq![x] =~= Seq::<(AccountId, u8)>::empty().push(x));
        assert(Seq::<(AccountId, u8)>::empty().to_multiset().len() == 0);
        assert(Seq::<(AccountId, u8)>::empty().to_multiset() =~= Multiset::<(AccountId, u8)>::empty());
        assert(inserta_desc_u8(s, x).to_multiset() =~= s.to_multiset().insert(x));
    }
}

/// The stable sort permutes the retained entries: same bag, new order.
pub proof fn lema_ordena_multiconjunto_u8(s: Seq<(AccountId, u8)>)
    ensures
        ordena_desc_u8(s).to_multiset() == s.to_multiset(),
    decreases s.len(),
{
    broadcast use vstd::seq_lib::group_to_multiset_ensures;

    if s.len() > 0 {
        lema_ordena_multiconjunto_u8(s.drop_last());
        lema_inserta_multiconjunto_u8(ordena_desc_u8(s.drop_last()), s.last());
        assert(s =~= s.drop_last().push(s.last()));
        assert(s.drop_last().push(s.last()).to_multiset() == s.drop_last().to_multiset().insert(s.last()));
    }
}

/// Sorting invents no entry: whatever stands in the sorted sequence stood
/// in the unsorted one.
pub proof fn lema_ordena_pertenencia_u8(s: Seq<(AccountId, u8)>)
    ensures
        forall|e: (AccountId, u8)| #[trigger] ordena_desc_u8(s).contains(e) ==> s.contains(e),
{
    broadcast use vstd::seq_lib::group_to_multiset_ensures;

    lema_ordena_multiconjunto_u8(s);
    assert forall|e: (AccountId, u8)| #[trigger] ordena_desc_u8(s).contains(e)
        implies s.contains(e) by {
        assert(ordena_desc_u8(s).to_multiset().count(e) > 0);
        assert(s.to_multiset().count(e) > 0);
    }
}

/// Whatever the filter keeps came out of a lookup that produced a value:
/// an entry `(id, v)` of the filtered sequence stands for some snapshot
/// entry `(id, Some(v))`.
pub proof fn lema_con_valor_pertenencia_u8(s: Seq<(AccountId, Option<u8>)>)
    ensures
        forall|e: (AccountId, u8)| #[trigger] con_valor_u8(s).contains(e)
            ==> exists|i: int| 0 <= i < s.len() && s[i].0 == e.0 && s[i].1 == Some(e.1),
    decreases s.len(),
{
    if s.len() > 0 {
        lema_con_valor_pertenencia_u8(s.drop_last());
        assert forall|e: (AccountId, u8)| #[trigger] con_valor_u8(s).contains(e)
            implies exists|i: int| 0 <= i < s.len() && s[i].0 == e.0 && s[i].1 == Some(e.1) by {
            let r = con_valor_u8(s);
            let m = choose|m: int| 0 <= m < r.len() && r[m] == e;
            match s.last().1 {
                Some(v) => {
                    if m < r.len() - 1 {
                        assert(con_valor_u8(s.drop_last())[m] == e);
                        assert(con_valor_u8(s.drop_last()).contains(e));
                        let i = choose|i: int|
                            0 <= i < s.drop_last().len() && s.drop_last()[i].0 == e.0
                                && s.drop_last()[i].1 == Some(e.1);
                        assert(s[i].0 == e.0 && s[i].1 == Some(e.1));
                    } else {
                        assert(e == (s.last().0, v));
                        assert(s[s.len() - 1].0 == e.0 && s[s.len() - 1].1 == Some(e.1));
                    }
                },
                None => {
                    assert(con_valor_u8(s.drop_last()).contains(e));
                    let i = choose|i: int|
                        0 <= i < s.drop_last().len() && s.drop_last()[i].0 == e.0
                            && s.drop_last()[i].1 == Some(e.1);
                    assert(s[i].0 == e.0 && s[i].1 == Some(e.1));
                },
            }
        }
    }
}

/// Where the executable sorter places `x` — at the first index whose metric
/// is smaller — is where `inserta_desc_u8` places it.
pub proof fn lema_inserta_en_posicion_u8(s: Seq<(AccountId, u8)>, x: (AccountId, u8), j: int)
    requires
        0 <= j <= s.len(),
        forall|k: int| 0 <= k < j ==> s[k].1 >= x.1,
        j < s.len() ==> s[j].1 < x.1,
    ensures
        inserta_desc_u8(s, x) == s.take(j) + seq![x] + s.skip(j),
    decreases j,
{
    if j == 0 {
        if s.len() == 0 {
            assert(inserta_desc_u8(s, x) =~= s.take(0) + seq![x] + s.skip(0));
        } else {
            assert(s[0].1 < x.1);
            assert(inserta_desc_u8(s, x) =~= s.take(0) + seq![x] + s.skip(0));
        }
    } else {
        assert(s[0].1 >= x.1);
        assert(forall|k: int| 0 <= k < j - 1 ==> s.drop_first()[k].1 >= x.1);
        lema_inserta_en_posicion_u8(s.drop_first(), x, j - 1);
        assert(seq![s[0]] + (s.drop_first().take(j - 1) + seq![x] + s.drop_first().skip(j - 1))
            =~= s.take(j) + seq![x] + s.skip(j));
    }
}

/// Top-N correctness: the query's result is descending by metric, is
/// exactly `min(n, cuantas con valor)` entries long, is a prefix of the
/// stable sort of the retained entries, and that sort permutes them.
pub proof fn lema_top_n_correcto_u8(s: Seq<(AccountId, Option<u8>)>, n: int)
    requires
        0 <= n,
    ensures
        top_n_u8(s, n).len() == vstd::math::min(n, con_valor_u8(s).len() as int),
        esta_ordenada_u8(top_n_u8(s, n)),
        top_n_u8(s, n) == ordena_desc_u8(con_valor_u8(s)).take(top_n_u8(s, n).len() as int),
        ordena_desc_u8(con_valor_u8(s)).to_multiset() == con_valor_u8(s).to_multiset(),
{
    let c = con_valor_u8(s);
    let o = ordena_desc_u8(c);
    lema_ordena_largo_u8(c);
    lema_ordena_ordenada_u8(c);
    lema_ordena_multiconjunto_u8(c);
    let m = vstd::math::min(n, o.len() as int);
    assert forall|i: int, j: int| 0 <= i <= j < o.take(m).len() implies
        o.take(m)[i].1 >= o.take(m)[j].1 by {
        assert(o.take(m)[i] == o[i] && o.take(m)[j] == o[j]);
    }
}

/// Missing-value exclusion: an identifier whose every lookup in the
/// snapshot came back empty appears in no top-N result, whatever N is.
pub proof fn lema_excluye_faltantes_u8(s: Seq<(AccountId, Option<u8>)>, id: AccountId)
    requires
        forall|i: int| 0 <= i < s.len() && (#[trigger] s[i]).0 == id ==> s[i].1 is None,
    ensures
        forall|n: int, j: int| 0 <= n && 0 <= j < top_n_u8(s, n).len()
            ==> (#[trigger] top_n_u8(s, n)[j]).0 != id,
{
    let c = con_valor_u8(s);
    let o = ordena_desc_u8(c);
    lema_ordena_largo_u8(c);
    lema_ordena_pertenencia_u8(c);
    lema_con_valor_pertenencia_u8(s);
    assert forall|n: int, j: int| 0 <= n && 0 <= j < top_n_u8(s, n).len()
        implies (top_n_u8(s, n)[j]).0 != id by {
        let e = top_n_u8(s, n)[j];
        assert(e == o[j]);
        assert(o.contains(e));
        assert(c.contains(e));
        let i = choose|i: int| 0 <= i < s.len() && s[i].0 == e.0 && s[i].1 == Some(e.1);
        if e.0 == id {
            assert(s[i].1 is None);
            assert(false);
        }
    }
}

/// Asking for at least as many entries as have a value returns exactly the
/// retained entries, fully sorted — no padding, no duplication.
pub proof fn lema_top_n_todo_u8(s: Seq<(AccountId, Option<u8>)>, n: int)
    requires
        n >= con_valor_u8(s).len(),
    ensures
        top_n_u8(s, n) == ordena_desc_u8(con_valor_u8(s)),
        top_n_u8(s, n).len() == con_valor_u8(s).len(),
        esta_ordenada_u8(top_n_u8(s, n)),
        top_n_u8(s, n).to_multiset() == con_valor_u8(s).to_multiset(),
{
    let c = con_valor_u8(s);
    let o = ordena_desc_u8(c);
    lema_ordena_largo_u8(c);
    lema_ordena_ordenada_u8(c);
    lema_ordena_multiconjunto_u8(c);
    assert(o.take(o.len() as int) =~= o);
}

/// Asking for zero entries returns the empty sequence.
pub proof fn lema_top_cero_u8(s: Seq<(AccountId, Option<u8>)>)
    ensures
        top_n_u8(s, 0) == Seq::<(AccountId, u8)>::empty(),
{
    assert(top_n_u8(s, 0) =~= Seq::<(AccountId, u8)>::empty());
}

/// The entries of `s` whose metric is exactly `v`, in their order.
pub open spec fn filtra_metrica_u8(s: Seq<(AccountId, u8)>, v: u8) -> Seq<(AccountId, u8)>
    decreases s.len(),
{
    if s.len() == 0 {
        Seq::<(AccountId, u8)>::empty()
    } else if s[0].1 == v {
        seq![s[0]] + filtra_metrica_u8(s.drop_first(), v)
    } else {
        filtra_metrica_u8(s.drop_first(), v)
    }
}

/// With no entry of metric `v` there is nothing to list.
proof fn lema_filtra_sin_metrica_u8(s: Seq<(AccountId, u8)>, v: u8)
    requires
        forall|i: int| 0 <= i < s.len() ==> (#[trigger] s[i]).1 != v,
    ensures
        filtra_metrica_u8(s, v) == Seq::<(AccountId, u8)>::empty(),
    decreases s.len(),
{
    if s.len() > 0 {
        assert(forall|i: int| 0 <= i < s.drop_first().len()
            ==> (#[trigger] s.drop_first()[i]).1 != v);
        lema_filtra_sin_metrica_u8(s.drop_first(), v);
    }
}

/// The filter looks at each entry on its own: appending an entry appends
/// it to its metric's listing, and to no other.
proof fn lema_filtra_agrega_u8(s: Seq<(AccountId, u8)>, x: (AccountId, u8), v: u8)
    ensures
        filtra_metrica_u8(s.push(x), v) == (if x.1 == v {
            filtra_metrica_u8(s, v).push(x)
        } else {
            filtra_metrica_u8(s, v)
        }),
    decreases s.len(),
{
    if s.len() == 0 {
        assert(s.push(x) =~= seq![x]);
        assert(s.push(x).drop_first() =~= s);
        assert(filtra_metrica_u8(s, v) =~= Seq::<(AccountId, u8)>::empty());
        if x.1 == v {
            assert(filtra_metrica_u8(s.push(x), v) =~= filtra_metrica_u8(s, v).push(x));
        }
    } else {
        assert(s.push(x).drop_first() =~= s.drop_first().push(x));
        assert(s.push(x)[0] == s[0]);
        lema_filtra_agrega_u8(s.drop_first(), x, v);
        if s[0].1 == v && x.1 == v {
            assert(seq![s[0]] + filtra_metrica_u8(s.drop_first(), v).push(x)
                =~= (seq![s[0]] + filtra_metrica_u8(s.drop_first(), v)).push(x));
        }
    }
}

/// Inserting into a sorted sequence puts `x` behind every entry of its own
/// metric: each metric's listing grows at its end, or not at all.
proof fn lema_inserta_filtra_u8(s: Seq<(AccountId, u8)>, x: (AccountId, u8), v: u8)
    requires
        esta_ordenada_u8(s),
    ensures
        filtra_metrica_u8(inserta_desc_u8(s, x), v) == (if x.1 == v {
            filtra_metrica_u8(s, v).push(x)
        } else {
            filtra_metrica_u8(s, v)
        }),
    decreases s.len(),
{
    let r = inserta_desc_u8(s, x);
    if s.len() == 0 {
        assert(r =~= Seq::<(AccountId, u8)>::empty().push(x));
        lema_filtra_agrega_u8(Seq::<(AccountId, u8)>::empty(), x, v);
    } else if s[0].1 >= x.1 {
        assert(esta_ordenada_u8(s.drop_first()));
        lema_inserta_filtra_u8(s.drop_first(), x, v);
        assert(r == seq![s[0]] + inserta_desc_u8(s.drop_first(), x));
        assert(r.drop_first() =~= inserta_desc_u8(s.drop_first(), x));
        assert(r[0] == s[0]);
        if s[0].1 == v && x.1 == v {
            assert(seq![s[0]] + filtra_metrica_u8(s.drop_first(), v).push(x)
                =~= (seq![s[0]] + filtra_metrica_u8(s.drop_first(), v)).push(x));
        }
    } else {
        assert(r == seq![x] + s);
        assert(r[0] == x);
        assert(r.drop_first() =~= s);
        if x.1 == v {
            assert forall|i: int| 0 <= i < s.len() implies (#[trigger] s[i]).1 != v by {
                assert(s[0].1 >= s[i].1);
            }
            lema_filtra_sin_metrica_u8(s, v);
            assert(filtra_metrica_u8(r, v) =~= filtra_metrica_u8(s, v).push(x));
        }
    }
}

/// Stability, stated precisely: for every metric value, the stable sort
/// lists the entries carrying that metric in exactly the order the ledger
/// enumerated them. Together with sortedness and the permutation property
/// this pins the sort down completely.
pub proof fn lema_ordena_estable_u8(s: Seq<(AccountId, u8)>, v: u8)
    ensures
        filtra_metrica_u8(ordena_desc_u8(s), v) == filtra_metrica_u8(s, v),
    decreases s.len(),
{
    if s.len() > 0 {
        lema_ordena_estable_u8(s.drop_last(), v);
        lema_ordena_ordenada_u8(s.drop_last());
        lema_inserta_filtra_u8(ordena_desc_u8(s.drop_last()), s.last(), v);
        lema_filtra_agrega_u8(s.drop_last(), s.last(), v);
        assert(s.drop_last().push(s.last()) =~= s);
    }
}

// The queries over products carry `(u128, u128)` pairs — a numeric product
// id and its sales counter — where the rating queries carry `(AccountId, u8)`.
// The model and the lemmas are the exact twins of the `_u8` ones above.

/// The product-pair twin of `inserta_desc_u8`: insert `x` behind every
/// entry whose metric is at least as large.
pub open spec fn inserta_desc_u128(s: Seq<(u128, u128)>, x: (u128, u128)) -> Seq<(u128, u128)>
    decreases s.len(),
{
    if s.len() == 0 {
        seq![x]
    } else if s[0].1 >= x.1 {
        seq![s[0]] + inserta_desc_u128(s.drop_first(), x)
    } else {
        seq![x] + s
    }
}

/// Stable descending sort of `(id de producto, ventas)` pairs, the twin
/// of `ordena_desc_u8`.
pub open spec fn ordena_desc_u128(s: Seq<(u128, u128)>) -> Seq<(u128, u128)>
    decreases s.len(),
{
    if s.len() == 0 {
        Seq::<(u128, u128)>::empty()
    } else {
        inserta_desc_u128(ordena_desc_u128(s.drop_last()), s.last())
    }
}

/// The entries whose lookup produced a value, in enumeration order;
/// entries whose lookup came back empty are excluded, never defaulted.
pub open spec fn con_valor_u128(s: Seq<(u128, Option<u128>)>) -> Seq<(u128, u128)>
    decreases s.len(),
{
    if s.len() == 0 {
        Seq::<(u128, u128)>::empty()
    } else {
        match s.last().1 {
            Some(v) => con_valor_u128(s.drop_last()).push((s.last().0, v)),
            None => con_valor_u128(s.drop_last()),
        }
    }
}

/// Sorted descending by metric.
pub open spec fn esta_ordenada_u128(s: Seq<(u128, u128)>) -> bool {
    forall|i: int, j: int| 0 <= i <= j < s.len() ==> s[i].1 >= s[j].1
}

/// What a top-N query returns: keep the entries with a value, sort them
/// stably by metric descending, and take the first `min(n, cuantas hay)`.
pub open spec fn top_n_u128(s: Seq<(u128, Option<u128>)>, n: int) -> Seq<(u128, u128)> {
    let ordenadas = ordena_desc_u128(con_valor_u128(s));
    ordenadas.take(vstd::math::min(n, ordenadas.len() as int))
}

/// Inserting adds exactly one entry.
pub proof fn lema_inserta_largo_u128(s: Seq<(u128, u128)>, x: (u128, u128))
    ensures
        inserta_desc_u128(s, x).len() == s.len() + 1,
    decreases s.len(),
{
    if s.len() > 0 && s[0].1 >= x.1 {
        lema_inserta_largo_u128(s.drop_first(), x);
    }
}

/// Sorting keeps the length.
pub proof fn lema_ordena_largo_u128(s: Seq<(u128, u128)>)
    ensures
        ordena_desc_u128(s).len() == s.len(),
    decreases s.len(),
{
    if s.len() > 0 {
        lema_ordena_largo_u128(s.drop_last());
        lema_inserta_largo_u128(ordena_desc_u128(s.drop_last()), s.last());
    }
}

/// Every entry of an insertion is the inserted entry or one of the old ones.
pub proof fn lema_inserta_pertenencia_u128(s: Seq<(u128, u128)>, x: (u128, u128))
    ensures
        forall|m: int| 0 <= m < inserta_desc_u128(s, x).len()
            ==> #[trigger] inserta_desc_u128(s, x)[m] == x || s.contains(inserta_desc_u128(s, x)[m]),
    decreases s.len(),
{
    let r = inserta_desc_u128(s, x);
    if s.len() == 0 {
        assert(r =~= seq![x]);
    } else if s[0].1 >= x.1 {
        lema_inserta_pertenencia_u128(s.drop_first(), x);
        let r2 = inserta_desc_u128(s.drop_first(), x);
        assert forall|m: int| 0 <= m < r.len() implies #[trigger] r[m] == x || s.contains(r[m]) by {
            if m == 0 {
                assert(r[0] == s[0]);
                assert(s.contains(s[0]));
            } else {
                assert(r[m] == r2[m - 1]);
                if r2[m - 1] != x {
                    assert(s.drop_first().contains(r2[m - 1]));
                    let k = choose|k: int|
                        0 <= k < s.drop_first().len() && s.drop_first()[k] == r2[m - 1];
                    assert(s[k + 1] == r2[m - 1]);
                    assert(s.contains(r[m]));
                }
            }
        }
    } else {
        assert(r == seq![x] + s);
        assert forall|m: int| 0 <= m < r.len() implies #[trigger] r[m] == x || s.contains(r[m]) by {
            if m > 0 {
                assert(r[m] == s[m - 1]);
                assert(s.contains(s[m - 1]));
            }
        }
    }
}

/// Inserting into a descending-sorted sequence keeps it sorted.
pub proof fn lema_inserta_ordenada_u128(s: Seq<(u128, u128)>, x: (u128, u128))
    requires
        esta_ordenada_u128(s),
    ensures
        esta_ordenada_u128(inserta_desc_u128(s, x)),
    decreases s.len(),
{
    let r = inserta_desc_u128(s, x);
    if s.len() == 0 {
        assert(r =~= seq![x]);
    } else if s[0].1 >= x.1 {
        assert(esta_ordenada_u128(s.drop_first()));
        lema_inserta_ordenada_u128(s.drop_first(), x);
        lema_inserta_pertenencia_u128(s.drop_first(), x);
        let r2 = inserta_desc_u128(s.drop_first(), x);
        assert forall|i: int, j: int| 0 <= i <= j < r.len() implies r[i].1 >= r[j].1 by {
            if i == 0 && j > 0 {
                assert(r[j] == r2[j - 1]);
                if r2[j - 1] != x {
                    assert(s.drop_first().contains(r2[j - 1]));
                    let k = choose|k: int|
                        0 <= k < s.drop_first().len() && s.drop_first()[k] == r2[j - 1];
                    assert(s[k + 1] == r2[j - 1]);
                    assert(s[0].1 >= s[k + 1].1);
                }
            } else if i > 0 {
                assert(r[i] == r2[i - 1] && r[j] == r2[j - 1]);
            }
        }
    } else {
        assert(r == seq![x] + s);
        assert forall|i: int, j: int| 0 <= i <= j < r.len() implies r[i].1 >= r[j].1 by {
            if i == 0 && j > 0 {
                assert(r[j] == s[j - 1]);
                assert(s[0].1 >= s[j - 1].1);
            } else if i > 0 {
                assert(r[i] == s[i - 1] && r[j] == s[j - 1]);
            }
        }
    }
}

/// The stable sort really sorts: its result is descending by metric.
pub proof fn lema_ordena_ordenada_u128(s: Seq<(u128, u128)>)
    ensures
        esta_ordenada_u128(ordena_desc_u128(s)),
    decreases s.len(),
{
    if s.len() > 0 {
        lema_ordena_ordenada_u128(s.drop_last());
        lema_inserta_ordenada_u128(ordena_desc_u128(s.drop_last()), s.last());
    }
}

/// Inserting adds exactly the inserted entry to the bag of entries.
pub proof fn lema_inserta_multiconjunto_u128(s: Seq<(u128, u128)>, x: (u128, u128))
    ensures
        inserta_desc_u128(s, x).to_multiset() == s.to_multiset().insert(x),
    decreases s.len(),
{
    broadcast use vstd::seq_lib::group_to_multiset_ensures;
    broadcast use vstd::multiset::group_multiset_axioms;

    if s.len() == 0 {
        assert(seq![x] =~= Seq::<(u128, u128)>::empty().push(x));
        assert(Seq::<(u128, u128)>::empty().to_multiset().len() == 0);
        assert(Seq::<(u128, u128)>::empty().to_multiset() =~= Multiset::<(u128, u128)>::empty());
        assert(inserta_desc_u128(s, x).to_multiset() =~= s.to_multiset().insert(x));
    } else if s[0].1 >= x.1 {
        lema_inserta_multiconjunto_u128(s.drop_first(), x);
        vstd::seq_lib::lemma_multiset_commutative(seq![s[0]], inserta_desc_u128(s.drop_first(), x));
        vstd::seq_lib::lemma_multiset_commutative(seq![s[0]], s.drop_first());
        assert(s =~= seq![s[0]] + s.drop_first());
        assert(inserta_desc_u128(s, x).to_multiset() =~= s.to_multiset().insert(x));
    } else {
        vstd::seq_lib::lemma_multiset_commutative(seq![x], s);
        assert(seq![x] =~= Seq::<(u128, u128)>::empty().push(x));
        assert(Seq::<(u128, u128)>::empty().to_multiset().len() == 0);
        assert(Seq::<(u128, u128)>::empty().to_multiset() =~= Multiset::<(u128, u128)>::empty());
        assert(inserta_desc_u128(s, x).to_multiset() =~= s.to_multiset().insert(x));
    }
}

/// The stable sort permutes the retained entries: same bag, new order.
pub proof fn lema_ordena_multiconjunto_u128(s: Seq<(u128, u128)>)
    ensures
        ordena_desc_u128(s).to_multiset() == s.to_multiset(),
    decreases s.len(),
{
    broadcast use vstd::seq_lib::group_to_multiset_ensures;

    if s.len() > 0 {
        lema_ordena_multiconjunto_u128(s.drop_last());
        lema_inserta_multiconjunto_u128(ordena_desc_u128(s.drop_last()), s.last());
        assert(s =~= s.drop_last().push(s.last()));
        assert(s.drop_last().push(s.last()).to_multiset() == s.drop_last().to_multiset().insert(s.last()));
    }
}

/// Sorting invents no entry: whatever stands in the sorted sequence stood
/// in the unsorted one.
pub proof fn lema_ordena_pertenencia_u128(s: Seq<(u128, u128)>)
    ensures
        forall|e: (u128, u128)| #[trigger] ordena_desc_u128(s).contains(e) ==> s.contains(e),
{
    broadcast use vstd::seq_lib::group_to_multiset_ensures;

    lema_ordena_multiconjunto_u128(s);
    assert forall|e: (u128, u128)| #[trigger] ordena_desc_u128(s).contains(e)
        implies s.contains(e) by {
        assert(ordena_desc_u128(s).to_multiset().count(e) > 0);
        assert(s.to_multiset().count(e) > 0);
    }
}

/// Whatever the filter keeps came out of a lookup that produced a value:
/// an entry `(id, v)` of the filtered sequence stands for some snapshot
/// entry `(id, Some(v))`.
pub proof fn lema_con_valor_pertenencia_u128(s: Seq<(u128, Option<u128>)>)
    ensures
        forall|e: (u128, u128)| #[trigger] con_valor_u128(s).contains(e)
            ==> exists|i: int| 0 <= i < s.len() && s[i].0 == e.0 && s[i].1 == Some(e.1),
    decreases s.len(),
{
    if s.len() > 0 {
        lema_con_valor_pertenencia_u128(s.drop_last());
        assert forall|e: (u128, u128)| #[trigger] con_valor_u128(s).contains(e)
            implies exists|i: int| 0 <= i < s.len() && s[i].0 == e.0 && s[i].1 == Some(e.1) by {
            let r = con_valor_u128(s);
            let m = choose|m: int| 0 <= m < r.len() && r[m] == e;
            match s.last().1 {
                Some(v) => {
                    if m < r.len() - 1 {
                        assert(con_valor_u128(s.drop_last())[m] == e);
                        assert(con_valor_u128(s.drop_last()).contains(e));
                        let i = choose|i: int|
                            0 <= i < s.drop_last().len() && s.drop_last()[i].0 == e.0
                                && s.drop_last()[i].1 == Some(e.1);
                        assert(s[i].0 == e.0 && s[i].1 == Some(e.1));
                    } else {
                        assert(e == (s.last().0, v));
                        assert(s[s.len() - 1].0 == e.0 && s[s.len() - 1].1 == Some(e.1));
                    }
                },
                None => {
                    assert(con_valor_u128(s.drop_last()).contains(e));
                    let i = choose|i: int|
                        0 <= i < s.drop_last().len() && s.drop_last()[i].0 == e.0
                            && s.drop_last()[i].1 == Some(e.1);
                    assert(s[i].0 == e.0 && s[i].1 == Some(e.1));
                },
            }
        }
    }
}

/// Where the executable sorter places `x` — at the first index whose metric
/// is smaller — is where `inserta_desc_u128` places it.
pub proof fn lema_inserta_en_posicion_u128(s: Seq<(u128, u128)>, x: (u128, u128), j: int)
    requires
        0 <= j <= s.len(),
        forall|k: int| 0 <= k < j ==> s[k].1 >= x.1,
        j < s.len() ==> s[j].1 < x.1,
    ensures
        inserta_desc_u128(s, x) == s.take(j) + seq![x] + s.skip(j),
    decreases j,
{
    if j == 0 {
        if s.len() == 0 {
            assert(inserta_desc_u128(s, x) =~= s.take(0) + seq![x] + s.skip(0));
        } else {
            assert(s[0].1 < x.1);
            assert(inserta_desc_u128(s, x) =~= s.take(0) + seq![x] + s.skip(0));
        }
    } else {
        assert(s[0].1 >= x.1);
        assert(forall|k: int| 0 <= k < j - 1 ==> s.drop_first()[k].1 >= x.1);
        lema_inserta_en_posicion_u128(s.drop_first(), x, j - 1);
        assert(seq![s[0]] + (s.drop_first().take(j - 1) + seq![x] + s.drop_first().skip(j - 1))
            =~= s.take(j) + seq![x] + s.skip(j));
    }
}

/// Top-N correctness: the query's result is descending by metric, is
/// exactly `min(n, cuantas con valor)` entries long, is a prefix of the
/// stable sort of the retained entries, and that sort permutes them.
pub proof fn lema_top_n_correcto_u128(s: Seq<(u128, Option<u128>)>, n: int)
    requires
        0 <= n,
    ensures
        top_n_u128(s, n).len() == vstd::math::min(n, con_valor_u128(s).len() as int),
        esta_ordenada_u128(top_n_u128(s, n)),
        top_n_u128(s, n) == ordena_desc_u128(con_valor_u128(s)).take(top_n_u128(s, n).len() as int),
        ordena_desc_u128(con_valor_u128(s)).to_multiset() == con_valor_u128(s).to_multiset(),
{
    let c = con_valor_u128(s);
    let o = ordena_desc_u128(c);
    lema_ordena_largo_u128(c);
    lema_ordena_ordenada_u128(c);
    lema_ordena_multiconjunto_u128(c);
    let m = vstd::math::min(n, o.len() as int);
    assert forall|i: int, j: int| 0 <= i <= j < o.take(m).len() implies
        o.take(m)[i].1 >= o.take(m)[j].1 by {
        assert(o.take(m)[i] == o[i] && o.take(m)[j] == o[j]);
    }
}

/// Missing-value exclusion: an identifier whose every lookup in the
/// snapshot came back empty appears in no top-N result, whatever N is.
pub proof fn lema_excluye_faltantes_u128(s: Seq<(u128, Option<u128>)>, id: u128)
    requires
        forall|i: int| 0 <= i < s.len() && (#[trigger] s[i]).0 == id ==> s[i].1 is None,
    ensures
        forall|n: int, j: int| 0 <= n && 0 <= j < top_n_u128(s, n).len()
            ==> (#[trigger] top_n_u128(s, n)[j]).0 != id,
{
    let c = con_valor_u128(s);
    let o = ordena_desc_u128(c);
    lema_ordena_largo_u128(c);
    lema_ordena_pertenencia_u128(c);
    lema_con_valor_pertenencia_u128(s);
    assert forall|n: int, j: int| 0 <= n && 0 <= j < top_n_u128(s, n).len()
        implies (top_n_u128(s, n)[j]).0 != id by {
        let e = top_n_u128(s, n)[j];
        assert(e == o[j]);
        assert(o.contains(e));
        assert(c.contains(e));
        let i = choose|i: int| 0 <= i < s.len() && s[i].0 == e.0 && s[i].1 == Some(e.1);
        if e.0 == id {
            assert(s[i].1 is None);
            assert(false);
        }
    }
}

/// Asking for at least as many entries as have a value returns exactly the
/// retained entries, fully sorted — no padding, no duplication.
pub proof fn lema_top_n_todo_u128(s: Seq<(u128, Option<u128>)>, n: int)
    requires
        n >= con_valor_u128(s).len(),
    ensures
        top_n_u128(s, n) == ordena_desc_u128(con_valor_u128(s)),
        top_n_u128(s, n).len() == con_valor_u128(s).len(),
        esta_ordenada_u128(top_n_u128(s, n)),
        top_n_u128(s, n).to_multiset() == con_valor_u128(s).to_multiset(),
{
    let c = con_valor_u128(s);
    let o = ordena_desc_u128(c);
    lema_ordena_largo_u128(c);
    lema_ordena_ordenada_u128(c);
    lema_ordena_multiconjunto_u128(c);
    assert(o.take(o.len() as int) =~= o);
}

/// Asking for zero entries returns the empty sequence.
pub proof fn lema_top_cero_u128(s: Seq<(u128, Option<u128>)>)
    ensures
        top_n_u128(s, 0) == Seq::<(u128, u128)>::empty(),
{
    assert(top_n_u128(s, 0) =~= Seq::<(u128, u128)>::empty());
}

/// The entries of `s` whose metric is exactly `v`, in their order.
pub open spec fn filtra_metrica_u128(s: Seq<(u128, u128)>, v: u8) -> Seq<(u128, u128)>
    decreases s.len(),
{
    if s.len() == 0 {
        Seq::<(u128, u128)>::empty()
    } else if s[0].1 == v {
        seq![s[0]] + filtra_metrica_u128(s.drop_first(), v)
    } else {
        filtra_metrica_u128(s.drop_first(), v)
    }
}

/// With no entry of metric `v` there is nothing to list.
proof fn lema_filtra_sin_metrica_u128(s: Seq<(u128, u128)>, v: u8)
    requires
        forall|i: int| 0 <= i < s.len() ==> (#[trigger] s[i]).1 != v,
    ensures
        filtra_metrica_u128(s, v) == Seq::<(u128, u128)>::empty(),
    decreases s.len(),
{
    if s.len() > 0 {
        assert(forall|i: int| 0 <= i < s.drop_first().len()
            ==> (#[trigger] s.drop_first()[i]).1 != v);
        lema_filtra_sin_metrica_u128(s.drop_first(), v);
    }
}

/// The filter looks at each entry on its own: appending an entry appends
/// it to its metric's listing, and to no other.
proof fn lema_filtra_agrega_u128(s: Seq<(u128, u128)>, x: (u128, u128), v: u8)
    ensures
        filtra_metrica_u128(s.push(x), v) == (if x.1 == v {
            filtra_metrica_u128(s, v).push(x)
        } else {
            filtra_metrica_u128(s, v)
        }),
    decreases s.len(),
{
    if s.len() == 0 {
        assert(s.push(x) =~= seq![x]);
        assert(s.push(x).drop_first() =~= s);
        assert(filtra_metrica_u128(s, v) =~= Seq::<(u128, u128)>::empty());
        if x.1 == v {
            assert(filtra_metrica_u128(s.push(x), v) =~= filtra_metrica_u128(s, v).push(x));
        }
    } else {
        assert(s.push(x).drop_first() =~= s.drop_first().push(x));
        assert(s.push(x)[0] == s[0]);
        lema_filtra_agrega_u128(s.drop_first(), x, v);
        if s[0].1 == v && x.1 == v {
            assert(seq![s[0]] + filtra_metrica_u128(s.drop_first(), v).push(x)
                =~= (seq![s[0]] + filtra_metrica_u128(s.drop_first(), v)).push(x));
        }
    }
}

/// Inserting into a sorted sequence puts `x` behind every entry of its own
/// metric: each metric's listing grows at its end, or not at all.
proof fn lema_inserta_filtra_u128(s: Seq<(u128, u128)>, x: (u128, u128), v: u8)
    requires
        esta_ordenada_u128(s),
    ensures
        filtra_metrica_u128(inserta_desc_u128(s, x), v) == (if x.1 == v {
            filtra_metrica_u128(s, v).push(x)
        } else {
            filtra_metrica_u128(s, v)
        }),
    decreases s.len(),
{
    let r = inserta_desc_u128(s, x);
    if s.len() == 0 {
        assert(r =~= Seq::<(u128, u128)>::empty().push(x));
        lema_filtra_agrega_u128(Seq::<(u128, u128)>::empty(), x, v);
    } else if s[0].1 >= x.1 {
        assert(esta_ordenada_u128(s.drop_first()));
        lema_inserta_filtra_u128(s.drop_first(), x, v);
        assert(r == seq![s[0]] + inserta_desc_u128(s.drop_first(), x));
        assert(r.drop_first() =~= inserta_desc_u128(s.drop_first(), x));
        assert(r[0] == s[0]);
        if s[0].1 == v && x.1 == v {
            assert(seq![s[0]] + filtra_metrica_u128(s.drop_first(), v).push(x)
                =~= (seq![s[0]] + filtra_metrica_u128(s.drop_first(), v)).push(x));
        }
    } else {
        assert(r == seq![x] + s);
        assert(r[0] == x);
        assert(r.drop_first() =~= s);
        if x.1 == v {
            assert forall|i: int| 0 <= i < s.len() implies (#[trigger] s[i]).1 != v by {
                assert(s[0].1 >= s[i].1);
            }
            lema_filtra_sin_metrica_u128(s, v);
            assert(filtra_metrica_u128(r, v) =~= filtra_metrica_u128(s, v).push(x));
        }
    }
}

/// Stability, stated precisely: for every metric value, the stable sort
/// lists the entries carrying that metric in exactly the order the ledger
/// enumerated them. Together with sortedness and the permutation property
/// this pins the sort down completely.
pub proof fn lema_ordena_estable_u128(s: Seq<(u128, u128)>, v: u8)
    ensures
        filtra_metrica_u128(ordena_desc_u128(s), v) == filtra_metrica_u128(s, v),
    decreases s.len(),
{
    if s.len() > 0 {
        lema_ordena_estable_u128(s.drop_last(), v);
        lema_ordena_ordenada_u128(s.drop_last());
        lema_inserta_filtra_u128(ordena_desc_u128(s.drop_last()), s.last(), v);
        lema_filtra_agrega_u128(s.drop_last(), s.last(), v);
        assert(s.drop_last().push(s.last()) =~= s);
    }
}

} // verus!
