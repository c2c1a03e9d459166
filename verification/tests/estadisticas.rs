use rustaceo_libre_rv::AccountId;
use rustaceo_libre_rv::CategoriaProducto;
use rustaceo_libre_rv::Producto;
use rustaceo_libre_rv::RustaceoLibreRV;

fn motor() -> RustaceoLibreRV {
    RustaceoLibreRV::new(AccountId { bytes: [0xAA; 32] })
}

#[test]
fn test_math_stats_logic() {
    let contract = motor();

    let cals = vec![10, 20, 30];
    let ventas = vec![100, 200];
    let (prom, total) = contract.internal_calc_stats(cals, ventas);
    assert_eq!(prom, 20);
    assert_eq!(total, 300);

    let (prom_e, total_e) = contract.internal_calc_stats(vec![], vec![]);
    assert_eq!(prom_e, 0);
    assert_eq!(total_e, 0);

    let (prom_o, _) = contract.internal_calc_stats(vec![u128::MAX, 1], vec![]);
    assert!(prom_o > 0);
}

#[test]
fn estadisticas_de_ejemplo() {
    let pedidos = vec![Some(10u8), Some(20), Some(30)];
    let productos = vec![
        Some(Producto { categoria: CategoriaProducto::Tecnologia, ventas: 100 }),
        Some(Producto { categoria: CategoriaProducto::Tecnologia, ventas: 200 }),
        Some(Producto { categoria: CategoriaProducto::Hogar, ventas: 999 }),
        None,
    ];
    let r = motor().estadisticas_por_categoria(CategoriaProducto::Tecnologia, pedidos, productos);
    assert_eq!(r, Some((20, 300)));
}

#[test]
fn estadisticas_sin_datos_valen_cero() {
    let r = motor().estadisticas_por_categoria(CategoriaProducto::Alimentos, vec![], vec![]);
    assert_eq!(r, Some((0, 0)));
}

#[test]
fn estadisticas_de_categoria_sin_productos() {
    let pedidos = vec![None, None];
    let productos = vec![
        Some(Producto { categoria: CategoriaProducto::Hogar, ventas: 10 }),
    ];
    let r = motor().estadisticas_por_categoria(CategoriaProducto::Indumentaria, pedidos, productos);
    assert_eq!(r, Some((0, 0)));
}

#[test]
fn pedidos_sin_calificacion_no_diluyen_el_promedio() {
    let pedidos = vec![Some(10u8), None, Some(30)];
    let r = motor().estadisticas_por_categoria(CategoriaProducto::Otros, pedidos, vec![]);
    assert_eq!(r, Some((20, 0)));
}

#[test]
fn desborde_descarta_la_contribucion() {
    let contract = motor();

    // The first value fills the accumulator; adding 1 would overflow, so
    // that contribution is dropped and only one rating counts.
    let (prom, _) = contract.internal_calc_stats(vec![u128::MAX, 1], vec![]);
    assert_eq!(prom, u128::MAX);

    // Same policy on the sales side: the total is capped at what still fit.
    let (_, total) = contract.internal_calc_stats(vec![], vec![u128::MAX, 7]);
    assert_eq!(total, u128::MAX);

    // A later value that still fits is accumulated even after a drop.
    let (_, total2) = contract.internal_calc_stats(vec![], vec![u128::MAX - 10, 20, 5]);
    assert_eq!(total2, u128::MAX - 5);
}

#[test]
fn estadisticas_repetidas_dan_lo_mismo() {
    let pedidos = vec![Some(1u8), Some(2), None];
    let productos = vec![
        Some(Producto { categoria: CategoriaProducto::Alimentos, ventas: 8 }),
        None,
    ];
    let motor = motor();
    let primera = motor.estadisticas_por_categoria(
        CategoriaProducto::Alimentos,
        pedidos.clone(),
        productos.clone(),
    );
    let segunda = motor.estadisticas_por_categoria(CategoriaProducto::Alimentos, pedidos, productos);
    assert_eq!(primera, segunda);
}
