use rustaceo_libre_rv::AccountId;
use rustaceo_libre_rv::RustaceoLibreRV;

fn cuenta(b: u8) -> AccountId {
    AccountId { bytes: [b; 32] }
}

fn motor() -> RustaceoLibreRV {
    RustaceoLibreRV::new(cuenta(0xAA))
}

#[test]
fn test_constructor() {
    let contract = RustaceoLibreRV::new(cuenta(0x07));
    assert_eq!(contract.get_rl_address(), cuenta(0x07));
}

#[test]
fn test_sorting_logic_buyers() {
    let contract = motor();
    let a1 = cuenta(0x1);
    let a2 = cuenta(0x2);
    let a3 = cuenta(0x3);

    let data = vec![(a1, 10), (a2, 50), (a3, 30)];
    let result = contract.internal_sort_u8(data, 2);

    assert_eq!(result.len(), 2);
    assert_eq!(result[0].1, 50);
    assert_eq!(result[1].1, 30);
}

#[test]
fn test_sorting_logic_products() {
    let contract = motor();
    let data = vec![(100, 10), (200, 500), (300, 250)];
    let result = contract.internal_sort_u128(data, 5);

    assert_eq!(result.len(), 3);
    assert_eq!(result[0].1, 500);
    assert_eq!(result[2].1, 10);
}

#[test]
fn top5_compradores_excluye_sin_calificacion() {
    let a = cuenta(0xA);
    let b = cuenta(0xB);
    let c = cuenta(0xC);
    let d = cuenta(0xD);
    let datos = vec![(a, Some(10u8)), (b, Some(50)), (c, Some(30)), (d, None)];
    let r = motor().top5_compradores(datos);
    assert_eq!(r, vec![(b, 50u8), (c, 30), (a, 10)]);
}

#[test]
fn top5_vendedores_ordena_descendente() {
    let datos = vec![
        (cuenta(1), Some(3u8)),
        (cuenta(2), None),
        (cuenta(3), Some(200)),
        (cuenta(4), Some(100)),
    ];
    let r = motor().top5_vendedores(datos);
    assert_eq!(r, vec![(cuenta(3), 200u8), (cuenta(4), 100), (cuenta(1), 3)]);
}

#[test]
fn productos_mas_vendidos_recorta_al_pedido() {
    let datos = vec![(1u128, Some(10u128)), (2, Some(500)), (3, Some(250))];
    let r = motor().productos_mas_vendidos(2, datos);
    assert_eq!(r, vec![(2u128, 500u128), (3, 250)]);
}

#[test]
fn productos_mas_vendidos_pedir_mas_de_los_que_hay() {
    let datos = vec![(1u128, Some(10u128)), (2, Some(500)), (3, None)];
    let r = motor().productos_mas_vendidos(u128::MAX, datos);
    assert_eq!(r, vec![(2u128, 500u128), (1, 10)]);
}

#[test]
fn pedir_cero_devuelve_vacio() {
    let datos = vec![(1u128, Some(10u128)), (2, Some(500))];
    let r = motor().productos_mas_vendidos(0, datos);
    assert!(r.is_empty());

    let sin_nada = motor().internal_sort_u8(vec![(cuenta(9), 9)], 0);
    assert!(sin_nada.is_empty());
}

#[test]
fn empates_conservan_orden_de_enumeracion() {
    let a1 = cuenta(0x11);
    let a2 = cuenta(0x22);
    let a3 = cuenta(0x33);
    let a4 = cuenta(0x44);
    let datos = vec![(a1, 5u8), (a2, 9), (a3, 5), (a4, 5)];
    let r = motor().internal_sort_u8(datos, 10);
    assert_eq!(r, vec![(a2, 9u8), (a1, 5), (a3, 5), (a4, 5)]);
}

#[test]
fn identificadores_repetidos_se_clasifican_por_separado() {
    let a1 = cuenta(0x5);
    let datos = vec![(a1, Some(7u8)), (a1, Some(7))];
    let r = motor().top5_compradores(datos);
    assert_eq!(r, vec![(a1, 7u8), (a1, 7)]);
}

#[test]
fn top5_devuelve_a_lo_sumo_cinco() {
    let datos = vec![
        (cuenta(1), Some(10u8)),
        (cuenta(2), Some(70)),
        (cuenta(3), Some(20)),
        (cuenta(4), Some(60)),
        (cuenta(5), Some(30)),
        (cuenta(6), Some(50)),
        (cuenta(7), Some(40)),
    ];
    let r = motor().top5_compradores(datos);
    assert_eq!(
        r,
        vec![
            (cuenta(2), 70u8),
            (cuenta(4), 60),
            (cuenta(6), 50),
            (cuenta(7), 40),
            (cuenta(5), 30),
        ]
    );
}

#[test]
fn consultas_repetidas_dan_lo_mismo() {
    let datos = vec![
        (cuenta(1), Some(4u8)),
        (cuenta(2), Some(9)),
        (cuenta(3), None),
        (cuenta(4), Some(9)),
    ];
    let motor = motor();
    let primera = motor.top5_compradores(datos.clone());
    let segunda = motor.top5_compradores(datos);
    assert_eq!(primera, segunda);
}

#[test]
fn ordenes_del_usuario_es_la_respuesta_literal() {
    let motor = motor();
    assert_eq!(motor.ordenes_del_usuario(Some(42)), Some(42));
    assert_eq!(motor.ordenes_del_usuario(None), None);
}
