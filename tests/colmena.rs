use colmena::abeja::{barajar, Abeja};
use colmena::colonia::{ejecutar, Colonia, GENERACIONES_POR_CIUDAD};
use colmena::mapa::{Mapa, COORDENADA_MAXIMA};
use colmena::ErrorColmena;
use rand::rngs::StdRng;
use rand::SeedableRng;

fn mapa_de(coordenadas: Vec<(i64, i64)>) -> Mapa {
    let mut mapa = Mapa::new(coordenadas.len());
    mapa.cargar_datos(coordenadas).unwrap();
    mapa
}

fn cuadrado_unidad() -> Mapa {
    mapa_de(vec![(0, 0), (1000, 0), (1000, 1000), (0, 1000)])
}

fn hexagono() -> Mapa {
    mapa_de(vec![(0, 0), (20, 0), (30, 17), (20, 34), (0, 34), (-10, 17)])
}

fn es_permutacion(genes: &[usize], n: usize) -> bool {
    let mut ordenados = genes.to_vec();
    ordenados.sort();
    ordenados == (0..n).collect::<Vec<usize>>()
}

fn abeja_con(genes: Vec<usize>, mapa: &Mapa) -> Abeja {
    let mut rng = StdRng::seed_from_u64(0);
    let mut abeja = Abeja::new(genes.len(), false, &mut rng);
    abeja.set_genes(genes);
    let d = abeja.calcular_distancia(abeja.get_genes(), mapa);
    abeja.set_distancia(d);
    abeja
}

#[test]
fn distancias_enteras() {
    let mapa = mapa_de(vec![(0, 0), (3, 4), (1, 1), (-3, -4)]);
    assert_eq!(mapa.get_distancia(0, 1), 5);
    assert_eq!(mapa.get_distancia(1, 0), 5);
    assert_eq!(mapa.get_distancia(0, 2), 1);
    assert_eq!(mapa.get_distancia(1, 3), 10);
    assert_eq!(mapa.get_distancia(2, 2), 0);
    assert_eq!(mapa.get_coordenas(3), (-3, -4));
}

#[test]
fn caja_del_mapa() {
    let mapa = mapa_de(vec![(5, 7), (-2, 9), (4, -1)]);
    assert_eq!(mapa.get_min_x(), -2);
    assert_eq!(mapa.get_max_x(), 5);
    assert_eq!(mapa.get_min_y(), -1);
    assert_eq!(mapa.get_max_y(), 9);
}

#[test]
fn coordenadas_invalidas() {
    let mut mapa = Mapa::new(2);
    assert_eq!(mapa.cargar_datos(vec![(0, 0)]), Err(ErrorColmena::InvalidInput));
    assert_eq!(
        mapa.cargar_datos(vec![(0, 0), (COORDENADA_MAXIMA + 1, 0)]),
        Err(ErrorColmena::InvalidInput)
    );
    assert_eq!(mapa.cargar_datos(vec![(0, 0), (0, COORDENADA_MAXIMA)]), Ok(()));
    assert_eq!(mapa.get_distancia(0, 1), COORDENADA_MAXIMA as u64);
}

#[test]
fn abeja_identidad_y_aleatoria() {
    let mut rng = StdRng::seed_from_u64(3);
    let identidad = Abeja::new(5, false, &mut rng);
    assert_eq!(identidad.get_genes(), &vec![0, 1, 2, 3, 4]);
    assert_eq!(identidad.get_distancia(), 0);
    assert_eq!(identidad.get_dimension(), 5);
    for n in 0..12 {
        let abeja = Abeja::new(n, true, &mut rng);
        assert!(es_permutacion(abeja.get_genes(), n));
    }
}

#[test]
fn longitud_del_cuadrado() {
    let mapa = cuadrado_unidad();
    let recta = abeja_con(vec![0, 1, 2, 3], &mapa);
    assert_eq!(recta.get_distancia(), 4000);
    let cruzada = abeja_con(vec![0, 2, 1, 3], &mapa);
    assert_eq!(cruzada.get_distancia(), 1414 + 1000 + 1414 + 1000);
}

#[test]
fn longitud_invariante_por_rotacion_y_reflejo() {
    let mapa = hexagono();
    let base = abeja_con(vec![0, 3, 1, 5, 2, 4], &mapa);
    let rotada = abeja_con(vec![5, 2, 4, 0, 3, 1], &mapa);
    let invertida = abeja_con(vec![4, 2, 5, 1, 3, 0], &mapa);
    assert_eq!(base.get_distancia(), rotada.get_distancia());
    assert_eq!(base.get_distancia(), invertida.get_distancia());
}

#[test]
fn opt_swap_invierte_el_tramo() {
    let mapa = hexagono();
    let abeja = abeja_con(vec![0, 1, 2, 3, 4, 5], &mapa);
    assert_eq!(abeja.opt_swap(3, 6), vec![0, 1, 2, 5, 4, 3]);
    assert_eq!(abeja.opt_swap(1, 4), vec![0, 3, 2, 1, 4, 5]);
    assert_eq!(abeja.opt_swap(2, 2), vec![0, 1, 2, 3, 4, 5]);
}

#[test]
fn reparacion_exacta_e_idempotente() {
    let mut rng = StdRng::seed_from_u64(1);
    let mut abeja = Abeja::new(4, false, &mut rng);
    abeja.set_genes(vec![2, 2, 0, 2]);
    abeja.anticancerigeno();
    assert_eq!(abeja.get_genes(), &vec![2, 0, 1, 3]);
    abeja.anticancerigeno();
    assert_eq!(abeja.get_genes(), &vec![2, 0, 1, 3]);
    abeja.set_genes(vec![3, 3, 3, 3]);
    abeja.anticancerigeno();
    assert_eq!(abeja.get_genes(), &vec![3, 0, 1, 2]);
}

#[test]
fn cruce_exacto() {
    let mapa = cuadrado_unidad();
    let reina = abeja_con(vec![0, 1, 2, 3], &mapa);
    let zangano = abeja_con(vec![0, 1, 2, 3], &mapa);
    let hijo = reina.reproducir_desde(&zangano, &mapa, 0, 2);
    assert_eq!(hijo.get_genes(), &vec![2, 3, 0, 1]);
    assert_eq!(hijo.get_distancia(), 4000);
}

#[test]
fn cruce_degenerado_da_permutacion() {
    let mut rng = StdRng::seed_from_u64(11);
    for n in 1..8usize {
        let coordenadas: Vec<(i64, i64)> = (0..n as i64).map(|i| (i * 7 % 5, i * 3)).collect();
        let mapa = mapa_de(coordenadas);
        for generacion in [0usize, 1, 2, 5, 7, 1000] {
            let reina = abeja_con(Abeja::new(n, true, &mut rng).get_genes().clone(), &mapa);
            let zangano = abeja_con(Abeja::new(n, true, &mut rng).get_genes().clone(), &mapa);
            let hijo = reina.reproducir(&zangano, &mapa, generacion, &mut rng);
            assert!(es_permutacion(hijo.get_genes(), n));
            assert_eq!(hijo.get_distancia(), hijo.calcular_distancia(hijo.get_genes(), &mapa));
        }
    }
}

#[test]
fn opt2_no_alarga() {
    let mapa = hexagono();
    let mut rng = StdRng::seed_from_u64(5);
    for _ in 0..20 {
        let mut abeja = abeja_con(Abeja::new(6, true, &mut rng).get_genes().clone(), &mapa);
        let antes = abeja.get_distancia();
        let mejoras = abeja.opt2(&mapa);
        assert!(abeja.get_distancia() <= antes);
        assert_eq!(abeja.get_distancia(), abeja.calcular_distancia(abeja.get_genes(), &mapa));
        assert!(es_permutacion(abeja.get_genes(), 6));
        if let Some(ultima) = mejoras.last() {
            assert_eq!(ultima, abeja.get_genes());
            assert!(abeja.get_distancia() < antes);
        }
    }
}

#[test]
fn opt2_deshace_un_cruce() {
    let mapa = hexagono();
    let mut abeja = abeja_con(vec![0, 1, 2, 4, 3, 5], &mapa);
    let antes = abeja.get_distancia();
    let mejoras = abeja.opt2(&mapa);
    assert_eq!(abeja.get_genes(), &vec![0, 1, 2, 3, 4, 5]);
    assert!(abeja.get_distancia() < antes);
    assert_eq!(mejoras, vec![vec![0, 1, 2, 3, 4, 5]]);
}

#[test]
fn cuadrado_converge_a_cuatro() {
    let mapa = cuadrado_unidad();
    let mut rng = StdRng::seed_from_u64(42);
    let (reina, emitidas) = ejecutar(&mapa, &mut rng).unwrap();
    assert_eq!(reina.get_distancia(), 4000);
    assert_eq!(emitidas.last().unwrap(), reina.get_genes());
    assert!(emitidas.iter().all(|t| es_permutacion(t, 4)));
}

#[test]
fn pocas_ciudades_terminan() {
    for n in [2usize, 3] {
        let coordenadas: Vec<(i64, i64)> = vec![(0, 0), (10, 0), (0, 10)].into_iter().take(n).collect();
        let mapa = mapa_de(coordenadas);
        let mut rng = StdRng::seed_from_u64(9);
        let colonia = Colonia::new(&mapa, &mut rng).unwrap();
        let inicial = colonia.reina().get_distancia();
        let (reina, emitidas) = ejecutar(&mapa, &mut StdRng::seed_from_u64(9)).unwrap();
        assert_eq!(reina.get_distancia(), inicial);
        assert_eq!(emitidas.len(), 1);
    }
}

#[test]
fn muy_pocas_ciudades_fallan() {
    let mut rng = StdRng::seed_from_u64(0);
    let vacio = mapa_de(vec![]);
    assert!(matches!(ejecutar(&vacio, &mut rng), Err(ErrorColmena::ConfigurationError)));
    let una = mapa_de(vec![(1, 1)]);
    assert!(matches!(Colonia::new(&una, &mut rng), Err(ErrorColmena::ConfigurationError)));
}

#[test]
fn misma_semilla_mismas_emisiones() {
    let mapa = mapa_de(vec![(0, 0), (1000, 0), (1000, 1000), (0, 1000), (500, 1500)]);
    let (a, emitidas_a) = ejecutar(&mapa, &mut StdRng::seed_from_u64(2024)).unwrap();
    let (b, emitidas_b) = ejecutar(&mapa, &mut StdRng::seed_from_u64(2024)).unwrap();
    assert_eq!(emitidas_a, emitidas_b);
    assert_eq!(a.get_genes(), b.get_genes());
    assert_eq!(a.get_distancia(), b.get_distancia());
}

#[test]
fn paso_con_adopta_el_zangano_mas_corto() {
    let mapa = cuadrado_unidad();
    let mut rng = StdRng::seed_from_u64(0);
    let mut colonia = Colonia::new(&mapa, &mut rng).unwrap();
    let larga = abeja_con(vec![0, 2, 1, 3], &mapa);
    let corta = abeja_con(vec![1, 2, 3, 0], &mapa);
    if colonia.reina().get_distancia() == 4000 {
        let emitidas = colonia.paso_con(&mapa, larga, 0);
        assert!(emitidas.is_empty());
        assert_eq!(colonia.reina().get_distancia(), 4000);
        assert_eq!(colonia.generacion(), GENERACIONES_POR_CIUDAD * 4 - 1);
    } else {
        let emitidas = colonia.paso_con(&mapa, corta, 0);
        assert_eq!(emitidas, vec![vec![1, 2, 3, 0]]);
        assert_eq!(colonia.reina().get_genes(), &vec![1, 2, 3, 0]);
        assert_eq!(colonia.generacion(), GENERACIONES_POR_CIUDAD * 4);
    }
    assert!(!colonia.terminada());
}

#[test]
fn genes_sueltos() {
    let mapa = cuadrado_unidad();
    assert_eq!(mapa.dimension(), 4);
    let mut abeja = abeja_con(vec![0, 1, 2, 3], &mapa);
    abeja.set_gen(1, 3);
    assert_eq!(abeja.get_gen(1), 3);
    assert_eq!(abeja.get_genes(), &vec![0, 3, 2, 3]);
    assert_eq!(abeja.get_distancia(), 4000);
    abeja.anticancerigeno();
    assert_eq!(abeja.get_genes(), &vec![0, 3, 2, 1]);
}

#[test]
fn barajar_con_sorteos_dados() {
    let mut genes = vec![0, 1, 2, 3];
    barajar(&mut genes, &vec![0, 0, 1, 2]);
    assert_eq!(genes, vec![3, 0, 1, 2]);
    let mut quietos = vec![0, 1, 2, 3];
    barajar(&mut quietos, &vec![0, 1, 2, 3]);
    assert_eq!(quietos, vec![0, 1, 2, 3]);
    let mut vacio: Vec<usize> = vec![];
    barajar(&mut vacio, &vec![]);
    assert!(vacio.is_empty());
}

#[test]
fn misma_semilla_misma_abeja() {
    let a = Abeja::new(9, true, &mut StdRng::seed_from_u64(77));
    let b = Abeja::new(9, true, &mut StdRng::seed_from_u64(77));
    assert_eq!(a.get_genes(), b.get_genes());
    assert!(es_permutacion(a.get_genes(), 9));
}

#[test]
fn mapa_nuevo_vacio() {
    let mapa = Mapa::new(3);
    assert_eq!(mapa.dimension(), 3);
    assert_eq!((mapa.get_min_x(), mapa.get_max_x(), mapa.get_min_y(), mapa.get_max_y()), (0, 0, 0, 0));
}

#[test]
fn emisiones_cada_vez_mas_cortas() {
    let mapa = hexagono();
    let (reina, emitidas) = ejecutar(&mapa, &mut StdRng::seed_from_u64(8)).unwrap();
    let largo = |t: &Vec<usize>| abeja_con(t.clone(), &mapa).get_distancia();
    for j in 0..emitidas.len().saturating_sub(2) {
        assert!(largo(&emitidas[j + 1]) < largo(&emitidas[j]));
    }
    assert!(emitidas.iter().all(|t| reina.get_distancia() <= largo(t)));
    assert_eq!(emitidas.last().unwrap(), reina.get_genes());
}
