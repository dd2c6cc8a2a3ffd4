//! The evolver: a queen tour improved by random drones, by the crossover of
//! queen and drone, and near the end of its patience by 2-opt passes.
//!
//! Each step is a transition of `Colonia`; the tours it hands back are the
//! ones a renderer is to show, in order.

use crate::abeja::{cruce_hasta, eleccion, hijo_de, posicion_de, segmento, tam_porcion, Abeja};
use crate::azar::indice_aleatorio;
use crate::ciclo::{
    cadena_decreciente, es_permutacion, identidad, lemma_cadena_concatenar, lemma_reparar_permutacion, ley_pocas_ciudades, longitud,
    matriz_simetrica, pasada_opt2,
};
use crate::mapa::Mapa;
use crate::ErrorColmena;
use vstd::prelude::*;

verus! {

/// Drone generations granted per city: the budget, restored on every
/// improvement of the queen, is this many times the number of cities.
pub const GENERACIONES_POR_CIUDAD: usize = 100000;

/// Below this many times the number of cities of remaining budget, every
/// step ends with a 2-opt pass over the queen.
pub const VENTANA_FINAL: usize = 3;

/// The queen and budget after one step from the queen `q` (cached length
/// `qd`) with remaining budget `g` (restored to `tope`), given the drone `z`
/// of length `zd` and the crossover's first anchor `inicio`.
///
/// A drone strictly shorter than the queen replaces it and restores the
/// budget. Otherwise their child replaces the queen if strictly shorter
/// (restoring the budget); then, when the budget is below `VENTANA_FINAL`
/// times the number of cities, a 2-opt pass runs; the budget then drops by
/// one.
pub open spec fn siguiente(
    d: Seq<Seq<u64>>,
    q: Seq<usize>,
    qd: int,
    g: int,
    tope: int,
    z: Seq<usize>,
    zd: int,
    inicio: int,
) -> (Seq<usize>, int, int) {
    if zd < qd {
        (z, zd, tope)
    } else {
        let h = hijo_de(d, q, z, g as nat, inicio);
        let hd = longitud(d, h);
        let s1 = if hd < qd {
            h
        } else {
            q
        };
        let d1 = if hd < qd {
            hd
        } else {
            qd
        };
        let g1 = if hd < qd {
            tope
        } else {
            g
        };
        let st = if g1 < VENTANA_FINAL * q.len() {
            pasada_opt2(d, s1, d1)
        } else {
            (s1, d1)
        };
        (st.0, st.1, g1 - 1)
    }
}

/// With at most three cities no step changes the queen: the drone and the
/// child are never strictly shorter, and the budget only drops by one, so a
/// search ends once its first budget is spent.
pub proof fn ley_pocas_ciudades_sin_mejora(
    d: Seq<Seq<u64>>,
    q: Seq<usize>,
    g: int,
    tope: int,
    z: Seq<usize>,
    inicio: int,
)
    requires
        matriz_simetrica(d),
        d.len() <= 3,
        es_permutacion(q, d.len()),
        es_permutacion(z, d.len()),
        0 <= inicio < d.len(),
    ensures
        siguiente(d, q, longitud(d, q), g, tope, z, longitud(d, z), inicio) == (q, longitud(d, q), g - 1),
{
    let n = d.len();
    ley_pocas_ciudades(d, q, n);
    ley_pocas_ciudades(d, z, n);
    let s = tam_porcion(n, g as nat);
    assert(s == 2);
    let pasos: nat = if s < n {
        (n - s) as nat
    } else {
        0
    };
    reveal_with_fuel(cruce_hasta, 2);
    let c = cruce_hasta(d, q, z, s, inicio, pasos);
    let h0 = identidad(n);
    assert forall|i: int| 0 <= i < c.len() implies c[i] < n by {
        if pasos == 1 {
            let a = q[inicio];
            assert(q.contains(a) && z.contains(a));
            let e = eleccion(d, q, z, a, s);
            let pq = posicion_de(q, a);
            let pz = posicion_de(z, a);
            assert(0 <= pq < n && 0 <= pz < n);
            assert forall|j: int| 0 <= j < e.len() implies e[j] < n by {
                assert(segmento(q, pq, s)[j] == q[(pq + j) % 3]);
                assert(segmento(z, pz, s)[j] == z[(pz + j) % 3]);
            }
            assert(c == h0.subrange(0, 0) + e + h0.subrange(2, 3));
            if i >= 2 {
                assert(c[i] == h0[i]);
            } else {
                assert(c[i] == e[i]);
            }
        } else {
            assert(c == h0);
        }
    }
    lemma_reparar_permutacion(c, n);
    ley_pocas_ciudades(d, hijo_de(d, q, z, g as nat, inicio), n);
}

/// The state of a search: the current best tour and the remaining budget.
#[derive(Debug)]
pub struct Colonia {
    reina: Abeja,
    generacion: usize,
    big_bang: usize,
}

impl Colonia {
    /// The current best tour.
    pub closed spec fn reina_spec(&self) -> &Abeja {
        &self.reina
    }

    /// The remaining budget.
    pub closed spec fn generacion_spec(&self) -> nat {
        self.generacion as nat
    }

    /// The budget restored on every improvement.
    pub closed spec fn big_bang_spec(&self) -> nat {
        self.big_bang as nat
    }

    /// The queen is an evaluated tour of the cities of `mapa`, there are at
    /// least two of them, and the budget is within its bound.
    pub open spec fn wf(&self, mapa: &Mapa) -> bool {
        &&& self.reina_spec().evaluada(mapa)
        &&& mapa@.len() >= 2
        &&& self.big_bang_spec() == GENERACIONES_POR_CIUDAD * mapa@.len()
        &&& self.generacion_spec() <= self.big_bang_spec()
    }

    /// A search over the cities of `mapa` from a random queen, with the full
    /// budget. Fails with `ConfigurationError` when there are fewer than two
    /// cities, or too many for the budget to be counted.
    pub fn new(mapa: &Mapa, rng: &mut rand::rngs::StdRng) -> (r: Result<Colonia, ErrorColmena>)
        requires
            mapa.wf(),
        ensures
            r is Ok <==> (2 <= mapa@.len() && GENERACIONES_POR_CIUDAD * mapa@.len() <= usize::MAX),
            r is Err ==> r == Err::<Colonia, ErrorColmena>(ErrorColmena::ConfigurationError),
            r matches Ok(c) ==> c.wf(mapa) && c.generacion_spec() == c.big_bang_spec(),
    {
        let dimension = mapa.dimension();
        if dimension < 2 || dimension > usize::MAX / GENERACIONES_POR_CIUDAD {
            return Err(ErrorColmena::ConfigurationError);
        }
        let mut reina = Abeja::new(dimension, true, rng);
        let distancia_reina = reina.calcular_distancia(reina.get_genes(), mapa);
        reina.set_distancia(distancia_reina);
        let big_bang = GENERACIONES_POR_CIUDAD * dimension;
        Ok(Colonia { reina, generacion: big_bang, big_bang })
    }

    /// The current best tour.
    pub fn reina(&self) -> (r: &Abeja)
        ensures
            r == self.reina_spec(),
    {
        &self.reina
    }

    /// The remaining budget.
    pub fn generacion(&self) -> (r: usize)
        ensures
            r == self.generacion_spec(),
    {
        self.generacion
    }

    /// The budget is spent: the search is over.
    pub fn terminada(&self) -> (r: bool)
        ensures
            r == (self.generacion_spec() == 0),
    {
        self.generacion == 0
    }

    /// One step with the drone `zangano` and the crossover's first anchor at
    /// position `inicio` of the queen. Returns the tours that became queen
    /// during the step, in order.
    pub fn paso_con(&mut self, mapa: &Mapa, zangano: Abeja, inicio: usize) -> (emitidas: Vec<Vec<usize>>)
        requires
            old(self).wf(mapa),
            old(self).generacion_spec() > 0,
            zangano.evaluada(mapa),
            inicio < mapa@.len(),
        ensures
            zangano.distancia_spec() < old(self).reina_spec().distancia_spec() ==> emitidas@.len() == 1
                && emitidas@[0]@ == zangano@,
            final(self).wf(mapa),
            (final(self).reina_spec()@, final(self).reina_spec().distancia_spec() as int,
                final(self).generacion_spec() as int) == siguiente(
                mapa@,
                old(self).reina_spec()@,
                old(self).reina_spec().distancia_spec() as int,
                old(self).generacion_spec() as int,
                old(self).big_bang_spec() as int,
                zangano@,
                zangano.distancia_spec() as int,
                inicio as int,
            ),
            final(self).reina_spec().distancia_spec() < old(self).reina_spec().distancia_spec() || (
            final(self).reina_spec().distancia_spec() == old(self).reina_spec().distancia_spec()
                && final(self).generacion_spec() < old(self).generacion_spec()),
            forall|m: int|
                0 <= m < emitidas@.len() ==> es_permutacion(#[trigger] emitidas@[m]@, mapa@.len()),
            cadena_decreciente(mapa@, emitidas@, old(self).reina_spec().distancia_spec() as int),
            emitidas@.len() > 0 ==> emitidas@.last()@ == final(self).reina_spec()@,
            emitidas@.len() == 0 ==> final(self).reina_spec()@ == old(self).reina_spec()@,
            emitidas@.len() == 0 <==> final(self).reina_spec().distancia_spec()
                == old(self).reina_spec().distancia_spec(),
            forall|m: int|
                0 <= m < emitidas@.len() ==> final(self).reina_spec().distancia_spec() <= longitud(
                    mapa@,
                    #[trigger] emitidas@[m]@,
                ),
    {
        let mut emitidas: Vec<Vec<usize>> = Vec::new();
        let n = mapa.dimension();
        let ghost distancia0 = self.reina.distancia_spec();
        if zangano.get_distancia() < self.reina.get_distancia() {
            let copia = zangano.get_genes().clone();
            proof {
                assert(copia@ =~= zangano@);
            }
            emitidas.push(copia);
            self.reina = zangano;
            self.generacion = self.big_bang;
            return emitidas;
        }
        let hijo = self.reina.reproducir_desde(&zangano, mapa, self.generacion, inicio);
        if hijo.get_distancia() < self.reina.get_distancia() {
            let copia = hijo.get_genes().clone();
            proof {
                assert(copia@ =~= hijo@);
            }
            emitidas.push(copia);
            self.reina = hijo;
            self.generacion = self.big_bang;
        }
        if self.generacion < VENTANA_FINAL * n {
            let ghost antes = emitidas@;
            let ghost dist_antes = self.reina.distancia_spec();
            let mut mejoras = self.reina.opt2(mapa);
            let ghost nuevas = mejoras@;
            emitidas.append(&mut mejoras);
            proof {
                lemma_cadena_concatenar(mapa@, antes, nuevas, distancia0 as int, dist_antes as int);
                assert(emitidas@ == antes + nuevas);
                assert forall|m: int| 0 <= m < emitidas@.len() implies self.reina.distancia_spec() <= longitud(
                    mapa@,
                    #[trigger] emitidas@[m]@,
                ) by {
                    if m < antes.len() {
                        assert(emitidas@[m] == antes[m]);
                    } else {
                        assert(emitidas@[m] == nuevas[m - antes.len()]);
                    }
                }
                if nuevas.len() > 0 {
                    assert(emitidas@.last() == nuevas.last());
                }
            }
        }
        self.generacion = self.generacion - 1;
        emitidas
    }

    /// One step with a random drone and, when the crossover runs, a random
    /// first anchor. Returns the tours that became queen during the step, in
    /// order.
    pub fn paso(&mut self, mapa: &Mapa, rng: &mut rand::rngs::StdRng) -> (emitidas: Vec<Vec<usize>>)
        requires
            old(self).wf(mapa),
            old(self).generacion_spec() > 0,
        ensures
            final(self).wf(mapa),
            exists|z: Seq<usize>, inicio: int|
                es_permutacion(z, mapa@.len()) && 0 <= inicio < mapa@.len() && (
                final(self).reina_spec()@,
                final(self).reina_spec().distancia_spec() as int,
                final(self).generacion_spec() as int,
            ) == #[trigger] siguiente(
                    mapa@,
                    old(self).reina_spec()@,
                    old(self).reina_spec().distancia_spec() as int,
                    old(self).generacion_spec() as int,
                    old(self).big_bang_spec() as int,
                    z,
                    longitud(mapa@, z),
                    inicio,
                ),
            final(self).reina_spec().distancia_spec() < old(self).reina_spec().distancia_spec() || (
            final(self).reina_spec().distancia_spec() == old(self).reina_spec().distancia_spec()
                && final(self).generacion_spec() < old(self).generacion_spec()),
            forall|m: int|
                0 <= m < emitidas@.len() ==> es_permutacion(#[trigger] emitidas@[m]@, mapa@.len()),
            cadena_decreciente(mapa@, emitidas@, old(self).reina_spec().distancia_spec() as int),
            emitidas@.len() > 0 ==> emitidas@.last()@ == final(self).reina_spec()@,
            emitidas@.len() == 0 ==> final(self).reina_spec()@ == old(self).reina_spec()@,
            emitidas@.len() == 0 <==> final(self).reina_spec().distancia_spec()
                == old(self).reina_spec().distancia_spec(),
            forall|m: int|
                0 <= m < emitidas@.len() ==> final(self).reina_spec().distancia_spec() <= longitud(
                    mapa@,
                    #[trigger] emitidas@[m]@,
                ),
    {
        let n = mapa.dimension();
        let mut zangano = Abeja::new(n, true, rng);
        let distancia = zangano.calcular_distancia(zangano.get_genes(), mapa);
        zangano.set_distancia(distancia);
        let inicio: usize = if distancia < self.reina.get_distancia() {
            0
        } else {
            indice_aleatorio(rng, n)
        };
        self.paso_con(mapa, zangano, inicio)
    }
}

/// A whole search over the cities of `mapa`: steps until the budget is
/// spent. Returns the final queen and every tour to be shown, in order: each
/// new queen, each strictly shorter than the one before, then the final
/// queen once more. With at most three cities no queen is ever replaced, so
/// only the final one is shown. Fails as `Colonia::new` does.
#[verifier::rlimit(60)]
pub fn ejecutar(mapa: &Mapa, rng: &mut rand::rngs::StdRng) -> (r: Result<(Abeja, Vec<Vec<usize>>), ErrorColmena>)
    requires
        mapa.wf(),
    ensures
        r is Ok <==> (2 <= mapa@.len() && GENERACIONES_POR_CIUDAD * mapa@.len() <= usize::MAX),
        r is Err ==> r == Err::<(Abeja, Vec<Vec<usize>>), ErrorColmena>(ErrorColmena::ConfigurationError),
        r matches Ok((reina, emitidas)) ==> reina.evaluada(mapa) && emitidas@.len() >= 1
            && emitidas@.last()@ == reina@ && (forall|m: int|
            0 <= m < emitidas@.len() ==> es_permutacion(#[trigger] emitidas@[m]@, mapa@.len()))
            && (forall|j: int|
            0 <= j && j + 2 < emitidas@.len() ==> #[trigger] longitud(mapa@, emitidas@[j + 1]@)
                < longitud(mapa@, emitidas@[j]@)) && (forall|m: int|
            0 <= m < emitidas@.len() ==> reina.distancia_spec() <= longitud(
                mapa@,
                #[trigger] emitidas@[m]@,
            )) && (mapa@.len() <= 3 ==> emitidas@.len() == 1),
{
    let mut colonia = match Colonia::new(mapa, rng) {
        Ok(c) => c,
        Err(e) => {
            return Err(e);
        },
    };
    let ghost inicial = colonia.reina_spec().distancia_spec() as int;
    let mut emitidas: Vec<Vec<usize>> = Vec::new();
    while !colonia.terminada()
        invariant
            mapa.wf(),
            colonia.wf(mapa),
            forall|m: int|
                0 <= m < emitidas@.len() ==> es_permutacion(#[trigger] emitidas@[m]@, mapa@.len()),
            cadena_decreciente(mapa@, emitidas@, inicial),
            emitidas@.len() == 0 ==> colonia.reina_spec().distancia_spec() == inicial,
            emitidas@.len() > 0 ==> emitidas@.last()@ == colonia.reina_spec()@,
            forall|m: int|
                0 <= m < emitidas@.len() ==> colonia.reina_spec().distancia_spec() <= longitud(
                    mapa@,
                    #[trigger] emitidas@[m]@,
                ),
            mapa@.len() <= 3 ==> emitidas@.len() == 0,
        decreases colonia.reina_spec().distancia_spec(), colonia.generacion_spec(),
    {
        let ghost antes = emitidas@;
        let ghost q = colonia.reina_spec()@;
        let ghost qd = colonia.reina_spec().distancia_spec() as int;
        let ghost g = colonia.generacion_spec() as int;
        let ghost tope = colonia.big_bang_spec() as int;
        let mut nuevas = colonia.paso(mapa, rng);
        let ghost agregadas = nuevas@;
        emitidas.append(&mut nuevas);
        proof {
            lemma_cadena_concatenar(mapa@, antes, agregadas, inicial, qd);
            assert(emitidas@ == antes + agregadas);
            assert forall|m: int| 0 <= m < emitidas@.len() implies colonia.reina_spec().distancia_spec()
                <= longitud(mapa@, #[trigger] emitidas@[m]@) by {
                if m < antes.len() {
                    assert(emitidas@[m] == antes[m]);
                } else {
                    assert(emitidas@[m] == agregadas[m - antes.len()]);
                }
            }
            if agregadas.len() > 0 {
                assert(emitidas@.last() == agregadas.last());
            }
            if mapa@.len() <= 3 {
                let (z, inicio) = choose|z: Seq<usize>, inicio: int|
                    es_permutacion(z, mapa@.len()) && 0 <= inicio < mapa@.len() && (
                    colonia.reina_spec()@,
                    colonia.reina_spec().distancia_spec() as int,
                    colonia.generacion_spec() as int,
                ) == #[trigger] siguiente(mapa@, q, qd, g, tope, z, longitud(mapa@, z), inicio);
                ley_pocas_ciudades_sin_mejora(mapa@, q, g, tope, z, inicio);
            }
        }
    }
    let reina = colonia.reina;
    let copia = reina.get_genes().clone();
    let ghost antes = emitidas@;
    proof {
        assert(copia@ =~= reina@);
    }
    emitidas.push(copia);
    proof {
        assert forall|m: int| 0 <= m < emitidas@.len() implies reina.distancia_spec() <= longitud(
            mapa@,
            #[trigger] emitidas@[m]@,
        ) by {
            if m < antes.len() {
                assert(emitidas@[m] == antes[m]);
            }
        }
        assert forall|j: int| 0 <= j && j + 2 < emitidas@.len() implies #[trigger] longitud(
            mapa@,
            emitidas@[j + 1]@,
        ) < longitud(mapa@, emitidas@[j]@) by {
            assert(emitidas@[j + 1] == antes[j + 1]);
            assert(emitidas@[j] == antes[j]);
            assert(longitud(mapa@, antes[j + 1]@) < longitud(mapa@, antes[j + 1 - 1]@));
        }
    }
    Ok((reina, emitidas))
}

} // verus!
