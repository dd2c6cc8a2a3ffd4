//! A bee: one candidate tour with its cached length, and the operations of the
//! search on it (random construction, evaluation, crossover, repair, 2-opt).

use crate::azar::indice_aleatorio;
use crate::ciclo::{
    cadena_decreciente, camino_hasta, es_permutacion, faltantes, identidad, lemma_faltantes, lemma_identidad,
    invertir_tramo, lemma_intercambio, lemma_invertir_tramo, lemma_mod_envuelve,
    lemma_reparar_permutacion, longitud, longitud_camino, longitud_hasta, pasada_opt2, primeras,
    recorrer_desde, recorrer_fila, reparar,
};
use crate::mapa::{Mapa, CIUDADES_MAXIMAS};
use vstd::prelude::*;

verus! {

/// Largest value of a single distance.
pub const DISTANCIA_MAXIMA: u64 = 0xFFFF_FFFF;

/// The position of city `c` in `s`.
pub open spec fn posicion_de(s: Seq<usize>, c: usize) -> int {
    choose|k: int| 0 <= k < s.len() && s[k] == c
}

/// The `t` cities of `s` that follow position `p`, `p` included, wrapping
/// around the end.
pub open spec fn segmento(s: Seq<usize>, p: int, t: nat) -> Seq<usize> {
    Seq::new(t, |i: int| s[(p + i) % (s.len() as int)])
}

proof fn lemma_posicion_de(s: Seq<usize>, c: usize, k: int)
    requires
        s.no_duplicates(),
        0 <= k < s.len(),
        s[k] == c,
    ensures
        posicion_de(s, c) == k,
{
}

proof fn lemma_cota_suma(i: int, n: int)
    requires
        0 <= i <= n <= CIUDADES_MAXIMAS,
    ensures
        i * DISTANCIA_MAXIMA + DISTANCIA_MAXIMA <= u64::MAX || i == n,
        i * DISTANCIA_MAXIMA <= u64::MAX,
{
    assert(i * DISTANCIA_MAXIMA <= CIUDADES_MAXIMAS * DISTANCIA_MAXIMA) by (nonlinear_arith)
        requires
            0 <= i <= CIUDADES_MAXIMAS,
    ;
    if i < n {
        assert(i * DISTANCIA_MAXIMA + DISTANCIA_MAXIMA <= CIUDADES_MAXIMAS * DISTANCIA_MAXIMA)
            by (nonlinear_arith)
            requires
                0 <= i < CIUDADES_MAXIMAS,
        ;
    }
}

/// The position of city `c` in `genes`.
fn posicion(genes: &Vec<usize>, c: usize) -> (r: usize)
    requires
        genes@.contains(c),
    ensures
        r < genes@.len(),
        genes@[r as int] == c,
{
    let mut i: usize = 0;
    while i < genes.len()
        invariant
            genes@.contains(c),
            i <= genes@.len(),
            forall|k: int| 0 <= k < i ==> genes@[k] != c,
        decreases genes@.len() - i,
    {
        if genes[i] == c {
            return i;
        }
        i = i + 1;
    }
    proof {
        let k = choose|k: int| 0 <= k < genes@.len() && genes@[k] == c;
        assert(genes@[k] != c);
    }
    0
}

/// `(p + i) mod n` for `p, i < n`, without overflow.
fn indice_circular(p: usize, i: usize, n: usize) -> (r: usize)
    requires
        p < n,
        i < n,
    ensures
        r == (p + i) % (n as int),
{
    proof {
        lemma_mod_envuelve(p + i, n as int);
    }
    if p >= n - i {
        p - (n - i)
    } else {
        p + i
    }
}

/// Length of the segments compared by the crossover: `generacion` modulo a
/// third of the cities, at least 2 (and 2 when there are fewer than three
/// cities).
pub open spec fn tam_porcion(n: nat, generacion: nat) -> nat {
    if n / 3 == 0 {
        2
    } else if generacion % (n / 3) < 2 {
        2
    } else {
        generacion % (n / 3)
    }
}

/// Of the two segments of `s` cities that start at city `c` in the queen
/// and in the drone, the queen's if its path is strictly shorter, else the
/// drone's.
pub open spec fn eleccion(
    d: Seq<Seq<u64>>,
    reina: Seq<usize>,
    zangano: Seq<usize>,
    c: usize,
    s: nat,
) -> Seq<usize> {
    let a = segmento(reina, posicion_de(reina, c), s);
    let b = segmento(zangano, posicion_de(zangano, c), s);
    if longitud_camino(d, a) < longitud_camino(d, b) {
        a
    } else {
        b
    }
}

/// The child after the first `p` steps of the crossover scan. It starts as
/// the identity; step `q` takes as anchor the queen's city at `inicio` when
/// `q` is 0 and the child's city at `q` otherwise, and writes the chosen
/// segment at positions `[q, q + s)`.
pub open spec fn cruce_hasta(
    d: Seq<Seq<u64>>,
    reina: Seq<usize>,
    zangano: Seq<usize>,
    s: nat,
    inicio: int,
    p: nat,
) -> Seq<usize>
    decreases p,
{
    if p == 0 {
        identidad(reina.len())
    } else {
        let h = cruce_hasta(d, reina, zangano, s, inicio, (p - 1) as nat);
        let q = p - 1;
        let c = if q == 0 {
            reina[inicio]
        } else {
            h[q]
        };
        h.subrange(0, q) + eleccion(d, reina, zangano, c, s) + h.subrange(q + s, h.len() as int)
    }
}

/// The child of a queen and a drone: the crossover scan over the first
/// `n - s` positions (none when `s >= n`), then repaired.
pub open spec fn hijo_de(
    d: Seq<Seq<u64>>,
    reina: Seq<usize>,
    zangano: Seq<usize>,
    generacion: nat,
    inicio: int,
) -> Seq<usize> {
    let n = reina.len();
    let s = tam_porcion(n, generacion);
    let pasos: nat = if s < n {
        (n - s) as nat
    } else {
        0
    };
    reparar(cruce_hasta(d, reina, zangano, s, inicio, pasos), n)
}

/// Whether `v` holds `x`.
fn contiene(v: &Vec<usize>, x: usize) -> (r: bool)
    ensures
        r == v@.contains(x),
{
    let mut i: usize = 0;
    while i < v.len()
        invariant
            i <= v@.len(),
            forall|k: int| 0 <= k < i ==> v@[k] != x,
        decreases v@.len() - i,
    {
        if v[i] == x {
            return true;
        }
        i = i + 1;
    }
    false
}

/// The identity order `0, 1, ..., n - 1`.
fn genes_identidad(n: usize) -> (r: Vec<usize>)
    ensures
        r@ == identidad(n as nat),
{
    let mut genes: Vec<usize> = Vec::with_capacity(n);
    let mut index: usize = 0;
    while index < n
        invariant
            index <= n,
            genes@ == identidad(index as nat),
        decreases n - index,
    {
        genes.push(index);
        index = index + 1;
        proof {
            assert(genes@ =~= identidad(index as nat));
        }
    }
    genes
}

/// `sorteos` holds, for each of the `n` positions `i`, a position in `[0, i]`.
pub open spec fn sorteos_validos(sorteos: Seq<usize>, n: nat) -> bool {
    sorteos.len() == n && forall|i: int| 0 <= i < n ==> #[trigger] sorteos[i] <= i
}

/// `g` after swapping each position `j >= i`, from the last down to `i`, with
/// position `sorteos[j]`.
pub open spec fn barajado_desde(g: Seq<usize>, sorteos: Seq<usize>, i: int) -> Seq<usize>
    decreases g.len() - i,
{
    if i >= g.len() || i < 0 {
        g
    } else {
        let h = barajado_desde(g, sorteos, i + 1);
        h.update(i, h[sorteos[i] as int]).update(sorteos[i] as int, h[i])
    }
}

/// `g` shuffled with the draws `sorteos`: each position, from the last down
/// to the first, swapped with the position drawn for it.
pub open spec fn barajado(g: Seq<usize>, sorteos: Seq<usize>) -> Seq<usize> {
    barajado_desde(g, sorteos, 0)
}

/// Shuffles `genes` with the draws `sorteos`: each position `i`, from the
/// last down to the first, is swapped with position `sorteos[i]`.
pub fn barajar(genes: &mut Vec<usize>, sorteos: &Vec<usize>)
    requires
        sorteos_validos(sorteos@, old(genes)@.len()),
    ensures
        final(genes)@ == barajado(old(genes)@, sorteos@),
        forall|n: nat| es_permutacion(old(genes)@, n) ==> es_permutacion(#[trigger] final(genes)@, n),
{
    let ghost g = genes@;
    let n = genes.len();
    let mut index: usize = n;
    while index > 0
        invariant
            index <= n,
            n == g.len(),
            genes@.len() == n,
            sorteos_validos(sorteos@, n as nat),
            genes@ == barajado_desde(g, sorteos@, index as int),
            forall|m: nat| es_permutacion(g, m) ==> es_permutacion(#[trigger] barajado_desde(g, sorteos@, index as int), m),
        decreases index,
    {
        index = index - 1;
        let otro = sorteos[index];
        assert(otro <= index);
        let a = genes[index];
        let b = genes[otro];
        proof {
            let h = barajado_desde(g, sorteos@, index + 1);
            assert forall|m: nat| es_permutacion(g, m) implies es_permutacion(
                #[trigger] barajado_desde(g, sorteos@, index as int),
                m,
            ) by {
                assert(es_permutacion(h, m));
                lemma_intercambio(h, m, index as int, otro as int);
            }
        }
        genes.set(index, b);
        genes.set(otro, a);
    }
}

/// A candidate tour: an order of the cities and its cached length.
#[derive(Debug)]
pub struct Abeja {
    distancia: u64,
    genes: Vec<usize>,
    dimension: usize,
}

impl View for Abeja {
    type V = Seq<usize>;

    /// The order of the cities.
    closed spec fn view(&self) -> Seq<usize> {
        self.genes@
    }
}

impl Abeja {
    /// The cached length.
    pub closed spec fn distancia_spec(&self) -> u64 {
        self.distancia
    }

    /// The number of cities.
    pub closed spec fn dimension_spec(&self) -> nat {
        self.dimension as nat
    }

    /// The genes visit each city once.
    pub open spec fn valida(&self) -> bool {
        es_permutacion(self@, self.dimension_spec())
    }

    /// The bee is a tour of the cities of `mapa`, and its cached length is
    /// the length of that tour.
    pub open spec fn evaluada(&self, mapa: &Mapa) -> bool {
        &&& mapa.wf()
        &&& self.valida()
        &&& self.dimension_spec() == mapa@.len()
        &&& self.distancia_spec() == longitud(mapa@, self@)
    }

    /// A bee over `dimension` cities with length 0: the identity order, or,
    /// when `aleatoria`, that order shuffled uniformly (Fisher-Yates): each
    /// position `i`, from the last down to the first, is swapped with a
    /// position drawn from `[0, i]`.
    pub fn new(dimension: usize, aleatoria: bool, rng: &mut rand::rngs::StdRng) -> (r: Abeja)
        ensures
            r.valida(),
            r.dimension_spec() == dimension,
            r.distancia_spec() == 0,
            !aleatoria ==> r@ == identidad(dimension as nat),
            aleatoria ==> exists|sorteos: Seq<usize>|
                sorteos_validos(sorteos, dimension as nat) && r@ == #[trigger] barajado(
                    identidad(dimension as nat),
                    sorteos,
                ),
    {
        let mut genes = genes_identidad(dimension);
        proof {
            lemma_identidad(dimension as nat);
        }
        if aleatoria {
            let mut sorteos: Vec<usize> = Vec::with_capacity(dimension);
            let mut index: usize = 0;
            while index < dimension
                invariant
                    index <= dimension,
                    sorteos@.len() == index,
                    forall|j: int| 0 <= j < index ==> #[trigger] sorteos@[j] <= j,
                decreases dimension - index,
            {
                sorteos.push(0);
                index = index + 1;
            }
            let mut index: usize = dimension;
            while index > 0
                invariant
                    index <= dimension,
                    sorteos@.len() == dimension,
                    forall|j: int| 0 <= j < dimension ==> #[trigger] sorteos@[j] <= j,
                decreases index,
            {
                index = index - 1;
                let otro = indice_aleatorio(rng, index + 1);
                sorteos.set(index, otro);
            }
            let ghost inicial = genes@;
            barajar(&mut genes, &sorteos);
            proof {
                assert(sorteos_validos(sorteos@, dimension as nat));
                assert(genes@ == barajado(inicial, sorteos@));
            }
        }
        Abeja { dimension, genes, distancia: 0 }
    }

    /// The length of the closed tour `genes` over the cities of `mapa`.
    pub fn calcular_distancia(&self, genes: &Vec<usize>, mapa: &Mapa) -> (r: u64)
        requires
            mapa.wf(),
            self.dimension_spec() == mapa@.len(),
            self.dimension_spec() >= 1,
            genes@.len() == self.dimension_spec(),
            forall|i: int| 0 <= i < genes@.len() ==> #[trigger] genes@[i] < mapa@.len(),
        ensures
            r == longitud(mapa@, genes@),
    {
        let n = self.dimension;
        let ghost d = mapa@;
        let ghost g = genes@;
        let mut distancia: u64 = 0;
        let mut i: usize = 0;
        while i < n - 1
            invariant
                mapa.wf(),
                n == mapa@.len(),
                d == mapa@,
                g == genes@,
                n >= 1,
                g.len() == n,
                forall|k: int| 0 <= k < g.len() ==> #[trigger] g[k] < n,
                i <= n - 1,
                distancia == longitud_hasta(d, g, i as int),
                distancia <= i * DISTANCIA_MAXIMA,
            decreases n - i,
        {
            let e = mapa.get_distancia(genes[i], genes[i + 1]);
            proof {
                lemma_mod_envuelve(i + 1, n as int);
                lemma_cota_suma(i as int, n as int);
            }
            distancia = distancia + e;
            i = i + 1;
        }
        let e = mapa.get_distancia(genes[n - 1], genes[0]);
        proof {
            lemma_mod_envuelve(n as int, n as int);
            lemma_cota_suma((n - 1) as int, n as int);
        }
        distancia + e
    }

    /// The length of the open path `porcion`.
    fn distancia(&self, porcion: &Vec<usize>, mapa: &Mapa) -> (r: u64)
        requires
            mapa.wf(),
            1 <= porcion@.len() <= CIUDADES_MAXIMAS,
            forall|i: int| 0 <= i < porcion@.len() ==> #[trigger] porcion@[i] < mapa@.len(),
        ensures
            r == longitud_camino(mapa@, porcion@),
    {
        let ghost d = mapa@;
        let ghost p = porcion@;
        let n = porcion.len();
        let mut distancia: u64 = 0;
        let mut i: usize = 0;
        while i < n - 1
            invariant
                mapa.wf(),
                d == mapa@,
                p == porcion@,
                n == p.len(),
                1 <= n <= CIUDADES_MAXIMAS,
                forall|k: int| 0 <= k < p.len() ==> #[trigger] p[k] < d.len(),
                i <= n - 1,
                distancia == camino_hasta(d, p, i as int),
                distancia <= i * DISTANCIA_MAXIMA,
            decreases n - i,
        {
            let e = mapa.get_distancia(porcion[i], porcion[i + 1]);
            proof {
                lemma_cota_suma(i as int, n as int);
            }
            distancia = distancia + e;
            i = i + 1;
        }
        distancia
    }

    /// The length of the open path of `tam_porcion` cities of `abeja` that
    /// starts at city `ciudad_i`.
    fn obtener_distancia(&self, abeja: &Abeja, ciudad_i: usize, mapa: &Mapa, tam_porcion: usize) -> (r: u64)
        requires
            mapa.wf(),
            abeja.valida(),
            abeja.dimension_spec() == mapa@.len(),
            ciudad_i < abeja.dimension_spec(),
            1 <= tam_porcion <= abeja.dimension_spec(),
        ensures
            r == longitud_camino(
                mapa@,
                segmento(abeja@, posicion_de(abeja@, ciudad_i), tam_porcion as nat),
            ),
    {
        let n = abeja.dimension;
        let posicion = posicion(&abeja.genes, ciudad_i);
        proof {
            lemma_posicion_de(abeja@, ciudad_i, posicion as int);
        }
        let ghost objetivo = segmento(abeja@, posicion as int, tam_porcion as nat);
        let mut porcion: Vec<usize> = Vec::with_capacity(tam_porcion);
        let mut i: usize = 0;
        while i < tam_porcion
            invariant
                abeja.valida(),
                n == abeja.dimension_spec(),
                posicion < n,
                tam_porcion <= n,
                i <= tam_porcion,
                objetivo == segmento(abeja@, posicion as int, tam_porcion as nat),
                porcion@ == objetivo.subrange(0, i as int),
            decreases tam_porcion - i,
        {
            let j = indice_circular(posicion, i, n);
            porcion.push(abeja.get_gen(j));
            i = i + 1;
            proof {
                assert(porcion@ =~= objetivo.subrange(0, i as int));
            }
        }
        proof {
            assert(porcion@ =~= objetivo);
        }
        self.distancia(&porcion, mapa)
    }

    /// Repairs the genes into a permutation: keeps the first occurrence of
    /// each city, drops the later ones, then appends the missing cities in
    /// ascending order.
    pub fn anticancerigeno(&mut self)
        requires
            old(self)@.len() == old(self).dimension_spec(),
            forall|i: int| 0 <= i < old(self)@.len() ==> #[trigger] old(self)@[i] < old(self).dimension_spec(),
        ensures
            final(self)@ == reparar(old(self)@, old(self).dimension_spec()),
            final(self).valida(),
            final(self).dimension_spec() == old(self).dimension_spec(),
            final(self).distancia_spec() == old(self).distancia_spec(),
    {
        let n = self.dimension;
        let ghost g = self.genes@;
        let mut genes_limpios: Vec<usize> = Vec::with_capacity(n);
        let mut gen_i: usize = 0;
        while gen_i < n
            invariant
                n == g.len(),
                g == self.genes@,
                gen_i <= n,
                genes_limpios@ == primeras(g.subrange(0, gen_i as int)),
            decreases n - gen_i,
        {
            let c = self.genes[gen_i];
            proof {
                assert(g.subrange(0, gen_i + 1).drop_last() =~= g.subrange(0, gen_i as int));
            }
            if !contiene(&genes_limpios, c) {
                genes_limpios.push(c);
            }
            gen_i = gen_i + 1;
        }
        proof {
            assert(g.subrange(0, n as int) =~= g);
        }
        let ghost p = primeras(g);
        let mut gen_i: usize = 0;
        while gen_i < n
            invariant
                n == g.len(),
                gen_i <= n,
                p == primeras(g),
                genes_limpios@ == p + faltantes(p, gen_i as nat),
            decreases n - gen_i,
        {
            proof {
                lemma_faltantes(p, gen_i as nat);
                let f = faltantes(p, gen_i as nat);
                if (p + f).contains(gen_i) && !p.contains(gen_i) {
                    let k = choose|k: int| 0 <= k < (p + f).len() && (p + f)[k] == gen_i;
                    if k < p.len() {
                        assert(p[k] == gen_i);
                    } else {
                        assert(f[k - p.len()] == gen_i);
                        assert(f.contains(gen_i));
                    }
                }
                if p.contains(gen_i) {
                    let k = choose|k: int| 0 <= k < p.len() && p[k] == gen_i;
                    assert((p + f)[k] == gen_i);
                }
            }
            if !contiene(&genes_limpios, gen_i) {
                proof {
                    assert((p + faltantes(p, gen_i as nat)).push(gen_i) =~= p + faltantes(p, gen_i as nat).push(gen_i));
                }
                genes_limpios.push(gen_i);
            }
            gen_i = gen_i + 1;
        }
        proof {
            lemma_reparar_permutacion(g, n as nat);
        }
        self.genes = genes_limpios;
    }

    /// The child of this bee (the queen) and `otra` (the drone), with the
    /// first anchor taken at position `inicio` of the queen: the crossover
    /// scan, then the repair, then the evaluation of its length.
    pub fn reproducir_desde(&self, otra: &Abeja, mapa: &Mapa, generacion: usize, inicio: usize) -> (r: Abeja)
        requires
            mapa.wf(),
            self.valida(),
            otra.valida(),
            self.dimension_spec() == mapa@.len(),
            otra.dimension_spec() == mapa@.len(),
            inicio < mapa@.len(),
        ensures
            r@ == hijo_de(mapa@, self@, otra@, generacion as nat, inicio as int),
            r.evaluada(mapa),
    {
        let n = self.dimension;
        let ghost d = mapa@;
        let tercio = n / 3;
        let porcion: usize = if tercio == 0 {
            2
        } else if generacion % tercio < 2 {
            2
        } else {
            generacion % tercio
        };
        let pasos: usize = if porcion < n {
            n - porcion
        } else {
            0
        };
        let ghost reina = self@;
        let ghost zangano = otra@;
        let mut hijo = Abeja { dimension: n, genes: genes_identidad(n), distancia: 0 };
        let mut gen_i: usize = 0;
        while gen_i < pasos
            invariant
                mapa.wf(),
                d == mapa@,
                self.valida(),
                otra.valida(),
                reina == self@,
                zangano == otra@,
                n == self.dimension_spec(),
                n == otra.dimension_spec(),
                n == mapa@.len(),
                inicio < n,
                porcion == tam_porcion(n as nat, generacion as nat),
                pasos == 0 || (porcion < n && pasos == n - porcion),
                gen_i <= pasos,
                hijo.dimension == n,
                hijo.genes@.len() == n,
                hijo.genes@ == cruce_hasta(d, reina, zangano, porcion as nat, inicio as int, gen_i as nat),
                forall|k: int| 0 <= k < n ==> #[trigger] hijo.genes@[k] < n,
            decreases pasos - gen_i,
        {
            let ciudad_i: usize = if gen_i == 0 {
                self.genes[inicio]
            } else {
                hijo.genes[gen_i]
            };
            let distancia_a = self.obtener_distancia(self, ciudad_i, mapa, porcion);
            let distancia_b = self.obtener_distancia(otra, ciudad_i, mapa, porcion);
            let padre: &Abeja = if distancia_a < distancia_b {
                self
            } else {
                otra
            };
            let posicion = posicion(&padre.genes, ciudad_i);
            let ghost h = hijo.genes@;
            let ghost e = eleccion(d, reina, zangano, ciudad_i, porcion as nat);
            proof {
                lemma_posicion_de(padre@, ciudad_i, posicion as int);
                assert(e == segmento(padre@, posicion as int, porcion as nat));
                assert(h.subrange(0, gen_i as int) + e.subrange(0, 0) + h.subrange(gen_i as int, n as int) =~= h);
            }
            let mut i: usize = 0;
            while i < porcion
                invariant
                    padre.valida(),
                    padre.dimension_spec() == n,
                    posicion < n,
                    porcion < n,
                    gen_i + porcion <= n,
                    i <= porcion,
                    h.len() == n,
                    e == segmento(padre@, posicion as int, porcion as nat),
                    hijo.dimension == n,
                    hijo.genes@ == h.subrange(0, gen_i as int) + e.subrange(0, i as int) + h.subrange(
                        gen_i + i,
                        n as int,
                    ),
                    forall|k: int| 0 <= k < n ==> #[trigger] hijo.genes@[k] < n,
                decreases porcion - i,
            {
                let j = indice_circular(posicion, i, n);
                let v = padre.genes[j];
                hijo.genes.set(gen_i + i, v);
                i = i + 1;
                proof {
                    assert(hijo.genes@ =~= h.subrange(0, gen_i as int) + e.subrange(0, i as int) + h.subrange(
                        gen_i + i,
                        n as int,
                    ));
                }
            }
            proof {
                assert(e.subrange(0, porcion as int) =~= e);
            }
            gen_i = gen_i + 1;
        }
        hijo.anticancerigeno();
        let distancia = hijo.calcular_distancia(&hijo.genes, mapa);
        hijo.distancia = distancia;
        hijo
    }

    /// The child of this bee (the queen) and `otra` (the drone), with the
    /// first anchor at a random position of the queen.
    pub fn reproducir(&self, otra: &Abeja, mapa: &Mapa, generacion: usize, rng: &mut rand::rngs::StdRng) -> (r: Abeja)
        requires
            mapa.wf(),
            self.valida(),
            otra.valida(),
            self.dimension_spec() == mapa@.len(),
            otra.dimension_spec() == mapa@.len(),
            mapa@.len() >= 1,
        ensures
            exists|inicio: int|
                0 <= inicio < mapa@.len() && r@ == hijo_de(mapa@, self@, otra@, generacion as nat, inicio),
            r.evaluada(mapa),
    {
        let inicio = indice_aleatorio(rng, self.dimension);
        self.reproducir_desde(otra, mapa, generacion, inicio)
    }

    /// The genes with the positions `[i, k)` reversed.
    pub fn opt_swap(&self, i: usize, k: usize) -> (r: Vec<usize>)
        requires
            self@.len() == self.dimension_spec(),
            i <= k <= self.dimension_spec(),
        ensures
            r@ == invertir_tramo(self@, i as int, k as int),
    {
        let ghost s = self@;
        let n = self.dimension;
        let mut nueva_ruta: Vec<usize> = Vec::with_capacity(n);
        let mut j: usize = 0;
        while j < i
            invariant
                s == self@,
                j <= i <= k <= n,
                n == s.len(),
                nueva_ruta@ == s.subrange(0, j as int),
            decreases i - j,
        {
            nueva_ruta.push(self.genes[j]);
            j = j + 1;
            proof {
                assert(nueva_ruta@ =~= s.subrange(0, j as int));
            }
        }
        let mut j: usize = k;
        proof {
            assert(nueva_ruta@ =~= s.subrange(0, i as int) + s.subrange(k as int, k as int).reverse());
        }
        while j > i
            invariant
                s == self@,
                i <= j <= k <= n,
                n == s.len(),
                nueva_ruta@ == s.subrange(0, i as int) + s.subrange(j as int, k as int).reverse(),
            decreases j - i,
        {
            j = j - 1;
            nueva_ruta.push(self.genes[j]);
            proof {
                assert(nueva_ruta@ =~= s.subrange(0, i as int) + s.subrange(j as int, k as int).reverse());
            }
        }
        let mut j: usize = k;
        proof {
            assert(nueva_ruta@ =~= s.subrange(0, i as int) + s.subrange(i as int, k as int).reverse()
                + s.subrange(k as int, k as int));
        }
        while j < n
            invariant
                s == self@,
                i <= k <= j <= n,
                n == s.len(),
                nueva_ruta@ == s.subrange(0, i as int) + s.subrange(i as int, k as int).reverse()
                    + s.subrange(k as int, j as int),
            decreases n - j,
        {
            nueva_ruta.push(self.genes[j]);
            j = j + 1;
            proof {
                assert(nueva_ruta@ =~= s.subrange(0, i as int) + s.subrange(i as int, k as int).reverse()
                    + s.subrange(k as int, j as int));
            }
        }
        nueva_ruta
    }

    /// One 2-opt pass: for every pair `3 <= i < k < n` in order, adopts the
    /// tour with `[i, k)` reversed when it is strictly shorter than the
    /// cached length. Returns the tours adopted, in order.
    pub fn opt2(&mut self, mapa: &Mapa) -> (mejoras: Vec<Vec<usize>>)
        requires
            mapa.wf(),
            old(self).valida(),
            old(self).dimension_spec() == mapa@.len(),
        ensures
            (final(self)@, final(self).distancia_spec() as int) == pasada_opt2(
                mapa@,
                old(self)@,
                old(self).distancia_spec() as int,
            ),
            final(self).valida(),
            final(self).dimension_spec() == old(self).dimension_spec(),
            final(self).distancia_spec() <= old(self).distancia_spec(),
            old(self).evaluada(mapa) ==> final(self).evaluada(mapa),
            forall|m: int| 0 <= m < mejoras@.len() ==> es_permutacion(#[trigger] mejoras@[m]@, mapa@.len()),
            cadena_decreciente(mapa@, mejoras@, old(self).distancia_spec() as int),
            mejoras@.len() > 0 ==> mejoras@.last()@ == final(self)@ && final(self).distancia_spec()
                == longitud(mapa@, final(self)@),
            mejoras@.len() == 0 <==> final(self).distancia_spec() == old(self).distancia_spec(),
            mejoras@.len() == 0 ==> final(self)@ == old(self)@,
            forall|m: int|
                0 <= m < mejoras@.len() ==> final(self).distancia_spec() <= longitud(
                    mapa@,
                    #[trigger] mejoras@[m]@,
                ),
    {
        let n = self.dimension;
        let ghost d = mapa@;
        let ghost inicial = (self@, self.distancia as int);
        let ghost objetivo = pasada_opt2(d, self@, self.distancia as int);
        let ghost evaluada = self.evaluada(mapa);
        let ghost distancia0 = self.distancia;
        let ghost genes0 = self@;
        let mut mejoras: Vec<Vec<usize>> = Vec::new();
        let mut i: usize = 3;
        while i < n
            invariant
                mapa.wf(),
                d == mapa@,
                self.valida(),
                n == self.dimension_spec(),
                n == mapa@.len(),
                3 <= i,
                recorrer_desde(d, (self@, self.distancia as int), i as int, n as int) == objetivo,
                self.distancia <= distancia0,
                evaluada ==> self.evaluada(mapa),
                    cadena_decreciente(d, mejoras@, distancia0 as int),
                    mejoras@.len() == 0 ==> self@ == genes0 && self.distancia == distancia0,
                    mejoras@.len() > 0 ==> mejoras@.last()@ == self@ && self.distancia == longitud(d, self@)
                        && self.distancia < distancia0,
                    forall|m: int| 0 <= m < mejoras@.len() ==> self.distancia <= longitud(d, #[trigger] mejoras@[m]@),
                forall|m: int| 0 <= m < mejoras@.len() ==> es_permutacion(#[trigger] mejoras@[m]@, n as nat),
            decreases n - i,
        {
            let mut k: usize = i + 1;
            while k < n
                invariant
                    mapa.wf(),
                    d == mapa@,
                    self.valida(),
                    n == self.dimension_spec(),
                    n == mapa@.len(),
                    3 <= i < n,
                    i + 1 <= k <= n,
                    recorrer_desde(
                        d,
                        recorrer_fila(d, (self@, self.distancia as int), i as int, k as int, n as int),
                        i + 1,
                        n as int,
                    ) == objetivo,
                    self.distancia <= distancia0,
                    evaluada ==> self.evaluada(mapa),
                    cadena_decreciente(d, mejoras@, distancia0 as int),
                    mejoras@.len() == 0 ==> self@ == genes0 && self.distancia == distancia0,
                    mejoras@.len() > 0 ==> mejoras@.last()@ == self@ && self.distancia == longitud(d, self@)
                        && self.distancia < distancia0,
                    forall|m: int| 0 <= m < mejoras@.len() ==> self.distancia <= longitud(d, #[trigger] mejoras@[m]@),
                    forall|m: int|
                        0 <= m < mejoras@.len() ==> es_permutacion(#[trigger] mejoras@[m]@, n as nat),
                decreases n - k,
            {
                let new_route = self.opt_swap(i, k);
                proof {
                    lemma_invertir_tramo(self@, n as nat, i as int, k as int);
                }
                let new_distance = self.calcular_distancia(&new_route, mapa);
                if new_distance < self.distancia {
                    let copia = new_route.clone();
                    proof {
                        assert(copia@ =~= new_route@);
                    }
                    self.genes = new_route;
                    self.distancia = new_distance;
                    mejoras.push(copia);
                }
                k = k + 1;
            }
            i = i + 1;
        }
        mejoras
    }

    /// The city at position `indice`.
    pub fn get_gen(&self, indice: usize) -> (r: usize)
        requires
            indice < self@.len(),
        ensures
            r == self@[indice as int],
    {
        self.genes[indice]
    }
    /// Replaces the city at position `indice`.
    pub fn set_gen(&mut self, indice: usize, ciudad_i: usize)
        requires
            indice < old(self)@.len(),
        ensures
            final(self)@ == old(self)@.update(indice as int, ciudad_i),
            final(self).distancia_spec() == old(self).distancia_spec(),
            final(self).dimension_spec() == old(self).dimension_spec(),
    {
        self.genes.set(indice, ciudad_i);
    }

    /// The order of the cities.
    pub fn get_genes(&self) -> (r: &Vec<usize>)
        ensures
            r@ == self@,
    {
        &self.genes
    }

    /// Replaces the order of the cities.
    pub fn set_genes(&mut self, genes: Vec<usize>)
        ensures
            final(self)@ == genes@,
            final(self).distancia_spec() == old(self).distancia_spec(),
            final(self).dimension_spec() == old(self).dimension_spec(),
    {
        self.genes = genes;
    }

    /// The cached length.
    pub fn get_distancia(&self) -> (r: u64)
        ensures
            r == self.distancia_spec(),
    {
        self.distancia
    }

    /// Replaces the cached length.
    pub fn set_distancia(&mut self, distancia: u64)
        ensures
            final(self)@ == old(self)@,
            final(self).distancia_spec() == distancia,
            final(self).dimension_spec() == old(self).dimension_spec(),
    {
        self.distancia = distancia;
    }

    /// The number of cities.
    pub fn get_dimension(&self) -> (r: usize)
        ensures
            r == self.dimension_spec(),
    {
        self.dimension
    }
}

} // verus!
