//! The distance provider: city coordinates on an integer grid and the
//! matrix of their pairwise distances, computed once.

use crate::ciclo::matriz_simetrica;
use crate::ErrorColmena;
use vstd::prelude::*;

verus! {

/// Largest absolute value accepted for a coordinate; it keeps every squared
/// distance within `u64`.
pub const COORDENADA_MAXIMA: i64 = 1073741824;

/// Largest number of cities accepted; with distances below `2^32` it keeps
/// every tour length within `u64`.
pub const CIUDADES_MAXIMAS: usize = 4294967295;

/// Squared Euclidean distance between two points.
pub open spec fn cuadrado(a: (i64, i64), b: (i64, i64)) -> int {
    (a.0 - b.0) * (a.0 - b.0) + (a.1 - b.1) * (a.1 - b.1)
}

/// `r` is the integer square root of `v`.
pub open spec fn es_raiz(r: int, v: int) -> bool {
    0 <= r && r * r <= v < (r + 1) * (r + 1)
}

/// The integer square root of a non-negative `v`.
pub open spec fn raiz(v: int) -> int {
    choose|r: int| es_raiz(r, v)
}

/// The distance between two points: the integer square root of their squared
/// Euclidean distance.
pub open spec fn distancia_entre(a: (i64, i64), b: (i64, i64)) -> int {
    raiz(cuadrado(a, b))
}

/// A coordinate pair within the accepted range.
pub open spec fn coordenada_valida(c: (i64, i64)) -> bool {
    -COORDENADA_MAXIMA <= c.0 <= COORDENADA_MAXIMA && -COORDENADA_MAXIMA <= c.1 <= COORDENADA_MAXIMA
}

proof fn lemma_raiz_unica(a: int, b: int, v: int)
    requires
        es_raiz(a, v),
        es_raiz(b, v),
    ensures
        a == b,
{
    if a < b {
        assert((a + 1) * (a + 1) <= b * b) by (nonlinear_arith)
            requires
                0 <= a + 1 <= b,
        ;
    } else if b < a {
        assert((b + 1) * (b + 1) <= a * a) by (nonlinear_arith)
            requires
                0 <= b + 1 <= a,
        ;
    }
}

proof fn lemma_raiz_es(r: int, v: int)
    requires
        es_raiz(r, v),
    ensures
        raiz(v) == r,
{
    lemma_raiz_unica(raiz(v), r, v);
}

/// The distance between two points does not depend on their order.
pub proof fn lemma_distancia_simetrica(a: (i64, i64), b: (i64, i64))
    ensures
        distancia_entre(a, b) == distancia_entre(b, a),
{
    assert(cuadrado(a, b) == cuadrado(b, a)) by (nonlinear_arith);
}

/// Integer square root by bisection.
fn raiz_entera(v: u64) -> (r: u64)
    ensures
        es_raiz(r as int, v as int),
        r <= 0xFFFF_FFFF,
{
    let mut lo: u64 = 0;
    let mut hi: u64 = 0x1_0000_0000;
    assert(hi * hi > 0xFFFF_FFFF_FFFF_FFFF) by (nonlinear_arith)
        requires
            hi == 0x1_0000_0000,
    ;
    while hi - lo > 1
        invariant
            lo < hi <= 0x1_0000_0000,
            lo * lo <= v,
            v < hi * hi,
        decreases hi - lo,
    {
        let mid: u64 = lo + (hi - lo) / 2;
        assert(mid * mid <= 0xFFFF_FFFF * 0xFFFF_FFFF) by (nonlinear_arith)
            requires
                mid <= 0xFFFF_FFFF,
        ;
        if mid * mid <= v {
            lo = mid;
        } else {
            hi = mid;
        }
    }
    lo
}

/// Integer distance between two points within the accepted range.
fn calcula_distancia(a: (i64, i64), b: (i64, i64)) -> (r: u64)
    requires
        coordenada_valida(a),
        coordenada_valida(b),
    ensures
        r == distancia_entre(a, b),
        r <= 0xFFFF_FFFF,
{
    let dx: i64 = b.0 - a.0;
    let dy: i64 = b.1 - a.1;
    let ax: u64 = if dx < 0 { (-dx) as u64 } else { dx as u64 };
    let ay: u64 = if dy < 0 { (-dy) as u64 } else { dy as u64 };
    assert(ax * ax <= 0x4000_0000_0000_0000 && ax * ax == (a.0 - b.0) * (a.0 - b.0))
        by (nonlinear_arith)
        requires
            ax <= 0x8000_0000,
            ax == dx || ax == -dx,
            dx == b.0 - a.0,
    ;
    assert(ay * ay <= 0x4000_0000_0000_0000 && ay * ay == (a.1 - b.1) * (a.1 - b.1))
        by (nonlinear_arith)
        requires
            ay <= 0x8000_0000,
            ay == dy || ay == -dy,
            dy == b.1 - a.1,
    ;
    let r = raiz_entera(ax * ax + ay * ay);
    proof {
        lemma_raiz_es(r as int, cuadrado(a, b));
    }
    r
}

/// Coordinates of the cities and the matrix of their distances.
#[derive(Debug)]
pub struct Mapa {
    coordenadas: Vec<(i64, i64)>,
    distancias: Vec<Vec<u64>>,
    max_x: i64,
    max_y: i64,
    min_x: i64,
    min_y: i64,
    dimension: usize,
}

impl View for Mapa {
    type V = Seq<Seq<u64>>;

    /// The distance matrix.
    closed spec fn view(&self) -> Seq<Seq<u64>> {
        self.distancias@.map_values(|f: Vec<u64>| f@)
    }
}

impl Mapa {
    /// The number of cities the map was made for.
    pub closed spec fn dimension_spec(&self) -> nat {
        self.dimension as nat
    }

    /// The coordinates of the cities, once loaded.
    pub closed spec fn coordenadas_spec(&self) -> Seq<(i64, i64)> {
        self.coordenadas@
    }

    /// The bounding box: `(min_x, max_x, min_y, max_y)`.
    pub closed spec fn caja_spec(&self) -> (i64, i64, i64, i64) {
        (self.min_x, self.max_x, self.min_y, self.max_y)
    }

    /// The matrix was filled from the coordinates.
    pub closed spec fn cargado(&self) -> bool {
        let c = self.coordenadas@;
        let d = self.distancias@;
        &&& c.len() == self.dimension
        &&& d.len() == self.dimension
        &&& forall|i: int| 0 <= i < c.len() ==> #[trigger] d[i]@.len() == c.len()
        &&& forall|i: int, j: int|
            0 <= i < c.len() && 0 <= j < c.len() ==> #[trigger] d[i]@[j] == distancia_entre(
                c[i],
                c[j],
            )
    }

    /// The map is loaded: its matrix holds the distances between its
    /// coordinates, and its bounding box encloses them tightly.
    pub open spec fn wf(&self) -> bool {
        &&& self.cargado()
        &&& self@.len() == self.dimension_spec()
        &&& self.coordenadas_spec().len() == self.dimension_spec()
        &&& self.dimension_spec() <= CIUDADES_MAXIMAS
        &&& matriz_simetrica(self@)
        &&& forall|i: int, j: int|
            0 <= i < self@.len() && 0 <= j < self@.len() ==> #[trigger] self@[i][j] <= 0xFFFF_FFFF
        &&& forall|i: int, j: int|
            0 <= i < self@.len() && 0 <= j < self@.len() ==> #[trigger] self@[i][j]
                == distancia_entre(self.coordenadas_spec()[i], self.coordenadas_spec()[j])
        &&& forall|i: int|
            0 <= i < self.coordenadas_spec().len() ==> coordenada_valida(
                #[trigger] self.coordenadas_spec()[i],
            )
        &&& caja_de(self.coordenadas_spec(), self.caja_spec())
    }

    /// An empty map for `dimension` cities, to be filled by `cargar_datos`.
    pub fn new(dimension: usize) -> (r: Mapa)
        ensures
            r.dimension_spec() == dimension,
            r.coordenadas_spec().len() == 0,
            r@.len() == 0,
            r.caja_spec() == (0i64, 0i64, 0i64, 0i64),
    {
        Mapa {
            coordenadas: Vec::new(),
            distancias: Vec::new(),
            max_x: 0,
            max_y: 0,
            min_x: 0,
            min_y: 0,
            dimension,
        }
    }

    /// Loads the coordinates of the cities and computes the distance matrix
    /// and the bounding box. Fails with `InvalidInput`, leaving the map as it
    /// was, when the number of rows differs from the map's dimension, when
    /// there are more than `CIUDADES_MAXIMAS` of them, or when a coordinate is
    /// out of range.
    pub fn cargar_datos(&mut self, coordenadas: Vec<(i64, i64)>) -> (r: Result<(), ErrorColmena>)
        ensures
            r is Ok <==> (coordenadas@.len() == old(self).dimension_spec()
                && coordenadas@.len() <= CIUDADES_MAXIMAS && forall|i: int|
                0 <= i < coordenadas@.len() ==> coordenada_valida(#[trigger] coordenadas@[i])),
            r is Ok ==> final(self).wf() && final(self).dimension_spec() == old(self).dimension_spec()
                && final(self).coordenadas_spec() == coordenadas@,
            r is Err ==> r == Err::<(), ErrorColmena>(ErrorColmena::InvalidInput) && *final(self)
                == *old(self),
    {
        let n = coordenadas.len();
        if n != self.dimension || n > CIUDADES_MAXIMAS {
            return Err(ErrorColmena::InvalidInput);
        }
        let mut k: usize = 0;
        while k < n
            invariant
                n == coordenadas@.len(),
                k <= n,
                forall|i: int| 0 <= i < k ==> coordenada_valida(#[trigger] coordenadas@[i]),
            decreases n - k,
        {
            let c = coordenadas[k];
            if c.0 < -COORDENADA_MAXIMA || c.0 > COORDENADA_MAXIMA || c.1 < -COORDENADA_MAXIMA
                || c.1 > COORDENADA_MAXIMA {
                return Err(ErrorColmena::InvalidInput);
            }
            k = k + 1;
        }
        let mut distancias: Vec<Vec<u64>> = Vec::new();
        let mut i: usize = 0;
        while i < n
            invariant
                n == coordenadas@.len(),
                i <= n,
                distancias@.len() == i,
                forall|m: int| 0 <= m < n ==> coordenada_valida(#[trigger] coordenadas@[m]),
                forall|a: int| 0 <= a < i ==> #[trigger] distancias@[a]@.len() == n,
                forall|a: int, b: int|
                    0 <= a < i && 0 <= b < n ==> #[trigger] distancias@[a]@[b] == distancia_entre(
                        coordenadas@[a],
                        coordenadas@[b],
                    ) && distancias@[a]@[b] <= 0xFFFF_FFFF,
            decreases n - i,
        {
            let mut fila: Vec<u64> = Vec::new();
            let mut j: usize = 0;
            while j < n
                invariant
                    n == coordenadas@.len(),
                    i < n,
                    j <= n,
                    fila@.len() == j,
                    forall|m: int| 0 <= m < n ==> coordenada_valida(#[trigger] coordenadas@[m]),
                    forall|b: int|
                        0 <= b < j ==> #[trigger] fila@[b] == distancia_entre(
                            coordenadas@[i as int],
                            coordenadas@[b],
                        ) && fila@[b] <= 0xFFFF_FFFF,
                decreases n - j,
            {
                let d = calcula_distancia(coordenadas[i], coordenadas[j]);
                fila.push(d);
                j = j + 1;
            }
            distancias.push(fila);
            i = i + 1;
        }
        let mut min_x: i64 = 0;
        let mut max_x: i64 = 0;
        let mut min_y: i64 = 0;
        let mut max_y: i64 = 0;
        if n > 0 {
            min_x = coordenadas[0].0;
            max_x = coordenadas[0].0;
            min_y = coordenadas[0].1;
            max_y = coordenadas[0].1;
        }
        proof {
            if n > 0 {
                assert(coordenadas@.subrange(0, 1)[0] == coordenadas@[0]);
            }
        }
        let mut i: usize = 1;
        while i < n
            invariant
                n == coordenadas@.len(),
                n > 0 ==> 1 <= i <= n,
                n == 0 ==> min_x == 0 && max_x == 0 && min_y == 0 && max_y == 0,
                n > 0 ==> caja_de(coordenadas@.subrange(0, i as int), (min_x, max_x, min_y, max_y)),
            decreases n - i,
        {
            let ghost prefijo = coordenadas@.subrange(0, i as int);
            let ghost antes = (min_x, max_x, min_y, max_y);
            let c = coordenadas[i];
            if c.0 < min_x {
                min_x = c.0;
            }
            if c.0 > max_x {
                max_x = c.0;
            }
            if c.1 < min_y {
                min_y = c.1;
            }
            if c.1 > max_y {
                max_y = c.1;
            }
            proof {
                let sig = coordenadas@.subrange(0, i + 1);
                assert(sig == prefijo.push(c));
                assert(sig[i as int] == c);
                assert forall|m: int| 0 <= m < sig.len() implies min_x <= #[trigger] sig[m].0 <= max_x
                    && min_y <= sig[m].1 <= max_y by {
                    if m < i {
                        assert(sig[m] == prefijo[m]);
                    }
                }
                let a = choose|m: int| 0 <= m < prefijo.len() && #[trigger] prefijo[m].0 == antes.0;
                let b = choose|m: int| 0 <= m < prefijo.len() && #[trigger] prefijo[m].0 == antes.1;
                let e = choose|m: int| 0 <= m < prefijo.len() && #[trigger] prefijo[m].1 == antes.2;
                let f = choose|m: int| 0 <= m < prefijo.len() && #[trigger] prefijo[m].1 == antes.3;
                assert(sig[a] == prefijo[a] && sig[b] == prefijo[b] && sig[e] == prefijo[e] && sig[f]
                    == prefijo[f]);
            }
            i = i + 1;
        }
        proof {
            if n > 0 {
                assert(coordenadas@.subrange(0, n as int) == coordenadas@);
            }
        }
        self.coordenadas = coordenadas;
        self.distancias = distancias;
        self.min_x = min_x;
        self.max_x = max_x;
        self.min_y = min_y;
        self.max_y = max_y;
        proof {
            let c = self.coordenadas@;
            assert(self@.len() == n);
            assert forall|a: int| 0 <= a < n implies #[trigger] self@[a] == self.distancias@[a]@ by {}
            assert forall|a: int, b: int| 0 <= a < n && 0 <= b < n implies self@[a][b] == self@[b][a] by {
                lemma_distancia_simetrica(c[a], c[b]);
            }
            assert forall|a: int| 0 <= a < n implies #[trigger] self@[a].len() == self@.len() by {}
        }
        Ok(())
    }

    /// The distance from a city to itself is 0.
    pub proof fn lemma_diagonal_cero(&self, i: int)
        requires
            self.wf(),
            0 <= i < self@.len(),
        ensures
            self@[i][i] == 0,
    {
        let c = self.coordenadas_spec()[i];
        assert(cuadrado(c, c) == 0);
        lemma_raiz_es(0, 0);
    }

    /// The number of cities.
    pub fn dimension(&self) -> (r: usize)
        ensures
            r == self.dimension_spec(),
    {
        self.dimension
    }

    /// The distance between cities `x` and `y`.
    pub fn get_distancia(&self, x: usize, y: usize) -> (r: u64)
        requires
            self.wf(),
            x < self@.len(),
            y < self@.len(),
        ensures
            r == self@[x as int][y as int],
    {
        self.distancias[x][y]
    }

    /// The coordinates of city `ciudad_i`.
    pub fn get_coordenas(&self, ciudad_i: usize) -> (r: (i64, i64))
        requires
            self.wf(),
            ciudad_i < self@.len(),
        ensures
            r == self.coordenadas_spec()[ciudad_i as int],
    {
        self.coordenadas[ciudad_i]
    }

    /// The largest x coordinate.
    pub fn get_max_x(&self) -> (r: i64)
        ensures
            r == self.caja_spec().1,
    {
        self.max_x
    }

    /// The largest y coordinate.
    pub fn get_max_y(&self) -> (r: i64)
        ensures
            r == self.caja_spec().3,
    {
        self.max_y
    }

    /// The smallest x coordinate.
    pub fn get_min_x(&self) -> (r: i64)
        ensures
            r == self.caja_spec().0,
    {
        self.min_x
    }

    /// The smallest y coordinate.
    pub fn get_min_y(&self) -> (r: i64)
        ensures
            r == self.caja_spec().2,
    {
        self.min_y
    }
}

/// `caja` is `(min_x, max_x, min_y, max_y)` of the points `c`, or all zero
/// when there are none.
pub open spec fn caja_de(c: Seq<(i64, i64)>, caja: (i64, i64, i64, i64)) -> bool {
    if c.len() == 0 {
        caja == (0i64, 0i64, 0i64, 0i64)
    } else {
        &&& forall|i: int|
            0 <= i < c.len() ==> caja.0 <= #[trigger] c[i].0 <= caja.1 && caja.2 <= c[i].1 <= caja.3
        &&& exists|i: int| 0 <= i < c.len() && #[trigger] c[i].0 == caja.0
        &&& exists|i: int| 0 <= i < c.len() && #[trigger] c[i].0 == caja.1
        &&& exists|i: int| 0 <= i < c.len() && #[trigger] c[i].1 == caja.2
        &&& exists|i: int| 0 <= i < c.len() && #[trigger] c[i].1 == caja.3
    }
}

} // verus!
