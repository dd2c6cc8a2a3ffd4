//! Tours as sequences of city indices, and what they measure.

use vstd::arithmetic::div_mod::{lemma_mod_add_multiples_vanish, lemma_small_mod};
use vstd::prelude::*;

verus! {

/// `s` holds each city of `[0, n)` exactly once.
pub open spec fn es_permutacion(s: Seq<usize>, n: nat) -> bool {
    &&& s.len() == n
    &&& s.no_duplicates()
    &&& forall|i: int| 0 <= i < s.len() ==> s[i] < n
    &&& forall|c: usize| c < n ==> s.contains(c)
}

/// Every distance `d[i][j]` with `i, j < d.len()` exists and equals `d[j][i]`.
pub open spec fn matriz_simetrica(d: Seq<Seq<u64>>) -> bool {
    &&& forall|i: int| 0 <= i < d.len() ==> #[trigger] d[i].len() == d.len()
    &&& forall|i: int, j: int| 0 <= i < d.len() && 0 <= j < d.len() ==> d[i][j] == d[j][i]
}

/// The edge that leaves position `i` of the closed tour `s`.
pub open spec fn arista(d: Seq<Seq<u64>>, s: Seq<usize>, i: int) -> int {
    d[s[i] as int][s[(i + 1) % (s.len() as int)] as int] as int
}

/// Sum of the first `k` edges of the closed tour `s`.
pub open spec fn longitud_hasta(d: Seq<Seq<u64>>, s: Seq<usize>, k: int) -> int
    decreases k,
{
    if k <= 0 {
        0
    } else {
        longitud_hasta(d, s, k - 1) + arista(d, s, k - 1)
    }
}

/// Length of the closed tour `s`: every consecutive distance plus the edge
/// back from the last city to the first.
pub open spec fn longitud(d: Seq<Seq<u64>>, s: Seq<usize>) -> int {
    longitud_hasta(d, s, s.len() as int)
}

/// Sum of the first `k` consecutive distances of the open path `p`.
pub open spec fn camino_hasta(d: Seq<Seq<u64>>, p: Seq<usize>, k: int) -> int
    decreases k,
{
    if k <= 0 {
        0
    } else {
        camino_hasta(d, p, k - 1) + d[p[k - 1] as int][p[k] as int]
    }
}

/// Length of the open path `p`, without the edge that would close it.
pub open spec fn longitud_camino(d: Seq<Seq<u64>>, p: Seq<usize>) -> int {
    camino_hasta(d, p, p.len() - 1)
}

/// The tour `s` started from position `r`.
pub open spec fn rotar(s: Seq<usize>, r: int) -> Seq<usize> {
    s.subrange(r, s.len() as int) + s.subrange(0, r)
}

/// Sum of `f(i)` over `i` in `[a, b)`.
pub open spec fn suma(f: spec_fn(int) -> int, a: int, b: int) -> int
    decreases b - a,
{
    if b <= a {
        0
    } else {
        suma(f, a, b - 1) + f(b - 1)
    }
}

proof fn lemma_suma_longitud(d: Seq<Seq<u64>>, s: Seq<usize>, k: int)
    requires
        0 <= k,
    ensures
        longitud_hasta(d, s, k) == suma(|i: int| arista(d, s, i), 0, k),
    decreases k,
{
    if k > 0 {
        lemma_suma_longitud(d, s, k - 1);
    }
}

proof fn lemma_suma_partir(f: spec_fn(int) -> int, a: int, m: int, b: int)
    requires
        a <= m <= b,
    ensures
        suma(f, a, b) == suma(f, a, m) + suma(f, m, b),
    decreases b - m,
{
    if m < b {
        lemma_suma_partir(f, a, m, b - 1);
    }
}

proof fn lemma_suma_desplazar(f: spec_fn(int) -> int, h: spec_fn(int) -> int, a: int, b: int, c: int)
    requires
        forall|i: int| a <= i < b ==> #[trigger] f(i) == h(i + c),
    ensures
        suma(f, a, b) == suma(h, a + c, b + c),
    decreases b - a,
{
    if a < b {
        lemma_suma_desplazar(f, h, a, b - 1, c);
    }
}

proof fn lemma_suma_primero(h: spec_fn(int) -> int, x: int, y: int)
    requires
        x < y,
    ensures
        suma(h, x, y) == h(x) + suma(h, x + 1, y),
    decreases y - x,
{
    if x + 1 < y {
        lemma_suma_primero(h, x, y - 1);
    } else {
        assert(suma(h, x, x) == 0);
        assert(suma(h, x + 1, y) == 0);
    }
}

proof fn lemma_suma_reflejar(f: spec_fn(int) -> int, h: spec_fn(int) -> int, a: int, b: int, c: int)
    requires
        forall|i: int| a <= i < b ==> #[trigger] f(i) == h(c - i),
    ensures
        suma(f, a, b) == suma(h, c - b + 1, c - a + 1),
    decreases b - a,
{
    if a < b {
        lemma_suma_reflejar(f, h, a, b - 1, c);
        lemma_suma_primero(h, c - b + 1, c - a + 1);
    }
}

pub(crate) proof fn lemma_mod_envuelve(x: int, n: int)
    requires
        0 <= x < 2 * n,
    ensures
        x % n == if x < n { x } else { x - n },
{
    if x < n {
        lemma_small_mod(x as nat, n as nat);
    } else {
        lemma_mod_add_multiples_vanish(x - n, n);
        lemma_small_mod((x - n) as nat, n as nat);
    }
}

/// The length of a closed tour does not depend on the city it starts from.
pub proof fn ley_longitud_rotacion(d: Seq<Seq<u64>>, s: Seq<usize>, r: int)
    requires
        0 <= r < s.len(),
    ensures
        longitud(d, rotar(s, r)) == longitud(d, s),
{
    let n = s.len() as int;
    let t = rotar(s, r);
    let e = |i: int| arista(d, s, i);
    let g = |i: int| arista(d, t, i);
    assert forall|i: int| 0 <= i < n implies #[trigger] t[i] == s[(i + r) % n] by {
        lemma_mod_envuelve(i + r, n);
    }
    assert forall|i: int| 0 <= i < n - r implies #[trigger] g(i) == e(i + r) by {
        lemma_mod_envuelve(i + 1, n);
        lemma_mod_envuelve(i + r, n);
        lemma_mod_envuelve(i + r + 1, n);
        lemma_mod_envuelve((i + 1) % n + r, n);
    }
    assert forall|i: int| n - r <= i < n implies #[trigger] g(i) == e(i + (r - n)) by {
        lemma_mod_envuelve(i + 1, n);
        lemma_mod_envuelve(i + r, n);
        lemma_mod_envuelve(i + r + 1 - n, n);
        lemma_mod_envuelve((i + 1) % n + r, n);
    }
    lemma_suma_longitud(d, s, n);
    lemma_suma_longitud(d, t, n);
    lemma_suma_partir(g, 0, n - r, n);
    lemma_suma_desplazar(g, e, 0, n - r, r);
    lemma_suma_desplazar(g, e, n - r, n, r - n);
    lemma_suma_partir(e, 0, r, n);
}

/// On a symmetric distance matrix, a closed tour walked backwards is as long
/// as walked forwards.
pub proof fn ley_longitud_reflejo(d: Seq<Seq<u64>>, s: Seq<usize>)
    requires
        matriz_simetrica(d),
        forall|i: int| 0 <= i < s.len() ==> s[i] < d.len(),
    ensures
        longitud(d, s.reverse()) == longitud(d, s),
{
    let n = s.len() as int;
    if n > 0 {
        let t = s.reverse();
        let e = |i: int| arista(d, s, i);
        let g = |i: int| arista(d, t, i);
        assert forall|i: int| 0 <= i < n - 1 implies #[trigger] g(i) == e(n - 2 - i) by {
            lemma_mod_envuelve(i + 1, n);
            lemma_mod_envuelve(n - 1 - i, n);
            assert(t[i] == s[n - 1 - i]);
            assert(t[i + 1] == s[n - 2 - i]);
        }
        assert(g(n - 1) == e(n - 1)) by {
            lemma_mod_envuelve(n, n);
            assert(t[n - 1] == s[0]);
            assert(t[0] == s[n - 1]);
        }
        lemma_suma_longitud(d, s, n);
        lemma_suma_longitud(d, t, n);
        lemma_suma_reflejar(g, e, 0, n - 1, n - 2);
    }
}

/// The identity tour `0, 1, ..., n - 1`.
pub open spec fn identidad(n: nat) -> Seq<usize> {
    Seq::new(n, |i: int| i as usize)
}

/// The cities of `[0, n)`.
pub open spec fn rango(n: nat) -> Set<usize> {
    Set::new(|c: usize| c < n)
}

proof fn lemma_rango(n: nat)
    requires
        n <= usize::MAX + 1,
    ensures
        rango(n).finite(),
        rango(n).len() == n,
    decreases n,
{
    if n == 0 {
        assert(rango(n) =~= Set::empty());
    } else {
        lemma_rango((n - 1) as nat);
        assert(rango(n) =~= rango((n - 1) as nat).insert((n - 1) as usize));
    }
}

/// A sequence without repeated cities, all below `n`, that holds every city
/// below `n`, has exactly `n` of them.
pub proof fn lemma_longitud_permutacion(s: Seq<usize>, n: nat)
    requires
        n <= usize::MAX + 1,
        s.no_duplicates(),
        forall|i: int| 0 <= i < s.len() ==> s[i] < n,
        forall|c: usize| c < n ==> s.contains(c),
    ensures
        s.len() == n,
{
    lemma_rango(n);
    s.unique_seq_to_set();
    assert(s.to_set() =~= rango(n));
}

/// The identity is a permutation.
pub proof fn lemma_identidad(n: nat)
    requires
        n <= usize::MAX + 1,
    ensures
        es_permutacion(identidad(n), n),
{
    let s = identidad(n);
    assert forall|c: usize| c < n implies s.contains(c) by {
        assert(s[c as int] == c);
    }
}

/// Exchanging two positions of a permutation gives a permutation.
pub proof fn lemma_intercambio(s: Seq<usize>, n: nat, a: int, b: int)
    requires
        es_permutacion(s, n),
        0 <= a < n,
        0 <= b < n,
    ensures
        es_permutacion(s.update(a, s[b]).update(b, s[a]), n),
{
    let t = s.update(a, s[b]).update(b, s[a]);
    assert forall|c: usize| c < n implies t.contains(c) by {
        assert(s.contains(c));
        let k = choose|k: int| 0 <= k < s.len() && s[k] == c;
        if k == a {
            assert(t[b] == c);
        } else if k == b {
            assert(t[a] == c);
        } else {
            assert(t[k] == c);
        }
    }
    assert forall|i: int, j: int| 0 <= i < t.len() && 0 <= j < t.len() && i != j implies t[i]
        != t[j] by {
        let fi = if i == b { a } else if i == a { b } else { i };
        let fj = if j == b { a } else if j == a { b } else { j };
        assert(t[i] == s[fi]);
        assert(t[j] == s[fj]);
    }
}

/// The cities of `s` in order, each kept at its first occurrence only.
pub open spec fn primeras(s: Seq<usize>) -> Seq<usize>
    decreases s.len(),
{
    if s.len() == 0 {
        Seq::empty()
    } else {
        let p = primeras(s.drop_last());
        if p.contains(s.last()) {
            p
        } else {
            p.push(s.last())
        }
    }
}

/// The cities below `k` that `p` lacks, in ascending order.
pub open spec fn faltantes(p: Seq<usize>, k: nat) -> Seq<usize>
    decreases k,
{
    if k == 0 {
        Seq::empty()
    } else {
        let f = faltantes(p, (k - 1) as nat);
        if p.contains((k - 1) as usize) {
            f
        } else {
            f.push((k - 1) as usize)
        }
    }
}

/// The repair of `s` into a tour of `n` cities: its first occurrences, then
/// the cities it lacks in ascending order.
pub open spec fn reparar(s: Seq<usize>, n: nat) -> Seq<usize> {
    primeras(s) + faltantes(primeras(s), n)
}

pub(crate) proof fn lemma_primeras(s: Seq<usize>)
    ensures
        primeras(s).no_duplicates(),
        forall|x: usize| #[trigger] primeras(s).contains(x) <==> s.contains(x),
    decreases s.len(),
{
    if s.len() > 0 {
        let q = s.drop_last();
        lemma_primeras(q);
        assert forall|x: usize| s.contains(x) <==> (q.contains(x) || x == s.last()) by {
            if s.contains(x) {
                let k = choose|k: int| 0 <= k < s.len() && s[k] == x;
                if k < s.len() - 1 {
                    assert(q[k] == x);
                }
            }
            if q.contains(x) {
                let k = choose|k: int| 0 <= k < q.len() && q[k] == x;
                assert(s[k] == x);
            }
        }
        let p = primeras(q);
        if !p.contains(s.last()) {
            let t = p.push(s.last());
            assert forall|x: usize| t.contains(x) <==> (p.contains(x) || x == s.last()) by {
                if t.contains(x) {
                    let k = choose|k: int| 0 <= k < t.len() && t[k] == x;
                    if k < p.len() {
                        assert(p[k] == x);
                    }
                }
                if p.contains(x) {
                    let k = choose|k: int| 0 <= k < p.len() && p[k] == x;
                    assert(t[k] == x);
                }
                if x == s.last() {
                    assert(t[p.len() as int] == x);
                }
            }
            assert forall|i: int, j: int| 0 <= i < t.len() && 0 <= j < t.len() && i != j implies t[i]
                != t[j] by {
                if i == p.len() {
                    assert(p.contains(t[j]));
                } else if j == p.len() {
                    assert(p.contains(t[i]));
                }
            }
        }
    }
}

pub(crate) proof fn lemma_faltantes(p: Seq<usize>, k: nat)
    requires
        k <= usize::MAX + 1,
    ensures
        faltantes(p, k).no_duplicates(),
        forall|x: usize| #[trigger] faltantes(p, k).contains(x) <==> (x < k && !p.contains(x)),
    decreases k,
{
    if k > 0 {
        let f = faltantes(p, (k - 1) as nat);
        let c = (k - 1) as usize;
        lemma_faltantes(p, (k - 1) as nat);
        if !p.contains(c) {
            let t = f.push(c);
            assert forall|x: usize| t.contains(x) <==> (f.contains(x) || x == c) by {
                if t.contains(x) {
                    let m = choose|m: int| 0 <= m < t.len() && t[m] == x;
                    if m < f.len() {
                        assert(f[m] == x);
                    }
                }
                if f.contains(x) {
                    let m = choose|m: int| 0 <= m < f.len() && f[m] == x;
                    assert(t[m] == x);
                }
                if x == c {
                    assert(t[f.len() as int] == x);
                }
            }
            assert forall|i: int, j: int| 0 <= i < t.len() && 0 <= j < t.len() && i != j implies t[i]
                != t[j] by {
                if i == f.len() {
                    assert(f.contains(t[j]));
                } else if j == f.len() {
                    assert(f.contains(t[i]));
                }
            }
        }
    }
}

/// What the repair gives is a permutation of `[0, n)`, whatever the cities
/// of `s` repeat or lack.
pub proof fn lemma_reparar_permutacion(s: Seq<usize>, n: nat)
    requires
        n <= usize::MAX + 1,
        forall|i: int| 0 <= i < s.len() ==> s[i] < n,
    ensures
        es_permutacion(reparar(s, n), n),
{
    let p = primeras(s);
    let f = faltantes(p, n);
    let r = reparar(s, n);
    lemma_primeras(s);
    lemma_faltantes(p, n);
    assert forall|i: int| 0 <= i < p.len() implies #[trigger] p[i] < n by {
        assert(p.contains(p[i]));
        assert(s.contains(p[i]));
        let k = choose|k: int| 0 <= k < s.len() && s[k] == p[i];
        assert(s[k] == p[i]);
    }
    assert forall|j: int| 0 <= j < f.len() implies #[trigger] f[j] < n by {
        assert(f.contains(f[j]));
    }
    assert forall|i: int| 0 <= i < r.len() implies r[i] < n by {
        if i < p.len() {
            assert(r[i] == p[i]);
        } else {
            assert(r[i] == f[i - p.len()]);
        }
    }
    assert forall|c: usize| c < n implies r.contains(c) by {
        if p.contains(c) {
            let k = choose|k: int| 0 <= k < p.len() && p[k] == c;
            assert(r[k] == c);
        } else {
            assert(f.contains(c));
            let k = choose|k: int| 0 <= k < f.len() && f[k] == c;
            assert(r[p.len() + k] == c);
        }
    }
    assert forall|i: int, j: int| 0 <= i < r.len() && 0 <= j < r.len() && i != j implies r[i]
        != r[j] by {
        if i < p.len() && j >= p.len() {
            assert(p.contains(r[i]));
            assert(f.contains(f[j - p.len()]));
        } else if j < p.len() && i >= p.len() {
            assert(p.contains(r[j]));
            assert(f.contains(f[i - p.len()]));
        }
    }
    lemma_longitud_permutacion(r, n);
}

proof fn lemma_primeras_sin_repetidos(s: Seq<usize>)
    requires
        s.no_duplicates(),
    ensures
        primeras(s) == s,
    decreases s.len(),
{
    if s.len() > 0 {
        let q = s.drop_last();
        lemma_primeras_sin_repetidos(q);
        lemma_primeras(q);
        assert(!q.contains(s.last())) by {
            if q.contains(s.last()) {
                let k = choose|k: int| 0 <= k < q.len() && q[k] == s.last();
                assert(s[k] == s[s.len() - 1]);
            }
        }
        assert(q.push(s.last()) =~= s);
    }
}

/// The repair leaves a permutation unchanged.
pub proof fn lemma_reparar_permutacion_fija(s: Seq<usize>, n: nat)
    requires
        n <= usize::MAX + 1,
        es_permutacion(s, n),
    ensures
        reparar(s, n) == s,
{
    lemma_primeras_sin_repetidos(s);
    lemma_faltantes(s, n);
    let f = faltantes(s, n);
    if f.len() > 0 {
        assert(f.contains(f[0]));
        assert(s.contains(f[0]));
    }
    assert(f.len() == 0);
    assert(reparar(s, n) =~= s);
}

/// Repairing is idempotent, and always yields a permutation of `[0, n)`.
pub proof fn ley_reparar_idempotente(s: Seq<usize>, n: nat)
    requires
        n <= usize::MAX + 1,
        forall|i: int| 0 <= i < s.len() ==> s[i] < n,
    ensures
        es_permutacion(reparar(s, n), n),
        reparar(reparar(s, n), n) == reparar(s, n),
{
    lemma_reparar_permutacion(s, n);
    lemma_reparar_permutacion_fija(reparar(s, n), n);
}

/// `s` with the positions `[i, k)` reversed.
pub open spec fn invertir_tramo(s: Seq<usize>, i: int, k: int) -> Seq<usize> {
    s.subrange(0, i) + s.subrange(i, k).reverse() + s.subrange(k, s.len() as int)
}

/// The position of `s` that lands at `m` when `[i, k)` is reversed.
pub open spec fn reflejo(i: int, k: int, m: int) -> int {
    if i <= m < k {
        i + k - 1 - m
    } else {
        m
    }
}

/// Reversing a stretch of a permutation gives a permutation.
pub proof fn lemma_invertir_tramo(s: Seq<usize>, n: nat, i: int, k: int)
    requires
        es_permutacion(s, n),
        0 <= i <= k <= n,
    ensures
        es_permutacion(invertir_tramo(s, i, k), n),
        forall|m: int| 0 <= m < n ==> #[trigger] invertir_tramo(s, i, k)[m] == s[reflejo(i, k, m)],
{
    let t = invertir_tramo(s, i, k);
    assert(t.len() == n);
    assert forall|m: int| 0 <= m < n implies #[trigger] t[m] == s[reflejo(i, k, m)] by {
        if i <= m < k {
            assert(s.subrange(i, k).reverse()[m - i] == s.subrange(i, k)[k - i - 1 - (m - i)]);
        }
    }
    assert forall|m: int| 0 <= m < t.len() implies t[m] < n by {
        assert(t[m] == s[reflejo(i, k, m)]);
    }
    assert forall|c: usize| c < n implies t.contains(c) by {
        assert(s.contains(c));
        let j = choose|j: int| 0 <= j < s.len() && s[j] == c;
        let m = reflejo(i, k, j);
        assert(0 <= m < n);
        assert(reflejo(i, k, m) == j);
        assert(t[m] == s[j]);
    }
    assert forall|a: int, b: int| 0 <= a < t.len() && 0 <= b < t.len() && a != b implies t[a]
        != t[b] by {
        assert(t[a] == s[reflejo(i, k, a)]);
        assert(t[b] == s[reflejo(i, k, b)]);
    }
}

/// One trial of the 2-opt search on the state `(tour, length)`: the tour
/// with `[i, k)` reversed is adopted if it is strictly shorter.
pub open spec fn probar(d: Seq<Seq<u64>>, st: (Seq<usize>, int), i: int, k: int) -> (Seq<usize>, int) {
    let c = invertir_tramo(st.0, i, k);
    if longitud(d, c) < st.1 {
        (c, longitud(d, c))
    } else {
        st
    }
}

/// The trials `(i, k), (i, k + 1), ..., (i, n - 1)` in turn.
pub open spec fn recorrer_fila(d: Seq<Seq<u64>>, st: (Seq<usize>, int), i: int, k: int, n: int) -> (
    Seq<usize>,
    int,
)
    decreases n - k,
{
    if k >= n {
        st
    } else {
        recorrer_fila(d, probar(d, st, i, k), i, k + 1, n)
    }
}

/// The trials of every pair `i <= a < b < n`, by `a` and then by `b`.
pub open spec fn recorrer_desde(d: Seq<Seq<u64>>, st: (Seq<usize>, int), i: int, n: int) -> (
    Seq<usize>,
    int,
)
    decreases n - i,
{
    if i >= n {
        st
    } else {
        recorrer_desde(d, recorrer_fila(d, st, i, i + 1, n), i + 1, n)
    }
}

/// A full 2-opt pass, first improvement, over the pairs `3 <= i < k < n`,
/// from the tour `s` with cached length `distancia`.
pub open spec fn pasada_opt2(d: Seq<Seq<u64>>, s: Seq<usize>, distancia: int) -> (Seq<usize>, int) {
    recorrer_desde(d, (s, distancia), 3, s.len() as int)
}

proof fn lemma_fila_no_aumenta(d: Seq<Seq<u64>>, st: (Seq<usize>, int), i: int, k: int, n: int)
    ensures
        recorrer_fila(d, st, i, k, n).1 <= st.1,
    decreases n - k,
{
    if k < n {
        lemma_fila_no_aumenta(d, probar(d, st, i, k), i, k + 1, n);
    }
}

proof fn lemma_desde_no_aumenta(d: Seq<Seq<u64>>, st: (Seq<usize>, int), i: int, n: int)
    ensures
        recorrer_desde(d, st, i, n).1 <= st.1,
    decreases n - i,
{
    if i < n {
        lemma_fila_no_aumenta(d, st, i, i + 1, n);
        lemma_desde_no_aumenta(d, recorrer_fila(d, st, i, i + 1, n), i + 1, n);
    }
}

/// A 2-opt pass never lengthens the tour, and every pass after it neither:
/// the cached length after `m` passes is at most the one before them.
pub proof fn ley_opt2_no_aumenta(d: Seq<Seq<u64>>, s: Seq<usize>, distancia: int, m: nat)
    ensures
        pasadas_opt2(d, s, distancia, m).1 <= distancia,
    decreases m,
{
    if m > 0 {
        let st = pasada_opt2(d, s, distancia);
        lemma_desde_no_aumenta(d, (s, distancia), 3, s.len() as int);
        ley_opt2_no_aumenta(d, st.0, st.1, (m - 1) as nat);
    }
}

/// `m` 2-opt passes in a row.
pub open spec fn pasadas_opt2(d: Seq<Seq<u64>>, s: Seq<usize>, distancia: int, m: nat) -> (
    Seq<usize>,
    int,
)
    decreases m,
{
    if m == 0 {
        (s, distancia)
    } else {
        let st = pasada_opt2(d, s, distancia);
        pasadas_opt2(d, st.0, st.1, (m - 1) as nat)
    }
}

/// With at most three cities, on a symmetric distance matrix, every tour has
/// the same length.
pub proof fn ley_pocas_ciudades(d: Seq<Seq<u64>>, s: Seq<usize>, n: nat)
    requires
        matriz_simetrica(d),
        d.len() == n,
        n <= 3,
        es_permutacion(s, n),
    ensures
        longitud(d, s) == longitud(d, identidad(n)),
{
    reveal_with_fuel(longitud_hasta, 4);
    let t = identidad(n);
    if n == 2 {
        assert(s.contains(0));
        assert(s[0] == 0 || s[1] == 0);
        assert(s[0] != s[1]);
    } else if n == 3 {
        assert(s.contains(0) && s.contains(1) && s.contains(2));
        assert(s[0] != s[1] && s[1] != s[2] && s[0] != s[2]);
        assert(t[0] == 0 && t[1] == 1 && t[2] == 2);
    }
}

/// Each tour of `e` is strictly shorter than the one before it, and the
/// first strictly shorter than `inicio`.
pub open spec fn cadena_decreciente(d: Seq<Seq<u64>>, e: Seq<Vec<usize>>, inicio: int) -> bool {
    forall|m: int|
        0 <= m < e.len() ==> #[trigger] longitud(d, e[m]@) < (if m == 0 {
            inicio
        } else {
            longitud(d, e[m - 1]@)
        })
}

/// Two decreasing chains, the second starting from where the first ends,
/// make one.
pub proof fn lemma_cadena_concatenar(
    d: Seq<Seq<u64>>,
    a: Seq<Vec<usize>>,
    b: Seq<Vec<usize>>,
    x: int,
    y: int,
)
    requires
        cadena_decreciente(d, a, x),
        cadena_decreciente(d, b, y),
        a.len() == 0 ==> y == x,
        a.len() > 0 ==> longitud(d, a.last()@) == y,
    ensures
        cadena_decreciente(d, a + b, x),
{
    let c = a + b;
    assert forall|m: int| 0 <= m < c.len() implies #[trigger] longitud(d, c[m]@) < (if m == 0 {
        x
    } else {
        longitud(d, c[m - 1]@)
    }) by {
        if m < a.len() {
            assert(c[m] == a[m]);
            if m > 0 {
                assert(c[m - 1] == a[m - 1]);
            }
        } else {
            let j = m - a.len();
            assert(c[m] == b[j]);
            assert(longitud(d, b[j]@) < (if j == 0 { y } else { longitud(d, b[j - 1]@) }));
            if j > 0 {
                assert(c[m - 1] == b[j - 1]);
            } else if m > 0 {
                assert(c[m - 1] == a.last());
            }
        }
    }
}

} // verus!
