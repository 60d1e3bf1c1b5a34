use crate::ga::{ConfigError, Individual};
use crate::random::{sample_indices, shuffle, sort_ascending};
use crate::tour::{
    gathered, interior_positions, is_tour, lemma_order_child_is_tour,
    lemma_rearrangement_keeps_tour, order_child, order_crossover_child, valid_points, window_mask,
    write_at, written_at,
};
use crate::tsp_data::Tsp;
use vstd::prelude::*;

verus! {

/// The configuration shared by every route of a run: the distance model and the number of
/// points that crossover and mutation use.
pub struct Spec<'a, T: Tsp> {
    pub tsp: &'a T,
    pub num_crossover_points: usize,
    pub num_mutation_points: usize,
}

impl<'a, T: Tsp> Spec<'a, T> {
    /// The distance model is well formed, has at least two cities and a city count below
    /// the largest index; crossover draws at least one point and fewer than the cities;
    /// mutation touches at least one and at most `dim - 1` interior positions.
    pub open spec fn wf(&self) -> bool {
        &&& self.tsp.wf()
        &&& 2 <= self.tsp.dim_spec() < usize::MAX
        &&& 1 <= self.num_crossover_points < self.tsp.dim_spec()
        &&& 1 <= self.num_mutation_points <= self.tsp.dim_spec() - 1
    }

    /// Checks the operator parameters against the distance model: at least one crossover
    /// point and fewer than the cities; at least one mutation point and fewer than
    /// `dim - 2`.
    pub fn new(tsp: &'a T, num_crossover_points: usize, num_mutation_points: usize) -> (r: Result<Self, ConfigError>)
        requires
            tsp.wf(),
        ensures
            r matches Ok(s) ==> s.wf() && s.tsp == tsp && s.num_crossover_points == num_crossover_points
                && s.num_mutation_points == num_mutation_points,
            r is Ok <==> (2 <= tsp.dim_spec() < usize::MAX && 1 <= num_crossover_points < tsp.dim_spec()
                && 1 <= num_mutation_points < tsp.dim_spec() - 2),
            r == Err::<Self, ConfigError>(ConfigError::Cities) <==> !(2 <= tsp.dim_spec() < usize::MAX),
            r == Err::<Self, ConfigError>(ConfigError::CrossoverPoints) <==> (2 <= tsp.dim_spec() < usize::MAX
                && !(1 <= num_crossover_points < tsp.dim_spec())),
            r == Err::<Self, ConfigError>(ConfigError::MutationPoints) <==> (2 <= tsp.dim_spec() < usize::MAX
                && 1 <= num_crossover_points < tsp.dim_spec() && !(1 <= num_mutation_points
                < tsp.dim_spec() - 2)),
    {
        let dim = tsp.dim();
        if dim < 2 || dim == usize::MAX {
            return Err(ConfigError::Cities);
        }
        if num_crossover_points < 1 || num_crossover_points >= dim {
            return Err(ConfigError::CrossoverPoints);
        }
        if num_mutation_points < 1 || num_mutation_points >= dim - 2 {
            return Err(ConfigError::MutationPoints);
        }
        Ok(Spec { tsp, num_crossover_points, num_mutation_points })
    }
}

/// The length of the first `k` edges of `r`.
pub open spec fn path_length<T: Tsp>(tsp: &T, r: Seq<usize>, k: int) -> nat
    decreases k,
{
    if k <= 0 {
        0
    } else {
        path_length(tsp, r, k - 1) + tsp.weight_spec(r[k - 1] as int, r[k] as int)
    }
}

/// The length of the closed tour `r`: the sum of the weights of its `r.len() - 1` edges,
/// zero when it has no edge.
pub open spec fn tour_length<T: Tsp>(tsp: &T, r: Seq<usize>) -> nat {
    path_length(tsp, r, r.len() - 1)
}

/// `r` walked backwards.
pub open spec fn reversed(r: Seq<usize>) -> Seq<usize> {
    Seq::new(r.len(), |i: int| r[r.len() - 1 - i])
}

proof fn lemma_reversed_prefix<T: Tsp>(tsp: &T, r: Seq<usize>, k: int)
    requires
        tsp.wf(),
        r.len() >= 1,
        forall|i: int| 0 <= i < r.len() ==> #[trigger] r[i] < tsp.dim_spec(),
        0 <= k <= r.len() - 1,
    ensures
        path_length(tsp, reversed(r), k) + path_length(tsp, r, r.len() - 1 - k) == path_length(tsp, r, r.len() - 1),
    decreases k,
{
    if k > 0 {
        lemma_reversed_prefix(tsp, r, k - 1);
        let m = r.len() - 1;
        let j = m - k;
        assert(reversed(r)[k - 1] == r[j + 1]);
        assert(reversed(r)[k] == r[j]);
        tsp.lemma_weight_laws(r[j] as int, r[j + 1] as int);
    }
}

/// A tour walked backwards has the same length: every cost is symmetric.
pub proof fn lemma_reversed_tour_length<T: Tsp>(tsp: &T, r: Seq<usize>)
    requires
        tsp.wf(),
        forall|i: int| 0 <= i < r.len() ==> #[trigger] r[i] < tsp.dim_spec(),
    ensures
        tour_length(tsp, reversed(r)) == tour_length(tsp, r),
{
    if r.len() >= 1 {
        lemma_reversed_prefix(tsp, r, r.len() - 1);
    }
}

/// Sums the weights of the edges between consecutive positions of `route`.
pub fn total_weight<T: Tsp>(route: &Vec<usize>, tsp: &T) -> (r: u128)
    requires
        tsp.wf(),
        forall|i: int| 0 <= i < route@.len() ==> #[trigger] route@[i] < tsp.dim_spec(),
    ensures
        r == tour_length(tsp, route@),
{
    let mut sum: u128 = 0;
    if route.len() == 0 {
        return 0;
    }
    let mut i: usize = 0;
    let last = route.len() - 1;
    while i < last
        invariant
            tsp.wf(),
            last == route@.len() - 1,
            i <= last,
            forall|k: int| 0 <= k < route@.len() ==> #[trigger] route@[k] < tsp.dim_spec(),
            sum == path_length(tsp, route@, i as int),
            sum <= i * (u64::MAX as int),
        decreases last - i,
    {
        let w = tsp.weight(route[i], route[i + 1]);
        proof {
            assert((i + 1) * (u64::MAX as int) == i * (u64::MAX as int) + u64::MAX) by (nonlinear_arith);
            assert(i * (u64::MAX as int) <= usize::MAX * (u64::MAX as int)) by (nonlinear_arith)
                requires
                    i <= usize::MAX,
            ;
        }
        sum = sum + w as u128;
        i += 1;
    }
    sum
}

/// Which window each position between the depots lies in, for crossover points `points`.
pub open spec fn window_of(points: Seq<usize>, i: int) -> int {
    choose|j: int| 0 <= j < points.len() - 1 && #[trigger] points[j] <= i < points[j + 1]
}

/// The positions that a child keeps from its first parent: those in windows of the given
/// parity, and the two depot positions.
pub open spec fn keep_mask(points: Seq<usize>, parity: int, n: nat) -> Seq<bool> {
    Seq::new(
        n + 1,
        |i: int|
            if i <= 0 || i >= n {
                true
            } else {
                window_of(points, i) % 2 == parity
            },
    )
}

proof fn lemma_window_exists(points: Seq<usize>, i: int)
    requires
        points.len() >= 2,
        forall|a: int, b: int| 0 <= a <= b < points.len() ==> #[trigger] points[a] <= #[trigger] points[b],
        points[0] <= i < points.last(),
    ensures
        exists|j: int| 0 <= j < points.len() - 1 && #[trigger] points[j] <= i < points[j + 1],
    decreases points.len(),
{
    let m = points.len() - 2;
    if points[m] <= i {
        assert(points[m] <= i < points[m + 1]);
    } else {
        let q = points.drop_last();
        assert(q.last() == points[m]);
        assert forall|a: int, b: int| 0 <= a <= b < q.len() implies #[trigger] q[a] <= #[trigger] q[b] by {
            assert(points[a] <= points[b]);
        }
        assert(points[0] <= points[m]);
        lemma_window_exists(q, i);
        let j = choose|j: int| 0 <= j < q.len() - 1 && #[trigger] q[j] <= i < q[j + 1];
        assert(points[j] <= i < points[j + 1]);
    }
}

proof fn lemma_mask_is_keep_mask(points: Seq<usize>, parity: int, n: nat, mask: Seq<bool>)
    requires
        valid_points(points, n),
        mask.len() == n + 1,
        mask[0],
        mask[n as int],
        forall|j: int, i: int|
            #![trigger mask[i], points[j]]
            0 <= j < points.len() - 1 && points[j] <= i < points[j + 1] ==> mask[i] == (j % 2 == parity),
    ensures
        mask == keep_mask(points, parity, n),
{
    let km = keep_mask(points, parity, n);
    assert forall|i: int| 0 <= i < mask.len() implies #[trigger] mask[i] == km[i] by {
        if 1 <= i < n {
            lemma_window_exists(points, i);
            let j = window_of(points, i);
            assert(0 <= j < points.len() - 1 && points[j] <= i < points[j + 1]);
            assert(mask[i] == (j % 2 == parity));
        }
    }
    assert(mask =~= km);
}

fn keep_mask_of(points: &Vec<usize>, parity: usize, n: usize) -> (mask: Vec<bool>)
    requires
        valid_points(points@, n as nat),
        parity < 2,
        n < usize::MAX,
    ensures
        mask@ == keep_mask(points@, parity as int, n as nat),
{
    let mask = window_mask(points, parity, n);
    proof {
        lemma_mask_is_keep_mask(points@, parity as int, n as nat, mask@);
    }
    mask
}

/// Refreshing a route's length twice in a row gives the same value both times: the
/// refreshed length depends on the route and the distance model alone.
pub proof fn lemma_refresh_idempotent<'a, T: Tsp>(first: Route<'a, T>, second: Route<'a, T>)
    requires
        first.is_fresh(),
        second.is_fresh(),
        second.view_route() == first.view_route(),
        second.config() == first.config(),
    ensures
        second.cached_length() == first.cached_length(),
{
}

/// `points` are the `k` distinct cut positions `cut`, all in `1..n`, together with `1`
/// and `n`, in ascending order.
pub open spec fn cut_points(cut: Seq<usize>, points: Seq<usize>, k: nat, n: nat) -> bool {
    &&& cut.len() == k
    &&& cut.no_duplicates()
    &&& forall|a: int| 0 <= a < cut.len() ==> 1 <= #[trigger] cut[a] < n
    &&& valid_points(points, n)
    &&& points.to_multiset() == cut.push(1usize).push(n as usize).to_multiset()
}

/// `c1` and `c2` are the two order-crossover children of `p1` and `p2` for some `k`
/// distinct cut positions in `1..n`.
pub open spec fn crossed_over(p1: Seq<usize>, p2: Seq<usize>, c1: Seq<usize>, c2: Seq<usize>, k: nat, n: nat) -> bool {
    exists|cut: Seq<usize>, points: Seq<usize>|
        {
            &&& #[trigger] cut_points(cut, points, k, n)
            &&& c1 == order_child(p1, p2, keep_mask(points, 0, n), n)
            &&& c2 == order_child(p2, p1, keep_mask(points, 1, n), n)
        }
}

/// `after` is `before` with the cities at `k` distinct interior `positions` rearranged
/// among themselves into `values`.
pub open spec fn rearranged(before: Seq<usize>, after: Seq<usize>, positions: Seq<usize>, values: Seq<usize>, k: nat, n: nat) -> bool {
    &&& interior_positions(positions, n)
    &&& positions.len() == k
    &&& values.to_multiset() == gathered(before, positions).to_multiset()
    &&& written_at(before, after, positions, values)
}

/// `after` is `before` with the cities at some `k` distinct interior positions rearranged
/// among themselves.
pub open spec fn mutated(before: Seq<usize>, after: Seq<usize>, k: nat, n: nat) -> bool {
    exists|positions: Seq<usize>, values: Seq<usize>| #[trigger] rearranged(before, after, positions, values, k, n)
}

/// A candidate solution: a closed tour, its cached length, and the shared configuration.
pub struct Route<'a, T: Tsp> {
    route: Vec<usize>,
    length: u128,
    spec: &'a Spec<'a, T>,
}

impl<'a, T: Tsp> Route<'a, T> {
    /// The cities in visiting order, from the depot back to it.
    pub closed spec fn view_route(&self) -> Seq<usize> {
        self.route@
    }

    /// The cached tour length.
    pub closed spec fn cached_length(&self) -> nat {
        self.length as nat
    }

    /// The shared configuration.
    pub closed spec fn config(&self) -> &'a Spec<'a, T> {
        self.spec
    }

    /// The number of cities of the configuration's distance model.
    pub open spec fn dim_spec(&self) -> nat {
        self.config().tsp.dim_spec()
    }

    /// A tour over the model's cities under a well-formed configuration.
    pub open spec fn wf(&self) -> bool {
        &&& self.config().wf()
        &&& is_tour(self.view_route(), self.dim_spec())
    }

    /// The cached length agrees with the route.
    pub open spec fn is_fresh(&self) -> bool {
        self.cached_length() == tour_length(self.config().tsp, self.view_route())
    }

    proof fn lemma_cities_in_model(&self)
        requires
            self.wf(),
        ensures
            forall|i: int| 0 <= i < self.view_route().len() ==> #[trigger] self.view_route()[i] < self.dim_spec(),
    {
        assert forall|i: int| 0 <= i < self.view_route().len() implies #[trigger] self.view_route()[i] < self.dim_spec() by {
            if 1 <= i < self.dim_spec() {
            }
        }
    }

    /// Wraps a tour, computing its length.
    pub fn new(spec: &'a Spec<'a, T>, route: Vec<usize>) -> (r: Self)
        requires
            spec.wf(),
            is_tour(route@, spec.tsp.dim_spec()),
        ensures
            r.wf(),
            r.is_fresh(),
            r.config() == spec,
            r.view_route() == route@,
    {
        let mut r = Route { route, length: 0, spec };
        r.update_fitness();
        r
    }

    /// Draws a tour that visits the cities `1..dim` in a random order.
    pub fn random(spec: &'a Spec<'a, T>, rng: &mut rand::rngs::StdRng) -> (r: Self)
        requires
            spec.wf(),
        ensures
            r.wf(),
            r.is_fresh(),
            r.config() == spec,
    {
        let n = spec.tsp.dim();
        let mut inner: Vec<usize> = Vec::with_capacity(n);
        let mut c: usize = 1;
        while c < n
            invariant
                1 <= c <= n,
                inner@.len() == c - 1,
                forall|k: int| 0 <= k < inner@.len() ==> #[trigger] inner@[k] == k + 1,
            decreases n - c,
        {
            inner.push(c);
            c += 1;
        }
        let ghost ordered = inner@;
        shuffle(rng, &mut inner);
        let mut route: Vec<usize> = Vec::with_capacity(n + 1);
        route.push(0);
        let mut k: usize = 0;
        while k < inner.len()
            invariant
                k <= inner@.len(),
                route@.len() == k + 1,
                route@[0] == 0,
                forall|a: int| 0 <= a < k ==> #[trigger] route@[a + 1] == inner@[a],
            decreases inner@.len() - k,
        {
            route.push(inner[k]);
            k += 1;
        }
        route.push(0);
        proof {
            broadcast use vstd::seq_lib::to_multiset_contains;
            let s = inner@;
            assert(s.len() == n - 1) by {
                vstd::seq_lib::to_multiset_len(s);
                vstd::seq_lib::to_multiset_len(ordered);
            }
            assert(ordered.no_duplicates());
            ordered.lemma_multiset_has_no_duplicates();
            s.lemma_multiset_has_no_duplicates_conv();
            assert forall|a: int| 0 <= a < s.len() implies 1 <= #[trigger] s[a] < n by {
                assert(s.contains(s[a]));
                assert(s.to_multiset().count(s[a]) > 0);
                assert(ordered.contains(s[a]));
            }
            assert forall|i: int| 1 <= i < n implies 1 <= #[trigger] route@[i] < n by {
                assert(route@[(i - 1) + 1] == s[i - 1]);
            }
            assert forall|i: int, j: int| 1 <= i < n && 1 <= j < n && i != j implies #[trigger] route@[i] != #[trigger] route@[j] by {
                assert(route@[(i - 1) + 1] == s[i - 1]);
                assert(route@[(j - 1) + 1] == s[j - 1]);
            }
        }
        Route::new(spec, route)
    }

    /// The cached tour length; its reciprocal is the route's fitness.
    pub fn length(&self) -> (r: u128)
        ensures
            r == self.cached_length(),
    {
        self.length
    }

    /// The cities in visiting order.
    pub fn route(&self) -> (r: &Vec<usize>)
        ensures
            r@ == self.view_route(),
    {
        &self.route
    }

    /// Recomputes the cached length from the route.
    pub fn update_fitness(&mut self)
        requires
            old(self).wf(),
        ensures
            final(self).view_route() == old(self).view_route(),
            final(self).config() == old(self).config(),
            final(self).cached_length() == tour_length(old(self).config().tsp, old(self).view_route()),
            final(self).wf(),
            final(self).is_fresh(),
    {
        proof {
            self.lemma_cities_in_model();
        }
        self.length = total_weight(&self.route, self.spec.tsp);
    }

    /// A copy with its own route vector and the same shared configuration.
    pub fn clone(&self) -> (r: Self)
        ensures
            r.view_route() == self.view_route(),
            r.cached_length() == self.cached_length(),
            r.config() == self.config(),
    {
        let mut route: Vec<usize> = Vec::with_capacity(self.route.len());
        let mut k: usize = 0;
        while k < self.route.len()
            invariant
                k <= self.route@.len(),
                route@ == self.route@.subrange(0, k as int),
            decreases self.route@.len() - k,
        {
            route.push(self.route[k]);
            k += 1;
        }
        assert(route@ =~= self.route@);
        Route { route, length: self.length, spec: self.spec }
    }

    /// Order crossover at the given points: the first child keeps `p1`'s cities in the
    /// even windows and fills the rest in `p2`'s order; the second keeps `p2`'s cities in
    /// the odd windows and fills the rest in `p1`'s order. Both lengths are refreshed.
    pub fn crossover_at(p1: &Self, p2: &Self, points: &Vec<usize>) -> (r: (Self, Self))
        requires
            p1.wf(),
            p2.wf(),
            p1.config() == p2.config(),
            valid_points(points@, p1.dim_spec()),
        ensures
            r.0.view_route() == order_child(p1.view_route(), p2.view_route(), keep_mask(points@, 0, p1.dim_spec()), p1.dim_spec()),
            r.1.view_route() == order_child(p2.view_route(), p1.view_route(), keep_mask(points@, 1, p1.dim_spec()), p1.dim_spec()),
            r.0.wf(),
            r.1.wf(),
            r.0.is_fresh(),
            r.1.is_fresh(),
            r.0.config() == p1.config(),
            r.1.config() == p1.config(),
    {
        let n = p1.spec.tsp.dim();
        let keep_first = keep_mask_of(points, 0, n);
        let keep_second = keep_mask_of(points, 1, n);
        let c1 = order_crossover_child(&p1.route, &p2.route, &keep_first, n);
        let c2 = order_crossover_child(&p2.route, &p1.route, &keep_second, n);
        (Route::new(p1.spec, c1), Route::new(p1.spec, c2))
    }

    /// Draws `num_crossover_points` distinct positions in `1..dim`, adds `1` and `dim`,
    /// sorts them, and crosses over at those points.
    pub fn crossover(p1: &Self, p2: &Self, rng: &mut rand::rngs::StdRng) -> (r: (Self, Self))
        requires
            p1.wf(),
            p2.wf(),
            p1.config() == p2.config(),
        ensures
            r.0.wf(),
            r.1.wf(),
            r.0.is_fresh(),
            r.1.is_fresh(),
            r.0.config() == p1.config(),
            r.1.config() == p1.config(),
            crossed_over(p1.view_route(), p2.view_route(), r.0.view_route(), r.1.view_route(), p1.config().num_crossover_points as nat, p1.dim_spec()),
    {
        let n = p1.spec.tsp.dim();
        let drawn = sample_indices(rng, n - 1, p1.spec.num_crossover_points);
        let mut points: Vec<usize> = Vec::with_capacity(drawn.len() + 2);
        let mut k: usize = 0;
        while k < drawn.len()
            invariant
                k <= drawn@.len(),
                points@.len() == k,
                2 <= n < usize::MAX,
                forall|a: int| 0 <= a < drawn@.len() ==> #[trigger] drawn@[a] < n - 1,
                forall|a: int| 0 <= a < k ==> #[trigger] points@[a] == drawn@[a] + 1,
            decreases drawn@.len() - k,
        {
            points.push(drawn[k] + 1);
            k += 1;
        }
        let ghost cut = points@;
        points.push(1);
        points.push(n);
        let ghost unsorted = points@;
        sort_ascending(&mut points);
        proof {
            broadcast use vstd::seq_lib::to_multiset_contains;
            let s = points@;
            vstd::seq_lib::to_multiset_len(s);
            vstd::seq_lib::to_multiset_len(unsorted);
            assert forall|a: int| 0 <= a < s.len() implies 1 <= #[trigger] s[a] <= n by {
                assert(s.contains(s[a]));
                assert(s.to_multiset().count(s[a]) > 0);
                assert(unsorted.contains(s[a]));
            }
            assert(unsorted.contains(1usize)) by {
                assert(unsorted[unsorted.len() - 2] == 1);
            }
            assert(unsorted.contains(n)) by {
                assert(unsorted[unsorted.len() - 1] == n);
            }
            assert(unsorted.to_multiset().count(1usize) > 0);
            assert(unsorted.to_multiset().count(n) > 0);
            assert(s.contains(1usize));
            assert(s.contains(n));
            let a1 = choose|a: int| 0 <= a < s.len() && s[a] == 1usize;
            let an = choose|a: int| 0 <= a < s.len() && s[a] == n;
            assert(s[0] <= s[a1]);
            assert(s[an] <= s[s.len() - 1]);
        }
        let r = Route::crossover_at(p1, p2, &points);
        proof {
            assert(cut.no_duplicates()) by {
                assert forall|a: int, b: int| 0 <= a < cut.len() && 0 <= b < cut.len() && a != b implies cut[a] != cut[b] by {
                    assert(drawn@[a] != drawn@[b]);
                }
            }
            assert(unsorted =~= cut.push(1usize).push(n));
            assert(cut_points(cut, points@, p1.config().num_crossover_points as nat, n as nat));
        }
        r
    }

    /// Writes the cities `values` at the interior `positions`; the cached length is left
    /// as it was.
    pub fn mutate_at(&mut self, positions: &Vec<usize>, values: &Vec<usize>)
        requires
            old(self).wf(),
            interior_positions(positions@, old(self).dim_spec()),
            values@.len() == positions@.len(),
            values@.to_multiset() == gathered(old(self).view_route(), positions@).to_multiset(),
        ensures
            written_at(old(self).view_route(), final(self).view_route(), positions@, values@),
            final(self).cached_length() == old(self).cached_length(),
            final(self).config() == old(self).config(),
            final(self).wf(),
    {
        let ghost before = self.route@;
        write_at(&mut self.route, positions, values);
        proof {
            lemma_rearrangement_keeps_tour(before, self.route@, positions@, values@, self.dim_spec());
        }
    }

    /// Picks `num_mutation_points` distinct interior positions and rearranges their cities
    /// at random. The depot stays in place and the cached length is left as it was.
    pub fn mutate(&mut self, rng: &mut rand::rngs::StdRng)
        requires
            old(self).wf(),
        ensures
            final(self).wf(),
            final(self).config() == old(self).config(),
            final(self).cached_length() == old(self).cached_length(),
            final(self).view_route()[0] == old(self).view_route()[0],
            final(self).view_route().last() == old(self).view_route().last(),
            mutated(old(self).view_route(), final(self).view_route(), old(self).config().num_mutation_points as nat, old(self).dim_spec()),
    {
        let n = self.spec.tsp.dim();
        let drawn = sample_indices(rng, n - 1, self.spec.num_mutation_points);
        let mut positions: Vec<usize> = Vec::with_capacity(drawn.len());
        let mut values: Vec<usize> = Vec::with_capacity(drawn.len());
        let mut k: usize = 0;
        while k < drawn.len()
            invariant
                self.wf(),
                n == self.dim_spec(),
                k <= drawn@.len(),
                drawn@.no_duplicates(),
                forall|a: int| 0 <= a < drawn@.len() ==> #[trigger] drawn@[a] < n - 1,
                positions@.len() == k,
                values@.len() == k,
                forall|a: int| 0 <= a < k ==> #[trigger] positions@[a] == drawn@[a] + 1,
                values@ == gathered(self.view_route(), positions@),
            decreases drawn@.len() - k,
        {
            let p = drawn[k] + 1;
            positions.push(p);
            values.push(self.route[p]);
            assert(values@ =~= gathered(self.view_route(), positions@));
            k += 1;
        }
        proof {
            assert forall|a: int, b: int| 0 <= a < positions@.len() && 0 <= b < positions@.len() && a != b implies positions@[a] != positions@[b] by {
                assert(drawn@[a] != drawn@[b]);
            }
        }
        shuffle(rng, &mut values);
        proof {
            vstd::seq_lib::to_multiset_len(values@);
            vstd::seq_lib::to_multiset_len(gathered(self.view_route(), positions@));
        }
        let ghost before = self.view_route();
        self.mutate_at(&positions, &values);
        assert(rearranged(before, self.view_route(), positions@, values@, self.config().num_mutation_points as nat, self.dim_spec()));
    }
}

impl<'a, T: Tsp> Individual for Route<'a, T> {
    type Config = &'a Spec<'a, T>;

    open spec fn shared(&self) -> &'a Spec<'a, T> {
        self.config()
    }

    open spec fn valid(&self) -> bool {
        self.wf()
    }

    open spec fn refreshed(&self) -> bool {
        self.is_fresh()
    }

    open spec fn cost(&self) -> nat {
        self.cached_length()
    }

    open spec fn offspring(p1: Self, p2: Self, c1: Self, c2: Self) -> bool {
        &&& c1.config() == p1.config()
        &&& c2.config() == p1.config()
        &&& crossed_over(p1.view_route(), p2.view_route(), c1.view_route(), c2.view_route(), p1.config().num_crossover_points as nat, p1.dim_spec())
    }

    open spec fn mutant_of(before: Self, after: Self) -> bool {
        &&& after.config() == before.config()
        &&& mutated(before.view_route(), after.view_route(), before.config().num_mutation_points as nat, before.dim_spec())
    }

    open spec fn same_genome(a: Self, b: Self) -> bool {
        &&& b.view_route() == a.view_route()
        &&& b.config() == a.config()
    }

    open spec fn copy_of(a: Self, b: Self) -> bool {
        &&& b.view_route() == a.view_route()
        &&& b.config() == a.config()
        &&& b.cached_length() == a.cached_length()
    }

    fn cached_cost(&self) -> (r: u128) {
        self.length()
    }

    fn update_fitness(&mut self) {
        Route::update_fitness(self);
    }

    fn mutate(&mut self, rng: &mut rand::rngs::StdRng) {
        Route::mutate(self, rng);
    }

    fn crossover(p1: &Self, p2: &Self, rng: &mut rand::rngs::StdRng) -> (r: (Self, Self)) {
        Route::crossover(p1, p2, rng)
    }

    fn duplicate(&self) -> (r: Self) {
        self.clone()
    }
}

} // verus!
