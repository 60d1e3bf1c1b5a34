use vstd::prelude::*;

verus! {

/// The cities other than the depot: `1, 2, ..., n - 1`.
pub open spec fn cities(n: nat) -> Set<usize> {
    Set::new(|c: usize| 1 <= c < n)
}

/// A closed tour over `n` cities: `n + 1` positions that start and end at the depot `0`,
/// the positions in between holding distinct cities of `1..n`.
pub open spec fn is_tour(r: Seq<usize>, n: nat) -> bool {
    &&& 1 <= n <= usize::MAX
    &&& r.len() == n + 1
    &&& r[0] == 0
    &&& r[n as int] == 0
    &&& forall|i: int| 1 <= i < n ==> 1 <= #[trigger] r[i] < n
    &&& forall|i: int, j: int| 1 <= i < n && 1 <= j < n && i != j ==> #[trigger] r[i] != #[trigger] r[j]
}

/// The cities between the two depot positions.
pub open spec fn interior(r: Seq<usize>, n: nat) -> Seq<usize> {
    r.subrange(1, n as int)
}

proof fn lemma_cities_len(n: nat)
    requires
        1 <= n <= usize::MAX,
    ensures
        cities(n).finite(),
        cities(n).len() == n - 1,
{
    let s = Seq::new((n - 1) as nat, |i: int| (i + 1) as usize);
    assert(s.no_duplicates()) by {
        assert forall|i: int, j: int| 0 <= i < s.len() && 0 <= j < s.len() && i != j implies s[i]
            != s[j] by {
            assert(s[i] == i + 1);
            assert(s[j] == j + 1);
        }
    }
    assert forall|c: usize| #[trigger] cities(n).contains(c) <==> s.to_set().contains(c) by {
        if cities(n).contains(c) {
            assert(s[c - 1] == c);
        }
        if s.to_set().contains(c) {
            let k = choose|k: int| 0 <= k < s.len() && s[k] == c;
            assert(s[k] == k + 1);
        }
    }
    assert(s.to_set() =~= cities(n));
    s.unique_seq_to_set();
}

/// A tour visits every city: the cities between the depot positions are exactly `1..n`,
/// each once.
pub proof fn lemma_tour_visits_every_city(r: Seq<usize>, n: nat)
    requires
        is_tour(r, n),
    ensures
        interior(r, n).no_duplicates(),
        interior(r, n).to_set() == cities(n),
        forall|c: usize| #[trigger] cities(n).contains(c) ==> exists|i: int| 1 <= i < n && #[trigger] r[i] == c,
{
    let s = interior(r, n);
    assert(s.no_duplicates()) by {
        assert forall|i: int, j: int| 0 <= i < s.len() && 0 <= j < s.len() && i != j implies s[i]
            != s[j] by {
            assert(r[i + 1] != r[j + 1]);
        }
    }
    assert(s.to_set().subset_of(cities(n))) by {
        assert forall|c: usize| s.to_set().contains(c) implies cities(n).contains(c) by {
            let k = choose|k: int| 0 <= k < s.len() && s[k] == c;
            assert(r[k + 1] == c);
        }
    }
    lemma_cities_len(n);
    s.unique_seq_to_set();
    vstd::set_lib::lemma_subset_equality(s.to_set(), cities(n));
    assert forall|c: usize| #[trigger] cities(n).contains(c) implies exists|i: int| 1 <= i < n && #[trigger] r[i] == c by {
        assert(s.to_set().contains(c));
        let k = choose|k: int| 0 <= k < s.len() && s[k] == c;
        assert(r[k + 1] == c);
    }
}


/// The number of positions in `i..n` that a child fills from the second parent.
pub open spec fn free_slots(keep: Seq<bool>, i: int, n: int) -> nat
    decreases n - i,
{
    if i >= n {
        0
    } else {
        (if keep[i] {
            0nat
        } else {
            1nat
        }) + free_slots(keep, i + 1, n)
    }
}

/// The cities that the first parent holds at the kept positions of `1..i`.
pub open spec fn kept_before(p1: Seq<usize>, keep: Seq<bool>, i: int) -> Set<usize> {
    Set::new(|c: usize| exists|k: int| 1 <= k < i && #[trigger] keep[k] && p1[k] == c)
}

/// The cities of the second parent at positions `1..t`, in that order, without those in
/// `kept`.
pub open spec fn fill_upto(p2: Seq<usize>, kept: Set<usize>, t: int) -> Seq<usize>
    decreases t,
{
    if t <= 1 {
        Seq::empty()
    } else {
        let f = fill_upto(p2, kept, t - 1);
        if kept.contains(p2[t - 1]) {
            f
        } else {
            f.push(p2[t - 1])
        }
    }
}

/// The second parent's cities that the kept positions leave out, in the second parent's
/// order.
pub open spec fn fill_order(p1: Seq<usize>, p2: Seq<usize>, keep: Seq<bool>, n: nat) -> Seq<usize> {
    fill_upto(p2, kept_before(p1, keep, n as int), n as int)
}

/// Order crossover: the child keeps the first parent's city at each kept position, and
/// takes the cities that are then missing, in the second parent's order, for the other
/// positions from left to right.
pub open spec fn order_child(p1: Seq<usize>, p2: Seq<usize>, keep: Seq<bool>, n: nat) -> Seq<usize> {
    Seq::new(
        n + 1,
        |i: int|
            if i == 0 || i == n {
                0usize
            } else if keep[i] {
                p1[i]
            } else {
                let f = fill_order(p1, p2, keep, n);
                f[f.len() - free_slots(keep, i, n as int)]
            },
    )
}

proof fn lemma_free_slots_mono(keep: Seq<bool>, x: int, y: int, n: int)
    requires
        x <= y,
    ensures
        free_slots(keep, x, n) >= free_slots(keep, y, n),
        x < y && x < n && !keep[x] ==> free_slots(keep, x, n) >= 1 + free_slots(keep, y, n),
    decreases y - x,
{
    if x < y {
        lemma_free_slots_mono(keep, x + 1, y, n);
    }
}

proof fn lemma_fill_upto(p2: Seq<usize>, kept: Set<usize>, t: int, n: nat)
    requires
        is_tour(p2, n),
        1 <= t <= n,
    ensures
        fill_upto(p2, kept, t).no_duplicates(),
        forall|x: usize|
            #[trigger] fill_upto(p2, kept, t).contains(x) <==> (!kept.contains(x) && exists|s: int|
                1 <= s < t && p2[s] == x),
    decreases t,
{
    if t > 1 {
        lemma_fill_upto(p2, kept, t - 1, n);
        let f = fill_upto(p2, kept, t - 1);
        let g = fill_upto(p2, kept, t);
        assert forall|x: usize|
            #[trigger] g.contains(x) <==> (!kept.contains(x) && exists|s: int|
                1 <= s < t && p2[s] == x) by {
            if g.contains(x) && !f.contains(x) {
                assert(x == p2[t - 1]);
            }
            if !kept.contains(x) && exists|s: int| 1 <= s < t && p2[s] == x {
                let s = choose|s: int| 1 <= s < t && p2[s] == x;
                if s == t - 1 {
                    assert(g.last() == x);
                } else {
                    assert(f.contains(x));
                    let k = choose|k: int| 0 <= k < f.len() && f[k] == x;
                    assert(g[k] == x);
                }
            }
        }
        if !kept.contains(p2[t - 1]) {
            assert forall|s: int| 1 <= s < t - 1 implies #[trigger] p2[s] != p2[t - 1] by {}
            assert(!f.contains(p2[t - 1]));
        }
    } else {
        assert(fill_upto(p2, kept, t) =~= Seq::empty());
    }
}

proof fn lemma_kept_count(p1: Seq<usize>, keep: Seq<bool>, i: int, n: nat)
    requires
        is_tour(p1, n),
        keep.len() == n + 1,
        1 <= i <= n,
    ensures
        kept_before(p1, keep, i).finite(),
        kept_before(p1, keep, i).len() + free_slots(keep, 1, n as int) - free_slots(keep, i, n as int)
            == i - 1,
        free_slots(keep, 1, n as int) >= free_slots(keep, i, n as int),
    decreases i,
{
    lemma_free_slots_mono(keep, 1, i, n as int);
    if i == 1 {
        assert(kept_before(p1, keep, i) =~= Set::empty());
    } else {
        lemma_kept_count(p1, keep, i - 1, n);
        let a = kept_before(p1, keep, i - 1);
        let b = kept_before(p1, keep, i);
        if keep[i - 1] {
            assert(b =~= a.insert(p1[i - 1]));
            assert(!a.contains(p1[i - 1]));
        } else {
            assert(b =~= a);
        }
    }
}

/// Order crossover of two tours is a tour, and the second parent supplies exactly as many
/// cities as there are positions to fill.
pub proof fn lemma_order_child_is_tour(p1: Seq<usize>, p2: Seq<usize>, keep: Seq<bool>, n: nat)
    requires
        is_tour(p1, n),
        is_tour(p2, n),
        keep.len() == n + 1,
    ensures
        fill_order(p1, p2, keep, n).len() == free_slots(keep, 1, n as int),
        is_tour(order_child(p1, p2, keep, n), n),
{
    let kept = kept_before(p1, keep, n as int);
    let f = fill_order(p1, p2, keep, n);
    let c = order_child(p1, p2, keep, n);
    lemma_kept_count(p1, keep, n as int, n);
    lemma_fill_upto(p2, kept, n as int, n);
    lemma_tour_visits_every_city(p2, n);
    lemma_cities_len(n);
    assert(f.to_set() =~= cities(n).difference(kept)) by {
        assert forall|x: usize| #[trigger] f.to_set().contains(x) <==> cities(n).difference(kept).contains(x) by {
            if cities(n).difference(kept).contains(x) {
                let s = choose|s: int| 1 <= s < n && #[trigger] p2[s] == x;
                assert(f.contains(x));
            }
        }
    }
    assert(kept.subset_of(cities(n)));
    assert(cities(n).intersect(kept) =~= kept);
    vstd::set_lib::lemma_set_difference_len(cities(n), kept);
    f.unique_seq_to_set();
    assert forall|i: int| 1 <= i < n && !keep[i] implies 0 <= f.len() - free_slots(keep, i, n as int) < f.len() by {
        lemma_free_slots_mono(keep, 1, i, n as int);
        lemma_free_slots_mono(keep, i, n as int, n as int);
    }
    assert forall|i: int| 1 <= i < n implies 1 <= #[trigger] c[i] < n by {
        if !keep[i] {
            let x = c[i];
            assert(f.contains(x));
        }
    }
    assert forall|i: int, j: int| 1 <= i < n && 1 <= j < n && i != j implies #[trigger] c[i] != #[trigger] c[j] by {
        if keep[i] && !keep[j] {
            assert(f.contains(c[j]));
            assert(kept.contains(c[i]));
        } else if !keep[i] && keep[j] {
            assert(f.contains(c[i]));
            assert(kept.contains(c[j]));
        } else if !keep[i] && !keep[j] {
            if i < j {
                lemma_free_slots_mono(keep, i, j, n as int);
            } else {
                lemma_free_slots_mono(keep, j, i, n as int);
            }
        }
    }
}


/// Builds the order-crossover child of `p1` and `p2` that keeps `p1`'s cities at the
/// positions `i` with `keep[i]`.
pub fn order_crossover_child(p1: &Vec<usize>, p2: &Vec<usize>, keep: &Vec<bool>, n: usize) -> (child: Vec<usize>)
    requires
        is_tour(p1@, n as nat),
        is_tour(p2@, n as nat),
        keep@.len() == n + 1,
    ensures
        child@ == order_child(p1@, p2@, keep@, n as nat),
        is_tour(child@, n as nat),
{
    let ghost kept = kept_before(p1@, keep@, n as int);
    let mut used: Vec<bool> = Vec::with_capacity(n);
    let mut c: usize = 0;
    while c < n
        invariant
            c <= n,
            used@.len() == c,
            forall|k: int| 0 <= k < c ==> !#[trigger] used@[k],
        decreases n - c,
    {
        used.push(false);
        c += 1;
    }
    let mut i: usize = 1;
    while i < n
        invariant
            1 <= i <= n,
            used@.len() == n,
            is_tour(p1@, n as nat),
            keep@.len() == n + 1,
            forall|x: usize| x < n ==> (#[trigger] used@[x as int] <==> kept_before(p1@, keep@, i as int).contains(x)),
        decreases n - i,
    {
        let ghost before = kept_before(p1@, keep@, i as int);
        if keep[i] {
            used.set(p1[i], true);
            assert(kept_before(p1@, keep@, i + 1) =~= before.insert(p1@[i as int]));
        } else {
            assert(kept_before(p1@, keep@, i + 1) =~= before);
        }
        i += 1;
    }
    let mut fill: Vec<usize> = Vec::new();
    let mut t: usize = 1;
    while t < n
        invariant
            1 <= t <= n,
            used@.len() == n,
            is_tour(p2@, n as nat),
            forall|x: usize| x < n ==> (#[trigger] used@[x as int] <==> kept.contains(x)),
            fill@ == fill_upto(p2@, kept, t as int),
        decreases n - t,
    {
        let x = p2[t];
        if !used[x] {
            fill.push(x);
        }
        t += 1;
    }
    proof {
        lemma_order_child_is_tour(p1@, p2@, keep@, n as nat);
    }
    let ghost target = order_child(p1@, p2@, keep@, n as nat);
    let fill_len = fill.len();
    let mut child: Vec<usize> = Vec::with_capacity(p1.len());
    child.push(0);
    let mut j: usize = 0;
    i = 1;
    while i < n
        invariant
            1 <= i <= n,
            keep@.len() == n + 1,
            p1@.len() == n + 1,
            child@.len() == i,
            fill@ == fill_order(p1@, p2@, keep@, n as nat),
            fill@.len() == fill_len,
            j + free_slots(keep@, i as int, n as int) == fill@.len(),
            target == order_child(p1@, p2@, keep@, n as nat),
            forall|k: int| 0 <= k < i ==> #[trigger] child@[k] == target[k],
        decreases n - i,
    {
        if keep[i] {
            child.push(p1[i]);
        } else {
            child.push(fill[j]);
            j += 1;
        }
        i += 1;
    }
    child.push(0);
    assert(child@ =~= target);
    child
}


/// Crossover points: ascending, from `1` to `n`; window `j` spans the positions
/// `points[j]..points[j + 1]`.
pub open spec fn valid_points(points: Seq<usize>, n: nat) -> bool {
    &&& points.len() >= 2
    &&& points[0] == 1
    &&& points.last() == n
    &&& forall|a: int, b: int| 0 <= a <= b < points.len() ==> #[trigger] points[a] <= #[trigger] points[b]
}

/// Marks the positions of the windows whose index has the given parity; the two depot
/// positions are marked too.
pub fn window_mask(points: &Vec<usize>, parity: usize, n: usize) -> (mask: Vec<bool>)
    requires
        valid_points(points@, n as nat),
        parity < 2,
        n < usize::MAX,
    ensures
        mask@.len() == n + 1,
        mask@[0],
        mask@[n as int],
        forall|j: int, i: int|
            #![trigger mask@[i], points@[j]]
            0 <= j < points@.len() - 1 && points@[j] <= i < points@[j + 1] ==> mask@[i] == (
            j % 2 == parity),
{
    let mut mask: Vec<bool> = Vec::with_capacity(n + 1);
    let mut c: usize = 0;
    while c <= n
        invariant
            c <= n + 1,
            n < usize::MAX,
            mask@.len() == c,
            forall|k: int| 0 <= k < c ==> #[trigger] mask@[k],
        decreases n + 1 - c,
    {
        mask.push(true);
        c += 1;
    }
    let mut w: usize = 0;
    while w < points.len() - 1
        invariant
            valid_points(points@, n as nat),
            parity < 2,
            w + 1 <= points@.len(),
            mask@.len() == n + 1,
            mask@[0],
            mask@[n as int],
            forall|j: int, i: int|
                #![trigger mask@[i], points@[j]]
                0 <= j < w && points@[j] <= i < points@[j + 1] ==> mask@[i] == (j % 2
                    == parity),
        decreases points@.len() - w,
    {
        let keep = w % 2 == parity;
        let end = points[w + 1];
        let mut i: usize = points[w];
        let ghost start = mask@;
        assert(points@[w as int] <= points@[w + 1]);
        assert(points@[0] <= points@[w as int]);
        assert(points@[w + 1] <= points@[points@.len() - 1]);
        while i < end
            invariant
                w + 1 < points@.len(),
                end == points@[w + 1],
                points@[w as int] <= i,
                1 <= i,
                end <= n,
                i <= end,
                mask@.len() == n + 1,
                forall|ii: int| 0 <= ii < points@[w as int] ==> #[trigger] mask@[ii] == start[ii],
                forall|ii: int| i <= ii <= n ==> #[trigger] mask@[ii] == start[ii],
                forall|ii: int| points@[w as int] <= ii < i ==> #[trigger] mask@[ii] == keep,
            decreases end - i,
        {
            mask.set(i, keep);
            i += 1;
        }
        proof {
            assert forall|j: int, ii: int|
                #![trigger mask@[ii], points@[j]]
                0 <= j < w + 1 && points@[j] <= ii < points@[j + 1] implies mask@[ii] == (j % 2
                    == parity) by {
                if j < w {
                    assert(points@[j + 1] <= points@[w as int]);
                    assert(mask@[ii] == start[ii]);
                }
            }
        }
        w += 1;
    }
    mask
}

/// The cities of `route` at the given positions, in the order of the positions.
pub open spec fn gathered(route: Seq<usize>, positions: Seq<usize>) -> Seq<usize> {
    Seq::new(positions.len(), |k: int| route[positions[k] as int])
}

/// Distinct positions strictly between the two depot positions.
pub open spec fn interior_positions(positions: Seq<usize>, n: nat) -> bool {
    &&& positions.no_duplicates()
    &&& forall|k: int| 0 <= k < positions.len() ==> 1 <= #[trigger] positions[k] < n
}

/// `after` is `before` with `values[k]` written at `positions[k]`, every other position
/// unchanged.
pub open spec fn written_at(before: Seq<usize>, after: Seq<usize>, positions: Seq<usize>, values: Seq<usize>) -> bool {
    &&& after.len() == before.len()
    &&& forall|k: int| 0 <= k < positions.len() ==> after[#[trigger] positions[k] as int] == values[k]
    &&& forall|i: int|
        0 <= i < before.len() && (forall|k: int| 0 <= k < positions.len() ==> positions[k] != i)
            ==> #[trigger] after[i] == before[i]
}

/// Writing back a rearrangement of the cities found at some interior positions keeps a
/// tour a tour, depot included.
pub proof fn lemma_rearrangement_keeps_tour(
    before: Seq<usize>,
    after: Seq<usize>,
    positions: Seq<usize>,
    values: Seq<usize>,
    n: nat,
)
    requires
        is_tour(before, n),
        interior_positions(positions, n),
        values.len() == positions.len(),
        values.to_multiset() == gathered(before, positions).to_multiset(),
        written_at(before, after, positions, values),
    ensures
        is_tour(after, n),
{
    let g = gathered(before, positions);
    broadcast use vstd::seq_lib::to_multiset_contains;
    assert(g.no_duplicates()) by {
        assert forall|a: int, b: int| 0 <= a < g.len() && 0 <= b < g.len() && a != b implies g[a] != g[b] by {
            assert(positions[a] != positions[b]);
        }
    }
    g.lemma_multiset_has_no_duplicates();
    values.lemma_multiset_has_no_duplicates_conv();
    assert forall|k: int| 0 <= k < values.len() implies exists|k2: int| 0 <= k2 < positions.len() && #[trigger] values[k] == before[positions[k2] as int] by {
        assert(values.contains(values[k]));
        assert(values.to_multiset().count(values[k]) > 0);
        assert(g.contains(values[k]));
        let k2 = choose|k2: int| 0 <= k2 < g.len() && g[k2] == values[k];
    }
    assert(after[0] == 0) by {
        assert forall|k: int| 0 <= k < positions.len() implies positions[k] != 0 by {
            assert(1 <= positions[k]);
        }
    }
    assert(after[n as int] == 0) by {
        assert forall|k: int| 0 <= k < positions.len() implies positions[k] != n by {
            assert(positions[k] < n);
        }
    }
    assert forall|i: int| 1 <= i < n implies 1 <= #[trigger] after[i] < n by {
        if exists|k: int| 0 <= k < positions.len() && positions[k] == i {
            let k = choose|k: int| 0 <= k < positions.len() && positions[k] == i;
            assert(after[positions[k] as int] == values[k]);
            let k2 = choose|k2: int| 0 <= k2 < positions.len() && #[trigger] values[k] == before[positions[k2] as int];
            assert(1 <= positions[k2] < n);
        }
    }
    assert forall|i: int, j: int| 1 <= i < n && 1 <= j < n && i != j implies #[trigger] after[i] != #[trigger] after[j] by {
        let ci = exists|k: int| 0 <= k < positions.len() && positions[k] == i;
        let cj = exists|k: int| 0 <= k < positions.len() && positions[k] == j;
        if ci && cj {
            let k = choose|k: int| 0 <= k < positions.len() && positions[k] == i;
            let l = choose|l: int| 0 <= l < positions.len() && positions[l] == j;
            assert(after[positions[k] as int] == values[k]);
            assert(after[positions[l] as int] == values[l]);
        } else if ci {
            let k = choose|k: int| 0 <= k < positions.len() && positions[k] == i;
            assert(after[positions[k] as int] == values[k]);
            let k2 = choose|k2: int| 0 <= k2 < positions.len() && #[trigger] values[k] == before[positions[k2] as int];
            assert(1 <= positions[k2] < n);
        } else if cj {
            let l = choose|l: int| 0 <= l < positions.len() && positions[l] == j;
            assert(after[positions[l] as int] == values[l]);
            let l2 = choose|l2: int| 0 <= l2 < positions.len() && #[trigger] values[l] == before[positions[l2] as int];
            assert(1 <= positions[l2] < n);
        }
    }
}

/// Writes `values[k]` at `positions[k]` for each `k`.
pub fn write_at(route: &mut Vec<usize>, positions: &Vec<usize>, values: &Vec<usize>)
    requires
        positions@.no_duplicates(),
        values@.len() == positions@.len(),
        forall|k: int| 0 <= k < positions@.len() ==> #[trigger] positions@[k] < old(route)@.len(),
    ensures
        written_at(old(route)@, final(route)@, positions@, values@),
{
    let mut k: usize = 0;
    while k < positions.len()
        invariant
            positions@.no_duplicates(),
            values@.len() == positions@.len(),
            k <= positions@.len(),
            forall|a: int| 0 <= a < positions@.len() ==> #[trigger] positions@[a] < old(route)@.len(),
            route@.len() == old(route)@.len(),
            forall|a: int| 0 <= a < k ==> route@[#[trigger] positions@[a] as int] == values@[a],
            forall|i: int|
                0 <= i < route@.len() && (forall|a: int| 0 <= a < k ==> positions@[a] != i)
                    ==> #[trigger] route@[i] == old(route)@[i],
        decreases positions@.len() - k,
    {
        let ghost prev = route@;
        route.set(positions[k], values[k]);
        proof {
            assert forall|a: int| 0 <= a < k implies route@[#[trigger] positions@[a] as int] == values@[a] by {
                assert(positions@[a] != positions@[k as int]);
            }
        }
        k += 1;
    }
}

} // verus!
