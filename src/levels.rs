use vstd::prelude::*;

verus! {

/// Distance between two channel values.
pub open spec fn distance(a: int, b: int) -> int {
    if a >= b {
        a - b
    } else {
        b - a
    }
}

/// The `k`-th representative value visited when buckets of width `m` are
/// scanned: bucket `k / 2` offers its upper bound first, then its lower bound.
pub open spec fn bucket_candidate(m: int, k: int) -> int {
    if k % 2 == 0 {
        (k / 2 + 1) * m
    } else {
        (k / 2) * m
    }
}

/// Distance to the candidate at index `j`, or `max` when `j` is negative
/// (no candidate chosen yet).
pub open spec fn best_distance(v: int, m: int, max: int, j: int) -> int {
    if j < 0 {
        max
    } else {
        distance(v, bucket_candidate(m, j))
    }
}

/// Index of the candidate chosen after the first `k` candidates have been
/// visited, or -1 when none was closer than `max`. A candidate replaces the
/// current choice only when it is strictly closer.
pub open spec fn scan_best(v: int, m: int, max: int, k: nat) -> int
    decreases k,
{
    if k == 0 {
        -1
    } else {
        let j = scan_best(v, m, max, (k - 1) as nat);
        if distance(v, bucket_candidate(m, k - 1)) < best_distance(v, m, max, j) {
            k - 1
        } else {
            j
        }
    }
}

/// The representative value that `v` is moved to, with `buckets` buckets
/// over `[0, max]`.
pub open spec fn posterized(v: int, buckets: int, max: int) -> int {
    let m = max / buckets;
    let j = scan_best(v, m, max, (2 * buckets) as nat);
    if j < 0 {
        0
    } else {
        bucket_candidate(m, j)
    }
}

proof fn lemma_bound_below_max(i: int, buckets: int, max: int)
    requires
        0 <= i <= buckets,
        1 <= buckets,
        0 <= max,
    ensures
        0 <= i * (max / buckets) <= max,
{
    let m = max / buckets;
    assert(0 <= m);
    assert(buckets * m <= max) by (nonlinear_arith)
        requires
            m == max / buckets,
            1 <= buckets,
            0 <= max,
    ;
    assert(0 <= i * m <= buckets * m) by (nonlinear_arith)
        requires
            0 <= i <= buckets,
            0 <= m,
    ;
}

/// `r` is the candidate that is nearest to `v` among the `2 * buckets`
/// candidates, and no candidate visited before it is as near.
pub open spec fn is_first_nearest(v: int, buckets: int, max: int, r: int) -> bool {
    let m = max / buckets;
    exists|j: int|
        0 <= j < 2 * buckets && r == bucket_candidate(m, j) && (forall|k: int|
            0 <= k < 2 * buckets ==> distance(v, r) <= distance(v, #[trigger] bucket_candidate(m, k)))
            && (forall|k: int| 0 <= k < j ==> distance(v, r) < distance(v, #[trigger] bucket_candidate(m, k)))
}

proof fn lemma_candidate_in_range(buckets: int, max: int, k: int)
    requires
        1 <= buckets,
        0 <= max,
        0 <= k < 2 * buckets,
    ensures
        0 <= bucket_candidate(max / buckets, k) <= max,
{
    if k % 2 == 0 {
        lemma_bound_below_max(k / 2 + 1, buckets, max);
    } else {
        lemma_bound_below_max(k / 2, buckets, max);
    }
}

proof fn lemma_scan_best(v: int, m: int, max: int, k: nat)
    requires
        0 <= max,
    ensures
        -1 <= scan_best(v, m, max, k) < k,
        best_distance(v, m, max, scan_best(v, m, max, k)) <= max,
        forall|i: int|
            0 <= i < k ==> best_distance(v, m, max, scan_best(v, m, max, k)) <= distance(
                v,
                #[trigger] bucket_candidate(m, i),
            ),
        scan_best(v, m, max, k) >= 0 ==> best_distance(v, m, max, scan_best(v, m, max, k)) < max,
        scan_best(v, m, max, k) >= 0 ==> forall|i: int|
            0 <= i < scan_best(v, m, max, k) ==> best_distance(v, m, max, scan_best(v, m, max, k))
                < distance(v, #[trigger] bucket_candidate(m, i)),
    decreases k,
{
    if k > 0 {
        lemma_scan_best(v, m, max, (k - 1) as nat);
    }
}

/// The value chosen for `v` in `[0, max]` is the candidate nearest to `v`;
/// among equally near candidates it is the first one visited. It lies in
/// `[0, max]`.
pub proof fn lemma_posterized_first_nearest(v: int, buckets: int, max: int)
    requires
        1 <= buckets,
        0 <= v <= max,
    ensures
        is_first_nearest(v, buckets, max, posterized(v, buckets, max)),
        0 <= posterized(v, buckets, max) <= max,
{
    let m = max / buckets;
    let n = (2 * buckets) as nat;
    let j = scan_best(v, m, max, n);
    lemma_scan_best(v, m, max, n);
    if j >= 0 {
        lemma_candidate_in_range(buckets, max, j);
        assert(is_first_nearest(v, buckets, max, posterized(v, buckets, max)));
    } else {
        lemma_candidate_in_range(buckets, max, 0);
        assert(distance(v, bucket_candidate(m, 1)) >= max);
        assert(distance(v, bucket_candidate(m, 0)) >= max);
        assert(bucket_candidate(m, 0) == 0);
        assert(forall|k: int| 0 <= k < 0 ==> distance(v, 0) < distance(v, #[trigger] bucket_candidate(m, k)));
        assert(is_first_nearest(v, buckets, max, posterized(v, buckets, max)));
    }
}

/// At most one value is the first nearest candidate: the rule leaves no
/// choice open.
pub proof fn lemma_first_nearest_unique(v: int, buckets: int, max: int, r1: int, r2: int)
    requires
        1 <= buckets,
        is_first_nearest(v, buckets, max, r1),
        is_first_nearest(v, buckets, max, r2),
    ensures
        r1 == r2,
{
    let m = max / buckets;
    let j1 = choose|j: int|
        0 <= j < 2 * buckets && r1 == bucket_candidate(m, j) && (forall|k: int|
            0 <= k < 2 * buckets ==> distance(v, r1) <= distance(v, #[trigger] bucket_candidate(m, k)))
            && (forall|k: int| 0 <= k < j ==> distance(v, r1) < distance(v, #[trigger] bucket_candidate(m, k)));
    let j2 = choose|j: int|
        0 <= j < 2 * buckets && r2 == bucket_candidate(m, j) && (forall|k: int|
            0 <= k < 2 * buckets ==> distance(v, r2) <= distance(v, #[trigger] bucket_candidate(m, k)))
            && (forall|k: int| 0 <= k < j ==> distance(v, r2) < distance(v, #[trigger] bucket_candidate(m, k)));
    assert(distance(v, r1) <= distance(v, bucket_candidate(m, j2)));
    assert(distance(v, r2) <= distance(v, bucket_candidate(m, j1)));
    if j1 < j2 {
        assert(distance(v, r2) < distance(v, bucket_candidate(m, j1)));
    } else if j2 < j1 {
        assert(distance(v, r1) < distance(v, bucket_candidate(m, j2)));
    }
}

/// With a single bucket over `[0, 255]`, values from 128 up go to 255 and
/// values below go to 0.
pub proof fn lemma_single_bucket(v: int)
    requires
        0 <= v <= 255,
    ensures
        posterized(v, 1, 255) == if v >= 128 {
            255int
        } else {
            0int
        },
{
    reveal_with_fuel(scan_best, 3);
}

/// The value 0 is always kept.
pub proof fn lemma_posterize_fixes_zero(buckets: int, max: int)
    requires
        1 <= buckets,
        0 <= max,
    ensures
        posterized(0, buckets, max) == 0,
{
    lemma_posterized_first_nearest(0, buckets, max);
    let r = posterized(0, buckets, max);
    assert(bucket_candidate(max / buckets, 1) == 0);
    assert(distance(0, r) <= distance(0, bucket_candidate(max / buckets, 1)));
}

/// The value `max` is kept when the buckets divide `[0, max]` evenly.
pub proof fn lemma_posterize_fixes_max(buckets: int, max: int)
    requires
        1 <= buckets,
        0 <= max,
        max % buckets == 0,
    ensures
        posterized(max, buckets, max) == max,
{
    lemma_posterized_first_nearest(max, buckets, max);
    let m = max / buckets;
    let r = posterized(max, buckets, max);
    assert(buckets * m == max) by (nonlinear_arith)
        requires
            m == max / buckets,
            max % buckets == 0,
            1 <= buckets,
    ;
    let k = 2 * (buckets - 1);
    assert(k % 2 == 0 && k / 2 + 1 == buckets);
    assert(bucket_candidate(m, k) == max);
    assert(distance(max, r) <= distance(max, bucket_candidate(m, k)));
}

/// A value that was already moved stays where it is: moving it again with
/// the same buckets changes nothing.
pub proof fn lemma_posterize_idempotent(v: int, buckets: int, max: int)
    requires
        1 <= buckets,
        0 <= v <= max,
    ensures
        posterized(posterized(v, buckets, max), buckets, max) == posterized(v, buckets, max),
{
    let m = max / buckets;
    let r = posterized(v, buckets, max);
    lemma_posterized_first_nearest(v, buckets, max);
    let j = choose|j: int|
        0 <= j < 2 * buckets && r == bucket_candidate(m, j) && (forall|k: int|
            0 <= k < 2 * buckets ==> distance(v, r) <= distance(v, #[trigger] bucket_candidate(m, k)))
            && (forall|k: int| 0 <= k < j ==> distance(v, r) < distance(v, #[trigger] bucket_candidate(m, k)));
    lemma_posterized_first_nearest(r, buckets, max);
    let r2 = posterized(r, buckets, max);
    assert(distance(r, r2) <= distance(r, bucket_candidate(m, j)));
}

/// Moves `n` to the nearest of the values `i * (max / level)` for `i` in
/// `0..=level`. Ties go to the value met first when buckets are visited in
/// ascending order, each bucket's upper bound before its lower bound. A
/// candidate is taken only when it is closer than `max`; when none is, the
/// result is 0 (this can happen only for `n >= max`).
pub fn posterize(n: u8, level: u8, max: u8) -> (r: u8)
    requires
        level >= 1,
    ensures
        r == posterized(n as int, level as int, max as int),
{
    let m: u8 = max / level;
    let mut minimum_delta: u8 = max;
    let mut target: u8 = 0;
    for i in 0..level
        invariant
            level >= 1,
            m == max as int / level as int,
            minimum_delta == best_distance(n as int, m as int, max as int, scan_best(n as int, m as int, max as int, (2 * i) as nat)),
            target == (if scan_best(n as int, m as int, max as int, (2 * i) as nat) < 0 {
                0
            } else {
                bucket_candidate(m as int, scan_best(n as int, m as int, max as int, (2 * i) as nat))
            }),
    {
        proof {
            lemma_bound_below_max(i + 1, level as int, max as int);
            lemma_bound_below_max(i as int, level as int, max as int);
            assert(bucket_candidate(m as int, 2 * i) == (i + 1) * m);
            assert(bucket_candidate(m as int, 2 * i + 1) == i * m);
        }
        let ceil: u8 = (i + 1) * m;
        let floor: u8 = i * m;
        let dc: u8 = if n >= ceil { n - ceil } else { ceil - n };
        let df: u8 = if n >= floor { n - floor } else { floor - n };
        let ghost vi = n as int;
        let ghost mi = m as int;
        let ghost xi = max as int;
        let ghost k: int = 2 * i;
        assert(scan_best(vi, mi, xi, (k + 1) as nat) == (if distance(vi, bucket_candidate(mi, k)) < best_distance(vi, mi, xi, scan_best(vi, mi, xi, k as nat)) {
            k
        } else {
            scan_best(vi, mi, xi, k as nat)
        }));
        if minimum_delta > dc {
            minimum_delta = dc;
            target = ceil;
        }
        assert(minimum_delta == best_distance(vi, mi, xi, scan_best(vi, mi, xi, (k + 1) as nat)));
        assert(scan_best(vi, mi, xi, (k + 2) as nat) == (if distance(vi, bucket_candidate(mi, k + 1)) < best_distance(vi, mi, xi, scan_best(vi, mi, xi, (k + 1) as nat)) {
            k + 1
        } else {
            scan_best(vi, mi, xi, (k + 1) as nat)
        }));
        if minimum_delta > df {
            minimum_delta = df;
            target = floor;
        }
        assert((k + 2) as nat == (2 * (i + 1)) as nat);
    }
    target
}

} // verus!
