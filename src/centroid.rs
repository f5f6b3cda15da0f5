use vstd::prelude::*;

verus! {

/// Sum of the latitude components of `pts`.
pub open spec fn lat_sum(pts: Seq<(i64, i64)>) -> int
    decreases pts.len(),
{
    if pts.len() == 0 {
        0
    } else {
        lat_sum(pts.drop_last()) + pts.last().0
    }
}

/// Sum of the longitude components of `pts`.
pub open spec fn lon_sum(pts: Seq<(i64, i64)>) -> int
    decreases pts.len(),
{
    if pts.len() == 0 {
        0
    } else {
        lon_sum(pts.drop_last()) + pts.last().1
    }
}

/// Where `n` values each lie in `[i64::MIN, i64::MAX]`, the floor of their
/// mean lies in that range too.
proof fn lemma_floor_mean_in_range(s: int, n: int)
    requires
        n > 0,
        n * (i64::MIN as int) <= s <= n * (i64::MAX as int),
    ensures
        i64::MIN <= s / n <= i64::MAX,
{
    let q = s / n;
    let r = s % n;
    assert(s == n * q + r && 0 <= r < n) by (nonlinear_arith)
        requires
            n > 0,
            q == s / n,
            r == s % n,
    ;
    assert(i64::MIN <= q <= i64::MAX) by (nonlinear_arith)
        requires
            n > 0,
            s == n * q + r,
            0 <= r < n,
            n * (i64::MIN as int) <= s <= n * (i64::MAX as int),
    ;
}

/// Floor of `s / n` for `n > 0`, computed on magnitudes so that only
/// non-negative operands are divided.
fn floor_div(s: i128, n: i128) -> (q: i128)
    requires
        n > 0,
        s > i128::MIN,
    ensures
        q == s as int / n as int,
{
    if s >= 0 {
        s / n
    } else {
        let m: i128 = -s;
        assert(m % n != 0 ==> m / n < m) by (nonlinear_arith)
            requires
                n > 0,
                m > 0,
        ;
        let c: i128 = if m % n == 0 {
            m / n
        } else {
            m / n + 1
        };
        assert(-c == s as int / n as int) by (nonlinear_arith)
            requires
                n > 0,
                s < 0,
                m == -s,
                c == (if m % n == 0 {
                    m / n
                } else {
                    m / n + 1
                }),
        ;
        -c
    }
}

/// Averages a list of `(latitude, longitude)` points component by component.
///
/// The mean of each component is rounded toward negative infinity. It is a
/// planar average, meaningful for points that lie close together away from
/// the poles and the antimeridian. An empty list has no centroid and yields
/// `None`.
pub fn centroid_lat_lon(points: &[(i64, i64)]) -> (r: Option<(i64, i64)>)
    ensures
        r is None <==> points@.len() == 0,
        r matches Some(c) ==> c.0 == lat_sum(points@) / (points@.len() as int) && c.1
            == lon_sum(points@) / (points@.len() as int),
{
    let n: usize = points.len();
    if n == 0 {
        return None;
    }
    let mut sum_lat: i128 = 0;
    let mut sum_lon: i128 = 0;
    let mut i: usize = 0;
    while i < n
        invariant
            n == points@.len(),
            i <= n,
            sum_lat == lat_sum(points@.take(i as int)),
            sum_lon == lon_sum(points@.take(i as int)),
            (i as int) * (i64::MIN as int) <= sum_lat <= (i as int) * (i64::MAX as int),
            (i as int) * (i64::MIN as int) <= sum_lon <= (i as int) * (i64::MAX as int),
        decreases n - i,
    {
        let (lat, lon) = points[i];
        assert(points@.take(i as int + 1).drop_last() =~= points@.take(i as int));
        assert((i as int + 1) * (i64::MIN as int) == (i as int) * (i64::MIN as int) + i64::MIN)
            by (nonlinear_arith);
        assert((i as int + 1) * (i64::MAX as int) == (i as int) * (i64::MAX as int) + i64::MAX)
            by (nonlinear_arith);
        assert((i as int) * (i64::MAX as int) + i64::MAX <= (usize::MAX as int) * (i64::MAX as int))
            by (nonlinear_arith)
            requires
                i < usize::MAX,
        ;
        assert((i as int) * (i64::MIN as int) + i64::MIN >= (usize::MAX as int) * (i64::MIN as int))
            by (nonlinear_arith)
            requires
                i < usize::MAX,
        ;
        sum_lat = sum_lat + lat as i128;
        sum_lon = sum_lon + lon as i128;
        i = i + 1;
    }
    assert(points@.take(n as int) =~= points@);
    proof {
        lemma_floor_mean_in_range(sum_lat as int, n as int);
        lemma_floor_mean_in_range(sum_lon as int, n as int);
    }
    assert((n as int) * (i64::MIN as int) > i128::MIN) by (nonlinear_arith)
        requires
            n <= usize::MAX,
    ;
    let nn: i128 = n as i128;
    let mean_lat: i128 = floor_div(sum_lat, nn);
    let mean_lon: i128 = floor_div(sum_lon, nn);
    Some((mean_lat as i64, mean_lon as i64))
}

} // verus!
