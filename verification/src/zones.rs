use vstd::prelude::*;

verus! {

/// The indices `0 .. n`, ascending.
pub open spec fn index_range(n: nat) -> Seq<usize> {
    Seq::new(n, |i: int| i as usize)
}

/// The hue zones of the active clusters `0 ..= m`, taken in hue order: a
/// cluster joins the zone of the one before it when `close[i - 1]` holds
/// (their hues are within the merge threshold), and opens a new zone
/// otherwise.
pub open spec fn group_prefix(close: Seq<bool>, m: nat) -> Seq<Seq<usize>>
    decreases m,
{
    if m == 0 {
        seq![seq![0usize]]
    } else {
        let z = group_prefix(close, (m - 1) as nat);
        if close[m - 1] {
            z.update(z.len() - 1, z.last().push(m as usize))
        } else {
            z.push(seq![m as usize])
        }
    }
}

/// The hue zones of `n >= 1` active clusters in hue order.
pub open spec fn hue_zones(close: Seq<bool>, n: nat) -> Seq<Seq<usize>> {
    group_prefix(close, (n - 1) as nat)
}

/// When the hue wheel wraps (the last and the first cluster are close
/// across 360 degrees) and there are several zones, the last zone is joined
/// in front of the first one.
pub open spec fn merge_wrapped(zones: Seq<Seq<usize>>, wraps: bool) -> Seq<Seq<usize>> {
    if zones.len() > 1 && wraps {
        zones.drop_last().update(0, zones.last() + zones[0])
    } else {
        zones
    }
}

/// The zones that the tone detection works with.
pub open spec fn tone_zones(close: Seq<bool>, wraps: bool, n: nat) -> Seq<Seq<usize>> {
    merge_wrapped(hue_zones(close, n), wraps)
}

/// The number of points of a zone: the sum of its clusters' point counts.
pub open spec fn zone_total(zone: Seq<usize>, counts: Seq<usize>) -> nat
    decreases zone.len(),
{
    if zone.len() == 0 {
        0
    } else {
        zone_total(zone.drop_last(), counts) + counts[zone.last() as int] as nat
    }
}

/// The number of points of each zone.
pub open spec fn zone_totals(zones: Seq<Seq<usize>>, counts: Seq<usize>) -> Seq<nat> {
    Seq::new(zones.len(), |i: int| zone_total(zones[i], counts))
}

/// The clusters of all zones, zone after zone.
pub open spec fn flatten(zones: Seq<Seq<usize>>) -> Seq<usize>
    decreases zones.len(),
{
    if zones.len() == 0 {
        Seq::empty()
    } else {
        flatten(zones.drop_last()) + zones.last()
    }
}

/// The sum of a sequence of numbers.
pub open spec fn seq_sum(s: Seq<nat>) -> nat
    decreases s.len(),
{
    if s.len() == 0 {
        0
    } else {
        seq_sum(s.drop_last()) + s.last()
    }
}

/// The sum of the point counts.
pub open spec fn count_sum(counts: Seq<usize>) -> nat
    decreases counts.len(),
{
    if counts.len() == 0 {
        0
    } else {
        count_sum(counts.drop_last()) + counts.last() as nat
    }
}

/// `p` is the first zone with the most points.
pub open spec fn is_first_max(t: Seq<nat>, p: int) -> bool {
    &&& 0 <= p < t.len()
    &&& forall|j: int| 0 <= j < t.len() ==> #[trigger] t[j] <= t[p]
    &&& forall|j: int| 0 <= j < p ==> #[trigger] t[j] < t[p]
}

/// `q` is the first zone other than `p` with the most points among the
/// zones other than `p`.
pub open spec fn is_first_max_except(t: Seq<nat>, p: int, q: int) -> bool {
    &&& 0 <= q < t.len()
    &&& q != p
    &&& forall|j: int| 0 <= j < t.len() && j != p ==> #[trigger] t[j] <= t[q]
    &&& forall|j: int| 0 <= j < q && j != p ==> #[trigger] t[j] < t[q]
}

/// Every zone holds at least one cluster, and every cluster index is below
/// `n`.
pub open spec fn zones_well_formed(zones: Seq<Seq<usize>>, n: nat) -> bool {
    forall|i: int|
        0 <= i < zones.len() ==> (#[trigger] zones[i]).len() > 0 && forall|j: int|
            0 <= j < zones[i].len() ==> #[trigger] zones[i][j] < n
}

/// The zones of the clusters in hue order partition them: read zone after
/// zone, they are exactly the clusters `0 .. n` in order, and no zone is
/// empty.
pub proof fn lemma_hue_zones_partition(close: Seq<bool>, n: nat)
    requires
        1 <= n <= usize::MAX,
        close.len() + 1 >= n,
    ensures
        flatten(hue_zones(close, n)) == index_range(n),
        zones_well_formed(hue_zones(close, n), n),
        hue_zones(close, n).len() >= 1,
{
    lemma_group_prefix_shape(close, (n - 1) as nat);
}

proof fn lemma_group_prefix_shape(close: Seq<bool>, m: nat)
    requires
        close.len() >= m,
        m < usize::MAX,
    ensures
        flatten(group_prefix(close, m)) == index_range(m + 1),
        zones_well_formed(group_prefix(close, m), m + 1),
        group_prefix(close, m).len() >= 1,
    decreases m,
{
    let zm = group_prefix(close, m);
    if m == 0 {
        assert(zm.drop_last() =~= Seq::<Seq<usize>>::empty());
        assert(flatten(zm.drop_last()) =~= Seq::<usize>::empty());
        assert(flatten(zm) =~= seq![0usize]);
        assert(index_range(1) =~= seq![0usize]);
    } else {
        let z = group_prefix(close, (m - 1) as nat);
        lemma_group_prefix_shape(close, (m - 1) as nat);
        if close[m - 1] {
            assert(zm.drop_last() =~= z.drop_last());
            assert(flatten(z) == flatten(z.drop_last()) + z.last());
            assert(flatten(zm) =~= flatten(z).push(m as usize));
        } else {
            assert(zm.drop_last() =~= z);
        }
        assert(flatten(zm) =~= index_range(m + 1));
        assert forall|i: int| 0 <= i < zm.len() implies (#[trigger] zm[i]).len() > 0 && forall|j: int|
            0 <= j < zm[i].len() ==> #[trigger] zm[i][j] < m + 1 by {
            if i < z.len() && !(close[m - 1] && i == z.len() - 1) {
                assert(zm[i] == z[i]);
                assert(forall|j: int| 0 <= j < z[i].len() ==> #[trigger] z[i][j] < m);
            } else if close[m - 1] {
                assert(zm[i] == z.last().push(m as usize));
                assert(forall|j: int| 0 <= j < z[i].len() ==> #[trigger] z[i][j] < m);
            }
        }
    }
}

proof fn lemma_zone_total_concat(a: Seq<usize>, b: Seq<usize>, counts: Seq<usize>)
    ensures
        zone_total(a + b, counts) == zone_total(a, counts) + zone_total(b, counts),
    decreases b.len(),
{
    if b.len() == 0 {
        assert(a + b =~= a);
    } else {
        lemma_zone_total_concat(a, b.drop_last(), counts);
        assert((a + b).drop_last() =~= a + b.drop_last());
    }
}

proof fn lemma_flatten_total(zones: Seq<Seq<usize>>, counts: Seq<usize>)
    ensures
        seq_sum(zone_totals(zones, counts)) == zone_total(flatten(zones), counts),
    decreases zones.len(),
{
    if zones.len() > 0 {
        lemma_flatten_total(zones.drop_last(), counts);
        assert(zone_totals(zones, counts).drop_last() =~= zone_totals(zones.drop_last(), counts));
        lemma_zone_total_concat(flatten(zones.drop_last()), zones.last(), counts);
    }
}

proof fn lemma_range_total(counts: Seq<usize>, n: nat)
    requires
        n <= counts.len(),
        n <= usize::MAX,
    ensures
        zone_total(index_range(n), counts) == count_sum(counts.take(n as int)),
    decreases n,
{
    if n > 0 {
        lemma_range_total(counts, (n - 1) as nat);
        assert(index_range(n).drop_last() =~= index_range((n - 1) as nat));
        assert(counts.take(n as int).drop_last() =~= counts.take(n - 1));
    }
}

proof fn lemma_sum_ge_elem(s: Seq<nat>, i: int)
    requires
        0 <= i < s.len(),
    ensures
        s[i] <= seq_sum(s),
    decreases s.len(),
{
    if i < s.len() - 1 {
        lemma_sum_ge_elem(s.drop_last(), i);
    }
}

proof fn lemma_sum_ge_two(s: Seq<nat>, i: int, j: int)
    requires
        0 <= i < s.len(),
        0 <= j < s.len(),
        i != j,
    ensures
        s[i] + s[j] <= seq_sum(s),
    decreases s.len(),
{
    let l = s.len() - 1;
    if i == l {
        lemma_sum_ge_elem(s.drop_last(), j);
    } else if j == l {
        lemma_sum_ge_elem(s.drop_last(), i);
    } else {
        lemma_sum_ge_two(s.drop_last(), i, j);
    }
}

/// No zone holds more points than all the clusters together.
pub proof fn lemma_tone_zone_totals_bounded(close: Seq<bool>, wraps: bool, counts: Seq<usize>)
    requires
        1 <= counts.len() <= usize::MAX,
        close.len() + 1 >= counts.len(),
    ensures
        forall|i: int|
            0 <= i < tone_zones(close, wraps, counts.len()).len() ==> #[trigger] zone_totals(
                tone_zones(close, wraps, counts.len()),
                counts,
            )[i] <= count_sum(counts),
{
    let n = counts.len();
    let z = hue_zones(close, n);
    let t = zone_totals(z, counts);
    lemma_hue_zones_partition(close, n);
    lemma_flatten_total(z, counts);
    lemma_range_total(counts, n);
    assert(counts.take(n as int) =~= counts);
    let m = tone_zones(close, wraps, n);
    assert forall|i: int| 0 <= i < m.len() implies #[trigger] zone_totals(m, counts)[i] <= count_sum(counts) by {
        if z.len() > 1 && wraps {
            if i == 0 {
                lemma_zone_total_concat(z.last(), z[0], counts);
                lemma_sum_ge_two(t, z.len() - 1, 0);
            } else {
                lemma_sum_ge_elem(t, i);
            }
        } else {
            lemma_sum_ge_elem(t, i);
        }
    }
}

/// The hue zones are the maximal runs of consecutive clusters linked by
/// `close`: inside a zone the clusters are consecutive and each is close to
/// the next, and the last cluster of a zone is never close to the first of
/// the following zone.
pub proof fn lemma_hue_zones_are_maximal_runs(close: Seq<bool>, n: nat)
    requires
        1 <= n <= usize::MAX,
        close.len() + 1 >= n,
    ensures
        forall|i: int, j: int|
            0 <= i < hue_zones(close, n).len() && 0 <= j < hue_zones(close, n)[i].len() - 1 ==> {
                &&& hue_zones(close, n)[i][j + 1] == #[trigger] hue_zones(close, n)[i][j] + 1
                &&& close[hue_zones(close, n)[i][j] as int]
            },
        forall|i: int|
            0 <= i < hue_zones(close, n).len() - 1 ==> !close[(#[trigger] hue_zones(close, n)[i]).last() as int],
{
    lemma_group_prefix_runs(close, (n - 1) as nat);
}

proof fn lemma_group_prefix_runs(close: Seq<bool>, m: nat)
    requires
        close.len() >= m,
        m < usize::MAX,
    ensures
        forall|i: int, j: int|
            0 <= i < group_prefix(close, m).len() && 0 <= j < group_prefix(close, m)[i].len() - 1 ==> {
                &&& group_prefix(close, m)[i][j + 1] == #[trigger] group_prefix(close, m)[i][j] + 1
                &&& close[group_prefix(close, m)[i][j] as int]
            },
        forall|i: int|
            0 <= i < group_prefix(close, m).len() - 1 ==> !close[(#[trigger] group_prefix(
                close,
                m,
            )[i]).last() as int],
        group_prefix(close, m).last().last() == m,
    decreases m,
{
    let zm = group_prefix(close, m);
    if m > 0 {
        let z = group_prefix(close, (m - 1) as nat);
        lemma_group_prefix_runs(close, (m - 1) as nat);
        lemma_group_prefix_shape(close, (m - 1) as nat);
        let l = z.len() - 1;
        if close[m - 1] {
            assert(zm[l] == z[l].push(m as usize));
            assert forall|i: int, j: int|
                0 <= i < zm.len() && 0 <= j < zm[i].len() - 1 implies {
                    &&& zm[i][j + 1] == #[trigger] zm[i][j] + 1
                    &&& close[zm[i][j] as int]
                } by {
                if i == l {
                    if j == zm[i].len() - 2 {
                        assert(zm[i][j] == z[l].last());
                    } else {
                        assert(zm[i][j] == z[l][j]);
                        assert(zm[i][j + 1] == z[l][j + 1]);
                    }
                } else {
                    assert(zm[i] == z[i]);
                }
            }
            assert forall|i: int| 0 <= i < zm.len() - 1 implies !close[(#[trigger] zm[i]).last() as int] by {
                assert(zm[i] == z[i]);
            }
        } else {
            assert(zm == z.push(seq![m as usize]));
            assert forall|i: int, j: int|
                0 <= i < zm.len() && 0 <= j < zm[i].len() - 1 implies {
                    &&& zm[i][j + 1] == #[trigger] zm[i][j] + 1
                    &&& close[zm[i][j] as int]
                } by {
                assert(zm[i] == z[i]);
            }
            assert forall|i: int| 0 <= i < zm.len() - 1 implies !close[(#[trigger] zm[i]).last() as int] by {
                if i < l {
                    assert(zm[i] == z[i]);
                } else {
                    assert(zm[i] == z[l]);
                }
            }
        }
    }
}

/// Across the 360-degree seam: with several hue zones and `wraps`, the tone
/// zones are the hue zones with the whole last zone joined in front of the
/// first (one zone fewer, the others unchanged); otherwise they are the hue
/// zones themselves.
pub proof fn lemma_wrap_joins_last_zone_in_front(close: Seq<bool>, wraps: bool, n: nat)
    ensures
        hue_zones(close, n).len() > 1 && wraps ==> {
            &&& tone_zones(close, wraps, n).len() == hue_zones(close, n).len() - 1
            &&& tone_zones(close, wraps, n)[0] == hue_zones(close, n).last() + hue_zones(close, n)[0]
            &&& forall|k: int|
                1 <= k < tone_zones(close, wraps, n).len() ==> #[trigger] tone_zones(close, wraps, n)[k]
                    == hue_zones(close, n)[k]
        },
        !(hue_zones(close, n).len() > 1 && wraps) ==> tone_zones(close, wraps, n) == hue_zones(close, n),
{
}

/// Each vector holds the matching sequence.
pub open spec fn vecs_match(v: Seq<Vec<usize>>, m: Seq<Seq<usize>>) -> bool {
    &&& v.len() == m.len()
    &&& forall|j: int| 0 <= j < v.len() ==> (#[trigger] v[j])@ == m[j]
}

/// How the tones of a palette come from the hue zones.
pub enum ZonePlan {
    /// One zone: its first and its last cluster in hue order.
    Single { first: usize, last: usize },
    /// Several zones: the clusters of the zone with the most points, those
    /// of the zone with the most points among the others, and whether the
    /// first holds at least as many points as the second.
    Pair { primary: Vec<usize>, secondary: Vec<usize>, primary_dominant: bool },
}

proof fn lemma_zone_total_prefix(zone: Seq<usize>, counts: Seq<usize>, j: int)
    requires
        0 <= j <= zone.len(),
    ensures
        zone_total(zone.take(j), counts) <= zone_total(zone, counts),
{
    lemma_zone_total_concat(zone.take(j), zone.skip(j), counts);
    assert(zone.take(j) + zone.skip(j) =~= zone);
}

/// The number of points of a zone.
fn zone_sum(zone: &Vec<usize>, counts: &[usize]) -> (total: usize)
    requires
        forall|j: int| 0 <= j < zone@.len() ==> #[trigger] zone@[j] < counts@.len(),
        zone_total(zone@, counts@) <= usize::MAX,
    ensures
        total == zone_total(zone@, counts@),
{
    let mut total: usize = 0;
    for j in 0..zone.len()
        invariant
            forall|j: int| 0 <= j < zone@.len() ==> #[trigger] zone@[j] < counts@.len(),
            zone_total(zone@, counts@) <= usize::MAX,
            total == zone_total(zone@.take(j as int), counts@),
    {
        assert(zone@.take(j + 1).drop_last() =~= zone@.take(j as int));
        proof {
            lemma_zone_total_prefix(zone@, counts@, j + 1);
        }
        total = total + counts[zone[j]];
    }
    assert(zone@.take(zone@.len() as int) =~= zone@);
    total
}

/// Groups the active clusters, taken in hue order, into hue zones and picks
/// the tones. `close[i]` tells whether cluster `i + 1` lies within the merge
/// threshold of cluster `i`; `wraps` whether the last and the first lie
/// within it across the 360-degree seam; `pixel_counts[i]` is the number of
/// points of cluster `i`. The two zones with the most points (the first in
/// hue order among equals) give the primary and secondary tones.
pub fn plan_zones(close: &[bool], wraps: bool, pixel_counts: &[usize]) -> (plan: ZonePlan)
    requires
        pixel_counts@.len() >= 1,
        close@.len() + 1 == pixel_counts@.len(),
        tone_zones(close@, wraps, pixel_counts@.len()).len() > 1 ==> forall|i: int|
            0 <= i < tone_zones(close@, wraps, pixel_counts@.len()).len() ==> #[trigger] zone_totals(
                tone_zones(close@, wraps, pixel_counts@.len()),
                pixel_counts@,
            )[i] <= usize::MAX,
    ensures
        ({
            let zones = tone_zones(close@, wraps, pixel_counts@.len());
            let t = zone_totals(zones, pixel_counts@);
            if zones.len() == 1 {
                plan matches ZonePlan::Single { first, last } && first == zones[0][0] && last
                    == zones[0].last()
            } else {
                plan matches ZonePlan::Pair { primary, secondary, primary_dominant } && exists|
                    p: int,
                    q: int,
                |
                    is_first_max(t, p) && is_first_max_except(t, p, q) && primary@ == zones[p]
                        && secondary@ == zones[q] && primary_dominant == (t[p] >= t[q])
                        && primary_dominant
            }
        }),
{
    let n = pixel_counts.len();
    let ghost counts = pixel_counts@;
    let mut zones: Vec<Vec<usize>> = Vec::new();
    let mut first_zone: Vec<usize> = Vec::new();
    first_zone.push(0);
    zones.push(first_zone);
    proof {
        assert(zones@[0]@ =~= seq![0usize]);
        assert(vecs_match(zones@, group_prefix(close@, 0)));
    }
    for i in 1..n
        invariant
            n == pixel_counts@.len(),
            close@.len() + 1 == n,
            vecs_match(zones@, group_prefix(close@, (i - 1) as nat)),
    {
        let ghost z = group_prefix(close@, (i - 1) as nat);
        let ghost before = zones@;
        proof {
            lemma_group_prefix_shape(close@, (i - 1) as nat);
        }
        if close[i - 1] {
            let mut last = zones.pop().unwrap();
            last.push(i);
            zones.push(last);
            proof {
                let zi = group_prefix(close@, i as nat);
                assert(zi == z.update(z.len() - 1, z.last().push(i as usize)));
                assert forall|j: int| 0 <= j < zones@.len() implies (#[trigger] zones@[j])@ == zi[j] by {
                    if j < z.len() - 1 {
                        assert(zones@[j] == before[j]);
                    }
                }
            }
        } else {
            let mut zone: Vec<usize> = Vec::new();
            zone.push(i);
            zones.push(zone);
            proof {
                let zi = group_prefix(close@, i as nat);
                assert(zone@ =~= seq![i as usize]);
                assert forall|j: int| 0 <= j < zones@.len() implies (#[trigger] zones@[j])@ == zi[j] by {
                    if j < z.len() {
                        assert(zones@[j] == before[j]);
                    }
                }
            }
        }
    }
    let ghost z = hue_zones(close@, n as nat);
    proof {
        lemma_hue_zones_partition(close@, n as nat);
    }
    if zones.len() > 1 && wraps {
        let ghost before = zones@;
        let mut wrapped = zones.pop().unwrap();
        let mut first = zones.remove(0);
        wrapped.append(&mut first);
        zones.insert(0, wrapped);
        proof {
            let m = merge_wrapped(z, wraps);
            assert forall|j: int| 0 <= j < zones@.len() implies (#[trigger] zones@[j])@ == m[j] by {
                if j > 0 {
                    assert(zones@[j] == before[j]);
                }
            }
        }
    }
    let ghost zones_spec = tone_zones(close@, wraps, n as nat);
    let ghost t = zone_totals(zones_spec, counts);
    assert(vecs_match(zones@, zones_spec));
    assert(zones_well_formed(zones_spec, n as nat)) by {
        assert forall|i: int| 0 <= i < zones_spec.len() implies (#[trigger] zones_spec[i]).len() > 0
            && forall|j: int| 0 <= j < zones_spec[i].len() ==> #[trigger] zones_spec[i][j] < n by {
            if z.len() > 1 && wraps && i == 0 {
                assert(zones_spec[0] == z.last() + z[0]);
                assert forall|j: int| 0 <= j < zones_spec[i].len() implies #[trigger] zones_spec[i][j] < n by {
                    if j < z.last().len() {
                        assert(zones_spec[0][j] == z[z.len() - 1][j]);
                    } else {
                        assert(zones_spec[0][j] == z[0][j - z.last().len()]);
                    }
                }
            } else {
                assert(zones_spec[i] == z[i]);
            }
        }
    }
    if zones.len() == 1 {
        let zone = &zones[0];
        assert(zone@ == zones_spec[0]);
        return ZonePlan::Single { first: zone[0], last: zone[zone.len() - 1] };
    }
    let mut totals: Vec<usize> = Vec::new();
    for i in 0..zones.len()
        invariant
            vecs_match(zones@, zones_spec),
            zones_well_formed(zones_spec, n as nat),
            n == counts.len(),
            counts == pixel_counts@,
            t == zone_totals(zones_spec, counts),
            zones_spec.len() > 1,
            forall|k: int| 0 <= k < zones_spec.len() ==> #[trigger] t[k] <= usize::MAX,
            totals@.len() == i,
            forall|k: int| 0 <= k < i ==> totals@[k] == #[trigger] t[k],
    {
        assert(zones@[i as int]@ == zones_spec[i as int]);
        assert(t[i as int] <= usize::MAX);
        let total = zone_sum(&zones[i], pixel_counts);
        totals.push(total);
    }
    let m = totals.len();
    let mut p: usize = 0;
    for i in 1..m
        invariant
            m == totals@.len(),
            m == t.len(),
            forall|k: int| 0 <= k < m ==> totals@[k] == #[trigger] t[k],
            p < i,
            forall|j: int| 0 <= j < i ==> #[trigger] t[j] <= t[p as int],
            forall|j: int| 0 <= j < p ==> #[trigger] t[j] < t[p as int],
    {
        if totals[i] > totals[p] {
            p = i;
        }
    }
    let mut q: usize = if p == 0 { 1 } else { 0 };
    for i in 0..m
        invariant
            m == totals@.len(),
            m == t.len(),
            m >= 2,
            forall|k: int| 0 <= k < m ==> totals@[k] == #[trigger] t[k],
            p < m,
            q < m,
            q != p,
            q <= i || q == (if p == 0 { 1usize } else { 0usize }),
            forall|j: int| 0 <= j < i && j != p ==> #[trigger] t[j] <= t[q as int],
            forall|j: int| 0 <= j < q && j != p ==> #[trigger] t[j] < t[q as int],
    {
        if i != p && totals[i] > totals[q] {
            q = i;
        }
    }
    let primary = zones[p].clone();
    let secondary = zones[q].clone();
    assert(primary@ =~= zones_spec[p as int]);
    assert(secondary@ =~= zones_spec[q as int]);
    let primary_dominant = totals[p] >= totals[q];
    assert(is_first_max(t, p as int));
    assert(is_first_max_except(t, p as int, q as int));
    assert(primary_dominant);
    ZonePlan::Pair { primary, secondary, primary_dominant }
}

} // verus!
