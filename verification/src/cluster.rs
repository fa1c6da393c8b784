use vstd::prelude::*;

verus! {

/// Number of hue-locked clusters.
pub const NUM_CLUSTERS: usize = 8;

/// The label of a point that no frozen cluster has claimed yet.
pub const UNASSIGNED: u8 = 255;

/// The most assignment rounds a run makes.
pub const MAX_ROUNDS: usize = 100;

/// How many times `k` occurs in `s`.
pub open spec fn occurrences(s: Seq<u8>, k: u8) -> nat
    decreases s.len(),
{
    if s.len() == 0 {
        0
    } else {
        occurrences(s.drop_last(), k) + if s.last() == k { 1nat } else { 0nat }
    }
}

/// Every entry names a cluster.
pub open spec fn all_clusters(s: Seq<u8>) -> bool {
    forall|i: int| 0 <= i < s.len() ==> #[trigger] s[i] < NUM_CLUSTERS
}

/// The cluster of each point: its fixed label, or else its nearest centre.
pub open spec fn resolve_labels(labels: Seq<u8>, nearest: Seq<u8>) -> Seq<u8> {
    Seq::new(labels.len(), |i: int| if labels[i] == UNASSIGNED { nearest[i] } else { labels[i] })
}

/// The nearest centre of each point whose label is not fixed; the points
/// with a fixed label read as `UNASSIGNED`.
pub open spec fn fresh_choices(labels: Seq<u8>, nearest: Seq<u8>) -> Seq<u8> {
    Seq::new(labels.len(), |i: int| if labels[i] == UNASSIGNED { nearest[i] } else { UNASSIGNED })
}

/// A point's label is either unfixed or names a cluster that is frozen.
pub open spec fn labels_fit_activity(labels: Seq<u8>, active: Seq<bool>) -> bool {
    &&& active.len() == NUM_CLUSTERS
    &&& forall|i: int|
        0 <= i < labels.len() ==> {
            let l = #[trigger] labels[i];
            l == UNASSIGNED || (l < NUM_CLUSTERS && !active[l as int])
        }
}

/// Sum over the clusters below `m` of their occurrences in `s`.
pub open spec fn occurrences_below(s: Seq<u8>, m: nat) -> nat
    decreases m,
{
    if m == 0 {
        0
    } else {
        occurrences_below(s, (m - 1) as nat) + occurrences(s, (m - 1) as u8)
    }
}

/// How many entries of `s` lie below `m`.
pub open spec fn count_below(s: Seq<u8>, m: nat) -> nat
    decreases s.len(),
{
    if s.len() == 0 {
        0
    } else {
        count_below(s.drop_last(), m) + if s.last() < m { 1nat } else { 0nat }
    }
}

proof fn lemma_occurrences_below_step(s: Seq<u8>, m: nat)
    requires
        s.len() > 0,
        m <= 256,
    ensures
        occurrences_below(s, m) == occurrences_below(s.drop_last(), m) + if s.last() < m {
            1nat
        } else {
            0nat
        },
    decreases m,
{
    if m > 0 {
        lemma_occurrences_below_step(s, (m - 1) as nat);
        assert(((m - 1) as u8) as int == m - 1);
    }
}

proof fn lemma_occurrences_below_counts(s: Seq<u8>, m: nat)
    requires
        m <= 256,
    ensures
        occurrences_below(s, m) == count_below(s, m),
    decreases s.len(),
{
    if s.len() == 0 {
        lemma_occurrences_below_empty(s, m);
    } else {
        lemma_occurrences_below_step(s, m);
        lemma_occurrences_below_counts(s.drop_last(), m);
    }
}

proof fn lemma_occurrences_below_empty(s: Seq<u8>, m: nat)
    requires
        s.len() == 0,
    ensures
        occurrences_below(s, m) == 0,
    decreases m,
{
    if m > 0 {
        lemma_occurrences_below_empty(s, (m - 1) as nat);
    }
}

proof fn lemma_count_below_all(s: Seq<u8>, m: nat)
    requires
        forall|i: int| 0 <= i < s.len() ==> #[trigger] s[i] < m,
    ensures
        count_below(s, m) == s.len(),
    decreases s.len(),
{
    if s.len() > 0 {
        lemma_count_below_all(s.drop_last(), m);
    }
}

/// Every point lies in exactly one cluster: when every label names a
/// cluster, the per-cluster counts add up to the number of points.
pub proof fn lemma_cluster_counts_cover(labels: Seq<u8>)
    requires
        all_clusters(labels),
    ensures
        occurrences_below(labels, NUM_CLUSTERS as nat) == labels.len(),
{
    lemma_occurrences_below_counts(labels, NUM_CLUSTERS as nat);
    lemma_count_below_all(labels, NUM_CLUSTERS as nat);
}

/// Fixed labels are final: one update step never changes a fixed label.
pub proof fn lemma_step_keeps_fixed_labels(
    labels: Seq<u8>,
    clusters: Seq<u8>,
    updates: Seq<CenterUpdate>,
    i: int,
)
    requires
        0 <= i < labels.len(),
        labels[i] != UNASSIGNED,
    ensures
        step_labels(labels, clusters, updates)[i] == labels[i],
{
}

/// Ending a run never changes a fixed label either.
pub proof fn lemma_finish_keeps_fixed_labels(labels: Seq<u8>, nearest: Seq<u8>, i: int)
    requires
        0 <= i < labels.len(),
        labels[i] != UNASSIGNED,
    ensures
        resolve_labels(labels, nearest)[i] == labels[i],
{
}

/// A frozen cluster stays where it is and never becomes active again.
pub proof fn lemma_frozen_stays_frozen(
    active: Seq<bool>,
    counts: Seq<usize>,
    in_sector: Seq<bool>,
    k: int,
)
    requires
        0 <= k < NUM_CLUSTERS,
        !active[k],
    ensures
        step_updates(active, counts, in_sector)[k] == CenterUpdate::Keep,
        !step_active(active, step_updates(active, counts, in_sector))[k],
{
}

proof fn lemma_fresh_below(labels: Seq<u8>, nearest: Seq<u8>)
    requires
        nearest.len() == labels.len(),
        all_clusters(nearest),
    ensures
        count_below(fresh_choices(labels, nearest), NUM_CLUSTERS as nat) == occurrences(labels, UNASSIGNED),
    decreases labels.len(),
{
    if labels.len() > 0 {
        let f = fresh_choices(labels, nearest);
        assert(f.drop_last() =~= fresh_choices(labels.drop_last(), nearest.drop_last()));
        lemma_fresh_below(labels.drop_last(), nearest.drop_last());
        assert(nearest[labels.len() - 1] < NUM_CLUSTERS);
    }
}

/// An assignment pass counts every point whose label is not fixed exactly
/// once: the per-cluster counts of new points add up to the number of
/// unfixed points.
pub proof fn lemma_assignment_counts_unfixed_points(labels: Seq<u8>, nearest: Seq<u8>)
    requires
        nearest.len() == labels.len(),
        all_clusters(nearest),
    ensures
        occurrences_below(fresh_choices(labels, nearest), NUM_CLUSTERS as nat) == occurrences(
            labels,
            UNASSIGNED,
        ),
{
    lemma_occurrences_below_counts(fresh_choices(labels, nearest), NUM_CLUSTERS as nat);
    lemma_fresh_below(labels, nearest);
}

/// A cluster that is frozen, or that gained no point in the step, is left
/// alone: its centre is kept and its activity does not change, whatever its
/// sector test says.
pub proof fn lemma_idle_cluster_is_left_alone(
    active: Seq<bool>,
    counts: Seq<usize>,
    in_sector: Seq<bool>,
    k: int,
)
    requires
        0 <= k < NUM_CLUSTERS,
        !active[k] || counts[k] == 0,
    ensures
        step_updates(active, counts, in_sector)[k] == CenterUpdate::Keep,
        step_active(active, step_updates(active, counts, in_sector))[k] == active[k],
{
}

/// An active cluster that gained points moves when the mean of its new
/// points lies in its sector and freezes exactly when it does not.
pub proof fn lemma_busy_cluster_follows_its_sector(
    active: Seq<bool>,
    counts: Seq<usize>,
    in_sector: Seq<bool>,
    k: int,
)
    requires
        0 <= k < NUM_CLUSTERS,
        active[k],
        counts[k] > 0,
    ensures
        (step_updates(active, counts, in_sector)[k] == CenterUpdate::Move) == in_sector[k],
        (step_updates(active, counts, in_sector)[k] == CenterUpdate::Freeze) == !in_sector[k],
{
}

/// Only freezing changes activity: a cluster whose update is `Keep` or
/// `Move` keeps its activity, and one that freezes becomes inactive.
pub proof fn lemma_only_freezing_deactivates(active: Seq<bool>, updates: Seq<CenterUpdate>, k: int)
    requires
        0 <= k < NUM_CLUSTERS,
    ensures
        step_active(active, updates).len() == NUM_CLUSTERS,
        updates[k] != CenterUpdate::Freeze ==> step_active(active, updates)[k] == active[k],
        updates[k] == CenterUpdate::Freeze ==> !step_active(active, updates)[k],
{
}

/// A cluster that freezes claims every one of its new points: each point
/// without a fixed label whose chosen cluster froze is fixed to that
/// cluster, and every other point keeps its label.
pub proof fn lemma_freeze_claims_all_new_points(
    labels: Seq<u8>,
    clusters: Seq<u8>,
    updates: Seq<CenterUpdate>,
    i: int,
)
    requires
        0 <= i < labels.len(),
    ensures
        step_labels(labels, clusters, updates).len() == labels.len(),
        labels[i] == UNASSIGNED && updates[clusters[i] as int] == CenterUpdate::Freeze
            ==> step_labels(labels, clusters, updates)[i] == clusters[i],
        !(labels[i] == UNASSIGNED && updates[clusters[i] as int] == CenterUpdate::Freeze)
            ==> step_labels(labels, clusters, updates)[i] == labels[i],
{
}

/// Per cluster, the number of its points.
pub fn count_labels(labels: &[u8]) -> (counts: [usize; NUM_CLUSTERS])
    requires
        all_clusters(labels@),
    ensures
        forall|k: int| 0 <= k < NUM_CLUSTERS ==> counts[k] == occurrences(labels@, k as u8),
{
    let n = labels.len();
    let mut counts = [0usize; NUM_CLUSTERS];
    for i in 0..n
        invariant
            n == labels@.len(),
            all_clusters(labels@),
            forall|k: int|
                0 <= k < NUM_CLUSTERS ==> counts[k] == occurrences(labels@.take(i as int), k as u8),
            forall|k: int| 0 <= k < NUM_CLUSTERS ==> counts[k] <= i,
    {
        assert(labels@.take(i + 1).drop_last() =~= labels@.take(i as int));
        let k = labels[i] as usize;
        counts[k] = counts[k] + 1;
    }
    assert(labels@.take(n as int) =~= labels@);
    counts
}

/// The indices of the points labelled `k`, ascending.
pub open spec fn members(labels: Seq<u8>, k: u8) -> Seq<usize>
    decreases labels.len(),
{
    if labels.len() == 0 {
        Seq::empty()
    } else {
        let rest = members(labels.drop_last(), k);
        if labels.last() == k {
            rest.push((labels.len() - 1) as usize)
        } else {
            rest
        }
    }
}

/// The indices of the points labelled `k`, ascending.
pub fn cluster_members(labels: &[u8], k: u8) -> (idx: Vec<usize>)
    ensures
        idx@ == members(labels@, k),
{
    let n = labels.len();
    let mut idx: Vec<usize> = Vec::new();
    for i in 0..n
        invariant
            n == labels@.len(),
            idx@ == members(labels@.take(i as int), k),
    {
        assert(labels@.take(i + 1).drop_last() =~= labels@.take(i as int));
        if labels[i] == k {
            idx.push(i);
        }
    }
    assert(labels@.take(n as int) =~= labels@);
    idx
}

/// An index is a member exactly when its label is `k`.
pub proof fn lemma_members_exact(labels: Seq<u8>, k: u8, i: int)
    requires
        0 <= i < labels.len(),
        labels.len() <= usize::MAX,
    ensures
        members(labels, k).contains(i as usize) <==> labels[i] == k,
    decreases labels.len(),
{
    lemma_members_bounded(labels, k);
    let rest = labels.drop_last();
    if i < labels.len() - 1 {
        lemma_members_exact(rest, k, i);
        if labels.last() == k {
            assert(members(labels, k) == members(rest, k).push((labels.len() - 1) as usize));
            if members(labels, k).contains(i as usize) {
                let j = choose|j: int|
                    0 <= j < members(labels, k).len() && members(labels, k)[j] == i as usize;
                if j < members(rest, k).len() {
                    assert(members(rest, k).contains(i as usize));
                }
            }
            if members(rest, k).contains(i as usize) {
                let j = choose|j: int| 0 <= j < members(rest, k).len() && members(rest, k)[j] == i as usize;
                assert(members(labels, k)[j] == i as usize);
            }
        }
    } else {
        if labels.last() == k {
            assert(members(labels, k).last() == i as usize);
        } else {
            lemma_members_bounded(rest, k);
            if members(labels, k).contains(i as usize) {
                let j = choose|j: int|
                    0 <= j < members(labels, k).len() && members(labels, k)[j] == i as usize;
                assert(members(rest, k)[j] < rest.len());
            }
        }
    }
}

proof fn lemma_members_bounded(labels: Seq<u8>, k: u8)
    requires
        labels.len() <= usize::MAX,
    ensures
        forall|j: int|
            0 <= j < members(labels, k).len() ==> #[trigger] members(labels, k)[j] < labels.len(),
    decreases labels.len(),
{
    if labels.len() > 0 {
        let rest = labels.drop_last();
        lemma_members_bounded(rest, k);
        assert forall|j: int|
            0 <= j < members(labels, k).len() implies #[trigger] members(labels, k)[j] < labels.len() by {
            if j < members(rest, k).len() {
                assert(members(labels, k)[j] == members(rest, k)[j]);
            }
        }
    }
}

/// A cluster's tally: how many points it holds and whether it is active.
#[derive(Clone, Copy, Debug, PartialEq, Eq, Structural)]
pub struct SwatchStats {
    pub pixel_count: usize,
    pub active: bool,
}

/// Per cluster, its point count and activity.
pub fn build_stats(active: &[bool; NUM_CLUSTERS], labels: &[u8]) -> (stats: [SwatchStats; NUM_CLUSTERS])
    requires
        all_clusters(labels@),
    ensures
        forall|k: int|
            0 <= k < NUM_CLUSTERS ==> stats[k] == (SwatchStats {
                pixel_count: occurrences(labels@, k as u8) as usize,
                active: active[k],
            }),
{
    let counts = count_labels(labels);
    let mut stats = [SwatchStats { pixel_count: 0, active: false }; NUM_CLUSTERS];
    for k in 0..NUM_CLUSTERS
        invariant
            forall|j: int| 0 <= j < NUM_CLUSTERS ==> counts[j] == occurrences(labels@, j as u8),
            forall|j: int|
                0 <= j < k ==> stats[j] == (SwatchStats {
                    pixel_count: occurrences(labels@, j as u8) as usize,
                    active: active[j],
                }),
    {
        stats[k] = SwatchStats { pixel_count: counts[k], active: active[k] };
    }
    stats
}

/// The number of active clusters.
pub open spec fn active_count(s: Seq<SwatchStats>) -> nat
    decreases s.len(),
{
    if s.len() == 0 {
        0
    } else {
        active_count(s.drop_last()) + if s.last().active { 1nat } else { 0nat }
    }
}

/// The number of points in active clusters.
pub open spec fn active_pixels(s: Seq<SwatchStats>) -> nat
    decreases s.len(),
{
    if s.len() == 0 {
        0
    } else {
        active_pixels(s.drop_last()) + if s.last().active { s.last().pixel_count as nat } else { 0nat }
    }
}

proof fn lemma_active_prefix_le(s: Seq<SwatchStats>, i: int)
    requires
        0 <= i <= s.len(),
    ensures
        active_pixels(s.take(i)) <= active_pixels(s),
        active_count(s.take(i)) <= active_count(s),
    decreases s.len(),
{
    if i < s.len() {
        assert(s.drop_last().take(i) =~= s.take(i));
        lemma_active_prefix_le(s.drop_last(), i);
    } else {
        assert(s.take(i) =~= s);
    }
}

/// How good a clustering is: the number of active clusters, then the
/// number of points they hold.
pub fn score(swatches: &[SwatchStats; NUM_CLUSTERS]) -> (sc: (usize, usize))
    requires
        active_pixels(swatches@) <= usize::MAX,
    ensures
        sc.0 == active_count(swatches@),
        sc.1 == active_pixels(swatches@),
{
    let mut active_count_so_far: usize = 0;
    let mut active_pixels_so_far: usize = 0;
    for k in 0..NUM_CLUSTERS
        invariant
            active_pixels(swatches@) <= usize::MAX,
            active_count_so_far == active_count(swatches@.take(k as int)),
            active_pixels_so_far == active_pixels(swatches@.take(k as int)),
            active_count_so_far <= k,
    {
        assert(swatches@.take(k + 1).drop_last() =~= swatches@.take(k as int));
        proof {
            lemma_active_prefix_le(swatches@, k + 1);
        }
        if swatches[k].active {
            active_count_so_far = active_count_so_far + 1;
            active_pixels_so_far = active_pixels_so_far + swatches[k].pixel_count;
        }
    }
    assert(swatches@.take(NUM_CLUSTERS as int) =~= swatches@);
    (active_count_so_far, active_pixels_so_far)
}

/// `a` beats `b`: more active clusters, or as many and more points in them.
pub open spec fn score_beats(a: (usize, usize), b: (usize, usize)) -> bool {
    a.0 > b.0 || (a.0 == b.0 && a.1 > b.1)
}

/// The candidate to keep among several clusterings: the first one that no
/// other beats.
pub fn select_best_offset(scores: &[(usize, usize)]) -> (best: usize)
    requires
        scores@.len() >= 1,
    ensures
        best < scores@.len(),
        forall|j: int| 0 <= j < scores@.len() ==> !score_beats(#[trigger] scores@[j], scores@[best as int]),
        forall|j: int| 0 <= j < best ==> score_beats(scores@[best as int], #[trigger] scores@[j]),
{
    let mut best: usize = 0;
    let mut best_score = scores[0];
    for i in 1..scores.len()
        invariant
            1 <= i <= scores@.len(),
            best < i,
            best_score == scores@[best as int],
            forall|j: int| 0 <= j < i ==> !score_beats(#[trigger] scores@[j], best_score),
            forall|j: int| 0 <= j < best ==> score_beats(best_score, #[trigger] scores@[j]),
    {
        let s = scores[i];
        if s.0 > best_score.0 || (s.0 == best_score.0 && s.1 > best_score.1) {
            best = i;
            best_score = s;
        }
    }
    best
}

/// What a K-means step does to the centre of one cluster.
#[derive(Clone, Copy, Debug, PartialEq, Eq, Structural)]
pub enum CenterUpdate {
    /// Left where it is: the cluster is frozen or gained no point.
    Keep,
    /// Moved to the mean of its new points, which lies inside its hue sector.
    Move,
    /// Clamped to its hue sector and frozen, with its new points.
    Freeze,
}

/// The update of cluster `k` given its activity, its count of new points,
/// and whether the mean of those points lies in its hue sector.
pub open spec fn center_update(active: bool, count: usize, in_sector: bool) -> CenterUpdate {
    if !active || count == 0 {
        CenterUpdate::Keep
    } else if in_sector {
        CenterUpdate::Move
    } else {
        CenterUpdate::Freeze
    }
}

/// The centre updates of one step, cluster by cluster.
pub open spec fn step_updates(active: Seq<bool>, counts: Seq<usize>, in_sector: Seq<bool>) -> Seq<CenterUpdate> {
    Seq::new(NUM_CLUSTERS as nat, |k: int| center_update(active[k], counts[k], in_sector[k]))
}

/// A step converged when no cluster froze and no moving centre moved more
/// than the tolerance.
pub open spec fn step_converged(updates: Seq<CenterUpdate>, moved: Seq<bool>) -> bool {
    forall|k: int|
        0 <= k < NUM_CLUSTERS ==> #[trigger] updates[k] != CenterUpdate::Freeze && (updates[k]
            == CenterUpdate::Move ==> !moved[k])
}

/// The activity after a step: the clusters that froze in it are inactive.
pub open spec fn step_active(active: Seq<bool>, updates: Seq<CenterUpdate>) -> Seq<bool> {
    Seq::new(NUM_CLUSTERS as nat, |k: int| active[k] && updates[k] != CenterUpdate::Freeze)
}

/// The labels after a step: an unfixed point whose cluster froze is fixed to
/// that cluster.
pub open spec fn step_labels(labels: Seq<u8>, clusters: Seq<u8>, updates: Seq<CenterUpdate>) -> Seq<u8> {
    Seq::new(
        labels.len(),
        |i: int|
            if labels[i] == UNASSIGNED && updates[clusters[i] as int] == CenterUpdate::Freeze {
                clusters[i]
            } else {
                labels[i]
            },
    )
}

/// What one update step decided.
pub struct StepOutcome {
    /// Whether the run has converged.
    pub converged: bool,
    /// What happens to each cluster's centre.
    pub updates: [CenterUpdate; NUM_CLUSTERS],
}

/// The result of one assignment pass.
pub struct Assignment {
    /// The cluster of every point.
    pub clusters: Vec<u8>,
    /// Per cluster, the number of points that are not fixed and chose it.
    pub counts: [usize; NUM_CLUSTERS],
}

/// The discrete state of a hue-locked K-means run: per point a label that is
/// `UNASSIGNED` or names the frozen cluster that claimed the point, and per
/// cluster whether it still moves.
pub struct KMeansState {
    labels: Vec<u8>,
    active: [bool; NUM_CLUSTERS],
}

impl KMeansState {
    pub closed spec fn label_seq(&self) -> Seq<u8> {
        self.labels@
    }

    pub closed spec fn active_seq(&self) -> Seq<bool> {
        self.active@
    }

    /// The state's invariant: fixed labels belong to frozen clusters.
    pub open spec fn wf(&self) -> bool {
        labels_fit_activity(self.label_seq(), self.active_seq())
    }

    /// A run over `num_points` points: no label fixed, every cluster active.
    pub fn new(num_points: usize) -> (s: KMeansState)
        ensures
            s.wf(),
            s.label_seq() == Seq::new(num_points as nat, |i: int| UNASSIGNED),
            s.active_seq() == Seq::new(NUM_CLUSTERS as nat, |k: int| true),
    {
        let mut labels: Vec<u8> = Vec::new();
        for i in 0..num_points
            invariant
                labels@ == Seq::new(i as nat, |j: int| UNASSIGNED),
        {
            labels.push(UNASSIGNED);
            assert(labels@ =~= Seq::new((i + 1) as nat, |j: int| UNASSIGNED));
        }
        let active = [true; NUM_CLUSTERS];
        let s = KMeansState { labels, active };
        assert(s.active_seq() =~= Seq::new(NUM_CLUSTERS as nat, |k: int| true));
        s
    }

    /// The number of points.
    pub fn num_points(&self) -> (n: usize)
        ensures
            n == self.label_seq().len(),
    {
        self.labels.len()
    }

    /// The labels: `UNASSIGNED` or the frozen cluster that claimed the point.
    pub fn labels(&self) -> (l: &Vec<u8>)
        ensures
            l@ == self.label_seq(),
    {
        &self.labels
    }

    /// Whether each cluster is still active.
    pub fn active(&self) -> (a: [bool; NUM_CLUSTERS])
        ensures
            a@ == self.active_seq(),
    {
        self.active
    }

    /// Whether some cluster is still active.
    pub fn any_active(&self) -> (b: bool)
        ensures
            b == exists|k: int| 0 <= k < NUM_CLUSTERS && self.active_seq()[k],
    {
        let mut k: usize = 0;
        while k < NUM_CLUSTERS
            invariant
                k <= NUM_CLUSTERS,
                forall|j: int| 0 <= j < k ==> !self.active_seq()[j],
            decreases NUM_CLUSTERS - k,
        {
            if self.active[k] {
                assert(self.active_seq()[k as int]);
                return true;
            }
            k = k + 1;
        }
        false
    }

    /// Whether round `round` (counted from 0) of the run takes place: the
    /// run makes at most `MAX_ROUNDS` rounds and stops once no cluster is
    /// active. (It also stops after a round that converged.)
    pub fn should_run_round(&self, round: usize) -> (go: bool)
        ensures
            go == (round < MAX_ROUNDS && exists|k: int| 0 <= k < NUM_CLUSTERS && self.active_seq()[k]),
    {
        round < MAX_ROUNDS && self.any_active()
    }

    /// One assignment pass: a point with a fixed label stays in its
    /// cluster, every other point goes to `nearest[i]`, and is counted for
    /// that cluster.
    pub fn assign(&self, nearest: &[u8]) -> (a: Assignment)
        requires
            nearest@.len() == self.label_seq().len(),
            all_clusters(nearest@),
        ensures
            a.clusters@ == resolve_labels(self.label_seq(), nearest@),
            forall|k: int|
                0 <= k < NUM_CLUSTERS ==> a.counts[k] == occurrences(
                    fresh_choices(self.label_seq(), nearest@),
                    k as u8,
                ),
    {
        let n = self.labels.len();
        let ghost labels = self.label_seq();
        let ghost fresh = fresh_choices(labels, nearest@);
        let mut clusters: Vec<u8> = Vec::new();
        let mut counts = [0usize; NUM_CLUSTERS];
        for i in 0..n
            invariant
                n == labels.len(),
                labels == self.label_seq(),
                nearest@.len() == n,
                all_clusters(nearest@),
                fresh == fresh_choices(labels, nearest@),
                clusters@ == resolve_labels(labels, nearest@).take(i as int),
                forall|k: int|
                    0 <= k < NUM_CLUSTERS ==> counts[k] == occurrences(
                        fresh.take(i as int),
                        k as u8,
                    ),
                forall|k: int| 0 <= k < NUM_CLUSTERS ==> counts[k] <= i,
        {
            assert(fresh.take(i + 1).drop_last() =~= fresh.take(i as int));
            let label = self.labels[i];
            if label != UNASSIGNED {
                clusters.push(label);
            } else {
                let k = nearest[i];
                clusters.push(k);
                counts[k as usize] = counts[k as usize] + 1;
            }
            assert(clusters@ =~= resolve_labels(labels, nearest@).take(i + 1));
        }
        assert(fresh.take(n as int) =~= fresh);
        assert(resolve_labels(labels, nearest@).take(n as int) =~= resolve_labels(labels, nearest@));
        Assignment { clusters, counts }
    }
    /// One update step after an assignment pass. Per cluster: a frozen
    /// cluster, or one that gained no point, keeps its centre; otherwise the
    /// centre moves to the mean of its new points when that mean lies in the
    /// cluster's hue sector (`in_sector[k]`), and else the cluster freezes and
    /// claims its new points. The run has converged when nothing froze and no
    /// moving centre moved by more than the tolerance (`moved[k]`).
    pub fn update(
        &mut self,
        assignment: &Assignment,
        in_sector: &[bool; NUM_CLUSTERS],
        moved: &[bool; NUM_CLUSTERS],
    ) -> (out: StepOutcome)
        requires
            old(self).wf(),
            assignment.clusters@.len() == old(self).label_seq().len(),
            all_clusters(assignment.clusters@),
        ensures
            final(self).wf(),
            out.updates@ == step_updates(old(self).active_seq(), assignment.counts@, in_sector@),
            out.converged == step_converged(out.updates@, moved@),
            final(self).active_seq() == step_active(old(self).active_seq(), out.updates@),
            final(self).label_seq() == step_labels(
                old(self).label_seq(),
                assignment.clusters@,
                out.updates@,
            ),
            forall|k: int|
                0 <= k < NUM_CLUSTERS && (!old(self).active_seq()[k] || assignment.counts[k] == 0)
                    ==> #[trigger] out.updates@[k] == CenterUpdate::Keep,
            forall|k: int|
                0 <= k < NUM_CLUSTERS && old(self).active_seq()[k] && assignment.counts[k] > 0 ==> (
                (#[trigger] out.updates@[k] == CenterUpdate::Move) == in_sector@[k] && (
                out.updates@[k] == CenterUpdate::Freeze) == !in_sector@[k]),
            forall|k: int|
                0 <= k < NUM_CLUSTERS ==> (#[trigger] out.updates@[k] == CenterUpdate::Freeze
                    ==> !final(self).active_seq()[k]) && (out.updates@[k] != CenterUpdate::Freeze
                    ==> final(self).active_seq()[k] == old(self).active_seq()[k]),
            final(self).label_seq().len() == old(self).label_seq().len(),
            forall|i: int|
                0 <= i < old(self).label_seq().len() ==> {
                    let c = assignment.clusters@[i];
                    if old(self).label_seq()[i] == UNASSIGNED && out.updates@[c as int]
                        == CenterUpdate::Freeze {
                        #[trigger] final(self).label_seq()[i] == c
                    } else {
                        final(self).label_seq()[i] == old(self).label_seq()[i]
                    }
                },
            out.converged == forall|k: int|
                0 <= k < NUM_CLUSTERS ==> #[trigger] out.updates@[k] != CenterUpdate::Freeze && (
                out.updates@[k] == CenterUpdate::Move ==> !moved@[k]),
    {
        let ghost updates_spec = step_updates(self.active_seq(), assignment.counts@, in_sector@);
        let mut updates = [CenterUpdate::Keep; NUM_CLUSTERS];
        let mut converged = true;
        for k in 0..NUM_CLUSTERS
            invariant
                self.active_seq() == old(self).active_seq(),
                updates_spec == step_updates(self.active_seq(), assignment.counts@, in_sector@),
                forall|j: int| 0 <= j < k ==> updates@[j] == updates_spec[j],
                converged == (forall|j: int|
                    0 <= j < k ==> updates_spec[j] != CenterUpdate::Freeze && (updates_spec[j]
                        == CenterUpdate::Move ==> !moved@[j])),
        {
            let u = if !self.active[k] || assignment.counts[k] == 0 {
                CenterUpdate::Keep
            } else if in_sector[k] {
                CenterUpdate::Move
            } else {
                CenterUpdate::Freeze
            };
            assert(self.active_seq()[k as int] == self.active[k as int]);
            assert(u == updates_spec[k as int]);
            match u {
                CenterUpdate::Keep => {},
                CenterUpdate::Move => {
                    if moved[k] {
                        converged = false;
                    }
                },
                CenterUpdate::Freeze => {
                    converged = false;
                },
            }
            updates[k] = u;
        }
        assert(updates@ =~= updates_spec);

        let n = self.labels.len();
        let ghost labels0 = self.label_seq();
        let ghost target = step_labels(labels0, assignment.clusters@, updates@);
        for i in 0..n
            invariant
                n == labels0.len(),
                assignment.clusters@.len() == n,
                all_clusters(assignment.clusters@),
                updates@ == updates_spec,
                target == step_labels(labels0, assignment.clusters@, updates@),
                self.active_seq() == old(self).active_seq(),
                self.label_seq().len() == n,
                forall|j: int| 0 <= j < i ==> self.label_seq()[j] == target[j],
                forall|j: int| i <= j < n ==> self.label_seq()[j] == labels0[j],
        {
            let l = self.labels[i];
            if l == UNASSIGNED {
                let c = assignment.clusters[i];
                if updates[c as usize] == CenterUpdate::Freeze {
                    self.labels.set(i, c);
                }
            }
        }
        assert(self.label_seq() =~= target);

        for k in 0..NUM_CLUSTERS
            invariant
                updates@ == updates_spec,
                self.label_seq() == target,
                forall|j: int|
                    0 <= j < k ==> self.active_seq()[j] == (old(self).active_seq()[j]
                        && updates@[j] != CenterUpdate::Freeze),
                forall|j: int|
                    k <= j < NUM_CLUSTERS ==> self.active_seq()[j] == old(self).active_seq()[j],
        {
            if updates[k] == CenterUpdate::Freeze {
                self.active[k] = false;
            }
        }
        assert(self.active_seq() =~= step_active(old(self).active_seq(), updates@));
        StepOutcome { converged, updates }
    }

    /// Ends the run: every point without a fixed label goes to its nearest
    /// centre.
    pub fn finish(self, nearest: &[u8]) -> (labels: Vec<u8>)
        requires
            self.wf(),
            nearest@.len() == self.label_seq().len(),
            all_clusters(nearest@),
        ensures
            labels@ == resolve_labels(self.label_seq(), nearest@),
            all_clusters(labels@),
    {
        let mut labels = self.labels;
        let n = labels.len();
        let ghost labels0 = labels@;
        for i in 0..n
            invariant
                n == labels0.len(),
                labels0 == self.label_seq(),
                labels_fit_activity(labels0, self.active_seq()),
                nearest@.len() == n,
                all_clusters(nearest@),
                labels@.len() == n,
                forall|j: int| 0 <= j < i ==> labels@[j] == resolve_labels(labels0, nearest@)[j],
                forall|j: int| i <= j < n ==> labels@[j] == labels0[j],
        {
            if labels[i] == UNASSIGNED {
                labels.set(i, nearest[i]);
            }
        }
        assert(labels@ =~= resolve_labels(labels0, nearest@));
        assert forall|i: int| 0 <= i < labels@.len() implies #[trigger] labels@[i] < NUM_CLUSTERS by {
            assert(labels0[i] == UNASSIGNED || labels0[i] < NUM_CLUSTERS);
        }
        labels
    }
}

} // verus!
