use vstd::prelude::*;

use crate::distance::{frac_exceeds_threshold, Distance, DistanceView, TotalDistance, MATCHES_LIMIT};
use crate::ranking::{capped, is_best_matches, nearest_matches, views};

verus! {

/// The largest difference between two `i64` scores.
pub const MAX_SCORE_DIFF: u128 = 0xFFFF_FFFF_FFFF_FFFF;

/// The text of each id in a list of ids.
pub open spec fn ids_view(v: Seq<String>) -> Seq<Seq<char>> {
    v.map_values(|s: String| s@)
}

/// `known` followed by each id of `ids` that is not already there, first
/// occurrence first.
pub open spec fn merge_ids(known: Seq<Seq<char>>, ids: Seq<Seq<char>>) -> Seq<Seq<char>>
    decreases ids.len(),
{
    if ids.len() == 0 {
        known
    } else {
        let merged = merge_ids(known, ids.drop_last());
        if merged.contains(ids.last()) {
            merged
        } else {
            merged.push(ids.last())
        }
    }
}

/// `|x - y|`.
pub open spec fn abs_diff(x: i64, y: i64) -> nat {
    if x >= y {
        (x - y) as nat
    } else {
        (y - x) as nat
    }
}

/// What the store holds: a score per (guest, topic), the known topics with
/// their count, and the candidate guests.
pub struct CalculatorView {
    pub scores: Map<(Seq<char>, Seq<char>), i64>,
    pub thematic_ids: Seq<Seq<char>>,
    pub other_guest_ids: Seq<Seq<char>>,
    pub thematics_count: nat,
}

impl CalculatorView {
    /// The store with nothing in it.
    pub open spec fn empty() -> CalculatorView {
        CalculatorView {
            scores: Map::empty(),
            thematic_ids: Seq::empty(),
            other_guest_ids: Seq::empty(),
            thematics_count: 0,
        }
    }

    /// Registries hold each id once, and the topic count is the number of topics.
    pub open spec fn valid(self) -> bool {
        &&& self.thematic_ids.no_duplicates()
        &&& self.other_guest_ids.no_duplicates()
        &&& self.thematics_count == self.thematic_ids.len()
    }

    /// The store after `score` is stored for `guest` on `topic`.
    pub open spec fn with_score(self, guest: Seq<char>, topic: Seq<char>, score: i64) -> CalculatorView {
        CalculatorView {
            scores: self.scores.insert((guest, topic), score),
            thematic_ids: self.thematic_ids,
            other_guest_ids: self.other_guest_ids,
            thematics_count: self.thematics_count,
        }
    }

    /// The store after `ids` are registered as topics: each new one is added
    /// and counted once.
    pub open spec fn with_thematic_ids(self, ids: Seq<Seq<char>>) -> CalculatorView {
        let merged = merge_ids(self.thematic_ids, ids);
        CalculatorView {
            scores: self.scores,
            thematic_ids: merged,
            other_guest_ids: self.other_guest_ids,
            thematics_count: (self.thematics_count + (merged.len() - self.thematic_ids.len())) as nat,
        }
    }

    /// The store after `ids` are registered as candidates.
    pub open spec fn with_other_guest_ids(self, ids: Seq<Seq<char>>) -> CalculatorView {
        CalculatorView {
            scores: self.scores,
            thematic_ids: self.thematic_ids,
            other_guest_ids: merge_ids(self.other_guest_ids, ids),
            thematics_count: self.thematics_count,
        }
    }

    /// The score of `guest` on `topic`, if there is one.
    pub open spec fn score(self, guest: Seq<char>, topic: Seq<char>) -> Option<i64> {
        if self.scores.contains_key((guest, topic)) {
            Some(self.scores[(guest, topic)])
        } else {
            None
        }
    }

    /// How far apart `a` and `b` are on `topic`: 0 unless both have a score there.
    pub open spec fn score_diff(self, a: Seq<char>, b: Seq<char>, topic: Seq<char>) -> nat {
        match (self.score(a, topic), self.score(b, topic)) {
            (Some(x), Some(y)) => abs_diff(x, y),
            _ => 0,
        }
    }

    /// The differences of `a` and `b` summed over `topics`.
    pub open spec fn diff_sum(self, a: Seq<char>, b: Seq<char>, topics: Seq<Seq<char>>) -> nat
        decreases topics.len(),
    {
        if topics.len() == 0 {
            0
        } else {
            self.diff_sum(a, b, topics.drop_last()) + self.score_diff(a, b, topics.last())
        }
    }

    /// The differences of `a` and `b` summed over every known topic.
    pub open spec fn distance_sum(self, a: Seq<char>, b: Seq<char>) -> nat {
        self.diff_sum(a, b, self.thematic_ids)
    }

    /// The match of `a` with `b`: the summed differences over the topic count.
    pub open spec fn match_of(self, a: Seq<char>, b: Seq<char>) -> DistanceView {
        DistanceView {
            guest_a_id: a,
            guest_b_id: b,
            sum: self.distance_sum(a, b),
            thematics: self.thematics_count,
        }
    }

    /// `a` and `b` are at most two score points apart.
    pub open spec fn within_threshold(self, a: Seq<char>, b: Seq<char>) -> bool {
        !frac_exceeds_threshold(self.distance_sum(a, b), self.thematics_count)
    }

    /// The matches of `guest` with each of `candidates` that is within the
    /// threshold, in the candidates' order.
    pub open spec fn eligible(self, guest: Seq<char>, candidates: Seq<Seq<char>>) -> Seq<
        DistanceView,
    >
        decreases candidates.len(),
    {
        if candidates.len() == 0 {
            Seq::empty()
        } else {
            let prev = self.eligible(guest, candidates.drop_last());
            if self.within_threshold(guest, candidates.last()) {
                prev.push(self.match_of(guest, candidates.last()))
            } else {
                prev
            }
        }
    }

    /// The matches of `guest` with the registered candidates that are within
    /// the threshold.
    pub open spec fn eligible_matches(self, guest: Seq<char>) -> Seq<DistanceView> {
        self.eligible(guest, self.other_guest_ids)
    }

    /// How many matches `guest` gets.
    pub open spec fn group_len(self, guest: Seq<char>) -> nat {
        capped(self.eligible_matches(guest).len(), MATCHES_LIMIT as nat)
    }

    /// Where the matches of `guests[i]` start in a ranking of `guests`.
    pub open spec fn group_start(self, guests: Seq<Seq<char>>, i: int) -> nat
        decreases i,
    {
        if i <= 0 {
            0
        } else {
            self.group_start(guests, i - 1) + self.group_len(guests[i - 1])
        }
    }

    /// The matches of `guests[i]` within a ranking `r` of `guests`.
    pub open spec fn group(self, guests: Seq<Seq<char>>, r: Seq<DistanceView>, i: int) -> Seq<
        DistanceView,
    > {
        r.subrange(self.group_start(guests, i) as int, self.group_start(guests, i + 1) as int)
    }

    /// `r` ranks `guests`: for each guest in turn, its nearest eligible matches,
    /// nearest first, at most the limit of them.
    pub open spec fn is_ranking(self, guests: Seq<Seq<char>>, r: Seq<DistanceView>) -> bool {
        &&& r.len() == self.group_start(guests, guests.len() as int)
        &&& forall|i: int|
            0 <= i < guests.len() ==> #[trigger] is_best_matches(
                self.group(guests, r, i),
                self.eligible_matches(guests[i]),
                MATCHES_LIMIT as nat,
            )
    }
}

/// Matches start no later for an earlier guest.
pub proof fn lemma_group_start_monotonic(
    v: CalculatorView,
    guests: Seq<Seq<char>>,
    i: int,
    j: int,
)
    requires
        0 <= i <= j,
    ensures
        v.group_start(guests, i) <= v.group_start(guests, j),
    decreases j - i,
{
    if i < j {
        lemma_group_start_monotonic(v, guests, i, j - 1);
    }
}

/// One stored score.
#[derive(Debug)]
struct ScoreEntry {
    guest_id: String,
    thematic_id: String,
    score: i64,
}

spec fn entry_key(e: ScoreEntry) -> (Seq<char>, Seq<char>) {
    (e.guest_id@, e.thematic_id@)
}

/// The scores that a list of entries holds.
spec fn scores_of(s: Seq<ScoreEntry>) -> Map<(Seq<char>, Seq<char>), i64>
    decreases s.len(),
{
    if s.len() == 0 {
        Map::empty()
    } else {
        scores_of(s.drop_last()).insert(entry_key(s.last()), s.last().score)
    }
}

spec fn keys_unique(s: Seq<ScoreEntry>) -> bool {
    forall|i: int, j: int| 0 <= i < j < s.len() ==> entry_key(s[i]) != entry_key(s[j])
}

proof fn lemma_scores_of(s: Seq<ScoreEntry>, k: (Seq<char>, Seq<char>))
    requires
        keys_unique(s),
    ensures
        scores_of(s).contains_key(k) <==> exists|i: int|
            0 <= i < s.len() && #[trigger] entry_key(s[i]) == k,
        forall|i: int|
            0 <= i < s.len() && #[trigger] entry_key(s[i]) == k ==> scores_of(s)[k] == s[i].score,
    decreases s.len(),
{
    if s.len() > 0 {
        let p = s.drop_last();
        assert(keys_unique(p));
        lemma_scores_of(p, k);
        if entry_key(s.last()) != k {
            if exists|i: int| 0 <= i < s.len() && #[trigger] entry_key(s[i]) == k {
                let i = choose|i: int| 0 <= i < s.len() && #[trigger] entry_key(s[i]) == k;
                assert(entry_key(p[i]) == k);
            }
            assert forall|i: int| 0 <= i < p.len() && #[trigger] entry_key(p[i]) == k implies
                entry_key(s[i]) == k by {}
        } else {
            assert(entry_key(s[s.len() - 1]) == k);
        }
    }
}

proof fn lemma_scores_of_update(s: Seq<ScoreEntry>, i: int, e: ScoreEntry)
    requires
        keys_unique(s),
        0 <= i < s.len(),
        entry_key(e) == entry_key(s[i]),
    ensures
        scores_of(s.update(i, e)) == scores_of(s).insert(entry_key(e), e.score),
    decreases s.len(),
{
    let t = s.update(i, e);
    let p = s.drop_last();
    if i == s.len() - 1 {
        assert(t.drop_last() =~= p);
        assert(scores_of(t) =~= scores_of(s).insert(entry_key(e), e.score));
    } else {
        assert(t.drop_last() =~= p.update(i, e));
        assert(keys_unique(p));
        lemma_scores_of_update(p, i, e);
        assert(entry_key(s.last()) != entry_key(s[i]));
        assert(scores_of(t) =~= scores_of(s).insert(entry_key(e), e.score));
    }
}

/// Scores, topics and candidates, from which distances between guests are
/// computed and ranked.
#[derive(Debug)]
pub struct GuestDistanceCalculator {
    data: Vec<ScoreEntry>,
    thematic_ids: Vec<String>,
    other_guest_ids: Vec<String>,
    thematics_count: usize,
}

impl View for GuestDistanceCalculator {
    type V = CalculatorView;

    closed spec fn view(&self) -> CalculatorView {
        CalculatorView {
            scores: scores_of(self.data@),
            thematic_ids: ids_view(self.thematic_ids@),
            other_guest_ids: ids_view(self.other_guest_ids@),
            thematics_count: self.thematics_count as nat,
        }
    }
}

/// Whether `ids` holds `id`.
fn contains_id(ids: &Vec<String>, id: &String) -> (r: bool)
    ensures
        r == ids_view(ids@).contains(id@),
{
    let mut i: usize = 0;
    while i < ids.len()
        invariant
            i <= ids.len(),
            forall|j: int| 0 <= j < i ==> ids@[j]@ != id@,
        decreases ids.len() - i,
    {
        if ids[i] == *id {
            assert(ids_view(ids@)[i as int] == id@);
            return true;
        }
        i += 1;
    }
    proof {
        if ids_view(ids@).contains(id@) {
            let j = choose|j: int| 0 <= j < ids@.len() && ids_view(ids@)[j] == id@;
            assert(ids@[j]@ == id@);
        }
    }
    false
}

/// Adds to `known` each of `ids` that it lacks; returns how many were added.
fn merge_into(known: &mut Vec<String>, ids: &Vec<String>) -> (added: usize)
    requires
        ids_view(old(known)@).no_duplicates(),
    ensures
        ids_view(final(known)@) == merge_ids(ids_view(old(known)@), ids_view(ids@)),
        ids_view(final(known)@).no_duplicates(),
        final(known)@.len() == old(known)@.len() + added,
        final(known)@.len() <= usize::MAX,
{
    let ghost start = ids_view(known@);
    let mut added: usize = 0;
    let mut i: usize = 0;
    while i < ids.len()
        invariant
            i <= ids.len(),
            ids_view(known@) == merge_ids(start, ids_view(ids@).take(i as int)),
            ids_view(known@).no_duplicates(),
            known@.len() == start.len() + added,
        decreases ids.len() - i,
    {
        let ghost before = ids_view(known@);
        assert(ids_view(ids@).take(i + 1).drop_last() =~= ids_view(ids@).take(i as int));
        if !contains_id(known, &ids[i]) {
            let id = ids[i].clone();
            known.push(id);
            let len = known.len();
            assert(len == start.len() + added + 1);
            added = added + 1;
            assert(ids_view(known@) =~= before.push(ids@[i as int]@));
        }
        i += 1;
    }
    assert(ids_view(ids@).take(ids.len() as int) =~= ids_view(ids@));
    let _ = known.len();
    added
}

impl GuestDistanceCalculator {
    /// The registries hold each id once, the topic count is their number, and
    /// each (guest, topic) has at most one stored score.
    pub open spec fn wf(&self) -> bool {
        self@.valid() && self.entries_unique()
    }

    pub closed spec fn entries_unique(&self) -> bool {
        keys_unique(self.data@)
    }

    pub fn new() -> (r: Self)
        ensures
            r.wf(),
            r@ == CalculatorView::empty(),
    {
        let r = GuestDistanceCalculator {
            data: Vec::new(),
            thematic_ids: Vec::new(),
            other_guest_ids: Vec::new(),
            thematics_count: 0,
        };
        assert(r@.scores =~= Map::empty());
        assert(r@.thematic_ids =~= Seq::empty());
        assert(r@.other_guest_ids =~= Seq::empty());
        r
    }

    /// The index of the stored score of `guest_id` on `thematic_id`, if any.
    fn find_entry(&self, guest_id: &String, thematic_id: &String) -> (r: Option<usize>)
        requires
            self.wf(),
        ensures
            match r {
                Some(i) => i < self.data@.len() && entry_key(self.data@[i as int]) == (
                    guest_id@,
                    thematic_id@,
                ),
                None => !self@.scores.contains_key((guest_id@, thematic_id@)),
            },
    {
        let ghost k = (guest_id@, thematic_id@);
        let mut i: usize = 0;
        while i < self.data.len()
            invariant
                i <= self.data@.len(),
                forall|j: int|
                    0 <= j < i ==> entry_key(#[trigger] self.data@[j]) != (guest_id@, thematic_id@),
            decreases self.data@.len() - i,
        {
            let same_guest = self.data[i].guest_id == *guest_id;
            let same_topic = self.data[i].thematic_id == *thematic_id;
            if same_guest && same_topic {
                return Some(i);
            }
            assert(self.data@[i as int].guest_id@ != guest_id@ || self.data@[i as int].thematic_id@
                != thematic_id@);
            i += 1;
        }
        proof {
            lemma_scores_of(self.data@, k);
        }
        None
    }

    /// Stores `score` for `guest_id` on `thematic_id`, replacing any earlier one.
    pub fn insert_score(&mut self, guest_id: String, thematic_id: String, score: i64)
        requires
            old(self).wf(),
        ensures
            final(self).wf(),
            final(self)@ == old(self)@.with_score(guest_id@, thematic_id@, score),
    {
        let ghost k = (guest_id@, thematic_id@);
        let ghost before = self.data@;
        match self.find_entry(&guest_id, &thematic_id) {
            Some(i) => {
                self.data[i] = ScoreEntry { guest_id, thematic_id, score };
                proof {
                    let after = self.data@;
                    assert(after == before.update(i as int, after[i as int]));
                    lemma_scores_of_update(before, i as int, after[i as int]);
                    assert(keys_unique(after)) by {
                        assert forall|a: int, b: int| 0 <= a < b < after.len() implies entry_key(
                            after[a],
                        ) != entry_key(after[b]) by {
                            assert(entry_key(after[a]) == entry_key(before[a]));
                            assert(entry_key(after[b]) == entry_key(before[b]));
                        }
                    }
                }
            },
            None => {
                self.data.push(ScoreEntry { guest_id, thematic_id, score });
                proof {
                    let after = self.data@;
                    assert(after.drop_last() =~= before);
                    assert(keys_unique(after)) by {
                        lemma_scores_of(before, k);
                        assert forall|a: int, b: int| 0 <= a < b < after.len() implies entry_key(
                            after[a],
                        ) != entry_key(after[b]) by {
                            if b == after.len() - 1 {
                                assert(after[a] == before[a]);
                            } else {
                                assert(after[a] == before[a]);
                                assert(after[b] == before[b]);
                            }
                        }
                    }
                }
            },
        }
    }

    /// Registers topic ids, each at most once, counting each new one.
    pub fn insert_thematic_ids(&mut self, ids: Vec<String>)
        requires
            old(self).wf(),
        ensures
            final(self).wf(),
            final(self)@ == old(self)@.with_thematic_ids(ids_view(ids@)),
    {
        let added = merge_into(&mut self.thematic_ids, &ids);
        self.thematics_count = self.thematics_count + added;
    }

    /// Registers candidate ids, each at most once.
    pub fn insert_other_guest_ids(&mut self, ids: Vec<String>)
        requires
            old(self).wf(),
        ensures
            final(self).wf(),
            final(self)@ == old(self)@.with_other_guest_ids(ids_view(ids@)),
    {
        merge_into(&mut self.other_guest_ids, &ids);
    }

    fn lookup(&self, guest_id: &String, thematic_id: &String) -> (r: Option<i64>)
        requires
            self.wf(),
        ensures
            r == self@.score(guest_id@, thematic_id@),
    {
        match self.find_entry(guest_id, thematic_id) {
            Some(i) => {
                proof {
                    lemma_scores_of(self.data@, (guest_id@, thematic_id@));
                }
                Some(self.data[i].score)
            },
            None => None,
        }
    }

    /// The score of `guest_id` on `thematic_id`, if one is stored.
    pub fn get_score(&self, guest_id: String, thematic_id: String) -> (r: Option<i64>)
        requires
            self.wf(),
        ensures
            r == self@.score(guest_id@, thematic_id@),
    {
        self.lookup(&guest_id, &thematic_id)
    }

    /// How far apart two guests are over every known topic: the summed
    /// differences of their scores on the topics where both have one, over the
    /// topic count.
    pub fn calculate_total_distance(&self, guest_a_id: String, guest_b_id: String) -> (r:
        TotalDistance)
        requires
            self.wf(),
        ensures
            r.sum == self@.distance_sum(guest_a_id@, guest_b_id@),
            r.thematics == self@.thematics_count,
    {
        let ghost topics = self@.thematic_ids;
        let mut total: u128 = 0;
        let mut i: usize = 0;
        while i < self.thematic_ids.len()
            invariant
                self.wf(),
                topics == self@.thematic_ids,
                i <= topics.len(),
                total == self@.diff_sum(guest_a_id@, guest_b_id@, topics.take(i as int)),
                total <= i * MAX_SCORE_DIFF,
            decreases topics.len() - i,
        {
            let topic = &self.thematic_ids[i];
            assert(topics.take(i + 1).drop_last() =~= topics.take(i as int));
            assert(topics.take(i + 1).last() == topic@);
            let diff: u128 = match (self.lookup(&guest_a_id, topic), self.lookup(&guest_b_id, topic)) {
                (Some(x), Some(y)) => {
                    if x >= y {
                        (x as i128 - y as i128) as u128
                    } else {
                        (y as i128 - x as i128) as u128
                    }
                },
                _ => 0,
            };
            assert(total + diff <= (i + 1) * MAX_SCORE_DIFF <= 0x1_0000_0000_0000_0000
                * MAX_SCORE_DIFF) by (nonlinear_arith)
                requires
                    total <= i * MAX_SCORE_DIFF,
                    diff <= MAX_SCORE_DIFF,
                    i + 1 <= 0x1_0000_0000_0000_0000,
            ;
            total = total + diff;
            i += 1;
        }
        assert(topics.take(topics.len() as int) =~= topics);
        TotalDistance { sum: total, thematics: self.thematics_count }
    }

    /// The match of two guests, unless they are more than two score points apart.
    pub fn sum_distances_on_all_thematics(&self, guest_a_id: String, guest_b_id: String) -> (r:
        Option<Distance>)
        requires
            self.wf(),
        ensures
            match r {
                Some(d) => self@.within_threshold(guest_a_id@, guest_b_id@) && d@ == self@.match_of(
                    guest_a_id@,
                    guest_b_id@,
                ),
                None => !self@.within_threshold(guest_a_id@, guest_b_id@),
            },
    {
        let total = self.calculate_total_distance(guest_a_id.clone(), guest_b_id.clone());
        if total.exceeds_threshold() {
            None
        } else {
            Some(Distance::new(guest_a_id, guest_b_id, total))
        }
    }

    /// Ranks candidates for each of `guests_slice_ids` in turn: the candidates
    /// within the threshold, nearest first, at most twenty of them per guest.
    pub fn calculate_distances(&self, guests_slice_ids: Vec<String>) -> (r: Vec<Distance>)
        requires
            self.wf(),
        ensures
            self@.is_ranking(ids_view(guests_slice_ids@), views(r@)),
    {
        let ghost guests = ids_view(guests_slice_ids@);
        let ghost candidates = self@.other_guest_ids;
        let mut all: Vec<Distance> = Vec::new();
        let mut i: usize = 0;
        while i < guests_slice_ids.len()
            invariant
                self.wf(),
                guests == ids_view(guests_slice_ids@),
                candidates == self@.other_guest_ids,
                i <= guests.len(),
                views(all@).len() == self@.group_start(guests, i as int),
                forall|j: int|
                    0 <= j < i ==> #[trigger] is_best_matches(
                        self@.group(guests, views(all@), j),
                        self@.eligible_matches(guests[j]),
                        MATCHES_LIMIT as nat,
                    ),
            decreases guests.len() - i,
        {
            let guest = &guests_slice_ids[i];
            let mut eligible: Vec<Distance> = Vec::new();
            let mut k: usize = 0;
            while k < self.other_guest_ids.len()
                invariant
                    self.wf(),
                    candidates == self@.other_guest_ids,
                    k <= candidates.len(),
                    views(eligible@) == self@.eligible(guest@, candidates.take(k as int)),
                decreases candidates.len() - k,
            {
                assert(candidates.take(k + 1).drop_last() =~= candidates.take(k as int));
                assert(candidates.take(k + 1).last() == self.other_guest_ids@[k as int]@);
                let ghost before = eligible@;
                match self.sum_distances_on_all_thematics(
                    guest.clone(),
                    self.other_guest_ids[k].clone(),
                ) {
                    Some(d) => {
                        eligible.push(d);
                        assert(views(eligible@) =~= views(before).push(d@));
                    },
                    None => {},
                }
                k += 1;
            }
            assert(candidates.take(candidates.len() as int) =~= candidates);
            let mut group = nearest_matches(eligible, MATCHES_LIMIT);
            let ghost prev = all@;
            let ghost g = group@;
            all.append(&mut group);
            proof {
                assert(views(all@) =~= views(prev) + views(g));
                assert(guests[i as int] == guest@);
                lemma_group_start_monotonic(self@, guests, 0, i as int);
                assert forall|j: int|
                    0 <= j < i + 1 implies #[trigger] is_best_matches(
                    self@.group(guests, views(all@), j),
                    self@.eligible_matches(guests[j]),
                    MATCHES_LIMIT as nat,
                ) by {
                    if j < i {
                        lemma_group_start_monotonic(self@, guests, j + 1, i as int);
                        assert(self@.group(guests, views(all@), j) =~= self@.group(
                            guests,
                            views(prev),
                            j,
                        ));
                    } else {
                        assert(self@.group(guests, views(all@), j) =~= views(g));
                    }
                }
            }
            i += 1;
        }
        assert(guests.len() == guests_slice_ids@.len());
        all
    }

    /// Empties the scores and both registries.
    pub fn clear(&mut self)
        requires
            old(self).wf(),
        ensures
            final(self).wf(),
            final(self)@ == CalculatorView::empty(),
    {
        self.data.clear();
        self.thematic_ids.clear();
        self.other_guest_ids.clear();
        self.thematics_count = 0;
        assert(self@.scores =~= Map::empty());
        assert(self@.thematic_ids =~= Seq::empty());
        assert(self@.other_guest_ids =~= Seq::empty());
    }
}

} // verus!
