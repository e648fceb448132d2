use vstd::prelude::*;

verus! {

/// One whole score point, in the fixed-point units that scores are given in.
pub const SCORE_UNIT: i64 = 1_000_000;

/// Pairs farther apart than two score points (in score units) are not matched.
pub const THRESHOLD: u128 = 2_000_000;

/// The most matches kept for one queried guest.
pub const MATCHES_LIMIT: usize = 20;

/// The denominator of a distance: the topic count, or 1 when no topic is known
/// (the distance is then the degenerate value 0, as its sum is 0).
pub open spec fn denom(thematics: nat) -> nat {
    if thematics == 0 {
        1
    } else {
        thematics
    }
}

/// `sum_a / thematics_a <= sum_b / thematics_b`, as fractions.
pub open spec fn frac_le(sum_a: nat, thematics_a: nat, sum_b: nat, thematics_b: nat) -> bool {
    sum_a * denom(thematics_b) <= sum_b * denom(thematics_a)
}

/// `sum / thematics > 2`, in score points.
pub open spec fn frac_exceeds_threshold(sum: nat, thematics: nat) -> bool {
    sum > THRESHOLD * denom(thematics)
}

/// The comparison of fractions is total.
pub proof fn lemma_frac_le_total(sa: nat, ta: nat, sb: nat, tb: nat)
    ensures
        frac_le(sa, ta, sb, tb) || frac_le(sb, tb, sa, ta),
{
}

/// The comparison of fractions is transitive.
pub proof fn lemma_frac_le_transitive(sa: nat, ta: nat, sb: nat, tb: nat, sc: nat, tc: nat)
    requires
        frac_le(sa, ta, sb, tb),
        frac_le(sb, tb, sc, tc),
    ensures
        frac_le(sa, ta, sc, tc),
{
    let da = denom(ta);
    let db = denom(tb);
    let dc = denom(tc);
    assert(sa * db * dc <= sb * da * dc) by (nonlinear_arith)
        requires
            sa * db <= sb * da,
    ;
    assert(sb * dc * da <= sc * db * da) by (nonlinear_arith)
        requires
            sb * dc <= sc * db,
    ;
    assert(sa * dc * db <= sc * da * db) by (nonlinear_arith)
        requires
            sa * db * dc <= sb * da * dc,
            sb * dc * da <= sc * db * da,
    ;
    assert(sa * dc <= sc * da) by (nonlinear_arith)
        requires
            sa * dc * db <= sc * da * db,
            db > 0,
    ;
}

/// How far apart two guests are: the summed score differences over the topic
/// count, kept as an exact fraction.
#[derive(Clone, Copy, Debug, PartialEq, Eq, Structural)]
pub struct TotalDistance {
    pub sum: u128,
    pub thematics: usize,
}

impl TotalDistance {
    /// Whether the distance is above two score points.
    pub fn exceeds_threshold(&self) -> (r: bool)
        ensures
            r == frac_exceeds_threshold(self.sum as nat, self.thematics as nat),
    {
        let d: u128 = if self.thematics == 0 {
            1
        } else {
            self.thematics as u128
        };
        assert(THRESHOLD * d <= 2_000_000 * 0x1_0000_0000_0000_0000) by (nonlinear_arith)
            requires
                d <= 0x1_0000_0000_0000_0000,
        ;
        self.sum > THRESHOLD * d
    }

    /// Whether this distance is at most `other`.
    pub fn le(&self, other: &TotalDistance) -> (r: bool)
        ensures
            r == frac_le(
                self.sum as nat,
                self.thematics as nat,
                other.sum as nat,
                other.thematics as nat,
            ),
    {
        let da: u128 = if self.thematics == 0 {
            1
        } else {
            self.thematics as u128
        };
        let db: u128 = if other.thematics == 0 {
            1
        } else {
            other.thematics as u128
        };
        let qa = self.sum / da;
        let ra = self.sum % da;
        let qb = other.sum / db;
        let rb = other.sum % db;
        let ghost a = self.sum as int;
        let ghost b = other.sum as int;
        proof {
            assert(a == qa * da + ra) by (nonlinear_arith)
                requires
                    da > 0,
                    qa == a / da as int,
                    ra == a % da as int,
            ;
            assert(b == qb * db + rb) by (nonlinear_arith)
                requires
                    db > 0,
                    qb == b / db as int,
                    rb == b % db as int,
            ;
        }
        if qa < qb {
            proof {
                assert(a * db < b * da) by (nonlinear_arith)
                    requires
                        a == qa * da + ra,
                        b == qb * db + rb,
                        0 <= ra < da,
                        0 <= rb,
                        qa + 1 <= qb,
                        da > 0,
                        db > 0,
                ;
            }
            true
        } else if qa > qb {
            proof {
                assert(b * da < a * db) by (nonlinear_arith)
                    requires
                        a == qa * da + ra,
                        b == qb * db + rb,
                        0 <= rb < db,
                        0 <= ra,
                        qb + 1 <= qa,
                        da > 0,
                        db > 0,
                ;
            }
            false
        } else {
            proof {
                assert(ra * db < 0x1_0000_0000_0000_0000 * 0x1_0000_0000_0000_0000)
                    by (nonlinear_arith)
                    requires
                        ra < da,
                        da <= 0x1_0000_0000_0000_0000,
                        db <= 0x1_0000_0000_0000_0000,
                ;
                assert(rb * da < 0x1_0000_0000_0000_0000 * 0x1_0000_0000_0000_0000)
                    by (nonlinear_arith)
                    requires
                        rb < db,
                        da <= 0x1_0000_0000_0000_0000,
                        db <= 0x1_0000_0000_0000_0000,
                ;
                assert((a * db <= b * da) == (ra * db <= rb * da)) by (nonlinear_arith)
                    requires
                        a == qa * da + ra,
                        b == qb * db + rb,
                        qa == qb,
                ;
            }
            ra * db <= rb * da
        }
    }
}

/// A match between two guests: who, and how far apart.
#[derive(Clone, Debug, PartialEq, Eq)]
pub struct Distance {
    pub guest_a_id: String,
    pub guest_b_id: String,
    pub distance: TotalDistance,
}

/// What a `Distance` stands for: two ids and a fraction.
pub struct DistanceView {
    pub guest_a_id: Seq<char>,
    pub guest_b_id: Seq<char>,
    pub sum: nat,
    pub thematics: nat,
}

impl DistanceView {
    /// This distance is at most `other`'s.
    pub open spec fn le(self, other: DistanceView) -> bool {
        frac_le(self.sum, self.thematics, other.sum, other.thematics)
    }
}

impl View for Distance {
    type V = DistanceView;

    open spec fn view(&self) -> DistanceView {
        DistanceView {
            guest_a_id: self.guest_a_id@,
            guest_b_id: self.guest_b_id@,
            sum: self.distance.sum as nat,
            thematics: self.distance.thematics as nat,
        }
    }
}

impl Distance {
    pub fn new(guest_a_id: String, guest_b_id: String, distance: TotalDistance) -> (r: Self)
        ensures
            r.guest_a_id@ == guest_a_id@,
            r.guest_b_id@ == guest_b_id@,
            r.distance == distance,
    {
        Distance { guest_a_id, guest_b_id, distance }
    }
}

} // verus!
