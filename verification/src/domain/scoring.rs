use vstd::prelude::*;

use crate::domain::feature::{FeatureInfo, InfoView, PlayerId};
use crate::domain::tile::EdgeKind;

verus! {

#[derive(Debug, Clone, Copy, PartialEq, Eq, Structural)]
pub enum FeatureKind {
    Road,
    City,
    Monastery,
    Farm,
}

/// Points scored for one feature: who gets them and whose followers go home.
#[derive(Debug, Clone, PartialEq, Eq)]
pub struct ScoringEvent {
    pub kind: FeatureKind,
    pub points: u32,
    pub winners: Vec<PlayerId>,
    pub meeples_returned: Vec<PlayerId>,
}

pub struct EventView {
    pub kind: FeatureKind,
    pub points: u32,
    pub winners: Seq<PlayerId>,
    pub meeples_returned: Seq<PlayerId>,
}

impl View for ScoringEvent {
    type V = EventView;

    open spec fn view(&self) -> EventView {
        EventView {
            kind: self.kind,
            points: self.points,
            winners: self.winners@,
            meeples_returned: self.meeples_returned@,
        }
    }
}

/// The view of an optional scoring event.
pub open spec fn opt_view(r: Option<ScoringEvent>) -> Option<EventView> {
    match r {
        Some(e) => Some(e@),
        None => None,
    }
}

/// How many of the followers in `s` belong to `p`.
pub open spec fn count_of(s: Seq<PlayerId>, p: PlayerId) -> nat
    decreases s.len(),
{
    if s.len() == 0 {
        0
    } else {
        count_of(s.drop_last(), p) + if s.last() == p {
            1nat
        } else {
            0nat
        }
    }
}

/// `p` has followers in `s`, and nobody has more.
pub open spec fn is_majority(s: Seq<PlayerId>, p: PlayerId) -> bool {
    &&& count_of(s, p) > 0
    &&& forall|q: PlayerId| #[trigger] count_of(s, q) <= count_of(s, p)
}

/// The players holding the most followers in `s`, in increasing order.
pub open spec fn is_majority_list(s: Seq<PlayerId>, r: Seq<PlayerId>) -> bool {
    &&& forall|i: int, j: int| 0 <= i < j < r.len() ==> r[i] < r[j]
    &&& forall|p: PlayerId| r.contains(p) <==> is_majority(s, p)
}

/// The majority holders among the player numbers below `n`, in increasing order.
pub open spec fn majority_upto(s: Seq<PlayerId>, n: nat) -> Seq<PlayerId>
    decreases n,
{
    if n == 0 {
        Seq::empty()
    } else {
        let q = (n - 1) as u8;
        majority_upto(s, (n - 1) as nat) + if is_majority(s, q) {
            seq![q]
        } else {
            Seq::empty()
        }
    }
}

/// Everyone holding the most followers in `s`, in increasing order.
pub open spec fn spec_majority(s: Seq<PlayerId>) -> Seq<PlayerId> {
    majority_upto(s, 256)
}

pub proof fn lemma_count_positive_contains(s: Seq<PlayerId>, p: PlayerId)
    requires
        count_of(s, p) > 0,
    ensures
        s.contains(p),
    decreases s.len(),
{
    if s.last() != p {
        lemma_count_positive_contains(s.drop_last(), p);
        let j = choose|j: int| 0 <= j < s.drop_last().len() && s.drop_last()[j] == p;
        assert(s[j] == p);
    } else {
        assert(s[s.len() - 1] == p);
    }
}

pub proof fn lemma_count_le_len(s: Seq<PlayerId>, p: PlayerId)
    ensures
        count_of(s, p) <= s.len(),
    decreases s.len(),
{
    if s.len() > 0 {
        lemma_count_le_len(s.drop_last(), p);
    }
}

/// The number of followers of `p` in `s`, computed by a scan.
fn count_in(s: &[PlayerId], p: PlayerId) -> (c: usize)
    ensures
        c == count_of(s@, p),
{
    let mut c: usize = 0;
    let mut i: usize = 0;
    while i < s.len()
        invariant
            i <= s@.len(),
            c == count_of(s@.take(i as int), p),
            c <= i,
        decreases s@.len() - i,
    {
        assert(s@.take(i + 1).drop_last() =~= s@.take(i as int));
        if s[i] == p {
            c = c + 1;
        }
        i = i + 1;
    }
    assert(s@.take(i as int) =~= s@);
    c
}

/// Every follower present in `s` is counted at least once.
pub proof fn lemma_count_index_positive(s: Seq<PlayerId>, j: int)
    requires
        0 <= j < s.len(),
    ensures
        count_of(s, s[j]) > 0,
    decreases s.len(),
{
    if j < s.len() - 1 {
        lemma_count_index_positive(s.drop_last(), j);
    }
}

/// Everyone holding the largest number of followers in `meeples`, in increasing
/// order; empty when there are no followers.
pub fn majority_owners(meeples: &[PlayerId]) -> (r: Vec<PlayerId>)
    ensures
        r@ == spec_majority(meeples@),
        is_majority_list(meeples@, r@),
        meeples@.len() == 0 <==> r@.len() == 0,
{
    let mut best: usize = 0;
    let mut i: usize = 0;
    while i < meeples.len()
        invariant
            i <= meeples@.len(),
            forall|j: int| 0 <= j < i ==> count_of(meeples@, #[trigger] meeples@[j]) <= best,
            i > 0 ==> exists|j: int| 0 <= j < i && count_of(meeples@, #[trigger] meeples@[j]) == best,
            i == 0 ==> best == 0,
        decreases meeples@.len() - i,
    {
        let c = count_in(meeples, meeples[i]);
        if c > best {
            best = c;
        }
        i = i + 1;
    }
    let ghost witness: PlayerId = 0;
    proof {
        assert forall|q: PlayerId| #[trigger] count_of(meeples@, q) <= best by {
            if count_of(meeples@, q) > 0 {
                lemma_count_positive_contains(meeples@, q);
                let j = choose|j: int| 0 <= j < meeples@.len() && meeples@[j] == q;
                assert(count_of(meeples@, meeples@[j]) <= best);
            }
        }
        if meeples@.len() > 0 {
            let j = choose|j: int| 0 <= j < meeples@.len() && count_of(meeples@, #[trigger] meeples@[j]) == best;
            lemma_count_index_positive(meeples@, j);
            witness = meeples@[j];
        }
    }
    let mut r: Vec<PlayerId> = Vec::new();
    let mut p: u16 = 0;
    while p < 256
        invariant
            p <= 256,
            forall|q: PlayerId| #[trigger] count_of(meeples@, q) <= best,
            meeples@.len() > 0 ==> best > 0 && count_of(meeples@, witness) == best,
            meeples@.len() == 0 ==> best == 0,
            forall|k: int| 0 <= k < r@.len() ==> r@[k] < p,
            forall|a: int, b: int| 0 <= a < b < r@.len() ==> r@[a] < r@[b],
            forall|q: PlayerId| q < p ==> (r@.contains(q) <==> is_majority(meeples@, q)),
            r@ == majority_upto(meeples@, p as nat),
        decreases 256 - p,
    {
        let q = p as u8;
        let c = count_in(meeples, q);
        let ghost r0 = r@;
        if best > 0 && c == best {
            r.push(q);
        }
        proof {
            assert(is_majority(meeples@, q) <==> (best > 0 && c == best)) by {
                if is_majority(meeples@, q) {
                    assert(count_of(meeples@, witness) <= count_of(meeples@, q));
                }
            }
            assert(r@ =~= majority_upto(meeples@, (p + 1) as nat));
            assert forall|x: PlayerId| x < p + 1 implies (r@.contains(x) <==> is_majority(meeples@, x)) by {
                if x == q {
                    if best > 0 && c == best {
                        assert(r@[r@.len() - 1] == x);
                    } else {
                        if r@.contains(x) {
                            let k = choose|k: int| 0 <= k < r@.len() && r@[k] == x;
                            assert(r0[k] < p);
                        }
                        if is_majority(meeples@, x) {
                            assert(count_of(meeples@, witness) <= count_of(meeples@, x));
                        }
                    }
                } else {
                    if r@.contains(x) {
                        let k = choose|k: int| 0 <= k < r@.len() && r@[k] == x;
                        assert(k < r0.len());
                        assert(r0.contains(x));
                    }
                    if r0.contains(x) {
                        let k = choose|k: int| 0 <= k < r0.len() && r0[k] == x;
                        assert(r@[k] == x);
                    }
                }
            }
        }
        p = p + 1;
    }
    proof {
        if meeples@.len() > 0 {
            assert(is_majority(meeples@, witness));
            assert(r@.contains(witness));
        } else {
            if r@.len() > 0 {
                assert(r@.contains(r@[0]));
            }
        }
    }
    r
}

/// A fresh vector holding the same player numbers as `s`.
pub(crate) fn copy_ids(s: &[PlayerId]) -> (r: Vec<PlayerId>)
    ensures
        r@ == s@,
{
    let mut r: Vec<PlayerId> = Vec::new();
    let mut i: usize = 0;
    while i < s.len()
        invariant
            i <= s@.len(),
            r@ == s@.take(i as int),
        decreases s@.len() - i,
    {
        r.push(s[i]);
        i = i + 1;
        assert(r@ =~= s@.take(i as int));
    }
    assert(s@.take(i as int) =~= s@);
    r
}

/// The points, winners and returned followers for a feature that has just
/// been closed; fields are not scored this way.
pub open spec fn completed_event(info: InfoView) -> Option<EventView> {
    match info.kind {
        EdgeKind::Road => Some(
            EventView {
                kind: FeatureKind::Road,
                points: info.tiles,
                winners: spec_majority(info.meeples),
                meeples_returned: info.meeples,
            },
        ),
        EdgeKind::City => Some(
            EventView {
                kind: FeatureKind::City,
                points: (info.tiles * 2 + info.shields * 2) as u32,
                winners: spec_majority(info.meeples),
                meeples_returned: info.meeples,
            },
        ),
        EdgeKind::Field => None,
    }
}

/// The points for a road or city left open at the end of the game; only one
/// holding followers scores.
pub open spec fn incomplete_event(info: InfoView) -> Option<EventView> {
    if info.meeples.len() == 0 {
        None
    } else {
        match info.kind {
            EdgeKind::Road => Some(
                EventView {
                    kind: FeatureKind::Road,
                    points: info.tiles,
                    winners: spec_majority(info.meeples),
                    meeples_returned: info.meeples,
                },
            ),
            EdgeKind::City => Some(
                EventView {
                    kind: FeatureKind::City,
                    points: (info.tiles + info.shields) as u32,
                    winners: spec_majority(info.meeples),
                    meeples_returned: info.meeples,
                },
            ),
            EdgeKind::Field => None,
        }
    }
}

pub open spec fn monastery_event(owner: PlayerId, points: u32) -> EventView {
    EventView {
        kind: FeatureKind::Monastery,
        points,
        winners: seq![owner],
        meeples_returned: seq![owner],
    }
}

/// A farm with followers earns three points for each finished city it borders.
pub open spec fn farm_event(completed: u32, meeples: Seq<PlayerId>) -> Option<EventView> {
    if meeples.len() == 0 || completed == 0 {
        None
    } else {
        Some(
            EventView {
                kind: FeatureKind::Farm,
                points: (3 * completed) as u32,
                winners: spec_majority(meeples),
                meeples_returned: meeples,
            },
        )
    }
}

/// Every winner of the event is named once and has a follower among those
/// sent home.
pub open spec fn event_ok(e: EventView) -> bool {
    &&& e.winners.no_duplicates()
    &&& forall|w: PlayerId| e.winners.contains(w) ==> #[trigger] count_of(e.meeples_returned, w) > 0
}

/// Everyone in the majority list holds followers in `s`.
pub proof fn lemma_majority_holds(s: Seq<PlayerId>, n: nat, w: PlayerId)
    requires
        majority_upto(s, n).contains(w),
    ensures
        count_of(s, w) > 0,
    decreases n,
{
    if n > 0 {
        let pre = majority_upto(s, (n - 1) as nat);
        let cur = majority_upto(s, n);
        let j = choose|j: int| 0 <= j < cur.len() && cur[j] == w;
        if j < pre.len() {
            assert(pre[j] == w);
            lemma_majority_holds(s, (n - 1) as nat, w);
        } else {
            assert(is_majority(s, w));
        }
    }
}

/// Everyone in the majority list holds as many followers as anyone.
proof fn lemma_majority_member(s: Seq<PlayerId>, n: nat, w: PlayerId)
    requires
        majority_upto(s, n).contains(w),
    ensures
        is_majority(s, w),
    decreases n,
{
    if n > 0 {
        let pre = majority_upto(s, (n - 1) as nat);
        let cur = majority_upto(s, n);
        let j = choose|j: int| 0 <= j < cur.len() && cur[j] == w;
        if j < pre.len() {
            assert(pre[j] == w);
            lemma_majority_member(s, (n - 1) as nat, w);
        }
    }
}

/// A player holding fewer followers on a feature than another player is not
/// among its winners, and a player with no follower on it neither.
pub proof fn lemma_minority_loses(s: Seq<PlayerId>, p: PlayerId, q: PlayerId)
    ensures
        count_of(s, p) < count_of(s, q) ==> !spec_majority(s).contains(p),
        count_of(s, p) == 0 ==> !spec_majority(s).contains(p),
{
    if spec_majority(s).contains(p) {
        lemma_majority_member(s, 256, p);
    }
}

/// The majority list is in increasing order, below `n`.
pub proof fn lemma_majority_sorted(s: Seq<PlayerId>, n: nat)
    requires
        n <= 256,
    ensures
        forall|i: int, j: int| 0 <= i < j < majority_upto(s, n).len() ==> majority_upto(s, n)[i] < majority_upto(s, n)[j],
        forall|i: int| 0 <= i < majority_upto(s, n).len() ==> majority_upto(s, n)[i] < n,
    decreases n,
{
    if n > 0 {
        lemma_majority_sorted(s, (n - 1) as nat);
        let pre = majority_upto(s, (n - 1) as nat);
        let cur = majority_upto(s, n);
        assert forall|i: int| 0 <= i < cur.len() implies cur[i] < n by {
            if i < pre.len() {
                assert(cur[i] == pre[i]);
            }
        }
        assert forall|i: int, j: int| 0 <= i < j < cur.len() implies cur[i] < cur[j] by {
            if j < pre.len() {
                assert(cur[i] == pre[i] && cur[j] == pre[j]);
            } else {
                assert(cur[i] == pre[i]);
            }
        }
    }
}

/// An event whose winners are the majority of the followers sent home is well formed.
pub proof fn lemma_majority_event_ok(e: EventView)
    requires
        e.winners == spec_majority(e.meeples_returned),
    ensures
        event_ok(e),
{
    lemma_majority_sorted(e.meeples_returned, 256);
    assert forall|w: PlayerId| e.winners.contains(w) implies #[trigger] count_of(e.meeples_returned, w) > 0 by {
        lemma_majority_holds(e.meeples_returned, 256, w);
    }
}

/// Every event scoring a feature is well formed.
pub proof fn lemma_events_ok(info: InfoView, completed: u32)
    ensures
        completed_event(info) matches Some(e) ==> event_ok(e),
        incomplete_event(info) matches Some(e) ==> event_ok(e),
        farm_event(completed, info.meeples) matches Some(e) ==> event_ok(e),
{
    if let Some(e) = completed_event(info) {
        lemma_majority_event_ok(e);
    }
    if let Some(e) = incomplete_event(info) {
        lemma_majority_event_ok(e);
    }
    if let Some(e) = farm_event(completed, info.meeples) {
        lemma_majority_event_ok(e);
    }
}

/// Every event scoring a monastery is well formed.
pub proof fn lemma_monastery_event_ok(owner: PlayerId, points: u32)
    ensures
        event_ok(monastery_event(owner, points)),
{
    let m = monastery_event(owner, points);
    assert(seq![owner].drop_last() =~= Seq::<PlayerId>::empty());
    assert(count_of(seq![owner].drop_last(), owner) == 0);
    assert(seq![owner].last() == owner);
    assert forall|w: PlayerId| m.winners.contains(w) implies #[trigger] count_of(m.meeples_returned, w) > 0 by {
        assert(w == owner);
    }
}

/// The fixed-size arithmetic of closing a feature cannot overflow.
pub open spec fn completed_fits(info: InfoView) -> bool {
    info.kind == EdgeKind::City ==> info.tiles * 2 + info.shields * 2 <= u32::MAX
}

pub open spec fn incomplete_fits(info: InfoView) -> bool {
    info.kind == EdgeKind::City ==> info.tiles + info.shields <= u32::MAX
}

pub fn score_completed_feature(info: &FeatureInfo) -> (r: Option<ScoringEvent>)
    requires
        completed_fits(info@),
    ensures
        opt_view(r) == completed_event(info@),
{
    let (points, kind) = match info.kind {
        EdgeKind::Road => (info.tiles, FeatureKind::Road),
        EdgeKind::City => (info.tiles * 2 + info.shields * 2, FeatureKind::City),
        EdgeKind::Field => return None,
    };
    let winners = majority_owners(info.meeples.as_slice());
    let returned = info.meeples.clone();
    assert(returned@ =~= info.meeples@);
    Some(ScoringEvent { kind, points, winners, meeples_returned: returned })
}

pub fn score_incomplete_feature(info: &FeatureInfo) -> (r: Option<ScoringEvent>)
    requires
        incomplete_fits(info@),
    ensures
        opt_view(r) == incomplete_event(info@),
{
    if info.meeples.len() == 0 {
        return None;
    }
    let (points, kind) = match info.kind {
        EdgeKind::Road => (info.tiles, FeatureKind::Road),
        EdgeKind::City => (info.tiles + info.shields, FeatureKind::City),
        EdgeKind::Field => return None,
    };
    let winners = majority_owners(info.meeples.as_slice());
    let returned = info.meeples.clone();
    assert(returned@ =~= info.meeples@);
    Some(ScoringEvent { kind, points, winners, meeples_returned: returned })
}

pub fn score_completed_monastery(owner: PlayerId) -> (r: ScoringEvent)
    ensures
        r@ == monastery_event(owner, 9),
{
    let r = ScoringEvent {
        kind: FeatureKind::Monastery,
        points: 9,
        winners: vec![owner],
        meeples_returned: vec![owner],
    };
    assert(r.winners@ =~= seq![owner]);
    assert(r.meeples_returned@ =~= seq![owner]);
    r
}

pub fn score_incomplete_monastery(owner: PlayerId, neighbor_count: u8) -> (r: ScoringEvent)
    ensures
        r@ == monastery_event(owner, (1 + neighbor_count) as u32),
{
    let r = ScoringEvent {
        kind: FeatureKind::Monastery,
        points: 1 + neighbor_count as u32,
        winners: vec![owner],
        meeples_returned: vec![owner],
    };
    assert(r.winners@ =~= seq![owner]);
    assert(r.meeples_returned@ =~= seq![owner]);
    r
}

/// A farm with followers earns three points for each finished city it
/// borders, however many: one more city is worth exactly three more points,
/// and a farm bordering no finished city, or holding no follower, earns
/// nothing.
pub proof fn lemma_farm_points(completed: u32, meeples: Seq<PlayerId>)
    requires
        3 * completed + 3 <= u32::MAX,
    ensures
        meeples.len() > 0 && completed > 0 ==> (farm_event(completed, meeples) matches Some(e)
            && e.points == 3 * completed && e.kind == FeatureKind::Farm && e.meeples_returned == meeples),
        meeples.len() > 0 && completed > 0 ==> farm_event((completed + 1) as u32, meeples).unwrap().points
            == farm_event(completed, meeples).unwrap().points + 3,
        meeples.len() == 0 || completed == 0 ==> farm_event(completed, meeples) is None,
{
}

pub fn score_farm(completed: u32, meeples: &[PlayerId]) -> (r: Option<ScoringEvent>)
    requires
        3 * completed <= u32::MAX,
    ensures
        opt_view(r) == farm_event(completed, meeples@),
{
    if meeples.len() == 0 || completed == 0 {
        return None;
    }
    let winners = majority_owners(meeples);
    let returned = copy_ids(meeples);
    assert(returned@ =~= meeples@);
    Some(ScoringEvent { kind: FeatureKind::Farm, points: 3 * completed, winners, meeples_returned: returned })
}

} // verus!
