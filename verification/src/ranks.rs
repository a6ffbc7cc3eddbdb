use vstd::prelude::*;

verus! {

/// The ranks ascend strictly up to the position `peak` and descend strictly
/// from there on.
#[verifier::opaque]
pub open spec fn bitonic(ranks: Seq<nat>, peak: int) -> bool {
    &&& ranks.len() > 0 ==> 0 <= peak < ranks.len()
    &&& forall|i: int, j: int| 0 <= i < j <= peak && j < ranks.len() ==> ranks[i] < ranks[j]
    &&& forall|i: int, j: int| peak <= i < j < ranks.len() && 0 <= i ==> ranks[i] > ranks[j]
}

/// Every rank is at least the floor at its position and at most `limit`.
#[verifier::opaque]
pub open spec fn within(floors: Seq<nat>, ranks: Seq<nat>, limit: nat) -> bool {
    &&& floors.len() == ranks.len()
    &&& forall|i: int| 0 <= i < ranks.len() ==> floors[i] <= #[trigger] ranks[i] <= limit
}

/// The ranks are a witness that the items with these floors are few: they
/// rise to a peak and fall again, each between its floor and `limit`.
pub open spec fn ranked(floors: Seq<nat>, ranks: Seq<nat>, peak: int, limit: nat) -> bool {
    bitonic(ranks, peak) && within(floors, ranks, limit)
}

/// Ranks that rise to a peak no higher than `limit` and fall again are at
/// most `2 * limit + 1` in number.
pub proof fn lemma_ranked_len(floors: Seq<nat>, ranks: Seq<nat>, peak: int, limit: nat)
    requires
        ranked(floors, ranks, peak, limit),
    ensures
        ranks.len() <= 2 * limit + 1,
{
    reveal(within);
    if ranks.len() > 0 {
        assert(0 <= peak < ranks.len()) by {
            reveal(bitonic);
        }
        lemma_rise(ranks, peak, peak);
        lemma_fall(ranks, peak, peak);
        assert(ranks[peak] <= limit);
    }
}

/// On the way up to the peak the rank at a position is at least the
/// position.
proof fn lemma_rise(ranks: Seq<nat>, peak: int, i: int)
    requires
        bitonic(ranks, peak),
        0 <= i <= peak < ranks.len(),
    ensures
        ranks[i] >= i,
    decreases i,
{
    reveal(bitonic);
    if i > 0 {
        lemma_rise(ranks, peak, i - 1);
        assert(ranks[i - 1] < ranks[i]);
    }
}

/// On the way down from the peak the rank at a position is at least the
/// number of positions behind it.
proof fn lemma_fall(ranks: Seq<nat>, peak: int, i: int)
    requires
        bitonic(ranks, peak),
        0 <= peak <= i < ranks.len(),
    ensures
        ranks[i] >= ranks.len() - 1 - i,
    decreases ranks.len() - i,
{
    reveal(bitonic);
    if i < ranks.len() - 1 {
        lemma_fall(ranks, peak, i + 1);
        assert(ranks[i] > ranks[i + 1]);
    }
}

/// No ranks are ranked, whatever the peak.
pub proof fn lemma_ranked_none(peak: int, limit: nat)
    ensures
        ranked(Seq::<nat>::empty(), Seq::<nat>::empty(), peak, limit),
{
    reveal(bitonic);
    reveal(within);
}

/// One rank is ranked where it lies between its floor and the limit.
pub proof fn lemma_ranked_one(floor: nat, rank: nat, limit: nat)
    requires
        floor <= rank <= limit,
    ensures
        ranked(seq![floor], seq![rank], 0, limit),
{
    reveal(bitonic);
    reveal(within);
}

/// Ranked items without the last one are ranked; the peak moves where it
/// was the last.
pub proof fn lemma_ranked_drop_last(floors: Seq<nat>, ranks: Seq<nat>, peak: int, limit: nat)
    requires
        ranked(floors, ranks, peak, limit),
        ranks.len() > 0,
    ensures
        ranked(
            floors.drop_last(),
            ranks.drop_last(),
            if peak == ranks.len() - 1 {
                peak - 1
            } else {
                peak
            },
            limit,
        ),
{
    reveal(bitonic);
    reveal(within);
}

/// Ranked items without the first one are ranked; the peak moves with them.
pub proof fn lemma_ranked_drop_first(floors: Seq<nat>, ranks: Seq<nat>, peak: int, limit: nat)
    requires
        ranked(floors, ranks, peak, limit),
        ranks.len() > 0,
    ensures
        ranked(
            floors.drop_first(),
            ranks.drop_first(),
            if peak == 0 {
                0
            } else {
                peak - 1
            },
            limit,
        ),
{
    reveal(bitonic);
    reveal(within);
    let r = ranks.drop_first();
    let p = if peak == 0 { 0 } else { peak - 1 };
    assert forall|i: int, j: int| 0 <= i < j <= p && j < r.len() implies r[i] < r[j] by {
        assert(r[i] == ranks[i + 1] && r[j] == ranks[j + 1]);
    }
    assert forall|i: int, j: int| p <= i < j < r.len() && 0 <= i implies r[i] > r[j] by {
        assert(r[i] == ranks[i + 1] && r[j] == ranks[j + 1]);
    }
}

/// Ranked items stay ranked where another item with a floor no higher than
/// its rank takes the place of the last.
pub proof fn lemma_ranked_last(
    floors: Seq<nat>,
    ranks: Seq<nat>,
    peak: int,
    limit: nat,
    floor: nat,
)
    requires
        ranked(floors, ranks, peak, limit),
        ranks.len() > 0,
        floor <= ranks.last(),
    ensures
        ranked(floors.drop_last().push(floor), ranks, peak, limit),
{
    reveal(bitonic);
    reveal(within);
}

/// Ranked items stay ranked where another item with a floor no higher than
/// its rank takes the place of the first.
pub proof fn lemma_ranked_first(
    floors: Seq<nat>,
    ranks: Seq<nat>,
    peak: int,
    limit: nat,
    floor: nat,
)
    requires
        ranked(floors, ranks, peak, limit),
        ranks.len() > 0,
        floor <= ranks[0],
    ensures
        ranked(seq![floor] + floors.drop_first(), ranks, peak, limit),
{
    reveal(bitonic);
    reveal(within);
}

/// Ranked items stay ranked with one more behind them whose rank is below
/// that of the last.
pub proof fn lemma_ranked_push(
    floors: Seq<nat>,
    ranks: Seq<nat>,
    peak: int,
    limit: nat,
    floor: nat,
    rank: nat,
)
    requires
        ranked(floors, ranks, peak, limit),
        ranks.len() > 0,
        floor <= rank < ranks.last(),
    ensures
        ranked(floors.push(floor), ranks.push(rank), peak, limit),
{
    reveal(bitonic);
    reveal(within);
    let r = ranks.push(rank);
    let n = ranks.len() as int;
    assert forall|i: int, j: int| peak <= i < j < r.len() && 0 <= i implies r[i] > r[j] by {
        if j == n {
            if i < n - 1 {
                assert(ranks[i] > ranks[n - 1]);
            }
        }
    }
}

/// Ranked items stay ranked with one more in front of them whose rank is
/// below that of the first; the peak moves with them.
pub proof fn lemma_ranked_push_front(
    floors: Seq<nat>,
    ranks: Seq<nat>,
    peak: int,
    limit: nat,
    floor: nat,
    rank: nat,
)
    requires
        ranked(floors, ranks, peak, limit),
        ranks.len() > 0,
        floor <= rank < ranks[0],
    ensures
        ranked(seq![floor] + floors, seq![rank] + ranks, peak + 1, limit),
{
    reveal(bitonic);
    reveal(within);
    let r = seq![rank] + ranks;
    assert forall|i: int, j: int| 0 <= i < j <= peak + 1 && j < r.len() implies r[i] < r[j] by {
        assert(r[j] == ranks[j - 1]);
        if i == 0 {
            if j > 1 {
                assert(ranks[0] < ranks[j - 1]);
            }
        } else {
            assert(r[i] == ranks[i - 1]);
        }
    }
    assert forall|i: int, j: int| peak + 1 <= i < j < r.len() && 0 <= i implies r[i] > r[j] by {
        assert(r[i] == ranks[i - 1] && r[j] == ranks[j - 1]);
    }
}

} // verus!
