//! Slot bookkeeping for the word tray: which children count as slots, where
//! a dragged tile's gap opens, and which gap a returning tile takes.
use vstd::prelude::*;

verus! {

/// What a tray child is, as far as slot counting goes.
#[derive(Clone, Copy, Debug, PartialEq, Eq, Structural)]
pub enum ChildKind {
    /// A word tile.
    Tile,
    /// A gap spacer opened for a dragged tile.
    Gap,
    /// Anything else.
    Other,
}

/// One child of the tray, in tray order.
#[derive(Clone, Copy, Debug, PartialEq, Eq, Structural)]
pub struct TrayChild {
    pub entity: u64,
    pub kind: ChildKind,
}

/// A gap spacer and whether it is currently opening (target width > 0).
#[derive(Clone, Copy, Debug, PartialEq, Eq, Structural)]
pub struct GapState {
    pub entity: u64,
    pub open: bool,
}

/// What the tray does with its gaps this frame.
#[derive(Clone, Debug, PartialEq, Eq)]
pub struct GapPlan {
    /// For each gap, in the order given: whether it keeps opening.
    pub keep_open: Vec<bool>,
    /// Where a fresh gap is inserted among the tray children, if anywhere.
    pub spawn_at: Option<usize>,
}

/// Word tiles before the first child `stop` (all of them when `stop` is not
/// a child).
pub open spec fn tiles_before(children: Seq<TrayChild>, stop: u64) -> nat
    decreases children.len(),
{
    if children.len() == 0 || children[0].entity == stop {
        0
    } else {
        (if children[0].kind == ChildKind::Tile {
            1nat
        } else {
            0nat
        }) + tiles_before(children.drop_first(), stop)
    }
}

/// Children other than gaps before the first child `stop`.
pub open spec fn non_gaps_before(children: Seq<TrayChild>, stop: u64) -> nat
    decreases children.len(),
{
    if children.len() == 0 || children[0].entity == stop {
        0
    } else {
        (if children[0].kind != ChildKind::Gap {
            1nat
        } else {
            0nat
        }) + non_gaps_before(children.drop_first(), stop)
    }
}

/// Word tiles that come before the pointer in reading order.
pub open spec fn tiles_before_pointer(children: Seq<TrayChild>, before: Seq<bool>) -> nat
    decreases children.len(),
{
    if children.len() == 0 || before.len() == 0 {
        0
    } else {
        (if children[0].kind == ChildKind::Tile && before[0] {
            1nat
        } else {
            0nat
        }) + tiles_before_pointer(children.drop_first(), before.drop_first())
    }
}

/// For each gap, whether it keeps opening: the first opening gap that sits
/// at `slot` does, every other gap closes.
pub open spec fn keep_flags(
    children: Seq<TrayChild>,
    gaps: Seq<GapState>,
    slot: nat,
    covered: bool,
) -> Seq<bool>
    decreases gaps.len(),
{
    if gaps.len() == 0 {
        Seq::empty()
    } else {
        let keep = !covered && tiles_before(children, gaps[0].entity) == slot && gaps[0].open;
        seq![keep] + keep_flags(children, gaps.drop_first(), slot, covered || keep)
    }
}

/// The gap plan: with no tile dragged over the tray every gap closes;
/// otherwise the gap already at `slot` stays and, without one, a fresh gap
/// opens there.
pub open spec fn spec_gap_plan(
    over_tray: bool,
    slot: nat,
    children: Seq<TrayChild>,
    gaps: Seq<GapState>,
) -> (Seq<bool>, Option<nat>) {
    if !over_tray {
        (Seq::new(gaps.len(), |i: int| false), None)
    } else {
        let flags = keep_flags(children, gaps, slot, false);
        (flags, if flags.contains(true) {
            None
        } else {
            Some(slot)
        })
    }
}

/// The first gap that is opening.
pub open spec fn first_open(gaps: Seq<GapState>) -> Option<GapState>
    decreases gaps.len(),
{
    if gaps.len() == 0 {
        None
    } else if gaps[0].open {
        Some(gaps[0])
    } else {
        first_open(gaps.drop_first())
    }
}

/// Where a tile released outside the writing zone rejoins the tray: the
/// slot of the opening gap, counting the children before it that are not
/// gaps, or the end of the tray when no gap is opening.
pub open spec fn spec_return_slot(children: Seq<TrayChild>, gaps: Seq<GapState>) -> Option<nat> {
    match first_open(gaps) {
        Some(gap) => Some(non_gaps_before(children, gap.entity)),
        None => None,
    }
}

proof fn lemma_tiles_before_bound(children: Seq<TrayChild>, stop: u64)
    ensures
        tiles_before(children, stop) <= children.len(),
    decreases children.len(),
{
    if children.len() > 0 && children[0].entity != stop {
        lemma_tiles_before_bound(children.drop_first(), stop);
    }
}

proof fn lemma_non_gaps_before_bound(children: Seq<TrayChild>, stop: u64)
    ensures
        non_gaps_before(children, stop) <= children.len(),
    decreases children.len(),
{
    if children.len() > 0 && children[0].entity != stop {
        lemma_non_gaps_before_bound(children.drop_first(), stop);
    }
}

/// Word tiles before the first child `stop`: a dragged tile's tray slot.
pub fn count_tiles_before(children: &Vec<TrayChild>, stop: u64) -> (n: usize)
    ensures
        n == tiles_before(children@, stop),
{
    let mut count: usize = 0;
    let mut i: usize = 0;
    assert(children@.subrange(0, children@.len() as int) =~= children@);
    while i < children.len() && children[i].entity != stop
        invariant
            i <= children.len(),
            count <= i,
            tiles_before(children@, stop) == count + tiles_before(
                children@.subrange(i as int, children@.len() as int),
                stop,
            ),
        decreases children.len() - i,
    {
        assert(children@.subrange(i as int, children@.len() as int).drop_first()
            =~= children@.subrange(i + 1, children@.len() as int));
        if children[i].kind == ChildKind::Tile {
            count = count + 1;
        }
        i = i + 1;
    }
    count
}

/// Children other than gaps before the first child `stop`.
pub fn count_non_gaps_before(children: &Vec<TrayChild>, stop: u64) -> (n: usize)
    ensures
        n == non_gaps_before(children@, stop),
{
    let mut count: usize = 0;
    let mut i: usize = 0;
    assert(children@.subrange(0, children@.len() as int) =~= children@);
    while i < children.len() && children[i].entity != stop
        invariant
            i <= children.len(),
            count <= i,
            non_gaps_before(children@, stop) == count + non_gaps_before(
                children@.subrange(i as int, children@.len() as int),
                stop,
            ),
        decreases children.len() - i,
    {
        assert(children@.subrange(i as int, children@.len() as int).drop_first()
            =~= children@.subrange(i + 1, children@.len() as int));
        if children[i].kind != ChildKind::Gap {
            count = count + 1;
        }
        i = i + 1;
    }
    count
}

/// The slot a dragged tile hovers over the tray: how many word tiles come
/// before the pointer in reading order. `before[k]` tells whether child
/// `k` sits in a row above the pointer, or in its row to the left of it.
pub fn gap_slot(children: &Vec<TrayChild>, before: &Vec<bool>) -> (slot: usize)
    requires
        before.len() == children.len(),
    ensures
        slot == tiles_before_pointer(children@, before@),
{
    let mut count: usize = 0;
    let mut i: usize = 0;
    assert(children@.subrange(0, children@.len() as int) =~= children@);
    assert(before@.subrange(0, before@.len() as int) =~= before@);
    while i < children.len()
        invariant
            i <= children.len(),
            before.len() == children.len(),
            count <= i,
            tiles_before_pointer(children@, before@) == count + tiles_before_pointer(
                children@.subrange(i as int, children@.len() as int),
                before@.subrange(i as int, before@.len() as int),
            ),
        decreases children.len() - i,
    {
        assert(children@.subrange(i as int, children@.len() as int).drop_first()
            =~= children@.subrange(i + 1, children@.len() as int));
        assert(before@.subrange(i as int, before@.len() as int).drop_first() =~= before@.subrange(
            i + 1,
            before@.len() as int,
        ));
        if children[i].kind == ChildKind::Tile && before[i] {
            count = count + 1;
        }
        i = i + 1;
    }
    count
}

/// Keeps open whichever gap already sits at the desired slot; every other
/// gap closes, and a fresh gap opens at the slot when none sits there.
/// With nothing dragged over the tray, every gap closes.
pub fn plan_tray_gaps(
    over_tray: bool,
    slot: usize,
    children: &Vec<TrayChild>,
    gaps: &Vec<GapState>,
) -> (plan: GapPlan)
    ensures
        plan.keep_open@ == spec_gap_plan(over_tray, slot as nat, children@, gaps@).0,
        plan.spawn_at matches Some(s) ==> spec_gap_plan(over_tray, slot as nat, children@, gaps@).1
            == Some(s as nat),
        plan.spawn_at is None ==> spec_gap_plan(over_tray, slot as nat, children@, gaps@).1 is None,
{
    let mut keep_open: Vec<bool> = Vec::new();
    if !over_tray {
        let mut i: usize = 0;
        while i < gaps.len()
            invariant
                i <= gaps.len(),
                keep_open@ == Seq::new(i as nat, |k: int| false),
            decreases gaps.len() - i,
        {
            keep_open.push(false);
            i = i + 1;
            assert(keep_open@ =~= Seq::new(i as nat, |k: int| false));
        }
        return GapPlan { keep_open, spawn_at: None };
    }
    let mut covered = false;
    let mut i: usize = 0;
    assert(gaps@.subrange(0, gaps@.len() as int) =~= gaps@);
    while i < gaps.len()
        invariant
            i <= gaps.len(),
            keep_flags(children@, gaps@, slot as nat, false) == keep_open@ + keep_flags(
                children@,
                gaps@.subrange(i as int, gaps@.len() as int),
                slot as nat,
                covered,
            ),
            covered == keep_open@.contains(true),
        decreases gaps.len() - i,
    {
        let ghost rest = gaps@.subrange(i as int, gaps@.len() as int);
        assert(rest.drop_first() =~= gaps@.subrange(i + 1, gaps@.len() as int));
        let before = count_tiles_before(children, gaps[i].entity);
        let keep = !covered && before == slot && gaps[i].open;
        let ghost old_keep = keep_open@;
        keep_open.push(keep);
        proof {
            assert(keep_open@ + keep_flags(children@, rest.drop_first(), slot as nat, covered || keep)
                =~= old_keep + (seq![keep] + keep_flags(
                children@,
                rest.drop_first(),
                slot as nat,
                covered || keep,
            )));
            if keep {
                assert(keep_open@[old_keep.len() as int] == true);
            }
            if keep_open@.contains(true) && !keep {
                let k = choose|k: int| 0 <= k < keep_open@.len() && keep_open@[k] == true;
                assert(old_keep[k] == true);
            }
            if old_keep.contains(true) {
                let k = choose|k: int| 0 <= k < old_keep.len() && old_keep[k] == true;
                assert(keep_open@[k] == true);
            }
        }
        covered = covered || keep;
        i = i + 1;
    }
    assert(keep_open@ + Seq::<bool>::empty() =~= keep_open@);
    let spawn_at = if covered {
        None
    } else {
        Some(slot)
    };
    GapPlan { keep_open, spawn_at }
}

/// Where a tile released outside the writing zone rejoins the tray: the
/// opening gap's slot, or `None` for the end of the tray.
pub fn return_slot(children: &Vec<TrayChild>, gaps: &Vec<GapState>) -> (slot: Option<usize>)
    ensures
        slot matches Some(s) ==> spec_return_slot(children@, gaps@) == Some(s as nat),
        slot is None ==> spec_return_slot(children@, gaps@) is None,
{
    let mut i: usize = 0;
    assert(gaps@.subrange(0, gaps@.len() as int) =~= gaps@);
    while i < gaps.len()
        invariant
            i <= gaps.len(),
            first_open(gaps@) == first_open(gaps@.subrange(i as int, gaps@.len() as int)),
        decreases gaps.len() - i,
    {
        assert(gaps@.subrange(i as int, gaps@.len() as int).drop_first() =~= gaps@.subrange(
            i + 1,
            gaps@.len() as int,
        ));
        if gaps[i].open {
            return Some(count_non_gaps_before(children, gaps[i].entity));
        }
        i = i + 1;
    }
    None
}

/// At most one gap keeps opening, and when one does no fresh gap opens; a
/// gap that keeps opening sits at the desired slot.
pub proof fn lemma_gap_plan_single(
    over_tray: bool,
    slot: nat,
    children: Seq<TrayChild>,
    gaps: Seq<GapState>,
)
    ensures
        ({
            let (flags, spawn) = spec_gap_plan(over_tray, slot, children, gaps);
            &&& flags.len() == gaps.len()
            &&& forall|i: int, j: int|
                0 <= i < j < flags.len() && flags[i] ==> !flags[j]
            &&& forall|i: int|
                0 <= i < flags.len() && #[trigger] flags[i] ==> gaps[i].open && tiles_before(
                    children,
                    gaps[i].entity,
                ) == slot
            &&& spawn is Some <==> over_tray && !flags.contains(true)
            &&& spawn matches Some(s) ==> s == slot
        }),
{
    if over_tray {
        lemma_keep_flags(children, gaps, slot, false);
    }
}

proof fn lemma_keep_flags(children: Seq<TrayChild>, gaps: Seq<GapState>, slot: nat, covered: bool)
    ensures
        ({
            let flags = keep_flags(children, gaps, slot, covered);
            &&& flags.len() == gaps.len()
            &&& forall|i: int, j: int| 0 <= i < j < flags.len() && flags[i] ==> !flags[j]
            &&& covered ==> forall|i: int| 0 <= i < flags.len() ==> !flags[i]
            &&& forall|i: int|
                0 <= i < flags.len() && #[trigger] flags[i] ==> gaps[i].open && tiles_before(
                    children,
                    gaps[i].entity,
                ) == slot
        }),
    decreases gaps.len(),
{
    if gaps.len() > 0 {
        let keep = !covered && tiles_before(children, gaps[0].entity) == slot && gaps[0].open;
        let rest = gaps.drop_first();
        lemma_keep_flags(children, rest, slot, covered || keep);
        let tail = keep_flags(children, rest, slot, covered || keep);
        let flags = seq![keep] + tail;
        assert forall|i: int| 0 <= i < flags.len() && #[trigger] flags[i] implies gaps[i].open
            && tiles_before(children, gaps[i].entity) == slot by {
            if i > 0 {
                assert(flags[i] == tail[i - 1]);
                assert(gaps[i] == rest[i - 1]);
            }
        }
        assert forall|i: int, j: int| 0 <= i < j < flags.len() && flags[i] implies !flags[j] by {
            assert(flags[j] == tail[j - 1]);
            if i > 0 {
                assert(flags[i] == tail[i - 1]);
            }
        }
        assert forall|i: int| covered && 0 <= i < flags.len() implies !flags[i] by {
            if i > 0 {
                assert(flags[i] == tail[i - 1]);
            }
        }
    }
}

proof fn lemma_counts_agree(children: Seq<TrayChild>, stop: u64)
    requires
        forall|k: int| 0 <= k < children.len() ==> (#[trigger] children[k]).kind != ChildKind::Other,
    ensures
        non_gaps_before(children, stop) == tiles_before(children, stop),
    decreases children.len(),
{
    if children.len() > 0 && children[0].entity != stop {
        let rest = children.drop_first();
        assert forall|k: int| 0 <= k < rest.len() implies (#[trigger] rest[k]).kind
            != ChildKind::Other by {
            assert(rest[k] == children[k + 1]);
        }
        lemma_counts_agree(rest, stop);
    }
}

/// In a tray of word tiles and gaps only, a tile released while a gap is
/// opening rejoins the tray exactly at the slot that gap previews: as many
/// word tiles precede it as precede the gap.
pub proof fn lemma_return_takes_gap_slot(children: Seq<TrayChild>, gaps: Seq<GapState>)
    requires
        forall|k: int| 0 <= k < children.len() ==> (#[trigger] children[k]).kind != ChildKind::Other,
    ensures
        first_open(gaps) matches Some(gap) ==> spec_return_slot(children, gaps) == Some(
            tiles_before(children, gap.entity),
        ),
{
    if let Some(gap) = first_open(gaps) {
        lemma_counts_agree(children, gap.entity);
    }
}

/// In a tray whose children before a tile are all other word tiles, the
/// slot recorded at grab time is the tile's own child index, so Escape
/// puts it back where it was.
pub proof fn lemma_tray_index_is_position(children: Seq<TrayChild>, i: int)
    requires
        0 <= i < children.len(),
        forall|k: int|
            0 <= k < i ==> (#[trigger] children[k]).kind == ChildKind::Tile && children[k].entity
                != children[i].entity,
    ensures
        tiles_before(children, children[i].entity) == i,
    decreases i,
{
    if i > 0 {
        let rest = children.drop_first();
        assert(rest[i - 1] == children[i]);
        assert forall|k: int| 0 <= k < i - 1 implies (#[trigger] rest[k]).kind == ChildKind::Tile
            && rest[k].entity != rest[i - 1].entity by {
            assert(rest[k] == children[k + 1]);
        }
        assert(children[0].kind == ChildKind::Tile && children[0].entity != children[i].entity);
        lemma_tray_index_is_position(rest, i - 1);
    }
}

/// The pointer's slot adds up along the tray: split the children (and their
/// pointer flags) anywhere, and the slot is that of the front part plus
/// that of the back part.
pub proof fn lemma_slot_additive(
    front: Seq<TrayChild>,
    front_before: Seq<bool>,
    back: Seq<TrayChild>,
    back_before: Seq<bool>,
)
    requires
        front.len() == front_before.len(),
        back.len() == back_before.len(),
    ensures
        tiles_before_pointer(front + back, front_before + back_before) == tiles_before_pointer(
            front,
            front_before,
        ) + tiles_before_pointer(back, back_before),
    decreases front.len(),
{
    if front.len() == 0 {
        assert(front + back =~= back);
        assert(front_before + back_before =~= back_before);
    } else {
        assert((front + back).drop_first() =~= front.drop_first() + back);
        assert((front_before + back_before).drop_first() =~= front_before.drop_first()
            + back_before);
        lemma_slot_additive(front.drop_first(), front_before.drop_first(), back, back_before);
    }
}

/// A single child counts toward the slot exactly when it is a word tile
/// before the pointer.
pub proof fn lemma_slot_single(child: TrayChild, before: bool)
    ensures
        tiles_before_pointer(seq![child], seq![before]) == (if child.kind == ChildKind::Tile
            && before {
            1nat
        } else {
            0nat
        }),
{
    assert(seq![child].drop_first() =~= Seq::<TrayChild>::empty());
    assert(seq![before].drop_first() =~= Seq::<bool>::empty());
    assert(tiles_before_pointer(Seq::<TrayChild>::empty(), Seq::<bool>::empty()) == 0);
    assert(seq![child][0] == child && seq![before][0] == before);
}

/// Gaps never count toward the slot: putting a gap child anywhere among the
/// children, before the pointer or not, leaves the slot as it was.
pub proof fn lemma_slot_ignores_gaps(
    children: Seq<TrayChild>,
    before: Seq<bool>,
    at: int,
    gap: TrayChild,
    gap_before: bool,
)
    requires
        children.len() == before.len(),
        0 <= at <= children.len(),
        gap.kind == ChildKind::Gap,
    ensures
        tiles_before_pointer(children.insert(at, gap), before.insert(at, gap_before))
            == tiles_before_pointer(children, before),
{
    let c1 = children.subrange(0, at);
    let c2 = children.subrange(at, children.len() as int);
    let b1 = before.subrange(0, at);
    let b2 = before.subrange(at, before.len() as int);
    assert(children =~= c1 + c2);
    assert(before =~= b1 + b2);
    assert(children.insert(at, gap) =~= c1 + (seq![gap] + c2));
    assert(before.insert(at, gap_before) =~= b1 + (seq![gap_before] + b2));
    lemma_slot_additive(c1, b1, c2, b2);
    lemma_slot_additive(seq![gap], seq![gap_before], c2, b2);
    lemma_slot_additive(c1, b1, seq![gap] + c2, seq![gap_before] + b2);
    lemma_slot_single(gap, gap_before);
}

} // verus!
