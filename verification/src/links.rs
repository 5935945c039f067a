//! The links of a chain: the order in which its segments follow one another.
//!
//! Segments live in numbered slots and name their successor by its slot. A
//! slot may be empty, and a link may name an empty slot or none at all: the
//! chain is broken there, and what lies behind the break is out of reach.

use vstd::prelude::*;
use crate::vector::Vec2;

verus! {

/// A segment as contracts see it.
pub struct Segment {
    /// The slot of the segment behind this one.
    pub next: Option<usize>,
    /// The length of the link to the segment before this one.
    pub distance: int,
    /// How far the chain may bend at the joint before this segment.
    pub limit: Vec2,
    pub position: Vec2,
    /// The direction in which the segment looks: to the segment before it.
    pub facing: Vec2,
}

/// The segment that `id` names, where it names one.
pub open spec fn live(slots: Seq<Option<Segment>>, id: Option<usize>) -> Option<Segment> {
    match id {
        Some(i) => if i < slots.len() {
            slots[i as int]
        } else {
            None
        },
        None => None,
    }
}

/// The chain that starts at `start` ends, at the tail or at a break, after
/// at most `fuel` segments.
pub open spec fn ends_within(slots: Seq<Option<Segment>>, start: Option<usize>, fuel: nat) -> bool
    decreases fuel,
{
    match live(slots, start) {
        None => true,
        Some(segment) => fuel > 0 && ends_within(slots, segment.next, (fuel - 1) as nat),
    }
}

/// The slots of the first `fuel` segments of the chain that starts at
/// `start`, in order.
pub open spec fn path(slots: Seq<Option<Segment>>, start: Option<usize>, fuel: nat) -> Seq<usize>
    decreases fuel,
{
    match live(slots, start) {
        None => Seq::empty(),
        Some(segment) => if fuel == 0 {
            Seq::empty()
        } else {
            seq![start.unwrap()] + path(slots, segment.next, (fuel - 1) as nat)
        },
    }
}

/// Two sets of slots hold the same links: the same slots are taken, and the
/// segments in them name the same successors.
pub open spec fn same_links(a: Seq<Option<Segment>>, b: Seq<Option<Segment>>) -> bool {
    &&& a.len() == b.len()
    &&& forall|i: int|
        0 <= i < a.len() ==> (#[trigger] a[i] is Some) == (b[i] is Some)
    &&& forall|i: int|
        0 <= i < a.len() && a[i] is Some ==> (#[trigger] a[i]).unwrap().next == b[i].unwrap().next
}

/// The order of a chain depends on its links alone.
pub proof fn lemma_path_of_same_links(
    a: Seq<Option<Segment>>,
    b: Seq<Option<Segment>>,
    start: Option<usize>,
    fuel: nat,
)
    requires
        same_links(a, b),
    ensures
        path(a, start, fuel) == path(b, start, fuel),
        ends_within(a, start, fuel) == ends_within(b, start, fuel),
    decreases fuel,
{
    if let Some(segment) = live(a, start) {
        if fuel > 0 {
            lemma_path_of_same_links(a, b, segment.next, (fuel - 1) as nat);
        }
    }
}

/// A chain that ends within `fuel` segments is no other with more fuel.
pub proof fn lemma_path_with_more_fuel(
    slots: Seq<Option<Segment>>,
    start: Option<usize>,
    fuel: nat,
    more: nat,
)
    requires
        ends_within(slots, start, fuel),
        fuel <= more,
    ensures
        ends_within(slots, start, more),
        path(slots, start, more) == path(slots, start, fuel),
        path(slots, start, fuel).len() <= fuel,
    decreases fuel,
{
    match live(slots, start) {
        None => {},
        Some(segment) => {
            lemma_path_with_more_fuel(slots, segment.next, (fuel - 1) as nat, (more - 1) as nat);
        },
    }
}

/// Every slot on a path holds a segment, and each is followed by the one
/// that it names.
pub proof fn lemma_path_steps(slots: Seq<Option<Segment>>, start: Option<usize>, fuel: nat, k: int)
    requires
        0 <= k < path(slots, start, fuel).len(),
    ensures
        live(slots, Some(path(slots, start, fuel)[k])) is Some,
        k == 0 ==> start == Some(path(slots, start, fuel)[0]),
        k > 0 ==> live(slots, Some(path(slots, start, fuel)[k - 1])).unwrap().next == Some(
            path(slots, start, fuel)[k],
        ),
        path(slots, start, fuel).len() <= fuel,
    decreases fuel,
{
    let segment = live(slots, start).unwrap();
    let rest = path(slots, segment.next, (fuel - 1) as nat);
    if k > 0 {
        lemma_path_steps(slots, segment.next, (fuel - 1) as nat, k - 1);
    } else if rest.len() > 0 {
        lemma_path_steps(slots, segment.next, (fuel - 1) as nat, 0);
    }
    lemma_path_length(slots, segment.next, (fuel - 1) as nat);
}

/// A path is no longer than its fuel.
pub proof fn lemma_path_length(slots: Seq<Option<Segment>>, start: Option<usize>, fuel: nat)
    ensures
        path(slots, start, fuel).len() <= fuel,
    decreases fuel,
{
    match live(slots, start) {
        None => {},
        Some(segment) => {
            if fuel > 0 {
                lemma_path_length(slots, segment.next, (fuel - 1) as nat);
            }
        },
    }
}

/// What lies behind the `k`-th segment of a path is the path that starts at
/// that segment.
pub proof fn lemma_path_from_the_middle(
    slots: Seq<Option<Segment>>,
    start: Option<usize>,
    fuel: nat,
    k: int,
)
    requires
        0 <= k < path(slots, start, fuel).len(),
    ensures
        k < fuel,
        path(slots, start, fuel).skip(k) == path(
            slots,
            Some(path(slots, start, fuel)[k]),
            (fuel - k) as nat,
        ),
        ends_within(slots, start, fuel) ==> ends_within(
            slots,
            Some(path(slots, start, fuel)[k]),
            (fuel - k) as nat,
        ),
    decreases fuel,
{
    let whole = path(slots, start, fuel);
    let segment = live(slots, start).unwrap();
    let rest = path(slots, segment.next, (fuel - 1) as nat);
    assert(whole == seq![start.unwrap()] + rest);
    if k == 0 {
        assert(whole.skip(0) == whole);
    } else {
        lemma_path_from_the_middle(slots, segment.next, (fuel - 1) as nat, k - 1);
        assert(whole.skip(k) == rest.skip(k - 1));
    }
}

/// In a chain that ends, no segment comes behind itself.
pub proof fn lemma_no_way_back(slots: Seq<Option<Segment>>, id: usize, fuel: nat)
    requires
        live(slots, Some(id)) is Some,
        ends_within(slots, Some(id), fuel),
    ensures
        !path(slots, live(slots, Some(id)).unwrap().next, (fuel - 1) as nat).contains(id),
    decreases fuel,
{
    let next = live(slots, Some(id)).unwrap().next;
    let behind = path(slots, next, (fuel - 1) as nat);
    if behind.contains(id) {
        let k = choose|k: int| 0 <= k < behind.len() && behind[k] == id;
        lemma_path_from_the_middle(slots, next, (fuel - 1) as nat, k);
        let less = (fuel - 1 - k) as nat;
        // The chain from `id` ends with less fuel too, so nothing changes
        // with less: what lies behind `id` is `behind` again.
        lemma_no_way_back(slots, id, less);
        lemma_path_with_more_fuel(slots, Some(id), less, fuel);
        let again = path(slots, next, (less - 1) as nat);
        assert(seq![id] + again == seq![id] + behind);
        assert(again == (seq![id] + again).skip(1));
        assert(behind == (seq![id] + behind).skip(1));
        assert(!again.contains(id));
    }
}

/// A chain that ends passes no segment twice.
pub proof fn lemma_path_no_duplicates(slots: Seq<Option<Segment>>, start: Option<usize>, fuel: nat)
    requires
        ends_within(slots, start, fuel),
    ensures
        path(slots, start, fuel).no_duplicates(),
    decreases fuel,
{
    match live(slots, start) {
        None => {},
        Some(segment) => {
            let id = start.unwrap();
            let rest = path(slots, segment.next, (fuel - 1) as nat);
            lemma_path_no_duplicates(slots, segment.next, (fuel - 1) as nat);
            lemma_no_way_back(slots, id, fuel);
            let whole = seq![id] + rest;
            assert forall|i: int, j: int| 0 <= i < whole.len() && 0 <= j < whole.len() && i != j
                implies whole[i] != whole[j] by {
                if i > 0 {
                    assert(whole[i] == rest[i - 1]);
                }
                if j > 0 {
                    assert(whole[j] == rest[j - 1]);
                }
            }
        },
    }
}

/// How a chain ends.
#[derive(Clone, Copy, Debug, PartialEq, Eq, Structural)]
pub enum ChainEnd {
    /// At its tail: a segment that names no successor.
    Tail,
    /// At a broken link: a segment names the slot given here, and the slot
    /// is empty or does not exist.
    BrokenLink(usize),
}

/// How the chain that starts at `start` ends. A chain that does not end
/// within `fuel` segments counts as broken at the link that comes next.
pub open spec fn end_of(slots: Seq<Option<Segment>>, start: Option<usize>, fuel: nat) -> ChainEnd
    decreases fuel,
{
    match start {
        None => ChainEnd::Tail,
        Some(id) => match live(slots, start) {
            None => ChainEnd::BrokenLink(id),
            Some(segment) => if fuel == 0 {
                ChainEnd::BrokenLink(id)
            } else {
                end_of(slots, segment.next, (fuel - 1) as nat)
            },
        },
    }
}

/// How a chain ends depends on its links alone.
pub proof fn lemma_end_of_same_links(
    a: Seq<Option<Segment>>,
    b: Seq<Option<Segment>>,
    start: Option<usize>,
    fuel: nat,
)
    requires
        same_links(a, b),
    ensures
        end_of(a, start, fuel) == end_of(b, start, fuel),
    decreases fuel,
{
    if let Some(segment) = live(a, start) {
        if fuel > 0 {
            lemma_end_of_same_links(a, b, segment.next, (fuel - 1) as nat);
        }
    }
}

/// A chain that ends within `fuel` segments ends no other way with more
/// fuel.
pub proof fn lemma_end_with_more_fuel(
    slots: Seq<Option<Segment>>,
    start: Option<usize>,
    fuel: nat,
    more: nat,
)
    requires
        ends_within(slots, start, fuel),
        fuel <= more,
    ensures
        end_of(slots, start, more) == end_of(slots, start, fuel),
    decreases fuel,
{
    match live(slots, start) {
        None => {},
        Some(segment) => {
            lemma_end_with_more_fuel(slots, segment.next, (fuel - 1) as nat, (more - 1) as nat);
        },
    }
}

} // verus!
