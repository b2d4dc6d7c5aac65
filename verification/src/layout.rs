//! The chart around the focus person.
//!
//! Rows from top to bottom: the focus's grandparents (one couple above each
//! parent whose own two parents are known), the focus's parents, the focus
//! with every sibling (the children of any of the parents), and the focus's
//! own children. Each parent stands centred under the couple that are that
//! parent's parents (a parent missing from the database stands beside its
//! partner), the siblings' row is centred under the middle between the
//! parents' cards, and the children's row under the focus's card.
//!
//! All lengths are counted in quarter pixels ([`SUBPIXELS`] per pixel): on
//! that grid every coordinate of the chart is a whole number, so the layout is
//! computed exactly (the connectors between cards use half of that unit).
use crate::data::{
    children_listed, first_occurrences, ids_of, lemma_first_occurrences, Database, Person,
};
use vstd::hash_map::StringHashMap;
use vstd::prelude::*;

verus! {

/// Grid units per pixel.
pub const SUBPIXELS: i128 = 4;

/// Width of a person's card.
pub const NODE_W: i128 = 220 * SUBPIXELS;

/// Height of a person's card.
pub const NODE_H: i128 = 88 * SUBPIXELS;

/// Horizontal gap between the two cards of a couple.
pub const COUPLE_GAP: i128 = 28 * SUBPIXELS;

/// Horizontal gap between two slots of the grandparents' row.
pub const SUBTREE_GAP: i128 = 72 * SUBPIXELS;

/// Horizontal gap between two siblings of the bottom row.
pub const SIBLING_GAP: i128 = 36 * SUBPIXELS;

/// Vertical gap between two rows.
pub const VERT_GAP: i128 = 84 * SUBPIXELS;

/// Width of a couple: two cards and the gap between them.
pub const COUPLE_BLOCK_W: i128 = 2 * NODE_W + COUPLE_GAP;

/// Top-left corner of a card, in grid units.
#[derive(Debug, Clone, Copy, PartialEq, Eq, Structural)]
pub struct Position {
    pub x: i128,
    pub y: i128,
}

/// A coordinate pair as integers.
pub open spec fn point(p: Position) -> (int, int) {
    (p.x as int, p.y as int)
}

/// The map that a list of (id, point) placements leaves behind when each is
/// stored in turn, a later one replacing an earlier one with the same id.
pub open spec fn placed(s: Seq<(Seq<char>, (int, int))>) -> Map<Seq<char>, (int, int)>
    decreases s.len(),
{
    if s.len() == 0 {
        Map::<Seq<char>, (int, int)>::empty()
    } else {
        placed(s.drop_last()).insert(s.last().0, s.last().1)
    }
}

proof fn lemma_placed_unique_at(s: Seq<(Seq<char>, (int, int))>, i: int)
    requires
        0 <= i < s.len(),
        forall|a: int, b: int| 0 <= a < b < s.len() ==> s[a].0 != s[b].0,
    ensures
        placed(s).contains_key(s[i].0),
        placed(s)[s[i].0] == s[i].1,
    decreases s.len(),
{
    if i < s.len() - 1 {
        lemma_placed_unique_at(s.drop_last(), i);
        assert(s.drop_last()[i] == s[i]);
    }
}

/// The positions of the people on a chart, kept in a map keyed by id, with
/// the ids in the order they were first placed.
pub struct PositionMap {
    map: StringHashMap<Position>,
    order: Vec<String>,
}

impl View for PositionMap {
    type V = Map<Seq<char>, (int, int)>;

    closed spec fn view(&self) -> Map<Seq<char>, (int, int)> {
        self.map@.map_values(|p: Position| point(p))
    }
}

/// A read gives back what the last write stored: where `after` is `before`
/// after `before.insert(id, pos)` (the relation `insert` ensures), `get(id)`
/// on `after` finds `pos`, every other id finds what it found on `before`, and
/// the ids keep their order, a new id going last.
pub proof fn law_position_after_insert(
    before: PositionMap,
    after: PositionMap,
    id: Seq<char>,
    pos: Position,
    other: Seq<char>,
)
    requires
        after@ == before@.insert(id, point(pos)),
        after.keys() == (if before.keys().contains(id) {
            before.keys()
        } else {
            before.keys().push(id)
        }),
    ensures
        after.spec_get(id) == Some(point(pos)),
        other != id ==> after.spec_get(other) == before.spec_get(other),
        forall|k: int| 0 <= k < before.keys().len() ==> after.keys()[k] == before.keys()[k],
        after.keys().contains(id),
{
    if !before.keys().contains(id) {
        assert(after.keys()[before.keys().len() as int] == id);
    }
}

impl PositionMap {
    /// No id is listed twice, and the ids listed are exactly those with a
    /// position.
    #[verifier::type_invariant]
    pub closed spec fn wf(self) -> bool {
        &&& ids_of(self.order).no_duplicates()
        &&& forall|k: Seq<char>| #[trigger]
            self.map@.contains_key(k) <==> ids_of(self.order).contains(k)
    }

    /// The ids on the map, in the order they were first placed.
    pub closed spec fn keys(self) -> Seq<Seq<char>> {
        ids_of(self.order)
    }

    /// Every id appears once among the keys, and the keys are exactly the ids
    /// that have a position.
    pub proof fn lemma_keys(self)
        requires
            self.wf(),
        ensures
            self.keys().no_duplicates(),
            forall|k: Seq<char>| self@.contains_key(k) <==> #[trigger] self.keys().contains(k),
    {
    }

    /// The point of `id`, if it was placed.
    pub open spec fn spec_get(self, id: Seq<char>) -> Option<(int, int)> {
        if self@.contains_key(id) {
            Some(self@[id])
        } else {
            None
        }
    }

    /// An empty map.
    pub fn new() -> (m: PositionMap)
        ensures
            m.wf(),
            m@ == Map::<Seq<char>, (int, int)>::empty(),
            m.keys() == Seq::<Seq<char>>::empty(),
    {
        let m = PositionMap { map: StringHashMap::new(), order: Vec::new() };
        assert(m.keys() =~= Seq::<Seq<char>>::empty());
        assert(m@ =~= Map::<Seq<char>, (int, int)>::empty());
        m
    }

    /// The number of people placed.
    pub fn len(&self) -> (n: usize)
        ensures
            n == self.keys().len(),
    {
        self.order.len()
    }

    /// Places `id` at `pos`, replacing an earlier position of `id`. A new id
    /// goes to the end of the keys; the order of the others does not change.
    pub fn insert(&mut self, id: String, pos: Position)
        ensures
            final(self).wf(),
            final(self)@ == old(self)@.insert(id@, point(pos)),
            final(self).keys() == (if old(self).keys().contains(id@) {
                old(self).keys()
            } else {
                old(self).keys().push(id@)
            }),
    {
        proof {
            use_type_invariant(&*self);
        }
        let ghost old_map = self.map@;
        let ghost old_keys = ids_of(self.order);
        let mut taken = PositionMap { map: StringHashMap::new(), order: Vec::new() };
        assert(ids_of(taken.order) =~= Seq::<Seq<char>>::empty());
        std::mem::swap(&mut taken, self);
        proof {
            use_type_invariant(&taken);
        }
        let PositionMap { mut map, mut order } = taken;
        if !map.contains_key(id.as_str()) {
            order.push(id.clone());
            assert(ids_of(order) =~= old_keys.push(id@));
        }
        map.insert(id, pos);
        assert(map@.map_values(|p: Position| point(p)) =~= old_map.map_values(
            |p: Position| point(p),
        ).insert(id@, point(pos)));
        assert forall|k: Seq<char>| #[trigger]
            map@.contains_key(k) <==> ids_of(order).contains(k) by {
            if k != id@ {
                if old_keys.contains(k) {
                    let j = choose|j: int| 0 <= j < old_keys.len() && old_keys[j] == k;
                    assert(ids_of(order)[j] == k);
                }
                if ids_of(order).contains(k) {
                    let j = choose|j: int| 0 <= j < ids_of(order).len() && ids_of(order)[j] == k;
                    assert(old_keys[j] == k);
                }
            } else {
                if !old_keys.contains(k) {
                    assert(ids_of(order)[old_keys.len() as int] == k);
                }
            }
        }
        *self = PositionMap { map, order };
    }

    /// The position of `id`, if it was placed.
    pub fn get(&self, id: &str) -> (res: Option<Position>)
        ensures
            match res {
                Some(p) => self@.contains_key(id@) && self@[id@] == point(p),
                None => !self@.contains_key(id@),
            },
            res matches Some(p) ==> self.spec_get(id@) == Some(point(p)),
            res is None ==> self.spec_get(id@) is None,
    {
        match self.map.get(id) {
            Some(p) => Some(*p),
            None => None,
        }
    }

    /// The ids placed, in the order they were first placed.
    pub fn ids(&self) -> (v: Vec<String>)
        ensures
            ids_of(v) == self.keys(),
    {
        let mut v: Vec<String> = Vec::new();
        let mut i: usize = 0;
        while i < self.order.len()
            invariant
                i <= self.order@.len(),
                ids_of(v) =~= self.keys().take(i as int),
            decreases self.order@.len() - i,
        {
            let id = self.order[i].clone();
            let ghost before = ids_of(v);
            v.push(id);
            assert(ids_of(v) =~= before.push(id@));
            i = i + 1;
        }
        v
    }
}

// ---------------------------------------------------------------------------
// What the chart is
// ---------------------------------------------------------------------------

/// A placement: an id and the point it is put at.
pub type Placement = (Seq<char>, (int, int));

/// A slot of the grandparents' row: a parent of the focus who is in the
/// database, and that parent's own two parents where exactly two are listed.
pub type Slot = (Seq<char>, Option<(Seq<char>, Seq<char>)>);

/// The parents listed for the person with id `id`; none where nobody has that id.
pub open spec fn parent_ids(people: Map<Seq<char>, Person>, id: Seq<char>) -> Seq<Seq<char>> {
    if people.contains_key(id) {
        ids_of(people[id].parents)
    } else {
        Seq::<Seq<char>>::empty()
    }
}

/// The bottom row: the focus and the focus's siblings, that is the children
/// of any of the focus's parents, with the focus put first where no parent
/// lists it.
pub open spec fn chart_bottom_row(people: Map<Seq<char>, Person>, focus: Seq<char>) -> Seq<
    Seq<char>,
> {
    let ps = parent_ids(people, focus);
    let kids = first_occurrences(children_listed(people, ps));
    if ps.len() > 0 && kids.contains(focus) {
        kids
    } else if ps.len() > 0 {
        seq![focus] + kids
    } else {
        seq![focus]
    }
}

/// The row below the focus: the focus's own children, each once.
pub open spec fn chart_children(people: Map<Seq<char>, Person>, focus: Seq<char>) -> Seq<
    Seq<char>,
> {
    first_occurrences(crate::data::child_ids(people, focus))
}

/// The position of the first `x` in `s`.
pub open spec fn first_index(s: Seq<Seq<char>>, x: Seq<char>) -> int
    decreases s.len(),
{
    if s.len() == 0 {
        0
    } else if s[0] == x {
        0
    } else {
        1 + first_index(s.drop_first(), x)
    }
}

/// The couple above the person with id `p`: that person's parents, where
/// exactly two are listed.
pub open spec fn grandparent_couple(people: Map<Seq<char>, Person>, p: Seq<char>) -> Option<
    (Seq<char>, Seq<char>),
> {
    let pp = parent_ids(people, p);
    if pp.len() == 2 {
        Some((pp[0], pp[1]))
    } else {
        None
    }
}

/// One slot for each id of `ps` that names somebody, in order.
pub open spec fn top_slots(people: Map<Seq<char>, Person>, ps: Seq<Seq<char>>) -> Seq<Slot>
    decreases ps.len(),
{
    if ps.len() == 0 {
        Seq::<Slot>::empty()
    } else {
        let r = top_slots(people, ps.drop_last());
        if people.contains_key(ps.last()) {
            r.push((ps.last(), grandparent_couple(people, ps.last())))
        } else {
            r
        }
    }
}

/// A slot holding a couple is a couple wide, any other slot one card.
pub open spec fn slot_width(s: Slot) -> int {
    if s.1 is Some {
        COUPLE_BLOCK_W as int
    } else {
        NODE_W as int
    }
}

/// The widths of the slots, added up.
pub open spec fn slots_width(slots: Seq<Slot>) -> int
    decreases slots.len(),
{
    if slots.len() == 0 {
        0
    } else {
        slots_width(slots.drop_last()) + slot_width(slots.last())
    }
}

/// The slots side by side with a gap between neighbours; nothing when there is no slot.
pub open spec fn top_row_width(slots: Seq<Slot>) -> int {
    if slots.len() == 0 {
        0
    } else {
        slots_width(slots) + (slots.len() - 1) * SUBTREE_GAP
    }
}

/// `n` cards side by side with a gap between neighbours; one card when `n` is 0.
pub open spec fn bottom_row_width(n: int) -> int {
    if n == 0 {
        NODE_W as int
    } else {
        n * NODE_W + (n - 1) * SIBLING_GAP
    }
}

/// The width of the focus's children's row: nothing where there are none.
pub open spec fn children_row_width(m: int) -> int {
    if m == 0 {
        0
    } else {
        bottom_row_width(m)
    }
}

/// The larger of `a` and `b`.
pub open spec fn max(a: int, b: int) -> int {
    if a < b {
        b
    } else {
        a
    }
}

/// Some slot holds a couple.
pub open spec fn any_couple(slots: Seq<Slot>) -> bool {
    exists|i: int| 0 <= i < slots.len() && (#[trigger] slots[i]).1 is Some
}

/// The chart's width: the widest of its rows and of one couple; `n` cards on
/// the bottom row and `m` on the children's row.
pub open spec fn chart_width(slots: Seq<Slot>, n: int, m: int) -> int {
    max(
        max(max(top_row_width(slots), bottom_row_width(n)), children_row_width(m)),
        COUPLE_BLOCK_W as int,
    )
}

/// The distance from the top of one row to the top of the next.
pub open spec fn row_step() -> int {
    NODE_H + VERT_GAP
}

/// The parents' row is the second row where there are grandparents, else the first.
pub open spec fn chart_y_parents(slots: Seq<Slot>) -> int {
    if any_couple(slots) {
        row_step()
    } else {
        0
    }
}

/// The number of rows: the bottom row, the parents' row where parents are
/// listed, the grandparents' row where some couple is known.
pub open spec fn chart_generations(ps: Seq<Seq<char>>, slots: Seq<Slot>) -> int {
    1 + (if ps.len() > 0 {
        1int
    } else {
        0int
    }) + (if any_couple(slots) {
        1int
    } else {
        0int
    })
}

/// The bottom row is the last row.
pub open spec fn chart_y_bottom(ps: Seq<Seq<char>>, slots: Seq<Slot>) -> int {
    (chart_generations(ps, slots) - 1) * row_step()
}

/// The left edge of slot `i` when the row starts at `top_left`.
pub open spec fn slot_left(top_left: int, slots: Seq<Slot>, i: int) -> int {
    top_left + slots_width(slots.take(i)) + i * SUBTREE_GAP
}

/// For each slot, its parent and the middle of the slot: the point that parent
/// is centred under.
pub open spec fn anchors(slots: Seq<Slot>, top_left: int) -> Seq<(Seq<char>, int)> {
    Seq::new(
        slots.len(),
        |i: int| (slots[i].0, slot_left(top_left, slots, i) + slot_width(slots[i]) / 2),
    )
}

/// The anchor of `p` given by the last slot of `p`, if any.
pub open spec fn last_anchor(a: Seq<(Seq<char>, int)>, p: Seq<char>) -> Option<int>
    decreases a.len(),
{
    if a.len() == 0 {
        None
    } else if a.last().0 == p {
        Some(a.last().1)
    } else {
        last_anchor(a.drop_last(), p)
    }
}

/// The two cards of a slot's couple, side by side on the top row.
pub open spec fn slot_placements(s: Slot, left: int) -> Seq<Placement> {
    match s.1 {
        Some((a, b)) => seq![(a, (left, 0int)), (b, (left + NODE_W + COUPLE_GAP, 0int))],
        None => Seq::<Placement>::empty(),
    }
}

/// The grandparents' row, slot by slot from the left.
pub open spec fn top_placements(slots: Seq<Slot>, top_left: int) -> Seq<Placement>
    decreases slots.len(),
{
    if slots.len() == 0 {
        Seq::<Placement>::empty()
    } else {
        top_placements(slots.drop_last(), top_left) + slot_placements(
            slots.last(),
            slot_left(top_left, slots, slots.len() - 1),
        )
    }
}

/// The couples of the grandparents' row, from the left.
pub open spec fn top_couples(slots: Seq<Slot>) -> Seq<(Seq<char>, Seq<char>)>
    decreases slots.len(),
{
    if slots.len() == 0 {
        Seq::<(Seq<char>, Seq<char>)>::empty()
    } else {
        let r = top_couples(slots.drop_last());
        match slots.last().1 {
            Some(c) => r.push(c),
            None => r,
        }
    }
}

/// A connector from a couple (or a single parent) down to a child.
pub type Edge = ((Seq<char>, Option<Seq<char>>), Seq<char>);

/// The connectors from each grandparent couple down to the parent below it.
pub open spec fn top_edges(slots: Seq<Slot>) -> Seq<Edge>
    decreases slots.len(),
{
    if slots.len() == 0 {
        Seq::<Edge>::empty()
    } else {
        let r = top_edges(slots.drop_last());
        match slots.last().1 {
            Some((a, b)) => r.push(((a, Some(b)), slots.last().0)),
            None => r,
        }
    }
}

/// Where parent `i` is drawn (the left edge of its card). A parent with an
/// anchor is centred under it. Of two parents, one without an anchor stands
/// beside the other as its partner (right of it if second, left if first),
/// and two without anchors stand as a couple in the middle of the chart. Any
/// other parent without an anchor is centred on the chart.
pub open spec fn parent_x(ps: Seq<Seq<char>>, a: Seq<(Seq<char>, int)>, width: int, i: int) -> int {
    let own = last_anchor(a, ps[i]);
    if own is Some {
        own->0 - NODE_W / 2
    } else if ps.len() == 2 {
        let other = last_anchor(a, ps[1 - i]);
        if other is Some {
            if i == 1 {
                other->0 - NODE_W / 2 + NODE_W + COUPLE_GAP
            } else {
                other->0 - NODE_W / 2 - NODE_W - COUPLE_GAP
            }
        } else {
            let left = width / 2 - COUPLE_BLOCK_W / 2;
            if i == 0 {
                left
            } else {
                left + NODE_W + COUPLE_GAP
            }
        }
    } else {
        width / 2 - NODE_W / 2
    }
}

/// The parents' row.
pub open spec fn parent_placements(
    ps: Seq<Seq<char>>,
    a: Seq<(Seq<char>, int)>,
    width: int,
    y: int,
) -> Seq<Placement> {
    Seq::new(ps.len(), |i: int| (ps[i], (parent_x(ps, a, width, i), y)))
}

/// The point the bottom row is centred under: the middle between the two
/// parents' cards, the middle of the single parent's card, or the middle of
/// the chart.
pub open spec fn parent_mid(ps: Seq<Seq<char>>, a: Seq<(Seq<char>, int)>, width: int) -> int {
    if ps.len() == 2 {
        (parent_x(ps, a, width, 0) + NODE_W / 2 + parent_x(ps, a, width, 1) + NODE_W / 2) / 2
    } else if ps.len() == 1 {
        parent_x(ps, a, width, 0) + NODE_W / 2
    } else {
        width / 2
    }
}

/// The bottom row from `left`, one card and one gap per sibling.
pub open spec fn bottom_placements(row: Seq<Seq<char>>, left: int, y: int) -> Seq<Placement> {
    Seq::new(row.len(), |i: int| (row[i], (left + i * (NODE_W + SIBLING_GAP), y)))
}

/// The connectors from the parents down to each sibling: from the first
/// parent, and the second where there are exactly two.
pub open spec fn bottom_edges(ps: Seq<Seq<char>>, row: Seq<Seq<char>>) -> Seq<Edge> {
    if ps.len() == 0 {
        Seq::<Edge>::empty()
    } else {
        Seq::new(
            row.len(),
            |i: int|
                ((
                    ps[0],
                    if ps.len() == 2 {
                        Some(ps[1])
                    } else {
                        None
                    },
                ), row[i]),
        )
    }
}

pub open spec fn chart_slots(people: Map<Seq<char>, Person>, focus: Seq<char>) -> Seq<Slot> {
    top_slots(people, parent_ids(people, focus))
}

pub open spec fn chart_total_width(people: Map<Seq<char>, Person>, focus: Seq<char>) -> int {
    chart_width(
        chart_slots(people, focus),
        chart_bottom_row(people, focus).len() as int,
        chart_children(people, focus).len() as int,
    )
}

/// Where the grandparents' row starts: centred on the chart.
pub open spec fn chart_top_left(people: Map<Seq<char>, Person>, focus: Seq<char>) -> int {
    (chart_total_width(people, focus) - top_row_width(chart_slots(people, focus))) / 2
}

pub open spec fn chart_anchors(people: Map<Seq<char>, Person>, focus: Seq<char>) -> Seq<
    (Seq<char>, int),
> {
    anchors(chart_slots(people, focus), chart_top_left(people, focus))
}

/// Where the bottom row starts: centred under the parents' midpoint.
pub open spec fn chart_bottom_left(people: Map<Seq<char>, Person>, focus: Seq<char>) -> int {
    parent_mid(
        parent_ids(people, focus),
        chart_anchors(people, focus),
        chart_total_width(people, focus),
    ) - bottom_row_width(chart_bottom_row(people, focus).len() as int) / 2
}

/// The middle of the focus's card on the bottom row.
pub open spec fn chart_focus_centre(people: Map<Seq<char>, Person>, focus: Seq<char>) -> int {
    chart_bottom_left(people, focus) + first_index(chart_bottom_row(people, focus), focus) * (
    NODE_W + SIBLING_GAP) + NODE_W / 2
}

/// Where the children's row starts: centred under the focus's card.
pub open spec fn chart_children_left(people: Map<Seq<char>, Person>, focus: Seq<char>) -> int {
    chart_focus_centre(people, focus) - bottom_row_width(chart_children(people, focus).len() as int)
        / 2
}

/// The children's row is the row below the bottom row.
pub open spec fn chart_y_children(people: Map<Seq<char>, Person>, focus: Seq<char>) -> int {
    chart_y_bottom(parent_ids(people, focus), chart_slots(people, focus)) + row_step()
}

/// Every placement of the chart in its frame, in the order they are made:
/// grandparents, parents, the bottom row, then the focus's children. A row
/// may stick out of the frame on either side; [`chart_placements`] shifts the
/// whole chart so that it does not.
pub open spec fn chart_raw_placements(people: Map<Seq<char>, Person>, focus: Seq<char>) -> Seq<
    Placement,
> {
    let ps = parent_ids(people, focus);
    let slots = chart_slots(people, focus);
    top_placements(slots, chart_top_left(people, focus)) + parent_placements(
        ps,
        chart_anchors(people, focus),
        chart_total_width(people, focus),
        chart_y_parents(slots),
    ) + bottom_placements(
        chart_bottom_row(people, focus),
        chart_bottom_left(people, focus),
        chart_y_bottom(ps, slots),
    ) + bottom_placements(
        chart_children(people, focus),
        chart_children_left(people, focus),
        chart_y_children(people, focus),
    )
}

/// `s` moved right by `d`.
pub open spec fn shift_placements(s: Seq<Placement>, d: int) -> Seq<Placement> {
    Seq::new(s.len(), |i: int| (s[i].0, (s[i].1.0 + d, s[i].1.1)))
}

/// The left edge of the leftmost card of `s`, or 0 where that is further left.
pub open spec fn min_left(s: Seq<Placement>) -> int
    decreases s.len(),
{
    if s.len() == 0 {
        0
    } else {
        let r = min_left(s.drop_last());
        if s.last().1.0 < r {
            s.last().1.0
        } else {
            r
        }
    }
}

/// The right edge of the rightmost card of `s`, or `frame` where that is
/// further right.
pub open spec fn max_right(s: Seq<Placement>, frame: int) -> int
    decreases s.len(),
{
    if s.len() == 0 {
        frame
    } else {
        let r = max_right(s.drop_last(), frame);
        if r < s.last().1.0 + NODE_W {
            s.last().1.0 + NODE_W
        } else {
            r
        }
    }
}

/// How far the chart is moved right so that no card starts left of 0.
pub open spec fn chart_shift(people: Map<Seq<char>, Person>, focus: Seq<char>) -> int {
    -min_left(chart_raw_placements(people, focus))
}

/// The chart's width: from the leftmost card edge (or the frame's left edge)
/// to the rightmost card edge (or the frame's right edge).
pub open spec fn chart_extent(people: Map<Seq<char>, Person>, focus: Seq<char>) -> int {
    max_right(chart_raw_placements(people, focus), chart_total_width(people, focus)) - min_left(
        chart_raw_placements(people, focus),
    )
}

/// Every placement of the chart, moved so that the leftmost card starts at 0
/// or further right.
pub open spec fn chart_placements(people: Map<Seq<char>, Person>, focus: Seq<char>) -> Seq<
    Placement,
> {
    shift_placements(chart_raw_placements(people, focus), chart_shift(people, focus))
}

/// The couples joined by a marriage line: the grandparent couples, then the
/// parents where there are exactly two.
pub open spec fn chart_couples(people: Map<Seq<char>, Person>, focus: Seq<char>) -> Seq<
    (Seq<char>, Seq<char>),
> {
    let ps = parent_ids(people, focus);
    top_couples(chart_slots(people, focus)) + (if ps.len() == 2 {
        seq![(ps[0], ps[1])]
    } else {
        Seq::<(Seq<char>, Seq<char>)>::empty()
    })
}

/// The connectors: grandparents to parents, parents to the bottom row, then
/// the focus to each of its children.
pub open spec fn chart_edges(people: Map<Seq<char>, Person>, focus: Seq<char>) -> Seq<Edge> {
    top_edges(chart_slots(people, focus)) + bottom_edges(
        parent_ids(people, focus),
        chart_bottom_row(people, focus),
    ) + bottom_edges(seq![focus], chart_children(people, focus))
}

/// The chart reaches down to the bottom of its last row: the children's row
/// where the focus has children, else the bottom row.
pub open spec fn chart_height(people: Map<Seq<char>, Person>, focus: Seq<char>) -> int {
    if chart_children(people, focus).len() > 0 {
        chart_y_children(people, focus) + NODE_H
    } else {
        chart_y_bottom(parent_ids(people, focus), chart_slots(people, focus)) + NODE_H
    }
}

/// The ids of a list of placements.
pub open spec fn placement_keys(s: Seq<Placement>) -> Seq<Seq<char>> {
    Seq::new(s.len(), |i: int| s[i].0)
}

/// A list of placed cards as placements.
pub open spec fn placements_of(v: Seq<(String, Position)>) -> Seq<Placement> {
    Seq::new(v.len(), |i: int| (v[i].0@, point(v[i].1)))
}

/// `v` lists exactly the placements `done`, each within [`coord_bound`].
pub open spec fn records(v: Vec<(String, Position)>, done: Seq<Placement>) -> bool {
    &&& placements_of(v@) == done
    &&& forall|i: int|
        0 <= i < done.len() ==> -coord_bound() <= #[trigger] done[i].1.0 <= coord_bound()
            && -coord_bound() <= done[i].1.1 <= coord_bound()
}

/// `m` holds exactly what the placements `done` leave, with the ids in the
/// order of their first placement.
pub open spec fn tracks(m: PositionMap, done: Seq<Placement>) -> bool {
    &&& m.wf()
    &&& m@ == placed(done)
    &&& m.keys() == first_occurrences(placement_keys(done))
    &&& within_bound(m@, canvas_bound())
}

/// The chart of a database, as computed by [`compute`].
pub struct Layout {
    pub positions: PositionMap,
    /// Couples joined by a marriage line, (left, right).
    pub couples: Vec<(String, String)>,
    /// Connectors ((parent, other parent), child).
    pub family_edges: Vec<((String, Option<String>), String)>,
    pub width: i128,
    pub height: i128,
}

impl Layout {
    /// The positions are well formed and every coordinate and size lies within
    /// [`canvas_bound`], which leaves room to draw around them.
    pub open spec fn wf(self) -> bool {
        &&& self.positions.wf()
        &&& within_bound(self.positions@, canvas_bound())
        &&& -canvas_bound() <= self.width <= canvas_bound()
        &&& -canvas_bound() <= self.height <= canvas_bound()
    }
}

// ---------------------------------------------------------------------------
// Computing the chart
// ---------------------------------------------------------------------------

/// A slot as the code holds it.
pub type SlotEntry = (String, Option<(String, String)>);

/// An upper bound on the size of every length and coordinate of a chart in
/// its frame.
pub open spec fn coord_bound() -> int {
    0x1_0000_0000_0000_0000_0000
}

/// An upper bound on the size of every length and coordinate of a chart once
/// shifted onto its canvas.
pub open spec fn canvas_bound() -> int {
    0x4_0000_0000_0000_0000_0000
}

/// A bound on the intermediate values of a chart (anchors, row edges), low
/// enough that a row built from them stays within [`coord_bound`].
pub open spec fn inner_bound() -> int {
    0x4000_0000_0000_0000_0000
}

/// Every point of `m` lies within `b` of the origin along both axes.
pub open spec fn within_bound(m: Map<Seq<char>, (int, int)>, b: int) -> bool {
    forall|k: Seq<char>|
        #[trigger] m.contains_key(k) ==> -b <= m[k].0 <= b && -b <= m[k].1 <= b
}

proof fn lemma_slots_width_bounds(slots: Seq<Slot>)
    ensures
        slots.len() * NODE_W <= slots_width(slots) <= slots.len() * COUPLE_BLOCK_W,
    decreases slots.len(),
{
    if slots.len() > 0 {
        lemma_slots_width_bounds(slots.drop_last());
        lemma_mul_succ(slots.len() - 1, NODE_W as int);
        lemma_mul_succ(slots.len() - 1, COUPLE_BLOCK_W as int);
    }
}

proof fn lemma_mul_succ(n: int, c: int)
    by (nonlinear_arith)
    ensures
        (n + 1) * c == n * c + c,
{
}

proof fn lemma_mul_mono(a: int, b: int, c: int)
    by (nonlinear_arith)
    requires
        0 <= a <= b,
        0 <= c,
    ensures
        0 <= a * c <= b * c,
{
}

/// Records the placement of `id` at (`x`, `y`).
fn place(
    m: &mut Vec<(String, Position)>,
    id: &String,
    x: i128,
    y: i128,
    Ghost(done): Ghost<Seq<Placement>>,
)
    requires
        records(*old(m), done),
        -coord_bound() <= x <= coord_bound(),
        -coord_bound() <= y <= coord_bound(),
    ensures
        records(*final(m), done.push((id@, (x as int, y as int)))),
{
    m.push((id.clone(), Position { x, y }));
    assert(placements_of(m@) =~= done.push((id@, (x as int, y as int))));
}

/// The slots of the grandparents' row for the parents `ps`.
fn top_row(db: &Database, ps: &Vec<String>) -> (slots: Vec<SlotEntry>)
    ensures
        slots.deep_view() == top_slots(db.people@, ids_of(*ps)),
{
    let mut slots: Vec<SlotEntry> = Vec::new();
    let mut i: usize = 0;
    while i < ps.len()
        invariant
            i <= ps.len(),
            slots.deep_view() == top_slots(db.people@, ids_of(*ps).take(i as int)),
        decreases ps.len() - i,
    {
        assert(ids_of(*ps).take(i + 1).drop_last() =~= ids_of(*ps).take(i as int));
        assert(ids_of(*ps).take(i + 1).last() == ps[i as int]@);
        match db.get(ps[i].as_str()) {
            Some(parent) => {
                let pair = if parent.parents.len() == 2 {
                    Some((parent.parents[0].clone(), parent.parents[1].clone()))
                } else {
                    None
                };
                let id = ps[i].clone();
                let ghost before = slots.deep_view();
                slots.push((id, pair));
                assert(slots.deep_view() =~= before.push(
                    (ps[i as int]@, grandparent_couple(db.people@, ps[i as int]@)),
                ));
            },
            None => {},
        }
        i = i + 1;
    }
    assert(ids_of(*ps).take(ps.len() as int) =~= ids_of(*ps));
    slots
}

/// The width of a slot.
fn slot_width_of(s: &SlotEntry) -> (w: i128)
    ensures
        w == slot_width(s.deep_view()),
{
    match &s.1 {
        Some(_) => COUPLE_BLOCK_W,
        None => NODE_W,
    }
}

/// The width of the grandparents' row.
fn top_row_width_of(slots: &Vec<SlotEntry>) -> (w: i128)
    ensures
        w == top_row_width(slots.deep_view()),
        0 <= w <= slots.len() * (COUPLE_BLOCK_W + SUBTREE_GAP),
{
    let ghost sv = slots.deep_view();
    let mut sum: i128 = 0;
    let mut i: usize = 0;
    while i < slots.len()
        invariant
            i <= slots.len(),
            sv == slots.deep_view(),
            sum == slots_width(sv.take(i as int)),
            0 <= sum <= i * COUPLE_BLOCK_W,
        decreases slots.len() - i,
    {
        assert(sv.take(i + 1).drop_last() =~= sv.take(i as int));
        proof {
            lemma_mul_succ(i as int, COUPLE_BLOCK_W as int);
            lemma_mul_mono(i as int, 0x1_0000_0000_0000_0000int, COUPLE_BLOCK_W as int);
        }
        sum = sum + slot_width_of(&slots[i]);
        i = i + 1;
    }
    assert(sv.take(slots.len() as int) =~= sv);
    proof {
        lemma_mul_mono(slots.len() as int, 0x1_0000_0000_0000_0000int, COUPLE_BLOCK_W + SUBTREE_GAP);
        assert(slots.len() * (COUPLE_BLOCK_W + SUBTREE_GAP) == slots.len() * COUPLE_BLOCK_W
            + slots.len() * SUBTREE_GAP) by (nonlinear_arith);
        if slots.len() > 0 {
            lemma_mul_succ(slots.len() - 1, SUBTREE_GAP as int);
        }
    }
    if slots.len() == 0 {
        0
    } else {
        sum + (slots.len() as i128 - 1) * SUBTREE_GAP
    }
}

/// Whether some slot holds a couple.
fn any_couple_in(slots: &Vec<SlotEntry>) -> (b: bool)
    ensures
        b == any_couple(slots.deep_view()),
{
    let mut i: usize = 0;
    while i < slots.len()
        invariant
            i <= slots.len(),
            forall|k: int| 0 <= k < i ==> (#[trigger] slots.deep_view()[k]).1 is None,
        decreases slots.len() - i,
    {
        if slots[i].1.is_some() {
            assert(slots.deep_view()[i as int].1 is Some);
            return true;
        }
        i = i + 1;
    }
    false
}

/// The anchors as integers.
pub open spec fn anchor_view(v: Seq<(String, i128)>) -> Seq<(Seq<char>, int)> {
    Seq::new(v.len(), |i: int| (v[i].0@, v[i].1 as int))
}

/// The anchor of `id`: that of its last slot.
fn anchor_of(anchors: &Vec<(String, i128)>, id: &String) -> (r: Option<i128>)
    ensures
        match r {
            Some(x) => last_anchor(anchor_view(anchors@), id@) == Some(x as int),
            None => last_anchor(anchor_view(anchors@), id@) is None,
        },
{
    let ghost av = anchor_view(anchors@);
    let mut i: usize = anchors.len();
    assert(av.take(i as int) =~= av);
    while i > 0
        invariant
            i <= anchors.len(),
            av == anchor_view(anchors@),
            last_anchor(av, id@) == last_anchor(av.take(i as int), id@),
        decreases i,
    {
        assert(av.take(i as int).drop_last() =~= av.take(i - 1));
        if anchors[i - 1].0 == *id {
            return Some(anchors[i - 1].1);
        }
        i = i - 1;
    }
    None
}

proof fn lemma_take_take<A>(s: Seq<A>, i: int, j: int)
    requires
        0 <= i <= j <= s.len(),
    ensures
        s.take(j).take(i) == s.take(i),
{
    assert(s.take(j).take(i) =~= s.take(i));
}

/// Places the grandparents' row from `top_left`, records its couples and the
/// connectors down to each parent, and returns each parent's anchor.
fn place_top_row(
    slots: &Vec<SlotEntry>,
    top_left: i128,
    positions: &mut Vec<(String, Position)>,
    couples: &mut Vec<(String, String)>,
    edges: &mut Vec<((String, Option<String>), String)>,
) -> (anchors_out: Vec<(String, i128)>)
    requires
        records(*old(positions), Seq::<Placement>::empty()),
        old(couples).deep_view() == Seq::<(Seq<char>, Seq<char>)>::empty(),
        old(edges).deep_view() == Seq::<Edge>::empty(),
        0 <= top_left <= 0x2000_0000_0000_0000_0000,
    ensures
        records(*final(positions), top_placements(slots.deep_view(), top_left as int)),
        final(couples).deep_view() == top_couples(slots.deep_view()),
        final(edges).deep_view() == top_edges(slots.deep_view()),
        anchor_view(anchors_out@) == anchors(slots.deep_view(), top_left as int),
{
    let ghost sv = slots.deep_view();
    let mut anchors_out: Vec<(String, i128)> = Vec::new();
    let mut cursor: i128 = top_left;
    let mut i: usize = 0;
    assert(sv.take(0) =~= Seq::<Slot>::empty());
    while i < slots.len()
        invariant
            i <= slots.len(),
            sv == slots.deep_view(),
            0 <= top_left <= 0x2000_0000_0000_0000_0000,
            i < slots.len() ==> cursor == slot_left(top_left as int, sv, i as int),
            records(*positions, top_placements(sv.take(i as int), top_left as int)),
            couples.deep_view() == top_couples(sv.take(i as int)),
            edges.deep_view() == top_edges(sv.take(i as int)),
            anchor_view(anchors_out@) == anchors(sv, top_left as int).take(i as int),
        decreases slots.len() - i,
    {
        let ghost before = sv.take(i as int);
        let ghost next = sv.take(i + 1);
        proof {
            assert(next.drop_last() =~= before);
            assert(next.last() == sv[i as int]);
            lemma_take_take(sv, i as int, i + 1);
            lemma_slots_width_bounds(before);
            lemma_mul_mono(i as int, 0x1_0000_0000_0000_0000int, COUPLE_BLOCK_W as int);
            lemma_mul_mono(i as int, 0x1_0000_0000_0000_0000int, SUBTREE_GAP as int);
        }
        let slot_w = slot_width_of(&slots[i]);
        let parent = &slots[i].0;
        match &slots[i].1 {
            Some((gpa, gpb)) => {
                let left_x = cursor;
                let right_x = cursor + NODE_W + COUPLE_GAP;
                let ghost done = top_placements(before, top_left as int);
                place(positions, gpa, left_x, 0, Ghost(done));
                place(
                    positions,
                    gpb,
                    right_x,
                    0,
                    Ghost(done.push((gpa@, (left_x as int, 0int)))),
                );
                assert(done.push((gpa@, (left_x as int, 0int))).push(
                    (gpb@, (right_x as int, 0int)),
                ) =~= top_placements(next, top_left as int));
                let ghost old_couples = couples.deep_view();
                couples.push((gpa.clone(), gpb.clone()));
                assert(couples.deep_view() =~= old_couples.push((gpa@, gpb@)));
                let ghost old_edges = edges.deep_view();
                edges.push(((gpa.clone(), Some(gpb.clone())), parent.clone()));
                assert(edges.deep_view() =~= old_edges.push(((gpa@, Some(gpb@)), parent@)));
                let couple_mid_x = cursor + COUPLE_BLOCK_W / 2;
                let ghost old_anchors = anchor_view(anchors_out@);
                anchors_out.push((parent.clone(), couple_mid_x));
                assert(anchor_view(anchors_out@) =~= old_anchors.push(
                    (parent@, couple_mid_x as int),
                ));
            },
            None => {
                assert(top_placements(before, top_left as int) =~= top_placements(
                    next,
                    top_left as int,
                ));
                let slot_mid_x = cursor + slot_w / 2;
                let ghost old_anchors = anchor_view(anchors_out@);
                anchors_out.push((parent.clone(), slot_mid_x));
                assert(anchor_view(anchors_out@) =~= old_anchors.push(
                    (parent@, slot_mid_x as int),
                ));
            },
        }
        assert(anchors(sv, top_left as int).take(i + 1) =~= anchors(sv, top_left as int).take(
            i as int,
        ).push(anchors(sv, top_left as int)[i as int]));
        cursor = cursor + slot_w;
        if i + 1 < slots.len() {
            cursor = cursor + SUBTREE_GAP;
            proof {
                lemma_take_take(sv, i + 1, i + 1);
            }
        }
        i = i + 1;
    }
    assert(sv.take(slots.len() as int) =~= sv);
    assert(anchors(sv, top_left as int).take(slots.len() as int) =~= anchors(
        sv,
        top_left as int,
    ));
    anchors_out
}

proof fn lemma_anchor_bounds(slots: Seq<Slot>, top_left: int, k: int)
    requires
        0 <= top_left,
        0 <= k < slots.len() <= 0x1_0000_0000_0000_0000int,
    ensures
        top_left <= anchors(slots, top_left)[k].1 <= top_left + 0x1_0000_0000_0000_0000_000int,
{
    lemma_slots_width_bounds(slots.take(k));
    lemma_mul_mono(k, 0x1_0000_0000_0000_0000int, COUPLE_BLOCK_W as int);
    lemma_mul_mono(k, 0x1_0000_0000_0000_0000int, SUBTREE_GAP as int);
}

proof fn lemma_last_anchor_bounds(a: Seq<(Seq<char>, int)>, p: Seq<char>, lo: int, hi: int)
    requires
        forall|k: int| 0 <= k < a.len() ==> lo <= #[trigger] a[k].1 <= hi,
    ensures
        last_anchor(a, p) matches Some(x) ==> lo <= x <= hi,
    decreases a.len(),
{
    if a.len() > 0 {
        assert(a.last() == a[a.len() - 1]);
        lemma_last_anchor_bounds(a.drop_last(), p, lo, hi);
    }
}

/// The largest distance from the origin at which a row may start.
pub open spec fn row_bound() -> int {
    0xF000_0000_0000_0000_0000
}

/// Where parent `i` is drawn.
fn parent_x_of(ps: &Vec<String>, anchor_list: &Vec<(String, i128)>, total_width: i128, i: usize) -> (x:
    i128)
    requires
        i < ps.len(),
        0 <= total_width <= inner_bound(),
        forall|k: int|
            0 <= k < anchor_list@.len() ==> 0 <= #[trigger] anchor_list@[k].1 <= inner_bound(),
    ensures
        x == parent_x(ids_of(*ps), anchor_view(anchor_list@), total_width as int, i as int),
        -inner_bound() <= x <= inner_bound() + 2 * COUPLE_BLOCK_W,
        (total_width % 8 == 0 && forall|k: int|
            0 <= k < anchor_list@.len() ==> #[trigger] anchor_list@[k].1 % 4 == 0) ==> x % 4 == 0,
{
    let ghost av = anchor_view(anchor_list@);
    proof {
        if forall|k: int| 0 <= k < anchor_list@.len() ==> #[trigger] anchor_list@[k].1 % 4 == 0 {
            assert forall|k: int| 0 <= k < av.len() implies #[trigger] av[k].1 % 4 == 0 by {
                assert(av[k].1 == anchor_list@[k].1);
            }
            lemma_last_anchor_mod(av, ps[i as int]@);
            if ps.len() == 2 {
                lemma_last_anchor_mod(av, ps[1 - i as int]@);
            }
        }
        assert forall|k: int| 0 <= k < av.len() implies 0 <= #[trigger] av[k].1 <= inner_bound() by {
            assert(av[k].1 == anchor_list@[k].1);
        }
        lemma_last_anchor_bounds(av, ps[i as int]@, 0, inner_bound());
        if ps.len() == 2 {
            lemma_last_anchor_bounds(av, ps[1 - i as int]@, 0, inner_bound());
            assert(ids_of(*ps)[1 - i as int] == ps[1 - i as int]@);
        }
    }
    match anchor_of(anchor_list, &ps[i]) {
        Some(a) => a - NODE_W / 2,
        None => {
            if ps.len() == 2 {
                match anchor_of(anchor_list, &ps[1 - i]) {
                    Some(o) => {
                        if i == 1 {
                            o - NODE_W / 2 + NODE_W + COUPLE_GAP
                        } else {
                            o - NODE_W / 2 - NODE_W - COUPLE_GAP
                        }
                    },
                    None => {
                        let left = total_width / 2 - COUPLE_BLOCK_W / 2;
                        if i == 0 {
                            left
                        } else {
                            left + NODE_W + COUPLE_GAP
                        }
                    },
                }
            } else {
                total_width / 2 - NODE_W / 2
            }
        },
    }
}

/// Places the parents' row on row `y`.
fn place_parents(
    ps: &Vec<String>,
    anchor_list: &Vec<(String, i128)>,
    total_width: i128,
    y: i128,
    positions: &mut Vec<(String, Position)>,
    Ghost(done): Ghost<Seq<Placement>>,
)
    requires
        records(*old(positions), done),
        0 <= total_width <= inner_bound(),
        0 <= y <= inner_bound(),
        forall|k: int|
            0 <= k < anchor_list@.len() ==> 0 <= #[trigger] anchor_list@[k].1 <= inner_bound(),
    ensures
        records(
            *final(positions),
            done + parent_placements(
                ids_of(*ps),
                anchor_view(anchor_list@),
                total_width as int,
                y as int,
            ),
        ),
{
    let ghost av = anchor_view(anchor_list@);
    let ghost pp = parent_placements(ids_of(*ps), av, total_width as int, y as int);
    let mut i: usize = 0;
    assert(pp.take(0) =~= Seq::<Placement>::empty());
    assert(done + pp.take(0) =~= done);
    while i < ps.len()
        invariant
            i <= ps.len(),
            av == anchor_view(anchor_list@),
            pp == parent_placements(ids_of(*ps), av, total_width as int, y as int),
            0 <= total_width <= inner_bound(),
            0 <= y <= inner_bound(),
            forall|k: int|
                0 <= k < anchor_list@.len() ==> 0 <= #[trigger] anchor_list@[k].1 <= inner_bound(),
            records(*positions, done + pp.take(i as int)),
        decreases ps.len() - i,
    {
        let x = parent_x_of(ps, anchor_list, total_width, i);
        place(positions, &ps[i], x, y, Ghost(done + pp.take(i as int)));
        assert((done + pp.take(i as int)).push((ps[i as int]@, (x as int, y as int))) =~= done
            + pp.take(i + 1));
        i = i + 1;
    }
    assert(pp.take(ps.len() as int) =~= pp);
}

/// Places a row from `left` on row `y`, and records a connector from the
/// people of `ps` (the first, and the second where there are exactly two)
/// down to each card of the row where `ps` is not empty.
fn place_bottom_row(
    row: &Vec<String>,
    ps: &Vec<String>,
    left: i128,
    y: i128,
    positions: &mut Vec<(String, Position)>,
    edges: &mut Vec<((String, Option<String>), String)>,
    Ghost(done): Ghost<Seq<Placement>>,
)
    requires
        records(*old(positions), done),
        -row_bound() <= left <= row_bound(),
        0 <= y <= inner_bound(),
    ensures
        records(
            *final(positions),
            done + bottom_placements(ids_of(*row), left as int, y as int),
        ),
        final(edges).deep_view() == old(edges).deep_view() + bottom_edges(ids_of(*ps), ids_of(*row)),
{
    let ghost bp = bottom_placements(ids_of(*row), left as int, y as int);
    let ghost be = bottom_edges(ids_of(*ps), ids_of(*row));
    let ghost e0 = edges.deep_view();
    let mut i: usize = 0;
    assert(done + bp.take(0) =~= done);
    assert(ids_of(*row).take(0) =~= Seq::<Seq<char>>::empty());
    assert(e0 + bottom_edges(ids_of(*ps), ids_of(*row).take(0)) =~= e0);
    while i < row.len()
        invariant
            i <= row.len(),
            bp == bottom_placements(ids_of(*row), left as int, y as int),
            be == bottom_edges(ids_of(*ps), ids_of(*row)),
            -row_bound() <= left <= row_bound(),
            0 <= y <= inner_bound(),
            records(*positions, done + bp.take(i as int)),
            edges.deep_view() == e0 + bottom_edges(ids_of(*ps), ids_of(*row).take(i as int)),
        decreases row.len() - i,
    {
        proof {
            lemma_mul_mono(i as int, 0x1_0000_0000_0000_0000int, NODE_W + SIBLING_GAP);
        }
        let x = left + (i as i128) * (NODE_W + SIBLING_GAP);
        place(positions, &row[i], x, y, Ghost(done + bp.take(i as int)));
        assert((done + bp.take(i as int)).push((row[i as int]@, (x as int, y as int))) =~= done
            + bp.take(i + 1));
        if ps.len() > 0 {
            let p_a = ps[0].clone();
            let p_b = if ps.len() == 2 {
                Some(ps[1].clone())
            } else {
                None
            };
            let ghost old_edges = edges.deep_view();
            edges.push(((p_a, p_b), row[i].clone()));
            assert(edges.deep_view() =~= old_edges.push(be[i as int]));
            assert(bottom_edges(ids_of(*ps), ids_of(*row).take(i + 1)) =~= bottom_edges(
                ids_of(*ps),
                ids_of(*row).take(i as int),
            ).push(be[i as int]));
        }
        i = i + 1;
    }
    assert(bp.take(row.len() as int) =~= bp);
    assert(ids_of(*row).take(row.len() as int) =~= ids_of(*row));
}

proof fn lemma_children_listed_one(people: Map<Seq<char>, Person>, id: Seq<char>)
    ensures
        children_listed(people, seq![id]) == crate::data::child_ids(people, id),
{
    let one = seq![id];
    assert(one.len() == 1);
    assert(one.last() == id);
    assert(one.drop_last() =~= Seq::<Seq<char>>::empty());
    assert(children_listed(people, one.drop_last()) == Seq::<Seq<char>>::empty());
    assert(Seq::<Seq<char>>::empty() + crate::data::child_ids(people, id) =~= crate::data::child_ids(
        people,
        id,
    ));
}

/// The bottom row: the focus and its siblings.
fn bottom_row_of(db: &Database, focus: &Person) -> (row: Vec<String>)
    requires
        db.people@.contains_key(db.focus@),
        *focus == db.people@[db.focus@],
    ensures
        ids_of(row) == chart_bottom_row(db.people@, db.focus@),
        row.len() >= 1,
        ids_of(row).contains(db.focus@),
{
    let ghost people = db.people@;
    let ghost f = db.focus@;
    if focus.parents.len() == 0 {
        let mut row: Vec<String> = Vec::new();
        row.push(db.focus.clone());
        assert(ids_of(row) =~= seq![f]);
        assert(ids_of(row)[0] == f);
        return row;
    }
    let kids = db.children_of_any(&focus.parents);
    if crate::data::contains_id(&kids, db.focus.as_str()) {
        return kids;
    }
    let mut row: Vec<String> = Vec::new();
    row.push(db.focus.clone());
    let mut i: usize = 0;
    assert(ids_of(row) =~= seq![f] + ids_of(kids).take(0));
    while i < kids.len()
        invariant
            i <= kids.len(),
            ids_of(row) =~= seq![f] + ids_of(kids).take(i as int),
        decreases kids.len() - i,
    {
        let k = kids[i].clone();
        let ghost before = ids_of(row);
        row.push(k);
        assert(ids_of(row) =~= before.push(k@));
        assert(seq![f] + ids_of(kids).take(i + 1) =~= (seq![f] + ids_of(kids).take(i as int)).push(
            ids_of(kids)[i as int],
        ));
        i = i + 1;
    }
    assert(ids_of(kids).take(kids.len() as int) =~= ids_of(kids));
    assert(ids_of(row)[0] == f);
    row
}

/// The focus's own children, each once.
fn children_row_of(db: &Database) -> (row: Vec<String>)
    ensures
        ids_of(row) == chart_children(db.people@, db.focus@),
{
    let mut one: Vec<String> = Vec::new();
    one.push(db.focus.clone());
    assert(ids_of(one) =~= seq![db.focus@]);
    proof {
        lemma_children_listed_one(db.people@, db.focus@);
    }
    db.children_of_any(&one)
}

proof fn lemma_first_index(s: Seq<Seq<char>>, x: Seq<char>, i: int)
    requires
        0 <= i < s.len(),
        s[i] == x,
        forall|j: int| 0 <= j < i ==> s[j] != x,
    ensures
        first_index(s, x) == i,
    decreases i,
{
    if i > 0 {
        assert(s[0] != x);
        assert forall|j: int| 0 <= j < i - 1 implies s.drop_first()[j] != x by {
            assert(s.drop_first()[j] == s[j + 1]);
        }
        lemma_first_index(s.drop_first(), x, i - 1);
    }
}

/// Where the first `id` stands in `row`.
fn index_of_id(row: &Vec<String>, id: &String) -> (k: usize)
    requires
        ids_of(*row).contains(id@),
    ensures
        k < row.len(),
        k == first_index(ids_of(*row), id@),
{
    let mut i: usize = 0;
    while i < row.len()
        invariant
            i <= row.len(),
            ids_of(*row).contains(id@),
            forall|j: int| 0 <= j < i ==> ids_of(*row)[j] != id@,
        decreases row.len() - i,
    {
        if row[i] == *id {
            proof {
                lemma_first_index(ids_of(*row), id@, i as int);
            }
            return i;
        }
        i = i + 1;
    }
    proof {
        let j = choose|j: int| 0 <= j < ids_of(*row).len() && ids_of(*row)[j] == id@;
        assert(ids_of(*row)[j] != id@);
    }
    0
}

/// The width of a bottom row of `n` cards.
fn bottom_row_width_of(n: usize) -> (w: i128)
    ensures
        w == bottom_row_width(n as int),
        0 <= w <= 0x1_0000_0000_0000_0000_000int,
{
    proof {
        lemma_mul_mono(n as int, 0x1_0000_0000_0000_0000int, NODE_W as int);
        lemma_mul_mono(n as int, 0x1_0000_0000_0000_0000int, SIBLING_GAP as int);
    }
    let n = n as i128;
    if n == 0 {
        NODE_W
    } else {
        n * NODE_W + (n - 1) * SIBLING_GAP
    }
}

/// The point the bottom row is centred under.
fn parent_mid_of(ps: &Vec<String>, anchor_list: &Vec<(String, i128)>, total_width: i128) -> (x:
    i128)
    requires
        0 <= total_width <= inner_bound(),
        total_width % 8 == 0,
        forall|k: int| 0 <= k < anchor_list@.len() ==> #[trigger] anchor_list@[k].1 % 4 == 0,
        forall|k: int|
            0 <= k < anchor_list@.len() ==> 0 <= #[trigger] anchor_list@[k].1 <= inner_bound(),
    ensures
        x == parent_mid(ids_of(*ps), anchor_view(anchor_list@), total_width as int),
        -inner_bound() <= x <= inner_bound() + 2 * COUPLE_BLOCK_W + NODE_W,
{
    if ps.len() == 2 {
        let a = parent_x_of(ps, anchor_list, total_width, 0);
        let b = parent_x_of(ps, anchor_list, total_width, 1);
        (a + NODE_W / 2 + b + NODE_W / 2) / 2
    } else if ps.len() == 1 {
        parent_x_of(ps, anchor_list, total_width, 0) + NODE_W / 2
    } else {
        total_width / 2
    }
}

proof fn lemma_extent(s: Seq<Placement>, frame: int, i: int)
    requires
        0 <= i < s.len(),
    ensures
        min_left(s) <= s[i].1.0,
        s[i].1.0 + NODE_W <= max_right(s, frame),
    decreases s.len(),
{
    if i < s.len() - 1 {
        assert(s.drop_last()[i] == s[i]);
        lemma_extent(s.drop_last(), frame, i);
    }
}

proof fn lemma_extent_frame(s: Seq<Placement>, frame: int)
    ensures
        min_left(s) <= 0,
        frame <= max_right(s, frame),
    decreases s.len(),
{
    if s.len() > 0 {
        lemma_extent_frame(s.drop_last(), frame);
    }
}

/// The leftmost and rightmost card edges of the placements in `raw` (0 and
/// `frame` where those lie further out).
fn extent(raw: &Vec<(String, Position)>, frame: i128, Ghost(done): Ghost<Seq<Placement>>) -> (r: (
    i128,
    i128,
))
    requires
        records(*raw, done),
        0 <= frame <= coord_bound(),
    ensures
        r.0 == min_left(done),
        r.1 == max_right(done, frame as int),
        -coord_bound() <= r.0 <= 0,
        frame <= r.1 <= coord_bound() + NODE_W,
{
    let mut lo: i128 = 0;
    let mut hi: i128 = frame;
    let mut i: usize = 0;
    assert(done.take(0) =~= Seq::<Placement>::empty());
    while i < raw.len()
        invariant
            i <= raw.len(),
            records(*raw, done),
            0 <= frame <= coord_bound(),
            lo == min_left(done.take(i as int)),
            hi == max_right(done.take(i as int), frame as int),
            -coord_bound() <= lo <= 0,
            frame <= hi <= coord_bound() + NODE_W,
        decreases raw.len() - i,
    {
        assert(done.take(i + 1).drop_last() =~= done.take(i as int));
        assert(done.take(i + 1).last() == done[i as int]);
        assert(done[i as int] == placements_of(raw@)[i as int]);
        let x = raw[i].1.x;
        if x < lo {
            lo = x;
        }
        if hi < x + NODE_W {
            hi = x + NODE_W;
        }
        i = i + 1;
    }
    assert(done.take(raw.len() as int) =~= done);
    (lo, hi)
}

/// The placements of `raw` moved right by `shift`, as a map.
fn shifted_map(raw: &Vec<(String, Position)>, shift: i128, Ghost(done): Ghost<Seq<Placement>>) -> (m:
    PositionMap)
    requires
        records(*raw, done),
        0 <= shift <= coord_bound(),
    ensures
        tracks(m, shift_placements(done, shift as int)),
{
    let mut m = PositionMap::new();
    let mut i: usize = 0;
    assert(shift_placements(done, shift as int).take(0) =~= Seq::<Placement>::empty());
    assert(placement_keys(Seq::<Placement>::empty()) =~= Seq::<Seq<char>>::empty());
    while i < raw.len()
        invariant
            i <= raw.len(),
            records(*raw, done),
            0 <= shift <= coord_bound(),
            tracks(m, shift_placements(done, shift as int).take(i as int)),
        decreases raw.len() - i,
    {
        let ghost sp = shift_placements(done, shift as int);
        let ghost before = sp.take(i as int);
        let ghost next = sp.take(i + 1);
        assert(done[i as int] == placements_of(raw@)[i as int]);
        let id = &raw[i].0;
        assert(-coord_bound() <= done[i as int].1.0 <= coord_bound());
        let x = raw[i].1.x + shift;
        let y = raw[i].1.y;
        assert(next.drop_last() =~= before);
        assert(next.last() == (id@, (x as int, y as int)));
        assert(placement_keys(next).drop_last() =~= placement_keys(before));
        assert(placement_keys(next).last() == id@);
        proof {
            m.lemma_keys();
            lemma_first_occurrences(placement_keys(before));
        }
        m.insert(id.clone(), Position { x, y });
        i = i + 1;
    }
    assert(shift_placements(done, shift as int).take(raw.len() as int) =~= shift_placements(
        done,
        shift as int,
    ));
    m
}

/// Lays out the chart around the focus person `db.focus`: the focus's
/// grandparents on the top row, the focus's parents below them, the focus
/// with all siblings on the next row, and the focus's own children below the
/// focus. Rows are laid out in a frame as wide as the widest row; where a row
/// sticks out of that frame, the whole chart moves right until no card starts
/// left of 0, and the width reaches the right edge of the rightmost card, so
/// that every card lies within the chart's width and height. Where nobody has
/// the focus id the chart is empty and has no size.
#[verifier::rlimit(80)]
pub fn compute(db: &Database) -> (layout: Layout)
    ensures
        layout.wf(),
        db.people@.contains_key(db.focus@) ==> {
            &&& layout.positions@ == placed(chart_placements(db.people@, db.focus@))
            &&& layout.positions.keys() == first_occurrences(
                placement_keys(chart_placements(db.people@, db.focus@)),
            )
            &&& layout.couples.deep_view() == chart_couples(db.people@, db.focus@)
            &&& layout.family_edges.deep_view() == chart_edges(db.people@, db.focus@)
            &&& layout.width == chart_extent(db.people@, db.focus@)
            &&& layout.height == chart_height(db.people@, db.focus@)
        },
        !db.people@.contains_key(db.focus@) ==> {
            &&& layout.positions@ == Map::<Seq<char>, (int, int)>::empty()
            &&& layout.positions.keys().len() == 0
            &&& layout.couples@.len() == 0
            &&& layout.family_edges@.len() == 0
            &&& layout.width == 0
            &&& layout.height == 0
        },
{
    let ghost people = db.people@;
    let ghost focus_id = db.focus@;
    let mut raw: Vec<(String, Position)> = Vec::new();
    let mut couples: Vec<(String, String)> = Vec::new();
    let mut family_edges: Vec<((String, Option<String>), String)> = Vec::new();
    assert(couples.deep_view() =~= Seq::<(Seq<char>, Seq<char>)>::empty());
    assert(family_edges.deep_view() =~= Seq::<Edge>::empty());
    assert(placements_of(raw@) =~= Seq::<Placement>::empty());
    let focus = match db.get(db.focus.as_str()) {
        Some(f) => f,
        None => {
            let positions = PositionMap::new();
            return Layout { positions, couples, family_edges, width: 0, height: 0 };
        },
    };
    let ghost ps = ids_of(focus.parents);
    assert(ps == parent_ids(people, focus_id));

    // The central couple, the focus with all siblings, and the focus's children.
    let central_parents = &focus.parents;
    let bottom_row = bottom_row_of(db, focus);
    let children = children_row_of(db);

    // Each central parent's own parents.
    let grandparent_couples = top_row(db, central_parents);
    let ghost slots = grandparent_couples.deep_view();
    assert(slots == chart_slots(people, focus_id));

    // Widths.
    let bottom_width = bottom_row_width_of(bottom_row.len());
    let children_width = if children.len() == 0 {
        0
    } else {
        bottom_row_width_of(children.len())
    };
    let top_width = top_row_width_of(&grandparent_couples);
    proof {
        lemma_mul_mono(
            grandparent_couples.len() as int,
            0x1_0000_0000_0000_0000int,
            COUPLE_BLOCK_W + SUBTREE_GAP,
        );
    }
    let mut total_width = if top_width < bottom_width {
        bottom_width
    } else {
        top_width
    };
    if total_width < children_width {
        total_width = children_width;
    }
    if total_width < COUPLE_BLOCK_W {
        total_width = COUPLE_BLOCK_W;
    }
    assert(total_width == chart_total_width(people, focus_id));

    // Rows: the bottom row below the ancestors, the children below it.
    let has_grandparents = any_couple_in(&grandparent_couples);
    let n_gens: i128 = 1 + (if central_parents.len() == 0 {
        0
    } else {
        1
    }) + (if has_grandparents {
        1
    } else {
        0
    });
    let row_step = NODE_H + VERT_GAP;
    let y_grandparents: i128 = 0;
    let y_parents = if has_grandparents {
        y_grandparents + row_step
    } else {
        y_grandparents
    };
    assert(1 <= n_gens <= 3);
    let y_bottom = if n_gens == 1 {
        0
    } else if n_gens == 2 {
        row_step
    } else {
        2 * row_step
    };
    assert(y_bottom == (n_gens - 1) * row_step);
    let y_children = y_bottom + row_step;

    // The grandparents' row, centred on the chart.
    let top_left = (total_width - top_width) / 2;
    assert(top_left == chart_top_left(people, focus_id));
    let anchor_list = place_top_row(
        &grandparent_couples,
        top_left,
        &mut raw,
        &mut couples,
        &mut family_edges,
    );
    let ghost av = anchor_view(anchor_list@);
    assert(av == chart_anchors(people, focus_id));
    proof {
        assert forall|k: int| 0 <= k < anchor_list@.len() implies 0 <= #[trigger] anchor_list@[k].1
            <= inner_bound() by {
            assert(av[k].1 == anchor_list@[k].1);
            lemma_anchor_bounds(slots, top_left as int, k);
        }
    }

    // The parents' row, each parent under the couple of its own parents.
    let ghost done_top = top_placements(slots, top_left as int);
    place_parents(
        central_parents,
        &anchor_list,
        total_width,
        y_parents,
        &mut raw,
        Ghost(done_top),
    );
    if central_parents.len() == 2 {
        let ghost old_couples = couples.deep_view();
        couples.push((central_parents[0].clone(), central_parents[1].clone()));
        assert(couples.deep_view() =~= old_couples.push((ps[0], ps[1])));
    }
    assert(couples.deep_view() =~= chart_couples(people, focus_id));

    // The bottom row, centred under the parents.
    proof {
        lemma_widths_mod(people, focus_id);
        assert forall|k: int| 0 <= k < anchor_list@.len() implies #[trigger] anchor_list@[k].1 % 4
            == 0 by {
            assert(av[k].1 == anchor_list@[k].1);
            lemma_anchors_mod(slots, top_left as int, k);
        }
    }
    let parent_mid_x = parent_mid_of(central_parents, &anchor_list, total_width);
    let bottom_left = parent_mid_x - bottom_width / 2;
    assert(bottom_left == chart_bottom_left(people, focus_id));
    let ghost done_parents = done_top + parent_placements(
        ps,
        av,
        total_width as int,
        y_parents as int,
    );
    place_bottom_row(
        &bottom_row,
        central_parents,
        bottom_left,
        y_bottom,
        &mut raw,
        &mut family_edges,
        Ghost(done_parents),
    );

    // The focus's children, centred under the focus's card.
    let focus_index = index_of_id(&bottom_row, &db.focus);
    proof {
        lemma_mul_mono(focus_index as int, 0x1_0000_0000_0000_0000int, NODE_W + SIBLING_GAP);
    }
    let focus_centre = bottom_left + (focus_index as i128) * (NODE_W + SIBLING_GAP) + NODE_W / 2;
    assert(focus_centre == chart_focus_centre(people, focus_id));
    let children_left = focus_centre - bottom_row_width_of(children.len()) / 2;
    assert(children_left == chart_children_left(people, focus_id));
    let mut focus_only: Vec<String> = Vec::new();
    focus_only.push(db.focus.clone());
    assert(ids_of(focus_only) =~= seq![focus_id]);
    let ghost done_bottom = done_parents + bottom_placements(
        ids_of(bottom_row),
        bottom_left as int,
        y_bottom as int,
    );
    place_bottom_row(
        &children,
        &focus_only,
        children_left,
        y_children,
        &mut raw,
        &mut family_edges,
        Ghost(done_bottom),
    );
    assert(family_edges.deep_view() =~= chart_edges(people, focus_id));

    // Move the whole chart right so that no card starts left of 0, and make it
    // wide enough for every card.
    let ghost done_all = done_bottom + bottom_placements(
        ids_of(children),
        children_left as int,
        y_children as int,
    );
    assert(done_all == chart_raw_placements(people, focus_id));
    let (lo, hi) = extent(&raw, total_width, Ghost(done_all));
    let shift = 0 - lo;
    let positions = shifted_map(&raw, shift, Ghost(done_all));
    let height = if children.len() == 0 {
        y_bottom + NODE_H
    } else {
        y_children + NODE_H
    };
    Layout { positions, couples, family_edges, width: hi - lo, height }
}

// ---------------------------------------------------------------------------
// Laws of the chart
// ---------------------------------------------------------------------------

proof fn lemma_mul_mod(k: int, c: int, m: int)
    by (nonlinear_arith)
    requires
        m > 0,
        c % m == 0,
    ensures
        (k * c) % m == 0,
{
    assert(k * c == (k * (c / m)) * m);
}

proof fn lemma_slots_width_mod(slots: Seq<Slot>)
    ensures
        slots_width(slots) % 8 == 0,
    decreases slots.len(),
{
    if slots.len() > 0 {
        lemma_slots_width_mod(slots.drop_last());
    }
}

/// Every width of a chart is a whole number of 8 grid units.
proof fn lemma_widths_mod(people: Map<Seq<char>, Person>, focus: Seq<char>)
    ensures
        top_row_width(chart_slots(people, focus)) % 8 == 0,
        bottom_row_width(chart_bottom_row(people, focus).len() as int) % 8 == 0,
        chart_total_width(people, focus) % 8 == 0,
        chart_top_left(people, focus) % 4 == 0,
        chart_top_left(people, focus) >= 0,
{
    let slots = chart_slots(people, focus);
    let n = chart_bottom_row(people, focus).len() as int;
    let c = chart_children(people, focus).len() as int;
    lemma_slots_width_mod(slots);
    lemma_mul_mod(slots.len() - 1, SUBTREE_GAP as int, 8);
    lemma_mul_mod(n, NODE_W as int, 8);
    lemma_mul_mod(n - 1, SIBLING_GAP as int, 8);
    lemma_mul_mod(c, NODE_W as int, 8);
    lemma_mul_mod(c - 1, SIBLING_GAP as int, 8);
    assert(children_row_width(c) % 8 == 0);
    assert(top_row_width(slots) % 8 == 0);
    assert(bottom_row_width(n) % 8 == 0);
}

proof fn lemma_anchors_mod(slots: Seq<Slot>, top_left: int, k: int)
    requires
        top_left % 4 == 0,
        0 <= k < slots.len(),
    ensures
        anchors(slots, top_left)[k].1 % 4 == 0,
{
    lemma_slots_width_mod(slots.take(k));
    lemma_mul_mod(k, SUBTREE_GAP as int, 4);
}

proof fn lemma_last_anchor_mod(a: Seq<(Seq<char>, int)>, p: Seq<char>)
    requires
        forall|k: int| 0 <= k < a.len() ==> #[trigger] a[k].1 % 4 == 0,
    ensures
        last_anchor(a, p) matches Some(x) ==> x % 4 == 0,
    decreases a.len(),
{
    if a.len() > 0 {
        assert(a.last() == a[a.len() - 1]);
        lemma_last_anchor_mod(a.drop_last(), p);
    }
}

proof fn lemma_top_slots_member(people: Map<Seq<char>, Person>, ps: Seq<Seq<char>>, p: Seq<char>)
    requires
        people.contains_key(p),
        ps.contains(p),
    ensures
        exists|k: int|
            0 <= k < top_slots(people, ps).len() && (#[trigger] top_slots(people, ps)[k]).0 == p,
    decreases ps.len(),
{
    let r = top_slots(people, ps.drop_last());
    if ps.last() == p {
        assert(top_slots(people, ps)[r.len() as int].0 == p);
    } else {
        let i = choose|i: int| 0 <= i < ps.len() && ps[i] == p;
        assert(ps.drop_last()[i] == p);
        lemma_top_slots_member(people, ps.drop_last(), p);
        let k = choose|k: int| 0 <= k < r.len() && (#[trigger] r[k]).0 == p;
        assert(top_slots(people, ps)[k] == r[k]);
    }
}

proof fn lemma_last_anchor_found(a: Seq<(Seq<char>, int)>, p: Seq<char>, k: int)
    requires
        0 <= k < a.len(),
        a[k].0 == p,
    ensures
        last_anchor(a, p) is Some,
    decreases a.len(),
{
    if a.last().0 != p {
        assert(a.drop_last()[k] == a[k]);
        lemma_last_anchor_found(a.drop_last(), p, k);
    }
}

proof fn lemma_parent_x_mod(ps: Seq<Seq<char>>, a: Seq<(Seq<char>, int)>, width: int, i: int)
    requires
        0 <= i < ps.len(),
        width % 8 == 0,
        forall|k: int| 0 <= k < a.len() ==> #[trigger] a[k].1 % 4 == 0,
    ensures
        parent_x(ps, a, width, i) % 4 == 0,
{
    lemma_last_anchor_mod(a, ps[i]);
    if ps.len() == 2 {
        lemma_last_anchor_mod(a, ps[1 - i]);
    }
}

proof fn lemma_chart_parent_x_mod(people: Map<Seq<char>, Person>, focus: Seq<char>, i: int)
    requires
        0 <= i < parent_ids(people, focus).len(),
    ensures
        parent_x(
            parent_ids(people, focus),
            chart_anchors(people, focus),
            chart_total_width(people, focus),
            i,
        ) % 4 == 0,
{
    let slots = chart_slots(people, focus);
    let a = chart_anchors(people, focus);
    lemma_widths_mod(people, focus);
    let top_left = chart_top_left(people, focus);
    assert forall|k: int| 0 <= k < a.len() implies #[trigger] a[k].1 % 4 == 0 by {
        lemma_anchors_mod(slots, top_left, k);
    }
    lemma_parent_x_mod(parent_ids(people, focus), a, chart_total_width(people, focus), i);
}

proof fn lemma_row_span(left: int, n: int)
    requires
        n >= 1,
    ensures
        left + (n - 1) * (NODE_W + SIBLING_GAP) + NODE_W == left + bottom_row_width(n),
        bottom_row_width(n) % 8 == 0,
{
    lemma_mul_mod(n, NODE_W as int, 8);
    lemma_mul_mod(n - 1, SIBLING_GAP as int, 8);
    assert((n - 1) * (NODE_W + SIBLING_GAP) == (n - 1) * NODE_W + (n - 1) * SIBLING_GAP)
        by (nonlinear_arith);
    lemma_mul_succ(n - 1, NODE_W as int);
}

/// The centre of the card of parent `i` of the focus.
pub open spec fn parent_centre(people: Map<Seq<char>, Person>, focus: Seq<char>, i: int) -> int {
    parent_placements(
        parent_ids(people, focus),
        chart_anchors(people, focus),
        chart_total_width(people, focus),
        chart_y_parents(chart_slots(people, focus)),
    )[i].1.0 + NODE_W / 2
}

/// Parents centred above their children: the bottom row (the focus and all
/// siblings) is centred under the middle between the two parents' cards, under
/// the single parent's card, or on the chart's frame where no parent or more
/// than two are listed. The left edge of its first card and the right edge of
/// its last card are as far from that point on either side. This holds whether
/// or not the parents are in the database. (It is stated in the chart's frame;
/// moving the chart onto its canvas shifts every card by the same amount.)
#[verifier::spinoff_prover]
#[verifier::rlimit(50)]
pub proof fn law_children_centred_under_parents(people: Map<Seq<char>, Person>, focus: Seq<char>)
    ensures
        ({
            let ps = parent_ids(people, focus);
            let row = chart_bottom_row(people, focus);
            let bp = bottom_placements(
                row,
                chart_bottom_left(people, focus),
                chart_y_bottom(ps, chart_slots(people, focus)),
            );
            let row_left = bp[0].1.0;
            let row_right = bp[bp.len() - 1].1.0 + NODE_W;
            &&& row.len() >= 1
            &&& ps.len() == 2 ==> row_left + row_right == parent_centre(people, focus, 0)
                + parent_centre(people, focus, 1)
            &&& ps.len() == 1 ==> row_left + row_right == 2 * parent_centre(people, focus, 0)
            &&& (ps.len() == 0 || ps.len() > 2) ==> row_left + row_right == chart_total_width(
                people,
                focus,
            )
        }),
{
    let ps = parent_ids(people, focus);
    let row = chart_bottom_row(people, focus);
    let n = row.len() as int;
    lemma_widths_mod(people, focus);
    if ps.len() > 0 {
        lemma_chart_parent_x_mod(people, focus, 0);
    }
    if ps.len() > 1 {
        lemma_chart_parent_x_mod(people, focus, 1);
    }
    assert(n >= 1);
    lemma_row_span(chart_bottom_left(people, focus), n);
}

proof fn lemma_first_index_found(s: Seq<Seq<char>>, x: Seq<char>)
    requires
        s.contains(x),
    ensures
        0 <= first_index(s, x) < s.len(),
        s[first_index(s, x)] == x,
    decreases s.len(),
{
    if s[0] != x {
        let k = choose|k: int| 0 <= k < s.len() && s[k] == x;
        assert(s.drop_first()[k - 1] == x);
        lemma_first_index_found(s.drop_first(), x);
    }
}

proof fn lemma_bottom_row_has_focus(people: Map<Seq<char>, Person>, focus: Seq<char>)
    ensures
        chart_bottom_row(people, focus).contains(focus),
{
    let ps = parent_ids(people, focus);
    let kids = first_occurrences(children_listed(people, ps));
    if !(ps.len() > 0 && kids.contains(focus)) {
        assert(chart_bottom_row(people, focus)[0] == focus);
    }
}

proof fn lemma_placed_contains(s: Seq<Placement>, i: int)
    requires
        placement_keys(s).no_duplicates(),
        0 <= i < s.len(),
    ensures
        placed(s).contains_key(s[i].0),
        placed(s)[s[i].0] == s[i].1,
{
    assert forall|a: int, b: int| 0 <= a < b < s.len() implies s[a].0 != s[b].0 by {
        assert(placement_keys(s)[a] == s[a].0);
        assert(placement_keys(s)[b] == s[b].0);
    }
    lemma_placed_unique_at(s, i);
}

/// The focus's children: each stands on the row below the focus, with a
/// connector from the focus down to it, and the row is centred under the
/// focus's card. Where no id is placed twice on the chart, the positions that
/// `compute` gives show this: every child one row below the focus.
#[verifier::spinoff_prover]
#[verifier::rlimit(50)]
pub proof fn law_children_below_focus(people: Map<Seq<char>, Person>, focus: Seq<char>, i: int)
    requires
        0 <= i < chart_children(people, focus).len(),
    ensures
        ({
            let kids = chart_children(people, focus);
            let cp = bottom_placements(
                kids,
                chart_children_left(people, focus),
                chart_y_children(people, focus),
            );
            let row = chart_bottom_row(people, focus);
            let fi = first_index(row, focus);
            let focus_x = chart_bottom_left(people, focus) + fi * (NODE_W + SIBLING_GAP);
            let m = placed(chart_placements(people, focus));
            &&& chart_edges(people, focus).contains(((focus, None), kids[i]))
            &&& chart_y_children(people, focus) == chart_y_bottom(
                parent_ids(people, focus),
                chart_slots(people, focus),
            ) + NODE_H + VERT_GAP
            &&& row[fi] == focus
            &&& cp[0].1.0 + (cp[cp.len() - 1].1.0 + NODE_W) == 2 * (focus_x + NODE_W / 2)
            &&& placement_keys(chart_placements(people, focus)).no_duplicates() ==> {
                &&& m.contains_key(kids[i]) && m.contains_key(focus)
                &&& m[kids[i]].1 == m[focus].1 + NODE_H + VERT_GAP
            }
        }),
{
    let ps = parent_ids(people, focus);
    let slots = chart_slots(people, focus);
    let kids = chart_children(people, focus);
    let row = chart_bottom_row(people, focus);
    lemma_bottom_row_has_focus(people, focus);
    lemma_first_index_found(row, focus);
    let fi = first_index(row, focus);
    lemma_row_span(chart_children_left(people, focus), kids.len() as int);
    let e1 = top_edges(slots) + bottom_edges(ps, row);
    let e2 = bottom_edges(seq![focus], kids);
    assert(e2[i] == ((focus, None::<Seq<char>>), kids[i]));
    assert(chart_edges(people, focus)[e1.len() + i] == e2[i]);
    let tp = top_placements(slots, chart_top_left(people, focus));
    let pp = parent_placements(
        ps,
        chart_anchors(people, focus),
        chart_total_width(people, focus),
        chart_y_parents(slots),
    );
    let bp = bottom_placements(row, chart_bottom_left(people, focus), chart_y_bottom(ps, slots));
    let cp = bottom_placements(kids, chart_children_left(people, focus), chart_y_children(people, focus));
    let raw_all = chart_raw_placements(people, focus);
    let all = chart_placements(people, focus);
    if placement_keys(all).no_duplicates() {
        let k1 = tp.len() + pp.len() + fi;
        assert(raw_all[k1] == bp[fi]);
        assert(all[k1].0 == bp[fi].0 && all[k1].1.1 == bp[fi].1.1);
        lemma_placed_contains(all, k1);
        let k2 = tp.len() + pp.len() + bp.len() + i;
        assert(raw_all[k2] == cp[i]);
        assert(all[k2].0 == cp[i].0 && all[k2].1.1 == cp[i].1.1);
        lemma_placed_contains(all, k2);
    }
}

proof fn lemma_top_couple_slot(slots: Seq<Slot>, j: int)
    requires
        0 <= j < top_couples(slots).len(),
    ensures
        exists|k: int|
            0 <= k < slots.len() && #[trigger] slots[k].1 == Some(top_couples(slots)[j]),
    decreases slots.len(),
{
    let init = slots.drop_last();
    let r = top_couples(init);
    if j < r.len() {
        lemma_top_couple_slot(init, j);
        let k = choose|k: int| 0 <= k < init.len() && #[trigger] init[k].1 == Some(r[j]);
        assert(slots[k] == init[k]);
        assert(top_couples(slots)[j] == r[j]);
    } else {
        assert(slots[slots.len() - 1].1 == Some(top_couples(slots)[j]));
    }
}

proof fn lemma_two_parents_apart(people: Map<Seq<char>, Person>, focus: Seq<char>)
    requires
        parent_ids(people, focus).len() == 2,
        parent_ids(people, focus)[0] != parent_ids(people, focus)[1],
    ensures
        ({
            let ps = parent_ids(people, focus);
            let a = chart_anchors(people, focus);
            let w = chart_total_width(people, focus);
            parent_x(ps, a, w, 0) + NODE_W + COUPLE_GAP <= parent_x(ps, a, w, 1)
        }),
{
    let ps = parent_ids(people, focus);
    let p0 = ps[0];
    let p1 = ps[1];
    let slots = chart_slots(people, focus);
    let tl = chart_top_left(people, focus);
    let a = chart_anchors(people, focus);
    assert(ps.drop_last() =~= seq![p0]);
    assert(seq![p0].drop_last() =~= Seq::<Seq<char>>::empty());
    let s0 = top_slots(people, seq![p0]);
    assert(top_slots(people, seq![p0].drop_last()) == Seq::<Slot>::empty());
    if people.contains_key(p0) && people.contains_key(p1) {
        assert(slots.len() == 2);
        assert(slots[0].0 == p0 && slots[1].0 == p1);
        assert(slots.take(0) =~= Seq::<Slot>::empty());
        assert(slots.take(1).drop_last() =~= Seq::<Slot>::empty());
        assert(slots_width(slots.take(1)) == slot_width(slots[0]));
        assert(a.len() == 2);
        assert(a[0].0 == p0 && a[1].0 == p1);
        assert(a.last() == a[1]);
        assert(a.drop_last().len() == 1);
        assert(a.drop_last().last() == a[0]);
        assert(last_anchor(a.drop_last(), p0) == Some(a[0].1));
        assert(last_anchor(a, p1) == Some(a[1].1));
        assert(last_anchor(a, p0) == Some(a[0].1));
    } else if people.contains_key(p0) {
        assert(slots.len() == 1);
        assert(slots[0].0 == p0);
        assert(a.len() == 1 && a[0].0 == p0 && a.last() == a[0]);
        assert(a.drop_last().len() == 0);
        assert(last_anchor(a.drop_last(), p1) is None);
        assert(last_anchor(a, p1) is None);
        assert(last_anchor(a, p0) == Some(a[0].1));
    } else if people.contains_key(p1) {
        assert(slots.len() == 1);
        assert(slots[0].0 == p1);
        assert(a.len() == 1 && a[0].0 == p1 && a.last() == a[0]);
        assert(a.drop_last().len() == 0);
        assert(last_anchor(a.drop_last(), p0) is None);
        assert(last_anchor(a, p0) is None);
        assert(last_anchor(a, p1) == Some(a[0].1));
    } else {
        assert(slots.len() == 0);
        assert(last_anchor(a, p0) is None);
        assert(last_anchor(a, p1) is None);
    }
}

/// Couples stand side by side: for every couple of the chart (a grandparent
/// couple, or the focus's two parents), the first partner's card ends before
/// the second's begins, a couple's gap apart or more, on the same row. Shown on
/// the chart's own placements; where no id is placed twice, the positions that
/// `compute` gives show it too.
#[verifier::spinoff_prover]
#[verifier::rlimit(50)]
pub proof fn law_couples_side_by_side(people: Map<Seq<char>, Person>, focus: Seq<char>, j: int)
    requires
        0 <= j < chart_couples(people, focus).len(),
        parent_ids(people, focus).len() == 2 ==> parent_ids(people, focus)[0] != parent_ids(
            people,
            focus,
        )[1],
    ensures
        ({
            let (a, b) = chart_couples(people, focus)[j];
            let all = chart_placements(people, focus);
            let m = placed(all);
            &&& exists|xa: int, xb: int, y: int|
                all.contains((a, (xa, y))) && all.contains((b, (xb, y))) && xa + NODE_W
                    + COUPLE_GAP <= xb
            &&& placement_keys(all).no_duplicates() ==> {
                &&& m.contains_key(a) && m.contains_key(b)
                &&& m[a].1 == m[b].1
                &&& m[a].0 + NODE_W + COUPLE_GAP <= m[b].0
            }
        }),
{
    let ps = parent_ids(people, focus);
    let slots = chart_slots(people, focus);
    let tl = chart_top_left(people, focus);
    let tp = top_placements(slots, tl);
    let pp = parent_placements(
        ps,
        chart_anchors(people, focus),
        chart_total_width(people, focus),
        chart_y_parents(slots),
    );
    let raw_all = chart_raw_placements(people, focus);
    let sh = chart_shift(people, focus);
    let all = chart_placements(people, focus);
    let tc = top_couples(slots);
    let (a, b) = chart_couples(people, focus)[j];
    if j < tc.len() {
        assert(chart_couples(people, focus)[j] == tc[j]);
        lemma_top_couple_slot(slots, j);
        let k = choose|k: int| 0 <= k < slots.len() && #[trigger] slots[k].1 == Some(tc[j]);
        let xa = slot_left(tl, slots, k);
        lemma_slot_placements_in_row(slots, tl, k);
        let sp = slot_placements(slots[k], xa);
        assert(sp[0] == (a, (xa, 0int)));
        assert(sp[1] == (b, (xa + NODE_W + COUPLE_GAP, 0int)));
        assert(sp.contains(sp[0]));
        assert(sp.contains(sp[1]));
        assert(tp.contains(sp[0]));
        assert(tp.contains(sp[1]));
        let ia = choose|i: int| 0 <= i < tp.len() && tp[i] == sp[0];
        let ib = choose|i: int| 0 <= i < tp.len() && tp[i] == sp[1];
        assert(raw_all[ia] == tp[ia]);
        assert(raw_all[ib] == tp[ib]);
        assert(all[ia] == (a, (xa + sh, 0int)));
        assert(all[ib] == (b, (xa + NODE_W + COUPLE_GAP + sh, 0int)));
        assert(all.contains((a, (xa + sh, 0int))));
        assert(all.contains((b, (xa + sh + NODE_W + COUPLE_GAP, 0int))));
        if placement_keys(all).no_duplicates() {
            lemma_placed_contains(all, ia);
            lemma_placed_contains(all, ib);
        }
    } else {
        assert(ps.len() == 2);
        assert(a == ps[0] && b == ps[1]);
        lemma_two_parents_apart(people, focus);
        assert(raw_all[tp.len() as int] == pp[0]);
        assert(raw_all[tp.len() + 1int] == pp[1]);
        let e0 = (pp[0].0, (pp[0].1.0 + sh, pp[0].1.1));
        let e1 = (pp[1].0, (pp[1].1.0 + sh, pp[1].1.1));
        assert(all[tp.len() as int] == e0);
        assert(all[tp.len() + 1int] == e1);
        assert(all.contains(e0));
        assert(all.contains(e1));
        if placement_keys(all).no_duplicates() {
            lemma_placed_contains(all, tp.len() as int);
            lemma_placed_contains(all, tp.len() + 1int);
        }
    }
}

proof fn lemma_top_placements_row(slots: Seq<Slot>, top_left: int, j: int)
    requires
        0 <= j < top_placements(slots, top_left).len(),
    ensures
        top_placements(slots, top_left)[j].1.1 == 0,
    decreases slots.len(),
{
    let init = top_placements(slots.drop_last(), top_left);
    if j < init.len() {
        lemma_top_placements_row(slots.drop_last(), top_left, j);
    }
}

/// The rows run from top to bottom: grandparents at the top of the chart, the
/// parents' row below the grandparents' row where there is one, the focus and
/// siblings below the parents' row where there is one, and the focus's
/// children below that.
pub proof fn law_rows_top_to_bottom(people: Map<Seq<char>, Person>, focus: Seq<char>)
    ensures
        ({
            let ps = parent_ids(people, focus);
            let slots = chart_slots(people, focus);
            &&& chart_y_children(people, focus) >= chart_y_bottom(ps, slots) + NODE_H + VERT_GAP
            &&& 0 <= chart_y_parents(slots) <= chart_y_bottom(ps, slots)
            &&& any_couple(slots) ==> chart_y_parents(slots) >= NODE_H + VERT_GAP
            &&& ps.len() > 0 ==> chart_y_bottom(ps, slots) >= chart_y_parents(slots) + NODE_H
                + VERT_GAP
        }),
{
    let ps = parent_ids(people, focus);
    let slots = chart_slots(people, focus);
    let g = chart_generations(ps, slots);
    assert(1 <= g <= 3);
    if g == 2 {
        assert(chart_y_bottom(ps, slots) == row_step());
    } else if g == 3 {
        assert(chart_y_bottom(ps, slots) == 2 * row_step());
    }
}

/// Every card lies within the chart: its left edge at or right of 0 and its
/// right edge at or left of the chart's width, its top at or below the top of
/// the chart and its bottom at or above the chart's bottom edge.
pub proof fn law_cards_within_chart(people: Map<Seq<char>, Person>, focus: Seq<char>, i: int)
    requires
        0 <= i < chart_placements(people, focus).len(),
    ensures
        0 <= chart_placements(people, focus)[i].1.0,
        chart_placements(people, focus)[i].1.0 + NODE_W <= chart_extent(people, focus),
        0 <= chart_placements(people, focus)[i].1.1,
        chart_placements(people, focus)[i].1.1 + NODE_H <= chart_height(people, focus),
{
    let raw_all = chart_raw_placements(people, focus);
    lemma_extent(raw_all, chart_total_width(people, focus), i);
    assert(chart_placements(people, focus)[i].1.1 == raw_all[i].1.1);
    let ps = parent_ids(people, focus);
    let slots = chart_slots(people, focus);
    let tp = top_placements(slots, chart_top_left(people, focus));
    let pp = parent_placements(
        ps,
        chart_anchors(people, focus),
        chart_total_width(people, focus),
        chart_y_parents(slots),
    );
    if i < tp.len() {
        assert(raw_all[i] == tp[i]);
        lemma_top_placements_row(slots, chart_top_left(people, focus), i);
    } else if i < tp.len() + pp.len() {
        assert(raw_all[i] == pp[i - tp.len()]);
    }
}

/// The chart's frame is as wide as its widest row (and at least one couple
/// wide), and the grandparents' row is centred on it: as much room is left of
/// it as right of it. The chart itself is at least as wide as its frame.
#[verifier::spinoff_prover]
pub proof fn law_top_row_centred(people: Map<Seq<char>, Person>, focus: Seq<char>)
    ensures
        chart_total_width(people, focus) >= top_row_width(chart_slots(people, focus)),
        chart_total_width(people, focus) >= bottom_row_width(
            chart_bottom_row(people, focus).len() as int,
        ),
        chart_total_width(people, focus) >= COUPLE_BLOCK_W,
        chart_extent(people, focus) >= chart_total_width(people, focus),
        chart_top_left(people, focus) + top_row_width(chart_slots(people, focus)) + chart_top_left(
            people,
            focus,
        ) == chart_total_width(people, focus),
        chart_top_left(people, focus) >= 0,
{
    assert(chart_extent(people, focus) >= chart_total_width(people, focus)) by {
        lemma_extent_frame(chart_raw_placements(people, focus), chart_total_width(people, focus));
    }
    lemma_widths_mod(people, focus);
}

proof fn lemma_last_anchor_is(a: Seq<(Seq<char>, int)>, k: int)
    requires
        0 <= k < a.len(),
        forall|j: int| k < j < a.len() ==> #[trigger] a[j].0 != a[k].0,
    ensures
        last_anchor(a, a[k].0) == Some(a[k].1),
    decreases a.len(),
{
    if k < a.len() - 1 {
        assert(a.last() == a[a.len() - 1]);
        assert forall|j: int| k < j < a.drop_last().len() implies #[trigger] a.drop_last()[j].0
            != a.drop_last()[k].0 by {
            assert(a.drop_last()[j] == a[j]);
        }
        lemma_last_anchor_is(a.drop_last(), k);
    }
}

proof fn lemma_slot_placements_in_row(slots: Seq<Slot>, top_left: int, k: int)
    requires
        0 <= k < slots.len(),
    ensures
        forall|e: Placement|
            slot_placements(slots[k], slot_left(top_left, slots, k)).contains(e) ==> top_placements(
                slots,
                top_left,
            ).contains(e),
    decreases slots.len(),
{
    let init = slots.drop_last();
    let tp = top_placements(slots, top_left);
    let ti = top_placements(init, top_left);
    let sp = slot_placements(slots.last(), slot_left(top_left, slots, slots.len() - 1));
    assert(tp == ti + sp);
    if k < slots.len() - 1 {
        lemma_slot_placements_in_row(init, top_left, k);
        lemma_take_take(slots, k, slots.len() - 1);
        assert(init[k] == slots[k]);
        assert(slot_left(top_left, init, k) == slot_left(top_left, slots, k));
        assert forall|e: Placement|
            slot_placements(slots[k], slot_left(top_left, slots, k)).contains(e) implies tp.contains(
            e,
        ) by {
            if slot_placements(slots[k], slot_left(top_left, slots, k)).contains(e) {
                assert(slot_placements(init[k], slot_left(top_left, init, k)).contains(e));
                assert(ti.contains(e));
                let j = choose|j: int| 0 <= j < ti.len() && ti[j] == e;
                assert(tp[j] == e);
            }
        }
    } else {
        assert forall|e: Placement|
            slot_placements(slots[k], slot_left(top_left, slots, k)).contains(e) implies tp.contains(
            e,
        ) by {
            if sp.contains(e) {
                let j = choose|j: int| 0 <= j < sp.len() && sp[j] == e;
                assert(tp[ti.len() + j] == e);
            }
        }
    }
}

/// Each parent of the focus stands centred under the couple of that parent's
/// own parents: the couple's two cards sit side by side on the top row, and the
/// centre of the parent's card lies midway between the left edge of the first
/// and the right edge of the second. (Where a parent is listed twice, the couple
/// of its last listing counts.)
pub proof fn law_parent_centred_under_couple(
    people: Map<Seq<char>, Person>,
    focus: Seq<char>,
    k: int,
    i: int,
)
    requires
        0 <= k < chart_slots(people, focus).len(),
        chart_slots(people, focus)[k].1 is Some,
        forall|j: int|
            k < j < chart_slots(people, focus).len() ==> (#[trigger] chart_slots(people, focus)[j]).0
                != chart_slots(people, focus)[k].0,
        0 <= i < parent_ids(people, focus).len(),
        parent_ids(people, focus)[i] == chart_slots(people, focus)[k].0,
    ensures
        ({
            let slots = chart_slots(people, focus);
            let top_left = chart_top_left(people, focus);
            let (a, b) = slots[k].1.unwrap();
            let xa = slot_left(top_left, slots, k);
            let xb = xa + NODE_W + COUPLE_GAP;
            &&& top_placements(slots, top_left).contains((a, (xa, 0int)))
            &&& top_placements(slots, top_left).contains((b, (xb, 0int)))
            &&& 2 * parent_centre(people, focus, i) == xa + (xb + NODE_W)
        }),
{
    let slots = chart_slots(people, focus);
    let top_left = chart_top_left(people, focus);
    let a = chart_anchors(people, focus);
    let (ga, gb) = slots[k].1.unwrap();
    let xa = slot_left(top_left, slots, k);
    lemma_slot_placements_in_row(slots, top_left, k);
    let sp = slot_placements(slots[k], xa);
    assert(sp[0] == (ga, (xa, 0int)));
    assert(sp[1] == (gb, (xa + NODE_W + COUPLE_GAP, 0int)));
    assert forall|j: int| k < j < a.len() implies #[trigger] a[j].0 != a[k].0 by {
        assert(a[j].0 == slots[j].0);
    }
    lemma_last_anchor_is(a, k);
}

// ---------------------------------------------------------------------------
// No two cards overlap
// ---------------------------------------------------------------------------

/// Two placed cards do not overlap: they are one person's, or one lies wholly
/// above, below, left or right of the other.
pub open spec fn apart(p: Placement, q: Placement) -> bool {
    ||| p.0 == q.0
    ||| p.1.1 + NODE_H <= q.1.1
    ||| q.1.1 + NODE_H <= p.1.1
    ||| p.1.0 + NODE_W <= q.1.0
    ||| q.1.0 + NODE_W <= p.1.0
}

proof fn lemma_bottom_apart(row: Seq<Seq<char>>, left: int, y: int, i: int, j: int)
    requires
        0 <= i < j < row.len(),
    ensures
        bottom_placements(row, left, y)[i].1.0 + NODE_W + SIBLING_GAP <= bottom_placements(
            row,
            left,
            y,
        )[j].1.0,
{
    lemma_mul_mono(i, j, (NODE_W + SIBLING_GAP) as int);
    lemma_mul_mono(i + 1, j, (NODE_W + SIBLING_GAP) as int);
    lemma_mul_succ(i, (NODE_W + SIBLING_GAP) as int);
}

proof fn lemma_slot_left_step(top_left: int, slots: Seq<Slot>, k: int)
    requires
        0 <= k < slots.len(),
    ensures
        slot_left(top_left, slots, k + 1) == slot_left(top_left, slots, k) + slot_width(slots[k])
            + SUBTREE_GAP,
{
    assert(slots.take(k + 1).drop_last() =~= slots.take(k));
    assert(slots.take(k + 1).last() == slots[k]);
}

proof fn lemma_slot_left_after(top_left: int, slots: Seq<Slot>, k1: int, k2: int)
    requires
        0 <= k1 < k2 < slots.len(),
    ensures
        slot_left(top_left, slots, k1) + slot_width(slots[k1]) + SUBTREE_GAP <= slot_left(
            top_left,
            slots,
            k2,
        ),
    decreases k2 - k1,
{
    lemma_slot_left_step(top_left, slots, k2 - 1);
    if k1 < k2 - 1 {
        lemma_slot_left_after(top_left, slots, k1, k2 - 1);
    }
}

/// Card `j` of the top row is card `r.1` of slot `r.0`, which holds a couple.
proof fn lemma_top_in_slot(slots: Seq<Slot>, top_left: int, j: int) -> (r: (int, int))
    requires
        0 <= j < top_placements(slots, top_left).len(),
    ensures
        0 <= r.0 < slots.len(),
        slots[r.0].1 is Some,
        0 <= r.1 < 2,
        top_placements(slots, top_left)[j] == slot_placements(
            slots[r.0],
            slot_left(top_left, slots, r.0),
        )[r.1],
    decreases slots.len(),
{
    let init = slots.drop_last();
    let ti = top_placements(init, top_left);
    let k = slots.len() - 1;
    let sp = slot_placements(slots.last(), slot_left(top_left, slots, k));
    assert(top_placements(slots, top_left) == ti + sp);
    if j < ti.len() {
        let r = lemma_top_in_slot(init, top_left, j);
        lemma_take_take(slots, r.0, k);
        assert(init[r.0] == slots[r.0]);
        assert(slot_left(top_left, init, r.0) == slot_left(top_left, slots, r.0));
        r
    } else {
        (k, j - ti.len())
    }
}

proof fn lemma_top_apart(slots: Seq<Slot>, top_left: int, i: int, j: int)
    requires
        0 <= i < top_placements(slots, top_left).len(),
        0 <= j < top_placements(slots, top_left).len(),
    ensures
        apart(top_placements(slots, top_left)[i], top_placements(slots, top_left)[j]),
{
    let tp = top_placements(slots, top_left);
    let ri = lemma_top_in_slot(slots, top_left, i);
    let rj = lemma_top_in_slot(slots, top_left, j);
    if ri.0 < rj.0 {
        lemma_slot_left_after(top_left, slots, ri.0, rj.0);
    } else if rj.0 < ri.0 {
        lemma_slot_left_after(top_left, slots, rj.0, ri.0);
    }
}

/// The anchor of `p`, where it has one, is that of some slot of `p`.
proof fn lemma_last_anchor_index(a: Seq<(Seq<char>, int)>, p: Seq<char>) -> (k: int)
    requires
        last_anchor(a, p) is Some,
    ensures
        0 <= k < a.len(),
        a[k].0 == p,
        last_anchor(a, p) == Some(a[k].1),
    decreases a.len(),
{
    if a.last().0 == p {
        a.len() - 1
    } else {
        let k = lemma_last_anchor_index(a.drop_last(), p);
        assert(a[k] == a.drop_last()[k]);
        k
    }
}

/// Two parents with different ids, each under a slot of its own, stand apart.
proof fn lemma_anchored_apart(slots: Seq<Slot>, top_left: int, p: Seq<char>, q: Seq<char>)
    requires
        p != q,
        last_anchor(anchors(slots, top_left), p) is Some,
        last_anchor(anchors(slots, top_left), q) is Some,
    ensures
        ({
            let xp = last_anchor(anchors(slots, top_left), p)->0;
            let xq = last_anchor(anchors(slots, top_left), q)->0;
            xp + NODE_W <= xq || xq + NODE_W <= xp
        }),
{
    let a = anchors(slots, top_left);
    let kp = lemma_last_anchor_index(a, p);
    let kq = lemma_last_anchor_index(a, q);
    if kp < kq {
        lemma_slot_left_after(top_left, slots, kp, kq);
    } else {
        lemma_slot_left_after(top_left, slots, kq, kp);
    }
}

proof fn lemma_parents_apart(people: Map<Seq<char>, Person>, focus: Seq<char>, i: int, j: int)
    requires
        0 <= i < parent_ids(people, focus).len(),
        0 <= j < parent_ids(people, focus).len(),
        parent_ids(people, focus)[i] != parent_ids(people, focus)[j],
        parent_ids(people, focus).len() <= 2 || forall|k: int|
            0 <= k < parent_ids(people, focus).len() ==> people.contains_key(
                #[trigger] parent_ids(people, focus)[k],
            ),
    ensures
        ({
            let ps = parent_ids(people, focus);
            let a = chart_anchors(people, focus);
            let w = chart_total_width(people, focus);
            parent_x(ps, a, w, i) + NODE_W <= parent_x(ps, a, w, j) || parent_x(ps, a, w, j)
                + NODE_W <= parent_x(ps, a, w, i)
        }),
{
    let ps = parent_ids(people, focus);
    let slots = chart_slots(people, focus);
    let tl = chart_top_left(people, focus);
    let a = chart_anchors(people, focus);
    if ps.len() == 2 {
        lemma_two_parents_apart(people, focus);
    } else {
        assert(ps.len() > 2);
        assert forall|m: int| 0 <= m < ps.len() implies last_anchor(a, #[trigger] ps[m]) is Some by {
            assert(people.contains_key(ps[m]));
            assert(ps.contains(ps[m]));
            lemma_top_slots_member(people, ps, ps[m]);
            let k = choose|k: int|
                0 <= k < top_slots(people, ps).len() && (#[trigger] top_slots(people, ps)[k]).0
                    == ps[m];
            assert(a[k].0 == slots[k].0);
            lemma_last_anchor_found(a, ps[m], k);
        }
        assert(last_anchor(a, ps[i]) is Some);
        assert(last_anchor(a, ps[j]) is Some);
        lemma_anchored_apart(slots, tl, ps[i], ps[j]);
    }
}

/// No two cards of the chart overlap: two cards of different people stand on
/// different rows, a row apart, or side by side on one row. This holds
/// wherever the focus has at most two parents listed or all of them are in the
/// database; a third listed parent missing from the database is centred on the
/// chart, and two such parents would share a place.
#[verifier::spinoff_prover]
#[verifier::rlimit(60)]
pub proof fn law_cards_do_not_overlap(
    people: Map<Seq<char>, Person>,
    focus: Seq<char>,
    i: int,
    j: int,
)
    requires
        0 <= i < chart_placements(people, focus).len(),
        0 <= j < chart_placements(people, focus).len(),
        parent_ids(people, focus).len() <= 2 || forall|k: int|
            0 <= k < parent_ids(people, focus).len() ==> people.contains_key(
                #[trigger] parent_ids(people, focus)[k],
            ),
    ensures
        apart(chart_placements(people, focus)[i], chart_placements(people, focus)[j]),
{
    let ps = parent_ids(people, focus);
    let slots = chart_slots(people, focus);
    let raw = chart_raw_placements(people, focus);
    let tl = chart_top_left(people, focus);
    let tp = top_placements(slots, tl);
    let pp = parent_placements(
        ps,
        chart_anchors(people, focus),
        chart_total_width(people, focus),
        chart_y_parents(slots),
    );
    let row = chart_bottom_row(people, focus);
    let bp = bottom_placements(row, chart_bottom_left(people, focus), chart_y_bottom(ps, slots));
    let kids = chart_children(people, focus);
    let cp = bottom_placements(kids, chart_children_left(people, focus), chart_y_children(people, focus));
    assert(raw == tp + pp + bp + cp);
    law_rows_top_to_bottom(people, focus);
    let n1 = tp.len() as int;
    let n2 = n1 + pp.len();
    let n3 = n2 + bp.len();
    // Which row each card is on, and where on it.
    let ghost seg_i: int = if i < n1 {
        0
    } else if i < n2 {
        1
    } else if i < n3 {
        2
    } else {
        3
    };
    let ghost seg_j: int = if j < n1 {
        0
    } else if j < n2 {
        1
    } else if j < n3 {
        2
    } else {
        3
    };
    if i < n1 {
        assert(raw[i] == tp[i]);
        lemma_top_placements_row(slots, tl, i);
        let r = lemma_top_in_slot(slots, tl, i);
        assert(any_couple(slots));
    } else if i < n2 {
        assert(raw[i] == pp[i - n1]);
    } else if i < n3 {
        assert(raw[i] == bp[i - n2]);
    } else {
        assert(raw[i] == cp[i - n3]);
    }
    if j < n1 {
        assert(raw[j] == tp[j]);
        lemma_top_placements_row(slots, tl, j);
        let r = lemma_top_in_slot(slots, tl, j);
        assert(any_couple(slots));
    } else if j < n2 {
        assert(raw[j] == pp[j - n1]);
    } else if j < n3 {
        assert(raw[j] == bp[j - n2]);
    } else {
        assert(raw[j] == cp[j - n3]);
    }
    if seg_i == seg_j {
        if seg_i == 0 {
            lemma_top_apart(slots, tl, i, j);
        } else if seg_i == 1 {
            if ps[i - n1] != ps[j - n1] {
                lemma_parents_apart(people, focus, i - n1, j - n1);
            }
        } else if seg_i == 2 {
            if i - n2 < j - n2 {
                lemma_bottom_apart(row, chart_bottom_left(people, focus), chart_y_bottom(ps, slots), i - n2, j - n2);
            } else if j - n2 < i - n2 {
                lemma_bottom_apart(row, chart_bottom_left(people, focus), chart_y_bottom(ps, slots), j - n2, i - n2);
            }
        } else {
            if i - n3 < j - n3 {
                lemma_bottom_apart(kids, chart_children_left(people, focus), chart_y_children(people, focus), i - n3, j - n3);
            } else if j - n3 < i - n3 {
                lemma_bottom_apart(kids, chart_children_left(people, focus), chart_y_children(people, focus), j - n3, i - n3);
            }
        }
    }
    assert(apart(raw[i], raw[j]));
}

/// Each entry of the map that `s` leaves behind is one of the placements of `s`.
proof fn lemma_placed_from(s: Seq<Placement>, k: Seq<char>) -> (i: int)
    requires
        placed(s).contains_key(k),
    ensures
        0 <= i < s.len(),
        s[i] == (k, placed(s)[k]),
    decreases s.len(),
{
    if s.last().0 == k {
        s.len() - 1
    } else {
        let i = lemma_placed_from(s.drop_last(), k);
        assert(s[i] == s.drop_last()[i]);
        i
    }
}

/// The positions that `compute` gives two different people never overlap
/// (under the same condition on the focus's parents as
/// [`law_cards_do_not_overlap`]).
pub proof fn law_positions_do_not_overlap(
    people: Map<Seq<char>, Person>,
    focus: Seq<char>,
    a: Seq<char>,
    b: Seq<char>,
)
    requires
        placed(chart_placements(people, focus)).contains_key(a),
        placed(chart_placements(people, focus)).contains_key(b),
        parent_ids(people, focus).len() <= 2 || forall|k: int|
            0 <= k < parent_ids(people, focus).len() ==> people.contains_key(
                #[trigger] parent_ids(people, focus)[k],
            ),
    ensures
        ({
            let m = placed(chart_placements(people, focus));
            apart((a, m[a]), (b, m[b]))
        }),
{
    let s = chart_placements(people, focus);
    let i = lemma_placed_from(s, a);
    let j = lemma_placed_from(s, b);
    law_cards_do_not_overlap(people, focus, i, j);
}

/// Every position that `compute` gives lies within the chart: the card's left
/// edge at or right of 0, its right edge at or left of the chart's width, its
/// top at or below 0 and its bottom at or above the chart's height.
pub proof fn law_positions_within_chart(people: Map<Seq<char>, Person>, focus: Seq<char>, a: Seq<char>)
    requires
        placed(chart_placements(people, focus)).contains_key(a),
    ensures
        ({
            let p = placed(chart_placements(people, focus))[a];
            &&& 0 <= p.0
            &&& p.0 + NODE_W <= chart_extent(people, focus)
            &&& 0 <= p.1
            &&& p.1 + NODE_H <= chart_height(people, focus)
        }),
{
    let i = lemma_placed_from(chart_placements(people, focus), a);
    law_cards_within_chart(people, focus, i);
}

proof fn lemma_top_slots_entry(people: Map<Seq<char>, Person>, ps: Seq<Seq<char>>, k: int)
    requires
        0 <= k < top_slots(people, ps).len(),
    ensures
        people.contains_key(top_slots(people, ps)[k].0),
        top_slots(people, ps)[k].1 == grandparent_couple(people, top_slots(people, ps)[k].0),
    decreases ps.len(),
{
    let r = top_slots(people, ps.drop_last());
    if k < r.len() {
        lemma_top_slots_entry(people, ps.drop_last(), k);
        assert(top_slots(people, ps)[k] == r[k]);
    }
}

/// The grandparents' row has one slot per listed parent in the database, left
/// to right with a subtree gap between neighbours: a couple wide (two cards
/// and the couple gap) for a parent with exactly two listed parents, one card
/// wide for any other. Each parent's anchor is the middle of its slot, and the
/// row is as wide as its slots and gaps.
pub proof fn law_slot_widths(
    people: Map<Seq<char>, Person>,
    ps: Seq<Seq<char>>,
    top_left: int,
    k: int,
)
    requires
        0 <= k < top_slots(people, ps).len(),
    ensures
        ({
            let slots = top_slots(people, ps);
            let p = slots[k].0;
            let w = if parent_ids(people, p).len() == 2 {
                2 * NODE_W + COUPLE_GAP
            } else {
                NODE_W as int
            };
            &&& people.contains_key(p)
            &&& ps.contains(p)
            &&& slot_left(top_left, slots, 0) == top_left
            &&& slot_left(top_left, slots, k + 1) == slot_left(top_left, slots, k) + w + SUBTREE_GAP
            &&& anchors(slots, top_left)[k] == (p, slot_left(top_left, slots, k) + w / 2)
            &&& top_row_width(slots) == slot_left(top_left, slots, slots.len() as int) - top_left
                - SUBTREE_GAP
        }),
{
    let slots = top_slots(people, ps);
    lemma_top_slots_entry(people, ps, k);
    lemma_top_slots_from(people, ps, k);
    lemma_slot_left_step(top_left, slots, k);
    assert(slots.take(0) =~= Seq::<Slot>::empty());
    assert(slots.take(slots.len() as int) =~= slots);
}

proof fn lemma_top_slots_from(people: Map<Seq<char>, Person>, ps: Seq<Seq<char>>, k: int)
    requires
        0 <= k < top_slots(people, ps).len(),
    ensures
        ps.contains(top_slots(people, ps)[k].0),
    decreases ps.len(),
{
    let r = top_slots(people, ps.drop_last());
    if k < r.len() {
        lemma_top_slots_from(people, ps.drop_last(), k);
        assert(top_slots(people, ps)[k] == r[k]);
        let i = choose|i: int| 0 <= i < ps.drop_last().len() && ps.drop_last()[i] == r[k].0;
        assert(ps[i] == r[k].0);
    } else {
        assert(ps[ps.len() - 1] == ps.last());
    }
}

} // verus!
