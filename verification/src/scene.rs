//! What a renderer draws for a chart: the connectors from parents to
//! children, the marriage lines between couples, one card per person, the
//! side panel of the selected person, and the canvas they share. Everything is
//! shifted right and down by a margin `pad` around the chart.
use crate::data::{dates_text, ids_of, Database, Person};
use crate::layout::{coord_bound, within_bound, Edge, Layout, NODE_H, NODE_W, SUBPIXELS};
use vstd::prelude::*;

verus! {

/// The margin around the chart.
pub const PAD: i128 = 40 * SUBPIXELS;

/// A layout that can be drawn with margin `pad`.
pub open spec fn drawable(layout: Layout, pad: int) -> bool {
    &&& layout.wf()
    &&& -coord_bound() <= pad <= coord_bound()
}

// ---------------------------------------------------------------------------
// Connectors
// ---------------------------------------------------------------------------

/// A connector from a couple down to a child: down from the middle under the
/// couple to half way, across to above the child, and down to the child's card.
/// Its coordinates are counted in half grid units, so that the middle between
/// any two points of the chart is a whole number.
#[derive(Debug, Clone, Copy, PartialEq, Eq)]
pub struct EdgePath {
    pub start_x: i128,
    pub start_y: i128,
    pub mid_y: i128,
    pub end_x: i128,
    pub end_y: i128,
}

pub open spec fn edge_path_view(p: EdgePath) -> (int, int, int, int, int) {
    (p.start_x as int, p.start_y as int, p.mid_y as int, p.end_x as int, p.end_y as int)
}

/// The connector of `e`, where the first parent and the child are placed.
/// It starts under the middle between the two parents' cards where the second
/// parent is placed too, else under the middle of the first parent's card.
pub open spec fn spec_edge_path(m: Map<Seq<char>, (int, int)>, e: Edge, pad: int) -> Option<
    (int, int, int, int, int),
> {
    let a = e.0.0;
    let b = e.0.1;
    let c = e.1;
    if m.contains_key(a) && m.contains_key(c) {
        let a_centre = m[a].0 + NODE_W / 2;
        let parent_mid_x2 = if b is Some && m.contains_key(b->0) {
            a_centre + (m[b->0].0 + NODE_W / 2)
        } else {
            2 * a_centre
        };
        let parent_y_bottom = m[a].1 + NODE_H + pad;
        let child_x = m[c].0 + NODE_W / 2 + pad;
        let child_y_top = m[c].1 + pad;
        Some(
            (
                parent_mid_x2 + 2 * pad,
                2 * parent_y_bottom,
                parent_y_bottom + child_y_top,
                2 * child_x,
                2 * child_y_top,
            ),
        )
    } else {
        None
    }
}

/// The connectors of `edges` in order, skipping those that cannot be drawn.
pub open spec fn spec_edge_paths(m: Map<Seq<char>, (int, int)>, edges: Seq<Edge>, pad: int) -> Seq<
    (int, int, int, int, int),
>
    decreases edges.len(),
{
    if edges.len() == 0 {
        Seq::<(int, int, int, int, int)>::empty()
    } else {
        let r = spec_edge_paths(m, edges.drop_last(), pad);
        match spec_edge_path(m, edges.last(), pad) {
            Some(p) => r.push(p),
            None => r,
        }
    }
}

/// The connectors of the chart, in the order of its family edges.
pub fn family_edge_paths(layout: &Layout, pad: i128) -> (paths: Vec<EdgePath>)
    requires
        drawable(*layout, pad as int),
    ensures
        paths@.map_values(|p: EdgePath| edge_path_view(p)) == spec_edge_paths(
            layout.positions@,
            layout.family_edges.deep_view(),
            pad as int,
        ),
{
    let ghost m = layout.positions@;
    let ghost edges = layout.family_edges.deep_view();
    let mut paths: Vec<EdgePath> = Vec::new();
    let mut i: usize = 0;
    while i < layout.family_edges.len()
        invariant
            i <= layout.family_edges.len(),
            drawable(*layout, pad as int),
            m == layout.positions@,
            edges == layout.family_edges.deep_view(),
            paths@.map_values(|p: EdgePath| edge_path_view(p)) == spec_edge_paths(
                m,
                edges.take(i as int),
                pad as int,
            ),
        decreases layout.family_edges.len() - i,
    {
        let ghost e = edges[i as int];
        assert(edges.take(i + 1).drop_last() =~= edges.take(i as int));
        assert(edges.take(i + 1).last() == e);
        let edge = &layout.family_edges[i];
        let a_pos = layout.positions.get(edge.0.0.as_str());
        let c_pos = layout.positions.get(edge.1.as_str());
        if let (Some(a), Some(c)) = (a_pos, c_pos) {
            let b_pos = match &edge.0.1 {
                Some(b) => layout.positions.get(b.as_str()),
                None => None,
            };
            let a_centre = a.x + NODE_W / 2;
            let parent_mid_x2 = match b_pos {
                Some(b) => a_centre + (b.x + NODE_W / 2),
                None => 2 * a_centre,
            };
            let parent_y_bottom = a.y + NODE_H + pad;
            let child_x = c.x + NODE_W / 2 + pad;
            let child_y_top = c.y + pad;
            let path = EdgePath {
                start_x: parent_mid_x2 + 2 * pad,
                start_y: 2 * parent_y_bottom,
                mid_y: parent_y_bottom + child_y_top,
                end_x: 2 * child_x,
                end_y: 2 * child_y_top,
            };
            let ghost before = paths@;
            paths.push(path);
            assert(paths@.map_values(|p: EdgePath| edge_path_view(p)) =~= before.map_values(
                |p: EdgePath| edge_path_view(p),
            ).push(edge_path_view(path)));
        }
        i = i + 1;
    }
    assert(edges.take(layout.family_edges.len() as int) =~= edges);
    paths
}

// ---------------------------------------------------------------------------
// Marriage lines
// ---------------------------------------------------------------------------

/// A horizontal line from the right edge of one spouse's card to the left
/// edge of the other's, at half the card's height.
#[derive(Debug, Clone, Copy, PartialEq, Eq)]
pub struct MarriageLine {
    pub left: i128,
    pub right: i128,
    pub y: i128,
}

pub open spec fn marriage_line_view(l: MarriageLine) -> (int, int, int) {
    (l.left as int, l.right as int, l.y as int)
}

/// The marriage line of a couple where both are placed.
pub open spec fn spec_marriage_line(
    m: Map<Seq<char>, (int, int)>,
    couple: (Seq<char>, Seq<char>),
    pad: int,
) -> Option<(int, int, int)> {
    if m.contains_key(couple.0) && m.contains_key(couple.1) {
        Some(
            (
                m[couple.0].0 + NODE_W + pad,
                m[couple.1].0 + pad,
                m[couple.0].1 + NODE_H / 2 + pad,
            ),
        )
    } else {
        None
    }
}

/// The marriage lines of `couples` in order, skipping those not both placed.
pub open spec fn spec_marriage_lines(
    m: Map<Seq<char>, (int, int)>,
    couples: Seq<(Seq<char>, Seq<char>)>,
    pad: int,
) -> Seq<(int, int, int)>
    decreases couples.len(),
{
    if couples.len() == 0 {
        Seq::<(int, int, int)>::empty()
    } else {
        let r = spec_marriage_lines(m, couples.drop_last(), pad);
        match spec_marriage_line(m, couples.last(), pad) {
            Some(l) => r.push(l),
            None => r,
        }
    }
}

/// The marriage lines of the chart, in the order of its couples.
pub fn marriage_lines(layout: &Layout, pad: i128) -> (lines: Vec<MarriageLine>)
    requires
        drawable(*layout, pad as int),
    ensures
        lines@.map_values(|l: MarriageLine| marriage_line_view(l)) == spec_marriage_lines(
            layout.positions@,
            layout.couples.deep_view(),
            pad as int,
        ),
{
    let ghost m = layout.positions@;
    let ghost couples = layout.couples.deep_view();
    let mut lines: Vec<MarriageLine> = Vec::new();
    let mut i: usize = 0;
    while i < layout.couples.len()
        invariant
            i <= layout.couples.len(),
            drawable(*layout, pad as int),
            m == layout.positions@,
            couples == layout.couples.deep_view(),
            lines@.map_values(|l: MarriageLine| marriage_line_view(l)) == spec_marriage_lines(
                m,
                couples.take(i as int),
                pad as int,
            ),
        decreases layout.couples.len() - i,
    {
        assert(couples.take(i + 1).drop_last() =~= couples.take(i as int));
        assert(couples.take(i + 1).last() == couples[i as int]);
        let a_pos = layout.positions.get(layout.couples[i].0.as_str());
        let b_pos = layout.positions.get(layout.couples[i].1.as_str());
        if let (Some(a), Some(b)) = (a_pos, b_pos) {
            let line = MarriageLine {
                left: a.x + NODE_W + pad,
                right: b.x + pad,
                y: a.y + NODE_H / 2 + pad,
            };
            let ghost before = lines@;
            lines.push(line);
            assert(lines@.map_values(|l: MarriageLine| marriage_line_view(l)) =~= before.map_values(
                |l: MarriageLine| marriage_line_view(l),
            ).push(marriage_line_view(line)));
        }
        i = i + 1;
    }
    assert(couples.take(layout.couples.len() as int) =~= couples);
    lines
}

// ---------------------------------------------------------------------------
// The canvas and the selection
// ---------------------------------------------------------------------------

/// The size of the canvas: the chart with the margin on every side.
pub fn canvas_size(layout: &Layout, pad: i128) -> (size: (i128, i128))
    requires
        drawable(*layout, pad as int),
    ensures
        size.0 == layout.width + 2 * pad,
        size.1 == layout.height + 2 * pad,
{
    (layout.width + 2 * pad, layout.height + 2 * pad)
}

/// The selection after a click on the card of `id`.
pub open spec fn toggled(current: Option<Seq<char>>, id: Seq<char>) -> Option<Seq<char>> {
    if current == Some(id) {
        None
    } else {
        Some(id)
    }
}

/// Two clicks on the same card: the first selects it unless it was selected,
/// and the second undoes the first whenever nothing or that card was selected
/// before.
pub proof fn law_toggle_twice(current: Option<Seq<char>>, id: Seq<char>)
    ensures
        current != Some(id) ==> toggled(current, id) == Some(id),
        toggled(Some(id), id) is None,
        (current is None || current == Some(id)) ==> toggled(toggled(current, id), id) == current,
{
}

/// An id the viewer can have selected: placed on the chart and in the database,
/// so that it has a card.
pub open spec fn selectable(
    people: Map<Seq<char>, Person>,
    m: Map<Seq<char>, (int, int)>,
    id: Seq<char>,
) -> bool {
    m.contains_key(id) && people.contains_key(id)
}

proof fn lemma_cards_selectable(
    people: Map<Seq<char>, Person>,
    focus: Seq<char>,
    m: Map<Seq<char>, (int, int)>,
    ids: Seq<Seq<char>>,
    pad: int,
    k: int,
)
    requires
        0 <= k < spec_cards(people, focus, m, ids, pad).len(),
    ensures
        selectable(people, m, spec_cards(people, focus, m, ids, pad)[k].0),
    decreases ids.len(),
{
    let r = spec_cards(people, focus, m, ids.drop_last(), pad);
    if k < r.len() {
        lemma_cards_selectable(people, focus, m, ids.drop_last(), pad, k);
    }
}

/// One click keeps the selection on the cards: from an empty selection or one
/// holding a placed id in the database, a click on any of the drawn cards
/// (those `cards` gives) leaves it empty or holding such an id.
pub proof fn law_selection_stays_on_cards(
    people: Map<Seq<char>, Person>,
    focus: Seq<char>,
    m: Map<Seq<char>, (int, int)>,
    ids: Seq<Seq<char>>,
    pad: int,
    current: Option<Seq<char>>,
    k: int,
)
    requires
        current is None || selectable(people, m, current->0),
        0 <= k < spec_cards(people, focus, m, ids, pad).len(),
    ensures
        ({
            let clicked = spec_cards(people, focus, m, ids, pad)[k].0;
            let next = toggled(current, clicked);
            next is None || selectable(people, m, next->0)
        }),
{
    lemma_cards_selectable(people, focus, m, ids, pad, k);
}

/// The selection after a click on the card of `id`: clicking the selected card
/// clears the selection, clicking any other card selects it.
pub fn toggle_selection(current: Option<String>, id: String) -> (next: Option<String>)
    ensures
        next.deep_view() == toggled(current.deep_view(), id@),
{
    match current {
        Some(cur) => {
            if cur == id {
                None
            } else {
                Some(id)
            }
        },
        None => Some(id),
    }
}

/// What the viewer's selection reacts to: a click on the card of an id, or the
/// side panel's close button.
#[derive(Debug, Clone)]
pub enum SelectionEvent {
    Click(String),
    Close,
}

/// An event as the id clicked, or nothing for the close button.
pub open spec fn event_view(e: SelectionEvent) -> Option<Seq<char>> {
    match e {
        SelectionEvent::Click(id) => Some(id@),
        SelectionEvent::Close => None,
    }
}

/// The selection after one event: a click toggles, the close button clears.
pub open spec fn selection_step(current: Option<Seq<char>>, e: Option<Seq<char>>) -> Option<
    Seq<char>,
> {
    match e {
        Some(id) => toggled(current, id),
        None => None,
    }
}

/// The selection after a run of events, starting from none.
pub open spec fn selection_after(events: Seq<Option<Seq<char>>>) -> Option<Seq<char>>
    decreases events.len(),
{
    if events.len() == 0 {
        None
    } else {
        selection_step(selection_after(events.drop_last()), events.last())
    }
}

/// The selection after `event`.
pub fn next_selection(current: Option<String>, event: SelectionEvent) -> (next: Option<String>)
    ensures
        next.deep_view() == selection_step(current.deep_view(), event_view(event)),
{
    match event {
        SelectionEvent::Click(id) => toggle_selection(current, id),
        SelectionEvent::Close => None,
    }
}

/// Whatever the user does, the selection holds nothing or the id of a drawn
/// card: it starts empty, the close button empties it, and every click is on
/// one of the cards that `cards` gives for `ids`.
pub proof fn law_selection_always_on_cards(
    people: Map<Seq<char>, Person>,
    focus: Seq<char>,
    m: Map<Seq<char>, (int, int)>,
    ids: Seq<Seq<char>>,
    pad: int,
    events: Seq<Option<Seq<char>>>,
)
    requires
        forall|k: int|
            0 <= k < events.len() && (#[trigger] events[k]) is Some ==> exists|c: int|
                0 <= c < spec_cards(people, focus, m, ids, pad).len() && spec_cards(
                    people,
                    focus,
                    m,
                    ids,
                    pad,
                )[c].0 == events[k]->0,
    ensures
        selection_after(events) is None || selectable(people, m, selection_after(events)->0),
    decreases events.len(),
{
    if events.len() > 0 {
        let init = events.drop_last();
        assert forall|k: int| 0 <= k < init.len() && (#[trigger] init[k]) is Some implies exists|
            c: int,
        |
            0 <= c < spec_cards(people, focus, m, ids, pad).len() && spec_cards(
                people,
                focus,
                m,
                ids,
                pad,
            )[c].0 == init[k]->0 by {
            assert(init[k] == events[k]);
        }
        law_selection_always_on_cards(people, focus, m, ids, pad, init);
        let e = events.last();
        if e is Some {
            assert(events[events.len() - 1] == e);
            let c = choose|c: int|
                0 <= c < spec_cards(people, focus, m, ids, pad).len() && spec_cards(
                    people,
                    focus,
                    m,
                    ids,
                    pad,
                )[c].0 == e->0;
            law_selection_stays_on_cards(people, focus, m, ids, pad, selection_after(init), c);
        }
    }
}

// ---------------------------------------------------------------------------
// Cards
// ---------------------------------------------------------------------------

/// How a card is drawn: the focus stands out, then the deceased, then those
/// whose details are withheld.
#[derive(Debug, Clone, Copy, PartialEq, Eq, Structural)]
pub enum CardStyle {
    Focus,
    Deceased,
    Anonymized,
    Plain,
}

/// The style of the card of `p`, whose id is `id`, on a chart centred on `focus`.
pub open spec fn spec_card_style(focus: Seq<char>, id: Seq<char>, p: Person) -> CardStyle {
    if id == focus {
        CardStyle::Focus
    } else if p.deceased {
        CardStyle::Deceased
    } else if p.anonymized {
        CardStyle::Anonymized
    } else {
        CardStyle::Plain
    }
}

/// The style sheet class of each card style.
pub open spec fn style_class(s: CardStyle) -> Seq<char> {
    match s {
        CardStyle::Focus => "person-card focus"@,
        CardStyle::Deceased => "person-card deceased"@,
        CardStyle::Anonymized => "person-card anonymized"@,
        CardStyle::Plain => "person-card"@,
    }
}

impl CardStyle {
    /// The style sheet class of the card.
    pub fn css_class(&self) -> (c: &'static str)
        ensures
            c@ == style_class(*self),
    {
        match self {
            CardStyle::Focus => "person-card focus",
            CardStyle::Deceased => "person-card deceased",
            CardStyle::Anonymized => "person-card anonymized",
            CardStyle::Plain => "person-card",
        }
    }
}

/// The third line of a card: the person's place where known, "(living)" for
/// a person whose details are withheld, else nothing.
pub open spec fn spec_card_role(p: Person) -> Seq<char> {
    match p.place {
        Some(place) => place@,
        None => if p.anonymized {
            "(living)"@
        } else {
            Seq::<char>::empty()
        },
    }
}

/// The third line of the card of `person`.
pub fn card_role(person: &Person) -> (role: String)
    ensures
        role@ == spec_card_role(*person),
{
    if let Some(place) = &person.place {
        return place.clone();
    }
    if person.anonymized {
        return String::from_str("(living)");
    }
    String::new()
}

/// A person's card: where it goes, how it looks, its three lines of text, and
/// the name of the person's spouse, shown inline where the spouse is known.
pub struct Card {
    pub id: String,
    pub x: i128,
    pub y: i128,
    pub style: CardStyle,
    pub name: String,
    pub dates: String,
    pub role: String,
    pub spouse_name: Option<String>,
}

/// A card as plain values: id, corner, style, name, dates, role, spouse's name.
pub type CardView = (
    Seq<char>,
    (int, int),
    CardStyle,
    Seq<char>,
    Seq<char>,
    Seq<char>,
    Option<Seq<char>>,
);

pub open spec fn card_view(c: Card) -> CardView {
    (c.id@, (c.x as int, c.y as int), c.style, c.name@, c.dates@, c.role@, c.spouse_name.deep_view())
}

/// The card of `id`, where `id` is both placed and in the database.
pub open spec fn spec_card(
    people: Map<Seq<char>, Person>,
    focus: Seq<char>,
    m: Map<Seq<char>, (int, int)>,
    id: Seq<char>,
    pad: int,
) -> Option<CardView> {
    if m.contains_key(id) && people.contains_key(id) {
        let p = people[id];
        Some(
            (
                id,
                (m[id].0 + pad, m[id].1 + pad),
                spec_card_style(focus, id, p),
                p.name@,
                dates_text(p),
                spec_card_role(p),
                spec_spouse_name(people, p),
            ),
        )
    } else {
        None
    }
}

/// The cards of `ids` in order, skipping ids that are not placed or not in
/// the database.
pub open spec fn spec_cards(
    people: Map<Seq<char>, Person>,
    focus: Seq<char>,
    m: Map<Seq<char>, (int, int)>,
    ids: Seq<Seq<char>>,
    pad: int,
) -> Seq<CardView>
    decreases ids.len(),
{
    if ids.len() == 0 {
        Seq::<CardView>::empty()
    } else {
        let r = spec_cards(people, focus, m, ids.drop_last(), pad);
        match spec_card(people, focus, m, ids.last(), pad) {
            Some(c) => r.push(c),
            None => r,
        }
    }
}

/// The card of `id` on the chart `layout` of `db`.
pub fn card(db: &Database, layout: &Layout, id: &String, pad: i128) -> (c: Option<Card>)
    requires
        drawable(*layout, pad as int),
    ensures
        match c {
            Some(c) => spec_card(db.people@, db.focus@, layout.positions@, id@, pad as int) == Some(
                card_view(c),
            ),
            None => spec_card(db.people@, db.focus@, layout.positions@, id@, pad as int) is None,
        },
{
    let pos = match layout.positions.get(id.as_str()) {
        Some(p) => p,
        None => return None,
    };
    let person = match db.get(id.as_str()) {
        Some(p) => p,
        None => return None,
    };
    let style = if *id == db.focus {
        CardStyle::Focus
    } else if person.deceased {
        CardStyle::Deceased
    } else if person.anonymized {
        CardStyle::Anonymized
    } else {
        CardStyle::Plain
    };
    let spouse_name = spouse_name_of(db, person);
    Some(
        Card {
            spouse_name,
            id: id.clone(),
            x: pos.x + pad,
            y: pos.y + pad,
            style,
            name: person.name.clone(),
            dates: db.format_dates(id.as_str()),
            role: card_role(person),
        },
    )
}

/// The cards of `ids`, in that order, skipping ids that are not placed or
/// not in the database.
pub fn cards(db: &Database, layout: &Layout, ids: &Vec<String>, pad: i128) -> (cs: Vec<Card>)
    requires
        drawable(*layout, pad as int),
    ensures
        cs@.map_values(|c: Card| card_view(c)) == spec_cards(
            db.people@,
            db.focus@,
            layout.positions@,
            crate::data::ids_of(*ids),
            pad as int,
        ),
{
    let ghost idv = crate::data::ids_of(*ids);
    let mut cs: Vec<Card> = Vec::new();
    let mut i: usize = 0;
    while i < ids.len()
        invariant
            i <= ids.len(),
            drawable(*layout, pad as int),
            idv == crate::data::ids_of(*ids),
            cs@.map_values(|c: Card| card_view(c)) == spec_cards(
                db.people@,
                db.focus@,
                layout.positions@,
                idv.take(i as int),
                pad as int,
            ),
        decreases ids.len() - i,
    {
        assert(idv.take(i + 1).drop_last() =~= idv.take(i as int));
        assert(idv.take(i + 1).last() == ids[i as int]@);
        match card(db, layout, &ids[i], pad) {
            Some(c) => {
                let ghost before = cs@;
                let ghost cv = card_view(c);
                cs.push(c);
                assert(cs@.map_values(|c: Card| card_view(c)) =~= before.map_values(
                    |c: Card| card_view(c),
                ).push(cv));
            },
            None => {},
        }
        i = i + 1;
    }
    assert(idv.take(ids.len() as int) =~= idv);
    cs
}

// ---------------------------------------------------------------------------
// The side panel
// ---------------------------------------------------------------------------

/// What the side panel shows of a person: name, dates, and where known the
/// place, the spouse's name and the notes.
pub struct Panel {
    pub name: String,
    pub dates: String,
    pub place: Option<String>,
    pub spouse_name: Option<String>,
    pub notes: Option<String>,
}

/// The name of the spouse of `p`, where the spouse is in the database.
pub open spec fn spec_spouse_name(people: Map<Seq<char>, Person>, p: Person) -> Option<Seq<char>> {
    match p.spouse {
        Some(s) => if people.contains_key(s@) {
            Some(people[s@].name@)
        } else {
            None
        },
        None => None,
    }
}

/// A panel as plain values: name, dates, place, spouse's name, notes.
pub type PanelView = (
    Seq<char>,
    Seq<char>,
    Option<Seq<char>>,
    Option<Seq<char>>,
    Option<Seq<char>>,
);

pub open spec fn panel_view(p: Panel) -> PanelView {
    (p.name@, p.dates@, p.place.deep_view(), p.spouse_name.deep_view(), p.notes.deep_view())
}

/// The panel of the person with id `id`; none where nobody has that id.
pub open spec fn spec_panel(people: Map<Seq<char>, Person>, id: Seq<char>) -> Option<PanelView> {
    if people.contains_key(id) {
        let p = people[id];
        Some(
            (
                p.name@,
                dates_text(p),
                p.place.deep_view(),
                spec_spouse_name(people, p),
                p.notes.deep_view(),
            ),
        )
    } else {
        None
    }
}

/// The side panel and the card of a person show the same dates, the text
/// `format_dates` gives for that person.
pub proof fn law_panel_and_card_dates_agree(
    people: Map<Seq<char>, Person>,
    focus: Seq<char>,
    m: Map<Seq<char>, (int, int)>,
    id: Seq<char>,
    pad: int,
)
    requires
        people.contains_key(id),
    ensures
        spec_panel(people, id).unwrap().1 == crate::data::spec_format_dates(people, id),
        m.contains_key(id) ==> spec_card(people, focus, m, id, pad).unwrap().4
            == crate::data::spec_format_dates(people, id),
{
}

/// The name of the spouse of `person`, where the spouse is in the database.
fn spouse_name_of(db: &Database, person: &Person) -> (n: Option<String>)
    ensures
        n.deep_view() == spec_spouse_name(db.people@, *person),
{
    match &person.spouse {
        Some(sp) => match db.get(sp.as_str()) {
            Some(s) => Some(s.name.clone()),
            None => None,
        },
        None => None,
    }
}

fn clone_text(o: &Option<String>) -> (r: Option<String>)
    ensures
        r.deep_view() == o.deep_view(),
{
    match o {
        Some(s) => Some(s.clone()),
        None => None,
    }
}

/// The side panel of the selected person `id`.
pub fn panel(db: &Database, id: &str) -> (p: Option<Panel>)
    ensures
        match p {
            Some(p) => spec_panel(db.people@, id@) == Some(panel_view(p)),
            None => spec_panel(db.people@, id@) is None,
        },
{
    let person = match db.get(id) {
        Some(p) => p,
        None => return None,
    };
    let spouse_name = spouse_name_of(db, person);
    Some(
        Panel {
            name: person.name.clone(),
            dates: db.format_dates(id),
            place: clone_text(&person.place),
            spouse_name,
            notes: clone_text(&person.notes),
        },
    )
}

// ---------------------------------------------------------------------------
// Draw order
// ---------------------------------------------------------------------------

/// `a` comes before `b` when, at the first place where they differ, `a`'s
/// character has the smaller code point, or when `a` is a proper prefix of `b`.
/// This is the order of `<` on Rust strings: UTF-8 keeps code point order.
pub open spec fn id_less(a: Seq<char>, b: Seq<char>) -> bool
    decreases a.len(),
{
    if a.len() == 0 {
        b.len() > 0
    } else if b.len() == 0 {
        false
    } else if a[0] != b[0] {
        (a[0] as int) < (b[0] as int)
    } else {
        id_less(a.drop_first(), b.drop_first())
    }
}

/// Each id is at or after every id before it.
pub open spec fn id_sorted(s: Seq<Seq<char>>) -> bool {
    forall|i: int, j: int| 0 <= i < j < s.len() ==> !id_less(#[trigger] s[j], #[trigger] s[i])
}

/// No id comes before itself, and of two ids that differ one comes first.
pub proof fn law_id_order_total(a: Seq<char>, b: Seq<char>)
    ensures
        !id_less(a, a),
        id_less(a, b) ==> !id_less(b, a),
        a != b ==> id_less(a, b) || id_less(b, a),
    decreases a.len(),
{
    if a.len() > 0 && b.len() > 0 {
        law_id_order_total(a.drop_first(), b.drop_first());

        if a[0] == b[0] && a.drop_first() == b.drop_first() {
            assert(a =~= b) by {
                assert forall|k: int| 0 <= k < a.len() implies a[k] == b[k] by {
                    if k > 0 {
                        assert(a[k] == a.drop_first()[k - 1]);
                        assert(b[k] == b.drop_first()[k - 1]);
                    }
                }
            }
        }
    } else if a.len() == 0 && b.len() == 0 {
        assert(a =~= b);
    }
    if a.len() > 0 {
        law_id_order_total(a.drop_first(), a.drop_first());
    }
}

/// The order is transitive.
pub proof fn law_id_order_transitive(a: Seq<char>, b: Seq<char>, c: Seq<char>)
    requires
        id_less(a, b),
        id_less(b, c),
    ensures
        id_less(a, c),
    decreases a.len(),
{
    if a.len() > 0 && b.len() > 0 && c.len() > 0 && a[0] == b[0] && b[0] == c[0] {
        law_id_order_transitive(a.drop_first(), b.drop_first(), c.drop_first());
    }
}

/// Whether `a` comes before `b`.
pub fn id_before(a: &str, b: &str) -> (r: bool)
    ensures
        r == id_less(a@, b@),
{
    let la = a.unicode_len();
    let lb = b.unicode_len();
    let mut i: usize = 0;
    assert(a@.skip(0) =~= a@);
    assert(b@.skip(0) =~= b@);
    while i < la && i < lb
        invariant
            la == a@.len(),
            lb == b@.len(),
            i <= la,
            i <= lb,
            id_less(a@, b@) == id_less(a@.skip(i as int), b@.skip(i as int)),
        decreases la - i,
    {
        let ca = a.get_char(i);
        let cb = b.get_char(i);
        assert(a@.skip(i as int)[0] == ca);
        assert(b@.skip(i as int)[0] == cb);
        if (ca as u32) != (cb as u32) {
            return (ca as u32) < (cb as u32);
        }
        assert(a@.skip(i as int).drop_first() =~= a@.skip(i + 1));
        assert(b@.skip(i as int).drop_first() =~= b@.skip(i + 1));
        i = i + 1;
    }
    i < lb
}

/// `ids` in the order of [`id_less`], each as often as it occurs in `ids`:
/// the order in which the cards are drawn.
pub fn draw_order(ids: &Vec<String>) -> (out: Vec<String>)
    ensures
        ids_of(out).to_multiset() == ids_of(*ids).to_multiset(),
        id_sorted(ids_of(out)),
{
    let mut out: Vec<String> = Vec::new();
    let mut i: usize = 0;
    assert(ids_of(out) =~= ids_of(*ids).take(0));
    while i < ids.len()
        invariant
            i <= ids.len(),
            ids_of(out).to_multiset() == ids_of(*ids).take(i as int).to_multiset(),
            id_sorted(ids_of(out)),
        decreases ids.len() - i,
    {
        let x = &ids[i];
        let mut k: usize = 0;
        while k < out.len() && !id_before(x.as_str(), out[k].as_str())
            invariant
                k <= out.len(),
                forall|p: int| 0 <= p < k ==> !id_less(x@, #[trigger] ids_of(out)[p]),
            decreases out.len() - k,
        {
            k = k + 1;
        }
        let ghost before = ids_of(out);
        proof {
            if k < out.len() {
                assert(id_less(x@, before[k as int]));
            }
        }
        out.insert(k, x.clone());
        proof {
            let after = ids_of(out);
            assert(after =~= before.insert(k as int, x@));
            vstd::seq_lib::to_multiset_insert(before, k as int, x@);
            assert(ids_of(*ids).take(i + 1) =~= ids_of(*ids).take(i as int).push(x@));
            vstd::seq_lib::to_multiset_build(ids_of(*ids).take(i as int), x@);
            assert forall|p: int, q: int| 0 <= p < q < after.len() implies !id_less(
                #[trigger] after[q],
                #[trigger] after[p],
            ) by {
                if q < k {
                    assert(after[p] == before[p] && after[q] == before[q]);
                } else if q == k {
                    assert(after[p] == before[p]);
                    law_id_order_total(after[p], x@);
                } else if p > k {
                    assert(after[p] == before[p - 1] && after[q] == before[q - 1]);
                } else if p == k {
                    // x, then an id at or after before[k], which comes after x.
                    assert(after[q] == before[q - 1]);
                    let y = before[k as int];
                    if q - 1 > k {
                        law_id_order_total(before[q - 1], y);
                        law_id_order_total(y, before[q - 1]);
                        if y != before[q - 1] {
                            law_id_order_transitive(x@, y, before[q - 1]);
                        }
                    }
                    law_id_order_total(x@, before[q - 1]);
                } else {
                    assert(after[p] == before[p] && after[q] == before[q - 1]);
                }
            }
        }
        i = i + 1;
    }
    assert(ids_of(*ids).take(ids.len() as int) =~= ids_of(*ids));
    out
}

// ---------------------------------------------------------------------------
// What the drawn pieces show
// ---------------------------------------------------------------------------

/// The middle of the card of `id` on the canvas, across.
pub open spec fn canvas_centre_x(m: Map<Seq<char>, (int, int)>, id: Seq<char>, pad: int) -> int {
    m[id].0 + NODE_W / 2 + pad
}

/// A connector is drawn exactly where its first parent and its child are
/// placed. It starts at the bottom of the first parent's card, under the
/// middle between the two parents' cards where the second parent is placed,
/// else under the middle of the first parent's card; it ends at the top of the
/// child's card under its middle, and turns half way down. (All in half grid
/// units: twice the canvas coordinates.)
pub proof fn law_edge_path_geometry(m: Map<Seq<char>, (int, int)>, e: Edge, pad: int)
    ensures
        spec_edge_path(m, e, pad) is Some <==> m.contains_key(e.0.0) && m.contains_key(e.1),
        spec_edge_path(m, e, pad) matches Some(p) ==> {
            let (a, b, c) = (e.0.0, e.0.1, e.1);
            &&& p.0 == (if b is Some && m.contains_key(b->0) {
                canvas_centre_x(m, a, pad) + canvas_centre_x(m, b->0, pad)
            } else {
                2 * canvas_centre_x(m, a, pad)
            })
            &&& p.1 == 2 * (m[a].1 + NODE_H + pad)
            &&& p.3 == 2 * canvas_centre_x(m, c, pad)
            &&& p.4 == 2 * (m[c].1 + pad)
            &&& 2 * p.2 == p.1 + p.4
        },
{
}

/// Every connector drawn is the connector of one of the edges.
pub proof fn law_edge_paths_from_edges(
    m: Map<Seq<char>, (int, int)>,
    edges: Seq<Edge>,
    pad: int,
    k: int,
)
    requires
        0 <= k < spec_edge_paths(m, edges, pad).len(),
    ensures
        exists|j: int|
            0 <= j < edges.len() && spec_edge_path(m, #[trigger] edges[j], pad) == Some(
                spec_edge_paths(m, edges, pad)[k],
            ),
    decreases edges.len(),
{
    let init = edges.drop_last();
    let r = spec_edge_paths(m, init, pad);
    if k < r.len() {
        law_edge_paths_from_edges(m, init, pad, k);
        let j = choose|j: int|
            0 <= j < init.len() && spec_edge_path(m, #[trigger] init[j], pad) == Some(r[k]);
        assert(edges[j] == init[j]);
        assert(spec_edge_paths(m, edges, pad)[k] == r[k]);
    } else {
        assert(edges[edges.len() - 1] == edges.last());
    }
}

/// A wider margin moves every connector right and down by as much (twice
/// that in half grid units).
pub proof fn law_edge_paths_follow_margin(
    m: Map<Seq<char>, (int, int)>,
    edges: Seq<Edge>,
    pad: int,
    d: int,
)
    ensures
        spec_edge_paths(m, edges, pad + d).len() == spec_edge_paths(m, edges, pad).len(),
        forall|k: int|
            0 <= k < spec_edge_paths(m, edges, pad).len() ==> {
                let p = #[trigger] spec_edge_paths(m, edges, pad)[k];
                spec_edge_paths(m, edges, pad + d)[k] == (
                    p.0 + 2 * d,
                    p.1 + 2 * d,
                    p.2 + 2 * d,
                    p.3 + 2 * d,
                    p.4 + 2 * d,
                )
            },
    decreases edges.len(),
{
    if edges.len() > 0 {
        law_edge_paths_follow_margin(m, edges.drop_last(), pad, d);
    }
}

/// A marriage line is drawn exactly where both partners are placed. It runs
/// from the right edge of the first partner's card to the left edge of the
/// second's, across the middle of the first partner's card, so it spans the
/// gap between the two cards whatever the margin.
pub proof fn law_marriage_line_geometry(
    m: Map<Seq<char>, (int, int)>,
    couple: (Seq<char>, Seq<char>),
    pad: int,
)
    ensures
        spec_marriage_line(m, couple, pad) is Some <==> m.contains_key(couple.0) && m.contains_key(
            couple.1,
        ),
        spec_marriage_line(m, couple, pad) matches Some(l) ==> {
            &&& l.0 == m[couple.0].0 + NODE_W + pad
            &&& l.1 == m[couple.1].0 + pad
            &&& l.2 == m[couple.0].1 + NODE_H / 2 + pad
            &&& l.1 - l.0 == m[couple.1].0 - (m[couple.0].0 + NODE_W)
        },
{
}

/// A wider margin moves every marriage line right and down by as much.
pub proof fn law_marriage_lines_follow_margin(
    m: Map<Seq<char>, (int, int)>,
    couples: Seq<(Seq<char>, Seq<char>)>,
    pad: int,
    d: int,
)
    ensures
        spec_marriage_lines(m, couples, pad + d).len() == spec_marriage_lines(m, couples, pad).len(),
        forall|k: int|
            0 <= k < spec_marriage_lines(m, couples, pad).len() ==> {
                let l = #[trigger] spec_marriage_lines(m, couples, pad)[k];
                spec_marriage_lines(m, couples, pad + d)[k] == (l.0 + d, l.1 + d, l.2 + d)
            },
    decreases couples.len(),
{
    if couples.len() > 0 {
        law_marriage_lines_follow_margin(m, couples.drop_last(), pad, d);
    }
}

/// The card of the focus person is always drawn as the focus, whatever that
/// person's flags; a card is drawn as deceased exactly when it is somebody
/// else's who has died, and as anonymized exactly when it is somebody else's,
/// alive, whose details are withheld. Each card shows its own person at the
/// place where that person is placed, moved by the margin; its third line is
/// the person's place, else "(living)" for a withheld person, else nothing;
/// its dates and spouse's name are those the side panel shows.
pub proof fn law_card_shows_person(
    people: Map<Seq<char>, Person>,
    focus: Seq<char>,
    m: Map<Seq<char>, (int, int)>,
    id: Seq<char>,
    pad: int,
)
    ensures
        spec_card(people, focus, m, id, pad) is Some <==> m.contains_key(id) && people.contains_key(
            id,
        ),
        spec_card(people, focus, m, id, pad) matches Some(c) ==> {
            let p = people[id];
            &&& c.0 == id
            &&& c.1 == (m[id].0 + pad, m[id].1 + pad)
            &&& c.3 == p.name@
            &&& id == focus ==> c.2 == CardStyle::Focus
            &&& (c.2 == CardStyle::Deceased <==> id != focus && p.deceased)
            &&& (c.2 == CardStyle::Anonymized <==> id != focus && !p.deceased && p.anonymized)
            &&& (c.2 == CardStyle::Plain <==> id != focus && !p.deceased && !p.anonymized)
            &&& p.place matches Some(place) ==> c.5 == place@
            &&& p.place is None && p.anonymized ==> c.5 == "(living)"@
            &&& p.place is None && !p.anonymized ==> c.5.len() == 0
            &&& spec_panel(people, id) matches Some(v) && c.6 == v.3 && c.4 == v.1
        },
{
}

/// The side panel of somebody in the database shows that person's name,
/// place and notes as stored, and the spouse's name where the spouse is in the
/// database; for an id nobody has there is no panel.
pub proof fn law_panel_shows_person(people: Map<Seq<char>, Person>, id: Seq<char>)
    ensures
        spec_panel(people, id) is Some <==> people.contains_key(id),
        spec_panel(people, id) matches Some(v) ==> {
            &&& v.0 == people[id].name@
            &&& v.2 == people[id].place.deep_view()
            &&& v.4 == people[id].notes.deep_view()
            &&& v.1 == dates_text(people[id])
            &&& (v.3 is Some <==> people[id].spouse is Some && people.contains_key(
                people[id].spouse->0@,
            ))
            &&& v.3 is Some ==> v.3 == Some(people[people[id].spouse->0@].name@)
        },
{
}

} // verus!
