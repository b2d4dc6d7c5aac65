use family_tree::layout::{
    compute, Position, PositionMap, COUPLE_BLOCK_W, NODE_H, NODE_W, SUBPIXELS,
};
use family_tree::scene::{
    canvas_size, card, card_role, cards, draw_order, family_edge_paths, id_before,
    marriage_lines, next_selection, panel, toggle_selection, CardStyle, EdgePath, MarriageLine,
    SelectionEvent, PAD,
};
use family_tree::{Database, Person};

fn s(v: &str) -> String {
    v.to_string()
}

fn ids(v: &[&str]) -> Vec<String> {
    v.iter().map(|x| x.to_string()).collect()
}

fn person(name: &str, parents: &[&str], children: &[&str]) -> Person {
    let mut p = Person::new(s(name));
    p.parents = ids(parents);
    p.children = ids(children);
    p
}

/// Every placed card lies inside [0, width] x [0, height].
fn assert_cards_within_chart(layout: &family_tree::layout::Layout) {
    for id in layout.positions.ids() {
        let p = layout.positions.get(&id).unwrap();
        assert!(p.x >= 0 && p.x + NODE_W <= layout.width, "{} at x {}", id, p.x);
        assert!(p.y >= 0 && p.y + NODE_H <= layout.height, "{} at y {}", id, p.y);
    }
}

/// No two cards of different people overlap.
fn assert_no_overlap(layout: &family_tree::layout::Layout) {
    let all = layout.positions.ids();
    for a in all.iter() {
        for b in all.iter() {
            if a != b {
                let p = layout.positions.get(a).unwrap();
                let q = layout.positions.get(b).unwrap();
                let apart = p.y + NODE_H <= q.y
                    || q.y + NODE_H <= p.y
                    || p.x + NODE_W <= q.x
                    || q.x + NODE_W <= p.x;
                assert!(apart, "{} and {} overlap", a, b);
            }
        }
    }
}

/// Three generations: the focus "me" with two siblings' worth of children
/// lists, both parents in the database with two parents each.
fn three_generations() -> Database {
    let mut db = Database::new(s("me"), s("me"));
    db.insert(s("me"), person("Me", &["dad", "mom"], &[]));
    db.insert(s("dad"), person("Dad", &["gpa1", "gma1"], &["me", "sis"]));
    db.insert(s("mom"), person("Mom", &["gpa2", "gma2"], &["sis", "me", "bro"]));
    db.insert(s("sis"), person("Sis", &["dad", "mom"], &[]));
    db.insert(s("bro"), person("Bro", &["mom"], &[]));
    db.insert(s("gpa1"), person("Grandpa One", &[], &["dad"]));
    db
}

// ---------------------------------------------------------------------------
// data
// ---------------------------------------------------------------------------

#[test]
fn get_finds_inserted_person() {
    let mut db = Database::new(s("a"), s("a"));
    db.insert(s("a"), Person::new(s("Alice")));
    assert_eq!(db.get("a").map(|p| p.name.clone()), Some(s("Alice")));
    assert!(db.get("b").is_none());
}

#[test]
fn insert_replaces_person_with_same_id() {
    let mut db = Database::new(s("a"), s("a"));
    db.insert(s("a"), Person::new(s("Alice")));
    db.insert(s("a"), Person::new(s("Alicia")));
    assert_eq!(db.get("a").unwrap().name, "Alicia");
}

#[test]
fn format_dates_both() {
    let mut db = Database::new(s("a"), s("a"));
    let mut p = Person::new(s("A"));
    p.birth = Some(s("1900"));
    p.death = Some(s("1980"));
    db.insert(s("a"), p);
    assert_eq!(db.format_dates("a"), "1900 \u{2013} 1980");
}

#[test]
fn format_dates_birth_only() {
    let mut db = Database::new(s("a"), s("a"));
    let mut p = Person::new(s("A"));
    p.birth = Some(s("1950"));
    db.insert(s("a"), p);
    assert_eq!(db.format_dates("a"), "b. 1950");
}

#[test]
fn format_dates_death_only() {
    let mut db = Database::new(s("a"), s("a"));
    let mut p = Person::new(s("A"));
    p.death = Some(s("2001"));
    db.insert(s("a"), p);
    assert_eq!(db.format_dates("a"), "d. 2001");
}

#[test]
fn format_dates_none_or_unknown() {
    let mut db = Database::new(s("a"), s("a"));
    db.insert(s("a"), Person::new(s("A")));
    assert_eq!(db.format_dates("a"), "");
    assert_eq!(db.format_dates("nobody"), "");
}

#[test]
fn children_of_any_keeps_first_occurrence() {
    let db = three_generations();
    let kids = db.children_of_any(&ids(&["dad", "mom"]));
    assert_eq!(kids, ids(&["me", "sis", "bro"]));
}

#[test]
fn children_of_any_skips_unknown_and_childless() {
    let db = three_generations();
    assert_eq!(db.children_of_any(&ids(&["ghost", "mom"])), ids(&["sis", "me", "bro"]));
    assert!(db.children_of_any(&ids(&["me", "ghost"])).is_empty());
    assert!(db.children_of_any(&Vec::new()).is_empty());
}

// ---------------------------------------------------------------------------
// position map
// ---------------------------------------------------------------------------

#[test]
fn position_map_replaces_and_keeps_first_order() {
    let mut m = PositionMap::new();
    m.insert(s("a"), Position { x: 1, y: 2 });
    m.insert(s("b"), Position { x: 3, y: 4 });
    m.insert(s("a"), Position { x: 5, y: 6 });
    assert_eq!(m.len(), 2);
    assert_eq!(m.get("a"), Some(Position { x: 5, y: 6 }));
    assert_eq!(m.get("b"), Some(Position { x: 3, y: 4 }));
    assert_eq!(m.get("c"), None);
    assert_eq!(m.ids(), ids(&["a", "b"]));
}

// ---------------------------------------------------------------------------
// layout
// ---------------------------------------------------------------------------

#[test]
fn constants_in_pixels() {
    assert_eq!(SUBPIXELS, 4);
    assert_eq!(NODE_W, 880);
    assert_eq!(NODE_H, 352);
    assert_eq!(COUPLE_BLOCK_W, 1872);
}

#[test]
fn compute_without_focus_is_empty() {
    let mut db = Database::new(s("missing"), s("missing"));
    db.insert(s("a"), Person::new(s("A")));
    let layout = compute(&db);
    assert_eq!(layout.positions.len(), 0);
    assert!(layout.couples.is_empty());
    assert!(layout.family_edges.is_empty());
    assert_eq!(layout.width, 0);
    assert_eq!(layout.height, 0);
}

#[test]
fn compute_focus_alone() {
    let mut db = Database::new(s("me"), s("me"));
    db.insert(s("me"), Person::new(s("Me")));
    let layout = compute(&db);
    assert_eq!(layout.positions.ids(), ids(&["me"]));
    // A couple is the narrowest the chart gets; the focus sits in its middle.
    assert_eq!(layout.width, 1872);
    assert_eq!(layout.height, 352);
    assert_eq!(layout.positions.get("me"), Some(Position { x: 496, y: 0 }));
    assert!(layout.couples.is_empty());
    assert!(layout.family_edges.is_empty());
}

#[test]
fn compute_three_generations() {
    let db = three_generations();
    let layout = compute(&db);
    assert_eq!(layout.width, 4032);
    assert_eq!(layout.height, 1728);
    let at = |id: &str| layout.positions.get(id).unwrap();
    assert_eq!(at("gpa1"), Position { x: 0, y: 0 });
    assert_eq!(at("gma1"), Position { x: 992, y: 0 });
    assert_eq!(at("gpa2"), Position { x: 2160, y: 0 });
    assert_eq!(at("gma2"), Position { x: 3152, y: 0 });
    assert_eq!(at("dad"), Position { x: 496, y: 688 });
    assert_eq!(at("mom"), Position { x: 2656, y: 688 });
    assert_eq!(at("me"), Position { x: 552, y: 1376 });
    assert_eq!(at("sis"), Position { x: 1576, y: 1376 });
    assert_eq!(at("bro"), Position { x: 2600, y: 1376 });
    assert_eq!(
        layout.positions.ids(),
        ids(&["gpa1", "gma1", "gpa2", "gma2", "dad", "mom", "me", "sis", "bro"])
    );
    assert_eq!(
        layout.couples,
        vec![(s("gpa1"), s("gma1")), (s("gpa2"), s("gma2")), (s("dad"), s("mom"))]
    );
    let edge = |a: &str, b: Option<&str>, c: &str| ((s(a), b.map(s)), s(c));
    assert_eq!(
        layout.family_edges,
        vec![
            edge("gpa1", Some("gma1"), "dad"),
            edge("gpa2", Some("gma2"), "mom"),
            edge("dad", Some("mom"), "me"),
            edge("dad", Some("mom"), "sis"),
            edge("dad", Some("mom"), "bro"),
        ]
    );
}

#[test]
fn compute_children_centred_under_parents() {
    let layout = compute(&three_generations());
    let at = |id: &str| layout.positions.get(id).unwrap();
    let row_left = at("me").x;
    let row_right = at("bro").x + NODE_W;
    let dad_centre = at("dad").x + NODE_W / 2;
    let mom_centre = at("mom").x + NODE_W / 2;
    assert_eq!(row_left + row_right, dad_centre + mom_centre);
}

#[test]
fn compute_parent_centred_under_couple() {
    let layout = compute(&three_generations());
    let at = |id: &str| layout.positions.get(id).unwrap();
    assert_eq!(2 * (at("mom").x + NODE_W / 2), at("gpa2").x + at("gma2").x + NODE_W);
    assert_eq!(2 * (at("dad").x + NODE_W / 2), at("gpa1").x + at("gma1").x + NODE_W);
}

#[test]
fn compute_rows_top_to_bottom_within_height() {
    let layout = compute(&three_generations());
    assert_cards_within_chart(&layout);
    assert_no_overlap(&layout);
    let at = |id: &str| layout.positions.get(id).unwrap();
    assert!(at("gpa1").y < at("dad").y && at("dad").y < at("me").y);
}

#[test]
fn compute_single_parent_without_grandparents() {
    let mut db = Database::new(s("me"), s("me"));
    db.insert(s("me"), person("Me", &["mom"], &[]));
    db.insert(s("mom"), person("Mom", &[], &["me", "sis"]));
    let layout = compute(&db);
    // Bottom row 2 cards: 2*880 + 144 = 1904, wider than a couple.
    assert_eq!(layout.width, 1904);
    assert_eq!(layout.height, 688 + 352);
    let at = |id: &str| layout.positions.get(id).unwrap();
    // The single slot is centred: (1904 - 880) / 2 = 512; its middle 952.
    assert_cards_within_chart(&layout);
    assert_no_overlap(&layout);
    assert_eq!(at("mom"), Position { x: 512, y: 0 });
    assert_eq!(at("me"), Position { x: 0, y: 688 });
    assert_eq!(at("sis"), Position { x: 1024, y: 688 });
    assert!(layout.couples.is_empty());
    assert_eq!(
        layout.family_edges,
        vec![((s("mom"), None), s("me")), ((s("mom"), None), s("sis"))]
    );
}

#[test]
fn compute_parent_missing_from_database() {
    let mut db = Database::new(s("me"), s("me"));
    db.insert(s("me"), person("Me", &["dad", "ghost"], &[]));
    db.insert(s("dad"), person("Dad", &[], &["me"]));
    let layout = compute(&db);
    // The missing parent sticks out right of the frame of one couple: the
    // chart is widened to the right edge of its card.
    assert_eq!(layout.width, 496 + 880 + 112 + 880);
    assert_cards_within_chart(&layout);
    assert_no_overlap(&layout);
    let at = |id: &str| layout.positions.get(id).unwrap();
    assert_eq!(at("dad"), Position { x: 496, y: 0 });
    // Nobody's couple is above the missing parent: it stands right of its partner.
    assert_eq!(at("ghost"), Position { x: 496 + 880 + 112, y: 0 });
    // The focus is centred under the middle between the two parents' cards.
    assert_eq!(at("me"), Position { x: 992, y: 688 });
    assert_eq!(2 * (at("me").x + NODE_W / 2), at("dad").x + at("ghost").x + NODE_W);
    assert_eq!(layout.couples, vec![(s("dad"), s("ghost"))]);
}

#[test]
fn compute_first_parent_missing_stands_left() {
    let mut db = Database::new(s("me"), s("me"));
    db.insert(s("me"), person("Me", &["ghost", "mom"], &[]));
    db.insert(s("mom"), person("Mom", &[], &["me"]));
    let layout = compute(&db);
    let at = |id: &str| layout.positions.get(id).unwrap();
    // In the frame the missing parent would start at 496 - 880 - 112 = -496:
    // the whole chart moves right by 496 so that it starts at 0.
    assert_eq!(at("ghost"), Position { x: 0, y: 0 });
    assert_eq!(at("mom"), Position { x: 992, y: 0 });
    assert_eq!(at("me"), Position { x: 496, y: 688 });
    assert_eq!(layout.width, 2368);
    assert_cards_within_chart(&layout);
    assert_no_overlap(&layout);
}

#[test]
fn compute_children_row_wider_than_focus_side_stays_in_chart() {
    let mut db = Database::new(s("me"), s("me"));
    db.insert(s("me"), person("Me", &["mom"], &["k1", "k2"]));
    db.insert(s("mom"), person("Mom", &[], &["me", "sis"]));
    let layout = compute(&db);
    let at = |id: &str| layout.positions.get(id).unwrap();
    // Centred under "me", the children's row would start at 440 - 952 = -512;
    // the chart moves right by 512 and grows by as much.
    assert_eq!(at("mom"), Position { x: 1024, y: 0 });
    assert_eq!(at("me"), Position { x: 512, y: 688 });
    assert_eq!(at("sis"), Position { x: 1536, y: 688 });
    assert_eq!(at("k1"), Position { x: 0, y: 1376 });
    assert_eq!(at("k2"), Position { x: 1024, y: 1376 });
    assert_eq!(layout.width, 2416);
    assert_eq!(layout.height, 1376 + 352);
    assert_eq!(at("k1").x + at("k2").x + NODE_W, 2 * (at("me").x + NODE_W / 2));
    assert_cards_within_chart(&layout);
    assert_no_overlap(&layout);
}

#[test]
fn compute_both_parents_missing_stand_as_couple() {
    let mut db = Database::new(s("me"), s("me"));
    db.insert(s("me"), person("Me", &["p", "q"], &[]));
    let layout = compute(&db);
    let at = |id: &str| layout.positions.get(id).unwrap();
    assert_cards_within_chart(&layout);
    assert_no_overlap(&layout);
    assert_eq!(at("p"), Position { x: 0, y: 0 });
    assert_eq!(at("q"), Position { x: 992, y: 0 });
    assert_eq!(at("me"), Position { x: 496, y: 688 });
}

#[test]
fn compute_focus_children_row() {
    let mut db = Database::new(s("me"), s("me"));
    db.insert(s("me"), person("Me", &[], &["kid1", "kid2", "kid1"]));
    let layout = compute(&db);
    assert_eq!(layout.width, 1904);
    assert_eq!(layout.height, 688 + 352);
    let at = |id: &str| layout.positions.get(id).unwrap();
    assert_cards_within_chart(&layout);
    assert_no_overlap(&layout);
    assert_eq!(at("me"), Position { x: 512, y: 0 });
    assert_eq!(at("kid1"), Position { x: 0, y: 688 });
    assert_eq!(at("kid2"), Position { x: 1024, y: 688 });
    // Centred under the focus's card.
    assert_eq!(at("kid1").x + at("kid2").x + NODE_W, 2 * (at("me").x + NODE_W / 2));
    assert_eq!(
        layout.family_edges,
        vec![((s("me"), None), s("kid1")), ((s("me"), None), s("kid2"))]
    );
}

#[test]
fn compute_focus_not_listed_by_parents_is_still_drawn() {
    let mut db = Database::new(s("me"), s("me"));
    db.insert(s("me"), person("Me", &["mom"], &[]));
    db.insert(s("mom"), person("Mom", &[], &["sis"]));
    let layout = compute(&db);
    assert_eq!(layout.positions.ids(), ids(&["mom", "me", "sis"]));
    let at = |id: &str| layout.positions.get(id).unwrap();
    assert_eq!(at("me").y, at("sis").y);
    assert_eq!(at("sis").x - at("me").x, 880 + 144);
}

#[test]
fn focus_is_separate_from_root() {
    let mut db = Database::new(s("gpa1"), s("me"));
    db.insert(s("me"), person("Me", &["dad"], &[]));
    db.insert(s("dad"), person("Dad", &["gpa1", "gma1"], &["me"]));
    db.insert(s("gpa1"), person("Grandpa", &[], &["dad"]));
    assert_eq!(db.root, "gpa1");
    let layout = compute(&db);
    let c = card(&db, &layout, &s("me"), 0).unwrap();
    assert_eq!(c.style, CardStyle::Focus);
    let g = card(&db, &layout, &s("gpa1"), 0).unwrap();
    assert_eq!(g.style, CardStyle::Plain);
}

#[test]
fn compute_parents_without_listed_children_keeps_focus() {
    let mut db = Database::new(s("me"), s("me"));
    db.insert(s("me"), person("Me", &["dad"], &[]));
    db.insert(s("dad"), person("Dad", &[], &[]));
    let layout = compute(&db);
    assert_eq!(layout.positions.ids(), ids(&["dad", "me"]));
    assert_eq!(layout.family_edges, vec![((s("dad"), None), s("me"))]);
}

// ---------------------------------------------------------------------------
// scene
// ---------------------------------------------------------------------------

#[test]
fn edge_paths_three_generations() {
    let layout = compute(&three_generations());
    let paths = family_edge_paths(&layout, PAD);
    assert_eq!(paths.len(), 5);
    // Connectors are counted in half grid units.
    assert_eq!(
        paths[2],
        EdgePath { start_x: 4352, start_y: 2400, mid_y: 2736, end_x: 2304, end_y: 3072 }
    );
    // Grandparents (0, 0) and (992, 0) above dad at (496, 688).
    assert_eq!(
        paths[0],
        EdgePath { start_x: 2192, start_y: 1024, mid_y: 1360, end_x: 2192, end_y: 1696 }
    );
}

#[test]
fn edge_paths_exact_for_odd_midpoints() {
    let mut db = Database::new(s("me"), s("me"));
    db.insert(s("me"), Person::new(s("Me")));
    let mut layout = compute(&db);
    layout.positions.insert(s("a"), Position { x: 1, y: 0 });
    layout.positions.insert(s("b"), Position { x: 2, y: 0 });
    layout.positions.insert(s("c"), Position { x: 0, y: 3 });
    layout.family_edges.push(((s("a"), Some(s("b"))), s("c")));
    let paths = family_edge_paths(&layout, 0);
    // Midpoint of centres 441 and 442 is 441.5 grid units: 883 half units.
    assert_eq!(paths[0].start_x, 883);
    // Midpoint of 352 and 3 is 177.5: 355 half units.
    assert_eq!(paths[0].mid_y, 355);
}

#[test]
fn edge_paths_skip_unplaced() {
    let mut db = Database::new(s("me"), s("me"));
    db.insert(s("me"), person("Me", &["mom"], &[]));
    db.insert(s("mom"), person("Mom", &[], &["me"]));
    let mut layout = compute(&db);
    layout.family_edges.push(((s("nobody"), None), s("me")));
    layout.family_edges.push(((s("mom"), Some(s("nobody"))), s("me")));
    let paths = family_edge_paths(&layout, 0);
    assert_eq!(paths.len(), 2);
    // A second parent that is not placed: start under the first alone.
    assert_eq!(paths[1].start_x, paths[0].start_x);
}

#[test]
fn marriage_lines_three_generations() {
    let layout = compute(&three_generations());
    let lines = marriage_lines(&layout, PAD);
    assert_eq!(lines.len(), 3);
    assert_eq!(lines[2], MarriageLine { left: 1536, right: 2816, y: 1024 });
    assert_eq!(lines[0], MarriageLine { left: 1040, right: 1152, y: 336 });
}

#[test]
fn canvas_size_adds_margin() {
    let layout = compute(&three_generations());
    assert_eq!(canvas_size(&layout, PAD), (4032 + 320, 1728 + 320));
}

#[test]
fn cards_in_given_order_skip_unknown() {
    let db = three_generations();
    let layout = compute(&db);
    let cs = cards(&db, &layout, &ids(&["me", "gma1", "dad", "nobody"]), PAD);
    // gma1 is placed but not in the database; nobody is neither.
    assert_eq!(cs.len(), 2);
    assert_eq!(cs[0].id, "me");
    assert_eq!((cs[0].x, cs[0].y), (712, 1536));
    assert_eq!(cs[0].style, CardStyle::Focus);
    assert_eq!(cs[0].name, "Me");
    assert_eq!(cs[1].id, "dad");
    assert_eq!(cs[1].style, CardStyle::Plain);
}

#[test]
fn card_styles() {
    let mut db = three_generations();
    let mut sis = person("Sis", &["dad", "mom"], &[]);
    sis.deceased = true;
    sis.anonymized = true;
    db.insert(s("sis"), sis);
    let mut bro = person("Bro", &["mom"], &[]);
    bro.anonymized = true;
    db.insert(s("bro"), bro);
    let layout = compute(&db);
    assert_eq!(card(&db, &layout, &s("sis"), 0).unwrap().style, CardStyle::Deceased);
    assert_eq!(card(&db, &layout, &s("bro"), 0).unwrap().style, CardStyle::Anonymized);
    assert_eq!(CardStyle::Focus.css_class(), "person-card focus");
    assert_eq!(CardStyle::Deceased.css_class(), "person-card deceased");
    assert_eq!(CardStyle::Anonymized.css_class(), "person-card anonymized");
    assert_eq!(CardStyle::Plain.css_class(), "person-card");
}

#[test]
fn card_role_lines() {
    let mut p = Person::new(s("P"));
    assert_eq!(card_role(&p), "");
    p.deceased = true;
    assert_eq!(card_role(&p), "");
    p.anonymized = true;
    assert_eq!(card_role(&p), "(living)");
    p.place = Some(s("Oslo"));
    assert_eq!(card_role(&p), "Oslo");
}

#[test]
fn card_text_lines() {
    let mut db = three_generations();
    let mut me = person("Me", &["dad", "mom"], &[]);
    me.birth = Some(s("1990"));
    me.place = Some(s("Bergen"));
    db.insert(s("me"), me);
    let layout = compute(&db);
    let c = card(&db, &layout, &s("me"), 0).unwrap();
    assert_eq!(c.dates, "b. 1990");
    assert_eq!(c.role, "Bergen");
    assert_eq!((c.x, c.y), (552, 1376));
}

#[test]
fn panel_shows_spouse_name() {
    let mut db = three_generations();
    let mut dad = person("Dad", &["gpa1", "gma1"], &["me", "sis"]);
    dad.spouse = Some(s("mom"));
    let layout_before = compute(&db);
    assert_eq!(card(&db, &layout_before, &s("dad"), 0).unwrap().spouse_name, None);
    dad.notes = Some(s("Sailor."));
    dad.birth = Some(s("1960"));
    dad.death = Some(s("2020"));
    db.insert(s("dad"), dad);
    let layout = compute(&db);
    assert_eq!(card(&db, &layout, &s("dad"), 0).unwrap().spouse_name, Some(s("Mom")));
    let p = panel(&db, "dad").unwrap();
    assert_eq!(p.name, "Dad");
    assert_eq!(p.dates, "1960 \u{2013} 2020");
    assert_eq!(p.spouse_name, Some(s("Mom")));
    assert_eq!(p.notes, Some(s("Sailor.")));
    assert_eq!(p.place, None);
}

#[test]
fn panel_unknown_spouse_and_person() {
    let mut db = Database::new(s("a"), s("a"));
    let mut a = Person::new(s("A"));
    a.spouse = Some(s("nobody"));
    db.insert(s("a"), a);
    assert_eq!(panel(&db, "a").unwrap().spouse_name, None);
    assert!(panel(&db, "nobody").is_none());
}

#[test]
fn toggle_selection_selects_and_clears() {
    assert_eq!(toggle_selection(None, s("a")), Some(s("a")));
    assert_eq!(toggle_selection(Some(s("a")), s("a")), None);
    assert_eq!(toggle_selection(Some(s("b")), s("a")), Some(s("a")));
}

#[test]
fn id_before_orders_by_code_point_prefix_first() {
    assert!(id_before("a", "b"));
    assert!(!id_before("b", "a"));
    assert!(id_before("a", "ab"));
    assert!(!id_before("ab", "a"));
    assert!(!id_before("me", "me"));
    assert!(!id_before("", ""));
    assert!(id_before("", "a"));
    assert!(id_before("Z", "a"));
    assert!(id_before("z", "\u{e9}"));
    assert!(id_before("\u{e9}", "\u{1f600}"));
}

#[test]
fn id_before_agrees_with_str_order() {
    let words = ["", "a", "ab", "b", "B", "gpa1", "gpa2", "gma1", "\u{e9}t\u{e9}", "\u{1f600}", "z"];
    for a in words.iter() {
        for b in words.iter() {
            assert_eq!(id_before(a, b), a < b, "{:?} {:?}", a, b);
        }
    }
}

#[test]
fn draw_order_sorts_and_keeps_every_id() {
    let out = draw_order(&ids(&["me", "dad", "mom", "dad", "gma1", "bro"]));
    assert_eq!(out, ids(&["bro", "dad", "dad", "gma1", "me", "mom"]));
    assert!(draw_order(&Vec::new()).is_empty());
    let mut expected = three_generations_ids();
    expected.sort();
    assert_eq!(draw_order(&three_generations_ids()), expected);
}

fn three_generations_ids() -> Vec<String> {
    compute(&three_generations()).positions.ids()
}

#[test]
fn compute_three_parents_in_database_do_not_overlap() {
    let mut db = Database::new(s("me"), s("me"));
    db.insert(s("me"), person("Me", &["p1", "p2", "p3"], &["kid"]));
    db.insert(s("p1"), person("P1", &["g1", "g2"], &["me"]));
    db.insert(s("p2"), person("P2", &[], &["me", "sib"]));
    db.insert(s("p3"), person("P3", &["g3", "g4"], &[]));
    let layout = compute(&db);
    assert_cards_within_chart(&layout);
    assert_no_overlap(&layout);
    let at = |id: &str| layout.positions.get(id).unwrap();
    assert!(at("p1").x + NODE_W <= at("p2").x && at("p2").x + NODE_W <= at("p3").x);
}

#[test]
fn next_selection_follows_clicks_and_close() {
    let layout = compute(&three_generations());
    let drawn: Vec<String> = cards(&three_generations(), &layout, &draw_order(&layout.positions.ids()), PAD)
        .into_iter()
        .map(|c| c.id)
        .collect();
    let mut sel: Option<String> = None;
    let run = [
        SelectionEvent::Click(s("me")),
        SelectionEvent::Click(s("dad")),
        SelectionEvent::Click(s("dad")),
        SelectionEvent::Click(s("sis")),
        SelectionEvent::Close,
        SelectionEvent::Close,
        SelectionEvent::Click(s("bro")),
    ];
    let expected = [Some("me"), Some("dad"), None, Some("sis"), None, None, Some("bro")];
    for (e, want) in run.iter().zip(expected.iter()) {
        sel = next_selection(sel, e.clone());
        assert_eq!(sel.as_deref(), *want);
        if let Some(id) = &sel {
            assert!(drawn.contains(id));
        }
    }
}
