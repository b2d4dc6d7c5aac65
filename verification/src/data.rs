//! People and the database that holds them.
use vstd::hash_map::StringHashMap;
use vstd::prelude::*;

verus! {

/// One person of the tree. Every reference to another person (spouse,
/// children, parents) is that person's id in the [`Database`].
#[derive(Debug, Clone)]
pub struct Person {
    pub name: String,
    pub birth: Option<String>,
    pub death: Option<String>,
    pub spouse: Option<String>,
    pub notes: Option<String>,
    pub children: Vec<String>,
    pub parents: Vec<String>,
    pub place: Option<String>,
    pub deceased: bool,
    pub anonymized: bool,
}

impl Person {
    /// A person known only by name: no dates, relatives, place or notes.
    pub fn new(name: String) -> (p: Person)
        ensures
            p.name@ == name@,
            p.birth is None,
            p.death is None,
            p.spouse is None,
            p.notes is None,
            p.children@.len() == 0,
            p.parents@.len() == 0,
            p.place is None,
            !p.deceased,
            !p.anonymized,
    {
        Person {
            name,
            birth: None,
            death: None,
            spouse: None,
            notes: None,
            children: Vec::new(),
            parents: Vec::new(),
            place: None,
            deceased: false,
            anonymized: false,
        }
    }
}

/// The whole tree: the id of the topmost person, the id of the person the
/// chart is centred on, and every person keyed by id.
pub struct Database {
    pub root: String,
    pub focus: String,
    pub people: StringHashMap<Person>,
}

/// The ids of a list of strings, as sequences of characters.
pub open spec fn ids_of(v: Vec<String>) -> Seq<Seq<char>> {
    v.deep_view()
}

/// The text shown for a person's life span.
pub open spec fn dates_text(p: Person) -> Seq<char> {
    match (p.birth, p.death) {
        (Some(b), Some(d)) => b@ + seq![' ', '\u{2013}', ' '] + d@,
        (Some(b), None) => seq!['b', '.', ' '] + b@,
        (None, Some(d)) => seq!['d', '.', ' '] + d@,
        (None, None) => Seq::<char>::empty(),
    }
}

/// The life-span text of the person with id `id`, empty where there is none.
pub open spec fn spec_format_dates(people: Map<Seq<char>, Person>, id: Seq<char>) -> Seq<char> {
    if people.contains_key(id) {
        dates_text(people[id])
    } else {
        Seq::<char>::empty()
    }
}

/// The children listed for the person with id `id`; none where nobody has that id.
pub open spec fn child_ids(people: Map<Seq<char>, Person>, id: Seq<char>) -> Seq<Seq<char>> {
    if people.contains_key(id) {
        ids_of(people[id].children)
    } else {
        Seq::<Seq<char>>::empty()
    }
}

/// The children lists of the people with the given ids, one after the other.
pub open spec fn children_listed(people: Map<Seq<char>, Person>, ids: Seq<Seq<char>>) -> Seq<
    Seq<char>,
>
    decreases ids.len(),
{
    if ids.len() == 0 {
        Seq::<Seq<char>>::empty()
    } else {
        children_listed(people, ids.drop_last()) + child_ids(people, ids.last())
    }
}

/// `s` with every element kept at its first occurrence only.
pub open spec fn first_occurrences<A>(s: Seq<A>) -> Seq<A>
    decreases s.len(),
{
    if s.len() == 0 {
        Seq::<A>::empty()
    } else {
        let r = first_occurrences(s.drop_last());
        if r.contains(s.last()) {
            r
        } else {
            r.push(s.last())
        }
    }
}

proof fn lemma_concat_contains<A>(a: Seq<A>, b: Seq<A>, x: A)
    ensures
        (a + b).contains(x) <==> (a.contains(x) || b.contains(x)),
{
    if a.contains(x) {
        let k = choose|k: int| 0 <= k < a.len() && a[k] == x;
        assert((a + b)[k] == x);
    }
    if b.contains(x) {
        let k = choose|k: int| 0 <= k < b.len() && b[k] == x;
        assert((a + b)[a.len() + k] == x);
    }
    if (a + b).contains(x) {
        let k = choose|k: int| 0 <= k < (a + b).len() && (a + b)[k] == x;
        if k < a.len() {
            assert(a[k] == x);
        } else {
            assert(b[k - a.len()] == x);
        }
    }
}

/// Keeping first occurrences drops only repeats: no element twice, and the
/// same elements as before.
pub proof fn lemma_first_occurrences<A>(s: Seq<A>)
    ensures
        first_occurrences(s).no_duplicates(),
        forall|x: A| first_occurrences(s).contains(x) <==> s.contains(x),
    decreases s.len(),
{
    if s.len() > 0 {
        let init = s.drop_last();
        lemma_first_occurrences(init);
        assert(s =~= init + seq![s.last()]);
        assert forall|x: A| first_occurrences(s).contains(x) <==> s.contains(x) by {
            lemma_concat_contains(init, seq![s.last()], x);
            let r = first_occurrences(init);
            if !r.contains(s.last()) {
                lemma_concat_contains(r, seq![s.last()], x);
                assert(r.push(s.last()) =~= r + seq![s.last()]);
            }
        }
    }
}

proof fn lemma_children_listed_contains(
    people: Map<Seq<char>, Person>,
    ids: Seq<Seq<char>>,
    c: Seq<char>,
)
    ensures
        children_listed(people, ids).contains(c) <==> exists|k: int|
            0 <= k < ids.len() && #[trigger] child_ids(people, ids[k]).contains(c),
    decreases ids.len(),
{
    if ids.len() > 0 {
        let init = ids.drop_last();
        lemma_children_listed_contains(people, init, c);
        lemma_concat_contains(children_listed(people, init), child_ids(people, ids.last()), c);
        if exists|k: int| 0 <= k < ids.len() && #[trigger] child_ids(people, ids[k]).contains(c) {
            let k = choose|k: int|
                0 <= k < ids.len() && #[trigger] child_ids(people, ids[k]).contains(c);
            if k < init.len() {
                assert(init[k] == ids[k]);
            }
        }
        if exists|k: int| 0 <= k < init.len() && #[trigger] child_ids(people, init[k]).contains(c) {
            let k = choose|k: int|
                0 <= k < init.len() && #[trigger] child_ids(people, init[k]).contains(c);
            assert(ids[k] == init[k]);
        }
    }
}

/// The children of any of several people come out once each: `children_of_any`
/// gives no id twice, and it gives exactly the ids listed as a child by one of
/// the people named in `ids`.
pub proof fn law_children_of_any_once_each(
    people: Map<Seq<char>, Person>,
    ids: Seq<Seq<char>>,
    c: Seq<char>,
)
    ensures
        first_occurrences(children_listed(people, ids)).no_duplicates(),
        first_occurrences(children_listed(people, ids)).contains(c) <==> exists|k: int|
            0 <= k < ids.len() && #[trigger] child_ids(people, ids[k]).contains(c),
{
    lemma_first_occurrences(children_listed(people, ids));
    lemma_children_listed_contains(people, ids, c);
}

/// A read gives back what the last write stored: where `after` is `before`
/// after `before.insert(id, person)` (the relation `insert` ensures), `get(id)`
/// on `after` finds `person`, every other id finds what it found on `before`,
/// and the topmost and focus ids are unchanged.
pub proof fn law_get_after_insert(
    before: Database,
    after: Database,
    id: Seq<char>,
    person: Person,
    other: Seq<char>,
)
    requires
        after.root == before.root,
        after.focus == before.focus,
        after.people@ == before.people@.insert(id, person),
    ensures
        after.spec_get(id) == Some(person),
        other != id ==> after.spec_get(other) == before.spec_get(other),
        after.root@ == before.root@ && after.focus@ == before.focus@,
{
}

/// Whether `id` occurs among `ids`.
pub fn contains_id(ids: &Vec<String>, id: &str) -> (found: bool)
    ensures
        found == ids_of(*ids).contains(id@),
{
    let key = String::from_str(id);
    let mut i: usize = 0;
    while i < ids.len()
        invariant
            i <= ids.len(),
            key@ == id@,
            forall|k: int| 0 <= k < i ==> ids_of(*ids)[k] != id@,
        decreases ids.len() - i,
    {
        if ids[i] == key {
            assert(ids_of(*ids)[i as int] == id@);
            return true;
        }
        i = i + 1;
    }
    false
}

impl Database {
    /// A database with the given topmost and focus ids and nobody in it.
    pub fn new(root: String, focus: String) -> (db: Database)
        ensures
            db.root@ == root@,
            db.focus@ == focus@,
            db.people@ == Map::<Seq<char>, Person>::empty(),
    {
        Database { root, focus, people: StringHashMap::new() }
    }

    /// The person with id `id`, if there is one.
    pub open spec fn spec_get(self, id: Seq<char>) -> Option<Person> {
        if self.people@.contains_key(id) {
            Some(self.people@[id])
        } else {
            None
        }
    }

    /// Stores `person` under `id`, replacing whoever had that id.
    pub fn insert(&mut self, id: String, person: Person)
        ensures
            final(self).root == old(self).root,
            final(self).focus == old(self).focus,
            final(self).people@ == old(self).people@.insert(id@, person),
    {
        self.people.insert(id, person);
    }

    /// The person with id `id`, if there is one.
    pub fn get(&self, id: &str) -> (res: Option<&Person>)
        ensures
            match res {
                Some(p) => self.people@.contains_key(id@) && *p == self.people@[id@],
                None => !self.people@.contains_key(id@),
            },
            res matches Some(p) ==> self.spec_get(id@) == Some(*p),
            res is None ==> self.spec_get(id@) is None,
    {
        self.people.get(id)
    }

    /// The life span of the person with id `id`: "birth – death", "b. birth",
    /// "d. death", or empty where neither date is known or nobody has that id.
    pub fn format_dates(&self, id: &str) -> (text: String)
        ensures
            text@ == spec_format_dates(self.people@, id@),
    {
        let p = match self.get(id) {
            Some(p) => p,
            None => return String::new(),
        };
        let mut out = String::new();
        match (&p.birth, &p.death) {
            (Some(b), Some(d)) => {
                out.append(b.as_str());
                out.append(" \u{2013} ");
                out.append(d.as_str());
                proof {
                    reveal_strlit(" \u{2013} ");
                }
            },
            (Some(b), None) => {
                out.append("b. ");
                out.append(b.as_str());
                proof {
                    reveal_strlit("b. ");
                }
            },
            (None, Some(d)) => {
                out.append("d. ");
                out.append(d.as_str());
                proof {
                    reveal_strlit("d. ");
                }
            },
            (None, None) => {},
        }
        out
    }

    /// The children of any of the people with the given ids: their children
    /// lists in the order of `ids`, each child kept at its first occurrence.
    /// Ids that name nobody contribute nothing.
    pub fn children_of_any(&self, ids: &Vec<String>) -> (kids: Vec<String>)
        ensures
            ids_of(kids) == first_occurrences(children_listed(self.people@, ids_of(*ids))),
    {
        let ghost people = self.people@;
        let mut kids: Vec<String> = Vec::new();
        let mut i: usize = 0;
        while i < ids.len()
            invariant
                i <= ids.len(),
                people == self.people@,
                ids_of(kids) == first_occurrences(
                    children_listed(people, ids_of(*ids).take(i as int)),
                ),
            decreases ids.len() - i,
        {
            let ghost done = children_listed(people, ids_of(*ids).take(i as int));
            assert(ids_of(*ids).take(i + 1).drop_last() =~= ids_of(*ids).take(i as int));
            assert(ids_of(*ids).take(i + 1).last() == ids[i as int]@);
            match self.get(ids[i].as_str()) {
                Some(p) => {
                    let mut j: usize = 0;
                    while j < p.children.len()
                        invariant
                            j <= p.children.len(),
                            ids_of(kids) == first_occurrences(
                                done + ids_of(p.children).take(j as int),
                            ),
                        decreases p.children.len() - j,
                    {
                        let ghost before = done + ids_of(p.children).take(j as int);
                        assert(done + ids_of(p.children).take(j + 1) =~= before.push(
                            p.children[j as int]@,
                        ));
                        assert(before.push(p.children[j as int]@).drop_last() =~= before);
                        if !contains_id(&kids, p.children[j].as_str()) {
                            let c = p.children[j].clone();
                            let ghost old_kids = ids_of(kids);
                            kids.push(c);
                            assert(ids_of(kids) =~= old_kids.push(c@));
                        }
                        j = j + 1;
                    }
                    assert(ids_of(p.children).take(p.children.len() as int) =~= ids_of(
                        p.children,
                    ));
                },
                None => {
                    assert(done + Seq::<Seq<char>>::empty() =~= done);
                },
            }
            i = i + 1;
        }
        assert(ids_of(*ids).take(ids.len() as int) =~= ids_of(*ids));
        kids
    }
}

} // verus!
