use vstd::prelude::*;

use crate::label::{
    compare_labels, label_lt, lemma_label_lt_asymmetric, lemma_label_lt_irreflexive,
    lemma_label_lt_transitive,
};
use crate::profile::{Profile, ProfileView};

verus! {

/// One line of a listing: a label and the profile stored under it.
pub type EntryView = (Seq<char>, ProfileView);

/// Every label of `l` comes strictly before every later one.
pub open spec fn sorted_by_label(l: Seq<EntryView>) -> bool {
    forall|i: int, j: int| 0 <= i < j < l.len() ==> label_lt(#[trigger] l[i].0, #[trigger] l[j].0)
}

/// `l` lists the profiles of `m`: sorted by label, one entry per label of `m`,
/// each with the profile that `m` holds under that label.
pub open spec fn is_listing_of(m: Map<Seq<char>, ProfileView>, l: Seq<EntryView>) -> bool {
    &&& sorted_by_label(l)
    &&& forall|i: int| 0 <= i < l.len() ==> #[trigger] m.contains_key(l[i].0) && m[l[i].0] == l[i].1
    &&& forall|k: Seq<char>| #[trigger] m.contains_key(k) ==> exists|i: int| 0 <= i < l.len() && #[trigger] l[i].0 == k
}

/// `s` holds the labels of `m`, each once, sorted.
pub open spec fn is_label_listing_of(m: Map<Seq<char>, ProfileView>, s: Seq<Seq<char>>) -> bool {
    &&& forall|i: int, j: int| 0 <= i < j < s.len() ==> label_lt(#[trigger] s[i], #[trigger] s[j])
    &&& forall|i: int| 0 <= i < s.len() ==> #[trigger] m.contains_key(s[i])
    &&& forall|k: Seq<char>| #[trigger] m.contains_key(k) ==> exists|i: int| 0 <= i < s.len() && #[trigger] s[i] == k
}

pub open spec fn labels_of(l: Seq<EntryView>) -> Seq<Seq<char>> {
    l.map_values(|e: EntryView| e.0)
}

pub open spec fn entries_view(s: Seq<(String, Profile)>) -> Seq<EntryView> {
    s.map_values(|e: (String, Profile)| (e.0@, e.1@))
}

/// The profile store: profiles by label, labels unique.
/// Entries are kept sorted by label.
pub struct Config {
    entries: Vec<(String, Profile)>,
    model: Ghost<Map<Seq<char>, ProfileView>>,
}

impl View for Config {
    type V = Map<Seq<char>, ProfileView>;

    closed spec fn view(&self) -> Map<Seq<char>, ProfileView> {
        self.model@
    }
}

impl Config {
    #[verifier::type_invariant]
    spec fn inv(self) -> bool {
        &&& is_listing_of(self.model@, entries_view(self.entries@))
        &&& self.model@.dom().finite()
    }

    /// An empty store.
    pub fn new() -> (r: Config)
        ensures
            r@ == Map::<Seq<char>, ProfileView>::empty(),
    {
        Config { entries: Vec::new(), model: Ghost(Map::empty()) }
    }

    /// Where `label` stands among the entries, or would stand.
    fn locate(&self, label: &str) -> (r: (usize, bool))
        ensures
            r.0 <= self.entries@.len(),
            forall|j: int| 0 <= j < r.0 ==> label_lt(#[trigger] self.entries@[j].0@, label@),
            r.1 ==> r.0 < self.entries@.len() && self.entries@[r.0 as int].0@ == label@,
            !r.1 ==> r.0 == self.entries@.len() || label_lt(label@, self.entries@[r.0 as int].0@),
    {
        let mut i: usize = 0;
        while i < self.entries.len()
            invariant
                i <= self.entries@.len(),
                forall|j: int| 0 <= j < i ==> label_lt(#[trigger] self.entries@[j].0@, label@),
            decreases self.entries@.len() - i,
        {
            match compare_labels(self.entries[i].0.as_str(), label) {
                core::cmp::Ordering::Less => {
                    i = i + 1;
                },
                core::cmp::Ordering::Equal => {
                    return (i, true);
                },
                core::cmp::Ordering::Greater => {
                    return (i, false);
                },
            }
        }
        (i, false)
    }

    pub fn len(&self) -> (r: usize)
        ensures
            r == self@.len(),
    {
        proof {
            use_type_invariant(self);
            lemma_listing_len(self.model@, entries_view(self.entries@));
        }
        self.entries.len()
    }

    pub fn is_empty(&self) -> (r: bool)
        ensures
            r == (self@.len() == 0),
    {
        self.len() == 0
    }

    pub fn contains_key(&self, label: &str) -> (r: bool)
        ensures
            r == self@.contains_key(label@),
    {
        proof {
            use_type_invariant(self);
        }
        let (i, found) = self.locate(label);
        proof {
            let l = entries_view(self.entries@);
            if found {
                assert(l[i as int].0 == label@);
            } else {
                lemma_listing_absent(self.model@, l, i as int, label@);
            }
        }
        found
    }

    /// The profile stored under `label`, if any.
    pub fn get(&self, label: &str) -> (r: Option<&Profile>)
        ensures
            match r {
                Some(p) => self@.contains_key(label@) && p@ == self@[label@],
                None => !self@.contains_key(label@),
            },
    {
        proof {
            use_type_invariant(self);
        }
        let (i, found) = self.locate(label);
        let ghost l = entries_view(self.entries@);
        if found {
            assert(l[i as int].0 == label@);
            Some(&self.entries[i].1)
        } else {
            proof {
                lemma_listing_absent(self.model@, l, i as int, label@);
            }
            None
        }
    }

    /// Stores `profile` under `label`, replacing what was there.
    /// Returns the profile that was replaced.
    pub fn insert(&mut self, label: String, profile: Profile) -> (r: Option<Profile>)
        ensures
            final(self)@ == old(self)@.insert(label@, profile@),
            match r {
                Some(p) => old(self)@.contains_key(label@) && p@ == old(self)@[label@],
                None => !old(self)@.contains_key(label@),
            },
    {
        proof {
            use_type_invariant(&*self);
        }
        let (i, found) = self.locate(label.as_str());
        let ghost l = entries_view(self.entries@);
        let ghost m = self.model@;
        let ghost k = label@;
        let ghost p = profile@;
        let mut taken = Config::new();
        core::mem::swap(self, &mut taken);
        let Config { mut entries, model: _ } = taken;
        if found {
            let replaced = entries.remove(i);
            entries.insert(i, (label, profile));
            proof {
                lemma_listing_update(m, l, i as int, p);
                assert(entries_view(entries@) =~= l.update(i as int, (k, p)));
            }
            *self = Config { entries, model: Ghost(m.insert(k, p)) };
            Some(replaced.1)
        } else {
            entries.insert(i, (label, profile));
            proof {
                lemma_listing_insert(m, l, i as int, k, p);
                assert(entries_view(entries@) =~= l.insert(i as int, (k, p)));
            }
            *self = Config { entries, model: Ghost(m.insert(k, p)) };
            None
        }
    }

    /// Stores the profile (`name`, `email`) under `label`, replacing what was there.
    pub fn add(&mut self, label: String, name: String, email: String) -> (r: Option<Profile>)
        ensures
            final(self)@ == old(self)@.insert(label@, (name@, email@)),
            match r {
                Some(p) => old(self)@.contains_key(label@) && p@ == old(self)@[label@],
                None => !old(self)@.contains_key(label@),
            },
    {
        self.insert(label, Profile::new(name, email))
    }

    /// Deletes the profile stored under `label`.
    /// Returns it, or `None` where there was none, the store then unchanged.
    pub fn remove(&mut self, label: &str) -> (r: Option<Profile>)
        ensures
            final(self)@ == old(self)@.remove(label@),
            match r {
                Some(p) => old(self)@.contains_key(label@) && p@ == old(self)@[label@],
                None => !old(self)@.contains_key(label@) && final(self)@ == old(self)@,
            },
    {
        proof {
            use_type_invariant(&*self);
        }
        let (i, found) = self.locate(label);
        let ghost l = entries_view(self.entries@);
        let ghost m = self.model@;
        if found {
            let mut taken = Config::new();
            core::mem::swap(self, &mut taken);
            let Config { mut entries, model: _ } = taken;
            let removed = entries.remove(i);
            proof {
                lemma_listing_remove(m, l, i as int);
                assert(entries_view(entries@) =~= l.remove(i as int));
            }
            *self = Config { entries, model: Ghost(m.remove(label@)) };
            Some(removed.1)
        } else {
            proof {
                lemma_listing_absent(m, l, i as int, label@);
                assert(m.remove(label@) =~= m);
            }
            None
        }
    }

    /// All entries, sorted by label.
    pub fn list(&self) -> (r: Vec<(String, Profile)>)
        ensures
            is_listing_of(self@, entries_view(r@)),
            self@.dom().finite(),
    {
        proof {
            use_type_invariant(self);
        }
        let mut r: Vec<(String, Profile)> = Vec::new();
        let mut i: usize = 0;
        while i < self.entries.len()
            invariant
                i <= self.entries@.len(),
                r@.len() == i,
                forall|j: int|
                    0 <= j < i ==> (#[trigger] r@[j]).0@ == self.entries@[j].0@ && r@[j].1@
                        == self.entries@[j].1@,
            decreases self.entries@.len() - i,
        {
            let e = &self.entries[i];
            r.push((e.0.clone(), e.1.copied()));
            i = i + 1;
        }
        assert(entries_view(r@) =~= entries_view(self.entries@));
        r
    }

    /// All labels, sorted.
    pub fn labels(&self) -> (r: Vec<String>)
        ensures
            is_label_listing_of(self@, r@.map_values(|s: String| s@)),
    {
        proof {
            use_type_invariant(self);
        }
        let mut r: Vec<String> = Vec::new();
        let mut i: usize = 0;
        while i < self.entries.len()
            invariant
                i <= self.entries@.len(),
                r@.len() == i,
                forall|j: int| 0 <= j < i ==> (#[trigger] r@[j])@ == self.entries@[j].0@,
            decreases self.entries@.len() - i,
        {
            r.push(self.entries[i].0.clone());
            i = i + 1;
        }
        let ghost l = entries_view(self.entries@);
        assert(r@.map_values(|s: String| s@) =~= labels_of(l));
        assert forall|a: int, b: int| 0 <= a < b < labels_of(l).len() implies label_lt(
            #[trigger] labels_of(l)[a],
            #[trigger] labels_of(l)[b],
        ) by {
            assert(label_lt(l[a].0, l[b].0));
        }
        assert forall|k: Seq<char>| #[trigger] self@.contains_key(k) implies exists|j: int|
            0 <= j < labels_of(l).len() && #[trigger] labels_of(l)[j] == k by {
            let j = choose|j: int| 0 <= j < l.len() && #[trigger] l[j].0 == k;
            assert(labels_of(l)[j] == k);
        }
        assert forall|j: int| 0 <= j < labels_of(l).len() implies #[trigger] self@.contains_key(labels_of(l)[j]) by {
            assert(self@.contains_key(l[j].0));
        }
        r
    }

    /// The first label, in label order, whose profile is (`name`, `email`).
    pub fn find_label(&self, name: &str, email: &str) -> (r: Option<String>)
        ensures
            match r {
                Some(k) => {
                    &&& self@.contains_key(k@)
                    &&& self@[k@] == (name@, email@)
                    &&& forall|q: Seq<char>| #[trigger] self@.contains_key(q) && label_lt(q, k@)
                        ==> self@[q] != (name@, email@)
                },
                None => forall|q: Seq<char>| #[trigger] self@.contains_key(q) ==> self@[q] != (
                    name@,
                    email@,
                ),
            },
    {
        proof {
            use_type_invariant(self);
        }
        let ghost l = entries_view(self.entries@);
        let ghost m = self.model@;
        let mut i: usize = 0;
        while i < self.entries.len()
            invariant
                i <= self.entries@.len(),
                l == entries_view(self.entries@),
                m == self.model@,
                is_listing_of(m, l),
                forall|j: int| 0 <= j < i ==> (#[trigger] l[j]).1 != (name@, email@),
            decreases self.entries@.len() - i,
        {
            let p = &self.entries[i].1;
            let same_name = matches!(compare_labels(p.name.as_str(), name), core::cmp::Ordering::Equal);
            let same_email = matches!(compare_labels(p.email.as_str(), email), core::cmp::Ordering::Equal);
            if same_name && same_email {
                let k = self.entries[i].0.clone();
                proof {
                    assert(l[i as int].1 == (name@, email@));
                    assert(l[i as int].0 == k@);
                    assert(m.contains_key(l[i as int].0));
                    assert(m.contains_key(k@) && m[k@] == (name@, email@));
                    assert forall|q: Seq<char>| #[trigger] m.contains_key(q) && label_lt(q, k@)
                        implies m[q] != (name@, email@) by {
                        let j = choose|j: int| 0 <= j < l.len() && #[trigger] l[j].0 == q;
                        if j > i {
                            assert(label_lt(l[i as int].0, l[j].0));
                            lemma_label_lt_asymmetric(q, k@);
                        } else if j == i {
                            lemma_label_lt_irreflexive(q);
                        } else {
                            assert(m[l[j].0] == l[j].1);
                        }
                    }
                }
                return Some(k);
            }
            i = i + 1;
        }
        proof {
            assert forall|q: Seq<char>| #[trigger] m.contains_key(q) implies m[q] != (name@, email@) by {
                let j = choose|j: int| 0 <= j < l.len() && #[trigger] l[j].0 == q;
                assert(m[l[j].0] == l[j].1);
            }
        }
        None
    }
}

impl Default for Config {
    fn default() -> (r: Config)
        ensures
            r@ == Map::<Seq<char>, ProfileView>::empty(),
    {
        Config::new()
    }
}

proof fn lemma_listing_len(m: Map<Seq<char>, ProfileView>, l: Seq<EntryView>)
    requires
        is_listing_of(m, l),
        m.dom().finite(),
    ensures
        m.len() == l.len(),
{
    let keys = l.map_values(|e: EntryView| e.0);
    assert forall|i: int, j: int| 0 <= i < j < keys.len() implies keys[i] != keys[j] by {
        assert(label_lt(l[i].0, l[j].0));
        lemma_label_lt_irreflexive(l[i].0);
    }
    keys.unique_seq_to_set();
    assert forall|k: Seq<char>| m.dom().contains(k) <==> keys.to_set().contains(k) by {
        if m.contains_key(k) {
            let i = choose|i: int| 0 <= i < l.len() && #[trigger] l[i].0 == k;
            assert(keys[i] == k);
        }
        if keys.to_set().contains(k) {
            let i = choose|i: int| 0 <= i < keys.len() && keys[i] == k;
            assert(m.contains_key(l[i].0));
        }
    }
    assert(m.dom() =~= keys.to_set());
}

/// Labels of a sorted listing are pairwise distinct.
proof fn lemma_sorted_distinct(l: Seq<EntryView>, i: int, j: int)
    requires
        sorted_by_label(l),
        0 <= i < l.len(),
        0 <= j < l.len(),
        i != j,
    ensures
        l[i].0 != l[j].0,
{
    if i < j {
        assert(label_lt(l[i].0, l[j].0));
    } else {
        assert(label_lt(l[j].0, l[i].0));
    }
    lemma_label_lt_irreflexive(l[i].0);
}

/// A label that sorts strictly between the entries before and after
/// position `i` is not in the listing.
proof fn lemma_listing_absent(m: Map<Seq<char>, ProfileView>, l: Seq<EntryView>, i: int, k: Seq<char>)
    requires
        is_listing_of(m, l),
        0 <= i <= l.len(),
        forall|j: int| 0 <= j < i ==> label_lt(#[trigger] l[j].0, k),
        i == l.len() || label_lt(k, l[i].0),
    ensures
        !m.contains_key(k),
{
    if m.contains_key(k) {
        let j = choose|j: int| 0 <= j < l.len() && #[trigger] l[j].0 == k;
        lemma_label_lt_irreflexive(k);
        if j < i {
            assert(label_lt(l[j].0, k));
        } else if j > i {
            assert(label_lt(l[i].0, l[j].0));
            lemma_label_lt_transitive(k, l[i].0, k);
        }
    }
}

proof fn lemma_listing_insert(
    m: Map<Seq<char>, ProfileView>,
    l: Seq<EntryView>,
    i: int,
    k: Seq<char>,
    p: ProfileView,
)
    requires
        is_listing_of(m, l),
        0 <= i <= l.len(),
        forall|j: int| 0 <= j < i ==> label_lt(#[trigger] l[j].0, k),
        i == l.len() || label_lt(k, l[i].0),
    ensures
        !m.contains_key(k),
        is_listing_of(m.insert(k, p), l.insert(i, (k, p))),
{
    lemma_listing_absent(m, l, i, k);
    let nl = l.insert(i, (k, p));
    let nm = m.insert(k, p);
    assert forall|a: int, b: int| 0 <= a < b < nl.len() implies label_lt(
        #[trigger] nl[a].0,
        #[trigger] nl[b].0,
    ) by {
        if b < i {
            assert(label_lt(l[a].0, l[b].0));
        } else if b == i {
            assert(label_lt(l[a].0, k));
        } else if a < i {
            assert(label_lt(l[a].0, k));
            if b - 1 == i {
                lemma_label_lt_transitive(l[a].0, k, l[i].0);
            } else {
                assert(label_lt(l[i].0, l[b - 1].0));
                lemma_label_lt_transitive(k, l[i].0, l[b - 1].0);
                lemma_label_lt_transitive(l[a].0, k, l[b - 1].0);
            }
        } else if a == i {
            if b - 1 > i {
                assert(label_lt(l[i].0, l[b - 1].0));
                lemma_label_lt_transitive(k, l[i].0, l[b - 1].0);
            }
        } else {
            assert(label_lt(l[a - 1].0, l[b - 1].0));
        }
    }
    assert forall|j: int| 0 <= j < nl.len() implies #[trigger] nm.contains_key(nl[j].0) && nm[nl[j].0]
        == nl[j].1 by {
        if j < i {
            assert(m.contains_key(l[j].0));
        } else if j > i {
            assert(m.contains_key(l[j - 1].0));
        }
    }
    assert forall|q: Seq<char>| #[trigger] nm.contains_key(q) implies exists|j: int|
        0 <= j < nl.len() && #[trigger] nl[j].0 == q by {
        if q == k {
            assert(nl[i].0 == q);
        } else {
            assert(m.contains_key(q));
            let j = choose|j: int| 0 <= j < l.len() && #[trigger] l[j].0 == q;
            if j < i {
                assert(nl[j].0 == q);
            } else {
                assert(nl[j + 1].0 == q);
            }
        }
    }
}

proof fn lemma_listing_update(
    m: Map<Seq<char>, ProfileView>,
    l: Seq<EntryView>,
    i: int,
    p: ProfileView,
)
    requires
        is_listing_of(m, l),
        0 <= i < l.len(),
    ensures
        m.contains_key(l[i].0),
        m[l[i].0] == l[i].1,
        is_listing_of(m.insert(l[i].0, p), l.update(i, (l[i].0, p))),
{
    let k = l[i].0;
    let nl = l.update(i, (k, p));
    let nm = m.insert(k, p);
    assert(m.contains_key(l[i].0));
    assert forall|a: int, b: int| 0 <= a < b < nl.len() implies label_lt(
        #[trigger] nl[a].0,
        #[trigger] nl[b].0,
    ) by {
        assert(label_lt(l[a].0, l[b].0));
    }
    assert forall|j: int| 0 <= j < nl.len() implies #[trigger] nm.contains_key(nl[j].0) && nm[nl[j].0]
        == nl[j].1 by {
        if j != i {
            lemma_sorted_distinct(l, i, j);
            assert(m.contains_key(l[j].0));
        }
    }
    assert forall|q: Seq<char>| #[trigger] nm.contains_key(q) implies exists|j: int|
        0 <= j < nl.len() && #[trigger] nl[j].0 == q by {
        if q == k {
            assert(nl[i].0 == q);
        } else {
            assert(m.contains_key(q));
            let j = choose|j: int| 0 <= j < l.len() && #[trigger] l[j].0 == q;
            assert(nl[j].0 == q);
        }
    }
}

proof fn lemma_listing_remove(m: Map<Seq<char>, ProfileView>, l: Seq<EntryView>, i: int)
    requires
        is_listing_of(m, l),
        0 <= i < l.len(),
    ensures
        m.contains_key(l[i].0),
        m[l[i].0] == l[i].1,
        is_listing_of(m.remove(l[i].0), l.remove(i)),
{
    let k = l[i].0;
    let nl = l.remove(i);
    let nm = m.remove(k);
    assert(m.contains_key(l[i].0));
    assert forall|a: int, b: int| 0 <= a < b < nl.len() implies label_lt(
        #[trigger] nl[a].0,
        #[trigger] nl[b].0,
    ) by {
        if b < i {
            assert(label_lt(l[a].0, l[b].0));
        } else if a < i {
            assert(label_lt(l[a].0, l[b + 1].0));
        } else {
            assert(label_lt(l[a + 1].0, l[b + 1].0));
        }
    }
    assert forall|j: int| 0 <= j < nl.len() implies #[trigger] nm.contains_key(nl[j].0) && nm[nl[j].0]
        == nl[j].1 by {
        if j < i {
            lemma_sorted_distinct(l, i, j);
            assert(m.contains_key(l[j].0));
        } else {
            lemma_sorted_distinct(l, i, j + 1);
            assert(m.contains_key(l[j + 1].0));
        }
    }
    assert forall|q: Seq<char>| #[trigger] nm.contains_key(q) implies exists|j: int|
        0 <= j < nl.len() && #[trigger] nl[j].0 == q by {
        assert(m.contains_key(q));
        let j = choose|j: int| 0 <= j < l.len() && #[trigger] l[j].0 == q;
        if j < i {
            assert(nl[j].0 == q);
        } else {
            assert(nl[j - 1].0 == q);
        }
    }
}

/// Two listings of one store are the same sequence.
proof fn lemma_listing_unique(m: Map<Seq<char>, ProfileView>, l1: Seq<EntryView>, l2: Seq<EntryView>)
    requires
        is_listing_of(m, l1),
        is_listing_of(m, l2),
        m.dom().finite(),
    ensures
        l1 == l2,
    decreases l1.len(),
{
    lemma_listing_len(m, l1);
    lemma_listing_len(m, l2);
    if l1.len() == 0 {
        assert(l1 =~= l2);
    } else {
        let k1 = l1[0].0;
        let k2 = l2[0].0;
        if k1 != k2 {
            assert(m.contains_key(l1[0].0));
            assert(m.contains_key(l2[0].0));
            let j2 = choose|j: int| 0 <= j < l2.len() && #[trigger] l2[j].0 == k1;
            let j1 = choose|j: int| 0 <= j < l1.len() && #[trigger] l1[j].0 == k2;
            assert(label_lt(l2[0].0, l2[j2].0));
            assert(label_lt(l1[0].0, l1[j1].0));
            lemma_label_lt_asymmetric(k1, k2);
        }
        assert(m.contains_key(l1[0].0));
        assert(m.contains_key(l2[0].0));
        lemma_listing_remove(m, l1, 0);
        lemma_listing_remove(m, l2, 0);
        lemma_listing_unique(m.remove(k1), l1.remove(0), l2.remove(0));
        assert(l1 =~= seq![l1[0]] + l1.remove(0));
        assert(l2 =~= seq![l2[0]] + l2.remove(0));
    }
}

/// Adding a profile and then listing the store gives that profile, under
/// its label, exactly once.
pub proof fn law_add_then_list(
    m: Map<Seq<char>, ProfileView>,
    label: Seq<char>,
    p: ProfileView,
    l: Seq<EntryView>,
)
    requires
        is_listing_of(m.insert(label, p), l),
    ensures
        exists|i: int| 0 <= i < l.len() && #[trigger] l[i] == (label, p),
        forall|i: int, j: int|
            0 <= i < l.len() && 0 <= j < l.len() && (#[trigger] l[i]).0 == label && (#[trigger] l[j]).0
                == label ==> i == j,
        forall|i: int| 0 <= i < l.len() && (#[trigger] l[i]).0 == label ==> l[i].1 == p,
{
    let nm = m.insert(label, p);
    assert(nm.contains_key(label));
    let i = choose|i: int| 0 <= i < l.len() && #[trigger] l[i].0 == label;
    assert(nm.contains_key(l[i].0));
    assert(l[i] == (label, p));
    assert forall|a: int, b: int|
        0 <= a < l.len() && 0 <= b < l.len() && (#[trigger] l[a]).0 == label && (#[trigger] l[b]).0
            == label implies a == b by {
        if a != b {
            lemma_sorted_distinct(l, a, b);
        }
    }
    assert forall|j: int| 0 <= j < l.len() && (#[trigger] l[j]).0 == label implies l[j].1 == p by {
        assert(nm.contains_key(l[j].0));
    }
}

/// After removing a label the store has no profile under it; removing a
/// label that is absent leaves the store as it was.
pub proof fn law_remove_then_lookup(m: Map<Seq<char>, ProfileView>, label: Seq<char>)
    ensures
        !m.remove(label).contains_key(label),
        !m.contains_key(label) ==> m.remove(label) == m,
{
    if !m.contains_key(label) {
        assert(m.remove(label) =~= m);
    }
}

/// The listing is sorted by label, and the order in which two profiles
/// were added does not change it.
pub proof fn law_listing_ignores_insertion_order(
    m: Map<Seq<char>, ProfileView>,
    a: Seq<char>,
    pa: ProfileView,
    b: Seq<char>,
    pb: ProfileView,
    l1: Seq<EntryView>,
    l2: Seq<EntryView>,
)
    requires
        m.dom().finite(),
        a != b,
        is_listing_of(m.insert(a, pa).insert(b, pb), l1),
        is_listing_of(m.insert(b, pb).insert(a, pa), l2),
    ensures
        sorted_by_label(l1),
        l1 == l2,
{
    assert(m.insert(a, pa).insert(b, pb) =~= m.insert(b, pb).insert(a, pa));
    lemma_listing_unique(m.insert(a, pa).insert(b, pb), l1, l2);
}

} // verus!
