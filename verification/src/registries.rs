//! The editor's registries that extensions add to: dock windows, workspaces
//! and the sections that extensions inject into existing panels.
//!
//! Windows and workspaces are kept one per id: registering an id that is
//! already present replaces its descriptor, unregistering an id removes it.
//! Panel sections are kept per panel id, in the order they were added.
use vstd::prelude::*;
use crate::seq_facts::{lemma_filter_all, lemma_filter_removes_one};

verus! {

broadcast use vstd::seq_lib::group_seq_properties;

/// Something that a registry keeps under a string id.
pub trait Keyed {
    spec fn key(&self) -> Seq<char>;

    fn id(&self) -> (r: &String)
        ensures
            r@ == self.key(),
    ;
}

/// Descriptor of a dock window as the window registry holds it.
pub struct DockWindowDescriptor<C> {
    pub id: String,
    pub name: String,
    pub icon: Option<String>,
    pub default_area: String,
    pub priority: i32,
    /// What builds the window's contents.
    pub build: C,
}

impl<C> Keyed for DockWindowDescriptor<C> {
    open spec fn key(&self) -> Seq<char> {
        self.id@
    }

    fn id(&self) -> (r: &String) {
        &self.id
    }
}

/// Descriptor of a workspace.
pub struct WorkspaceDescriptor {
    pub id: String,
    pub name: String,
}

impl Keyed for WorkspaceDescriptor {
    open spec fn key(&self) -> Seq<char> {
        self.id@
    }

    fn id(&self) -> (r: &String) {
        &self.id
    }
}

/// No two entries share a key.
pub open spec fn unique_keys<T: Keyed>(s: Seq<T>) -> bool {
    forall|i: int, j: int| 0 <= i < s.len() && 0 <= j < s.len() && i != j ==> s[i].key() != s[j].key()
}

/// Some entry has key `k`.
pub open spec fn has_key<T: Keyed>(s: Seq<T>, k: Seq<char>) -> bool {
    exists|i: int| 0 <= i < s.len() && s[i].key() == k
}

/// The position of the entry with key `k`.
pub open spec fn key_position<T: Keyed>(s: Seq<T>, k: Seq<char>) -> int {
    choose|i: int| 0 <= i < s.len() && s[i].key() == k
}

/// The entries after registering `item`: it replaces the entry with its key
/// if there is one, and is appended otherwise.
pub open spec fn registered<T: Keyed>(s: Seq<T>, item: T) -> Seq<T> {
    if has_key(s, item.key()) {
        s.update(key_position(s, item.key()), item)
    } else {
        s.push(item)
    }
}

/// The entries after unregistering key `k`.
pub open spec fn unregistered<T: Keyed>(s: Seq<T>, k: Seq<char>) -> Seq<T> {
    s.filter(|d: T| d.key() != k)
}

/// In a sequence with unique keys, the entry with a key is the one there.
pub proof fn lemma_key_position<T: Keyed>(s: Seq<T>, i: int)
    requires
        unique_keys(s),
        0 <= i < s.len(),
    ensures
        has_key(s, s[i].key()),
        key_position(s, s[i].key()) == i,
{
    assert(has_key(s, s[i].key()));
}

/// A registry of descriptors kept one per id, in registration order.
pub struct Registry<T> {
    pub entries: Vec<T>,
}

pub type WindowRegistry<C> = Registry<DockWindowDescriptor<C>>;

pub type WorkspaceRegistry = Registry<WorkspaceDescriptor>;

impl<T: Keyed> Registry<T> {
    pub open spec fn wf(&self) -> bool {
        unique_keys(self.entries@)
    }

    /// Whether an entry with id `k` is registered.
    pub open spec fn contains_key(&self, k: Seq<char>) -> bool {
        has_key(self.entries@, k)
    }

    pub fn new() -> (r: Self)
        ensures
            r.wf(),
            r.entries@ == Seq::<T>::empty(),
    {
        Registry { entries: Vec::new() }
    }

    /// The position of the entry with the given id, if any.
    pub fn position(&self, id: &String) -> (r: Option<usize>)
        requires
            self.wf(),
        ensures
            match r {
                Some(i) => i < self.entries@.len() && self.entries@[i as int].key() == id@
                    && key_position(self.entries@, id@) == i,
                None => !has_key(self.entries@, id@),
            },
    {
        let mut i: usize = 0;
        while i < self.entries.len()
            invariant
                self.wf(),
                0 <= i <= self.entries.len(),
                forall|k: int| 0 <= k < i ==> self.entries@[k].key() != id@,
            decreases self.entries.len() - i,
        {
            let found = *self.entries[i].id() == *id;
            if found {
                proof {
                    lemma_key_position(self.entries@, i as int);
                }
                return Some(i);
            }
            i = i + 1;
        }
        None
    }

    /// Whether an entry with the given id is registered.
    pub fn contains(&self, id: &String) -> (r: bool)
        requires
            self.wf(),
        ensures
            r == self.contains_key(id@),
    {
        self.position(id).is_some()
    }

    /// The entry with the given id, if any.
    pub fn get(&self, id: &String) -> (r: Option<&T>)
        requires
            self.wf(),
        ensures
            match r {
                Some(d) => has_key(self.entries@, id@) && *d == self.entries@[key_position(
                    self.entries@,
                    id@,
                )],
                None => !has_key(self.entries@, id@),
            },
    {
        match self.position(id) {
            Some(i) => Some(&self.entries[i]),
            None => None,
        }
    }

    /// Registers `item` under its id, replacing the entry already there.
    pub fn register(&mut self, item: T)
        requires
            old(self).wf(),
        ensures
            final(self).wf(),
            final(self).entries@ == registered(old(self).entries@, item),
    {
        let pos = self.position(item.id());
        match pos {
            Some(i) => {
                self.entries.set(i, item);
            },
            None => {
                self.entries.push(item);
            },
        }
    }

    /// Removes the entry with the given id, if there is one.
    pub fn unregister(&mut self, id: &String)
        requires
            old(self).wf(),
        ensures
            final(self).wf(),
            final(self).entries@ == unregistered(old(self).entries@, id@),
    {
        let ghost s = self.entries@;
        let ghost p = |d: T| d.key() != id@;
        match self.position(id) {
            Some(i) => {
                proof {
                    assert forall|k: int| 0 <= k < s.len() && k != i implies p(#[trigger] s[k]) by {
                    }
                    lemma_filter_removes_one(s, p, i as int);
                }
                self.entries.remove(i);
                assert(self.entries@ =~= s.remove(i as int));
                assert forall|a: int, b: int|
                    0 <= a < self.entries@.len() && 0 <= b < self.entries@.len() && a != b
                        implies self.entries@[a].key() != self.entries@[b].key() by {
                    let oa = if a < i { a } else { a + 1 };
                    let ob = if b < i { b } else { b + 1 };
                    assert(self.entries@[a] == s[oa]);
                    assert(self.entries@[b] == s[ob]);
                }
            },
            None => {
                proof {
                    assert forall|k: int| 0 <= k < s.len() implies p(#[trigger] s[k]) by {
                    }
                    lemma_filter_all(s, p);
                }
            },
        }
    }

    /// Number of registered entries.
    pub fn len(&self) -> (r: usize)
        ensures
            r == self.entries@.len(),
    {
        self.entries.len()
    }
}

/// The sections injected into one panel, in the order they were added.
pub struct PanelSections<C> {
    pub panel_id: String,
    pub sections: Vec<C>,
}

impl<C> Keyed for PanelSections<C> {
    open spec fn key(&self) -> Seq<char> {
        self.panel_id@
    }

    fn id(&self) -> (r: &String) {
        &self.panel_id
    }
}

/// The sections that extensions inject into existing panels, per panel id.
pub struct PanelExtensionRegistry<C> {
    pub panels: Vec<PanelSections<C>>,
}

/// The sections registered for panel `k`: none when the panel has no entry.
pub open spec fn sections_of<C>(s: Seq<PanelSections<C>>, k: Seq<char>) -> Seq<C> {
    if has_key(s, k) {
        s[key_position(s, k)].sections@
    } else {
        Seq::empty()
    }
}

/// `s` without the elements at the positions in `drop`, in order.
pub open spec fn without_positions<C>(s: Seq<C>, drop: Set<int>) -> Seq<C>
    decreases s.len(),
{
    if s.len() == 0 {
        s
    } else {
        let rest = without_positions(s.drop_last(), drop);
        if drop.contains(s.len() - 1) {
            rest
        } else {
            rest.push(s.last())
        }
    }
}

/// The positions that `pairs` names in panel `k`.
pub open spec fn named_positions(pairs: Seq<(String, usize)>, k: Seq<char>) -> Set<int> {
    Set::new(
        |j: int| exists|m: int| 0 <= m < pairs.len() && pairs[m].0@ == k && #[trigger] pairs[m].1 as int == j,
    )
}

/// Whether `pairs` names position `j` of panel `panel_id`.
fn names_position(pairs: &Vec<(String, usize)>, panel_id: &String, j: usize) -> (r: bool)
    ensures
        r == named_positions(pairs@, panel_id@).contains(j as int),
{
    let mut m: usize = 0;
    while m < pairs.len()
        invariant
            0 <= m <= pairs.len(),
            forall|t: int| 0 <= t < m ==> !(pairs@[t].0@ == panel_id@ && pairs@[t].1 == j),
        decreases pairs.len() - m,
    {
        if pairs[m].1 == j && pairs[m].0 == *panel_id {
            return true;
        }
        m = m + 1;
    }
    false
}

/// `sections` without the positions that `pairs` names in panel `panel_id`.
fn drop_named<C>(panel_id: &String, sections: Vec<C>, pairs: &Vec<(String, usize)>) -> (r: Vec<C>)
    ensures
        r@ == without_positions(sections@, named_positions(pairs@, panel_id@)),
{
    let ghost orig = sections@;
    let ghost drop = named_positions(pairs@, panel_id@);
    let mut pending = sections;
    let mut kept: Vec<C> = Vec::new();
    let n = pending.len();
    let mut j: usize = 0;
    assert(orig.take(0) =~= Seq::<C>::empty());
    while j < n
        invariant
            n == orig.len(),
            0 <= j <= n,
            pending@ =~= orig.subrange(j as int, n as int),
            drop == named_positions(pairs@, panel_id@),
            kept@ == without_positions(orig.take(j as int), drop),
        decreases n - j,
    {
        let x = pending.remove(0);
        assert(x == orig[j as int]);
        let ghost pre = orig.take(j + 1);
        assert(pre.drop_last() =~= orig.take(j as int));
        assert(pre.last() == x);
        if !names_position(pairs, panel_id, j) {
            kept.push(x);
        }
        j = j + 1;
    }
    assert(orig.take(n as int) =~= orig);
    kept
}

impl<C> PanelExtensionRegistry<C> {
    pub open spec fn wf(&self) -> bool {
        unique_keys(self.panels@)
    }

    /// The sections registered for panel `k`.
    pub open spec fn sections(&self, k: Seq<char>) -> Seq<C> {
        sections_of(self.panels@, k)
    }

    pub fn new() -> (r: Self)
        ensures
            r.wf(),
            forall|k: Seq<char>| #[trigger] r.sections(k) == Seq::<C>::empty(),
    {
        PanelExtensionRegistry { panels: Vec::new() }
    }

    fn position(&self, panel_id: &String) -> (r: Option<usize>)
        requires
            self.wf(),
        ensures
            match r {
                Some(i) => i < self.panels@.len() && self.panels@[i as int].key() == panel_id@
                    && has_key(self.panels@, panel_id@) && key_position(self.panels@, panel_id@)
                    == i,
                None => !has_key(self.panels@, panel_id@),
            },
    {
        let mut i: usize = 0;
        while i < self.panels.len()
            invariant
                self.wf(),
                0 <= i <= self.panels.len(),
                forall|k: int| 0 <= k < i ==> self.panels@[k].key() != panel_id@,
            decreases self.panels.len() - i,
        {
            let found = *self.panels[i].id() == *panel_id;
            if found {
                proof {
                    lemma_key_position(self.panels@, i as int);
                }
                return Some(i);
            }
            i = i + 1;
        }
        None
    }

    /// The sections registered for a panel, in the order they were added;
    /// empty for a panel nothing was added to.
    pub fn get(&self, panel_id: &String) -> (r: &[C])
        requires
            self.wf(),
        ensures
            r@ == self.sections(panel_id@),
    {
        match self.position(panel_id) {
            Some(i) => self.panels[i].sections.as_slice(),
            None => &[],
        }
    }

    /// Removes, from each panel, the sections at the positions that `pairs`
    /// names for it.
    pub fn remove_positions(&mut self, pairs: &Vec<(String, usize)>)
        requires
            old(self).wf(),
        ensures
            final(self).wf(),
            forall|k: Seq<char>|
                #[trigger] final(self).sections(k) == without_positions(
                    old(self).sections(k),
                    named_positions(pairs@, k),
                ),
    {
        let ghost s = self.panels@;
        let mut pending: Vec<PanelSections<C>> = Vec::new();
        std::mem::swap(&mut pending, &mut self.panels);
        let n = pending.len();
        let mut i: usize = 0;
        while i < n
            invariant
                n == s.len(),
                0 <= i <= n,
                unique_keys(s),
                pending@ =~= s.subrange(i as int, n as int),
                self.panels@.len() == i,
                forall|t: int|
                    0 <= t < i ==> #[trigger] self.panels@[t].panel_id == s[t].panel_id
                        && self.panels@[t].sections@ == without_positions(
                        s[t].sections@,
                        named_positions(pairs@, s[t].key()),
                    ),
            decreases n - i,
        {
            let entry = pending.remove(0);
            assert(entry == s[i as int]);
            let PanelSections { panel_id, sections } = entry;
            let sections = drop_named(&panel_id, sections, pairs);
            self.panels.push(PanelSections { panel_id, sections });
            i = i + 1;
        }
        proof {
            let t = self.panels@;
            assert forall|a: int, b: int|
                0 <= a < t.len() && 0 <= b < t.len() && a != b implies t[a].key() != t[b].key() by {
                assert(t[a].panel_id == s[a].panel_id);
                assert(t[b].panel_id == s[b].panel_id);
            }
            assert forall|k: Seq<char>|
                #[trigger] sections_of(t, k) == without_positions(
                    sections_of(s, k),
                    named_positions(pairs@, k),
                ) by {
                if has_key(s, k) {
                    let j = key_position(s, k);
                    lemma_key_position(s, j);
                    assert(t[j].panel_id == s[j].panel_id);
                    lemma_key_position(t, j);
                } else {
                    assert forall|j: int| 0 <= j < t.len() implies t[j].key() != k by {
                        assert(t[j].panel_id == s[j].panel_id);
                    }
                    assert(without_positions(Seq::<C>::empty(), named_positions(pairs@, k))
                        == Seq::<C>::empty());
                }
            }
        }
    }

    /// Appends a section to the panel's list.
    pub fn add(&mut self, panel_id: String, section: C)
        requires
            old(self).wf(),
        ensures
            final(self).wf(),
            final(self).sections(panel_id@) == old(self).sections(panel_id@).push(section),
            forall|k: Seq<char>|
                k != panel_id@ ==> #[trigger] final(self).sections(k) == old(self).sections(k),
    {
        let ghost s = self.panels@;
        match self.position(&panel_id) {
            Some(i) => {
                let mut entry = self.panels.remove(i);
                entry.sections.push(section);
                self.panels.insert(i, entry);
                proof {
                    let t = self.panels@;
                    assert(t =~= s.update(i as int, t[i as int]));
                    assert(unique_keys(t)) by {
                        assert forall|a: int, b: int|
                            0 <= a < t.len() && 0 <= b < t.len() && a != b implies t[a].key()
                                != t[b].key() by {
                            assert(t[a].key() == s[a].key());
                            assert(t[b].key() == s[b].key());
                        }
                    }
                    lemma_key_position(t, i as int);
                    assert forall|k: Seq<char>| k != panel_id@ implies #[trigger] sections_of(t, k)
                        == sections_of(s, k) by {
                        if has_key(s, k) {
                            let j = key_position(s, k);
                            assert(t[j].key() == k);
                            lemma_key_position(t, j);
                        } else {
                            assert forall|j: int| 0 <= j < t.len() implies t[j].key() != k by {
                                assert(t[j].key() == s[j].key());
                            }
                        }
                    }

                }
            },
            None => {
                let mut sections: Vec<C> = Vec::new();
                sections.push(section);
                self.panels.push(PanelSections { panel_id, sections });
                proof {
                    let t = self.panels@;
                    assert(unique_keys(t));
                    lemma_key_position(t, s.len() as int);
                    assert(sections_of(t, t[s.len() as int].key()) =~= seq![section]);
                    assert forall|k: Seq<char>| k != t[s.len() as int].key() implies #[trigger] sections_of(
                        t,
                        k,
                    ) == sections_of(s, k) by {
                        if has_key(s, k) {
                            let j = key_position(s, k);
                            assert(t[j] == s[j]);
                            lemma_key_position(t, j);
                            lemma_key_position(s, j);
                        } else {
                            assert forall|j: int| 0 <= j < t.len() implies t[j].key() != k by {
                                if j < s.len() {
                                    assert(t[j] == s[j]);
                                }
                            }
                        }
                    }

                }
            },
        }
    }
}

} // verus!
