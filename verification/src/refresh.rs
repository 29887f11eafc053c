//! The per-instance appearance store behind live redraws: each visible
//! instance's colors and bar style, and the feedback layout it last received,
//! so that a background redraw never restores an old layout after a style
//! switch.

use crate::color::BarColors;
use crate::display::BarStyle;
use vstd::prelude::*;

verus! {

/// How one instance is drawn.
pub struct Appearance {
    pub colors: BarColors,
    pub style: BarStyle,
    /// The style whose feedback layout the encoder last received.
    pub applied_style: Option<BarStyle>,
}

impl Clone for Appearance {
    fn clone(&self) -> (r: Self)
        ensures
            r == *self,
    {
        Appearance {
            colors: self.colors.clone(),
            style: self.style,
            applied_style: self.applied_style,
        }
    }
}

/// Appearances by instance id.
pub struct Appearances {
    entries: Vec<(String, Appearance)>,
}

/// The layout an instance still has to receive before its next frame: its
/// style's layout, on an encoder whose last layout was another one.
pub open spec fn pending_layout(
    m: Map<Seq<char>, Appearance>,
    id: Seq<char>,
    encoder: bool,
) -> Option<BarStyle> {
    if encoder && m.contains_key(id) && m[id].applied_style != Some(m[id].style) {
        Some(m[id].style)
    } else {
        None
    }
}

impl View for Appearances {
    type V = Map<Seq<char>, Appearance>;

    closed spec fn view(&self) -> Map<Seq<char>, Appearance> {
        Map::new(
            |k: Seq<char>| exists|i: int| 0 <= i < self.entries@.len() && #[trigger] self.entries@[i].0@ == k,
            |k: Seq<char>|
                self.entries@[choose|i: int|
                    0 <= i < self.entries@.len() && #[trigger] self.entries@[i].0@ == k].1,
        )
    }
}

impl Appearances {
    #[verifier::type_invariant]
    spec fn keys_unique(&self) -> bool {
        forall|i: int, j: int|
            0 <= i < j < self.entries@.len() ==> self.entries@[i].0@ != self.entries@[j].0@
    }

    proof fn lemma_entry_in_view(&self, i: int)
        requires
            self.keys_unique(),
            0 <= i < self.entries@.len(),
        ensures
            self@.contains_key(self.entries@[i].0@),
            self@[self.entries@[i].0@] == self.entries@[i].1,
    {
        let k = self.entries@[i].0@;
        assert(self.entries@[i].0@ == k);
        let j = choose|j: int| 0 <= j < self.entries@.len() && #[trigger] self.entries@[j].0@ == k;
        if j != i {
            if j < i {
                assert(self.entries@[j].0@ != self.entries@[i].0@);
            } else {
                assert(self.entries@[i].0@ != self.entries@[j].0@);
            }
        }
    }

    /// An empty store.
    pub fn new() -> (r: Appearances)
        ensures
            r@ == Map::<Seq<char>, Appearance>::empty(),
    {
        let r = Appearances { entries: Vec::new() };
        assert(r@ == Map::<Seq<char>, Appearance>::empty());
        r
    }

    /// The index of the entry for `id`.
    fn find(&self, id: &String) -> (r: Option<usize>)
        ensures
            match r {
                Some(i) => i < self.entries@.len() && self.entries@[i as int].0@ == id@,
                None => !self@.contains_key(id@),
            },
    {
        let mut i: usize = 0;
        while i < self.entries.len()
            invariant
                i <= self.entries@.len(),
                forall|k: int| 0 <= k < i ==> self.entries@[k].0@ != id@,
            decreases self.entries@.len() - i,
        {
            if self.entries[i].0 == *id {
                return Some(i);
            }
            i = i + 1;
        }
        None
    }

    /// The appearance of instance `id`, if it is visible.
    pub fn get(&self, id: &str) -> (r: Option<&Appearance>)
        ensures
            match r {
                Some(a) => self@.contains_key(id@) && *a == self@[id@],
                None => !self@.contains_key(id@),
            },
    {
        proof {
            use_type_invariant(self);
        }
        let key = id.to_owned();
        match self.find(&key) {
            Some(i) => {
                proof {
                    self.lemma_entry_in_view(i as int);
                }
                Some(&self.entries[i].1)
            },
            None => None,
        }
    }

    /// Record the colors and style of instance `id` (when it appears or its
    /// settings change); the layout it last received is kept.
    pub fn set_appearance(&mut self, id: &str, colors: &BarColors, style: BarStyle)
        ensures
            final(self)@ == old(self)@.insert(
                id@,
                Appearance {
                    colors: *colors,
                    style,
                    applied_style: if old(self)@.contains_key(id@) {
                        old(self)@[id@].applied_style
                    } else {
                        None
                    },
                },
            ),
    {
        proof {
            use_type_invariant(&*self);
        }
        let key = id.to_owned();
        match self.find(&key) {
            Some(i) => {
                let applied = self.entries[i].1.applied_style;
                let entry = (key, Appearance { colors: colors.clone(), style, applied_style: applied });
                proof {
                    self.lemma_entry_in_view(i as int);
                }
                self.replace_entry(i, entry);
            },
            None => {
                let entry = (key, Appearance { colors: colors.clone(), style, applied_style: None });
                self.add_entry(entry);
            },
        }
    }

    /// Forget instance `id` (it disappeared).
    pub fn forget_appearance(&mut self, id: &str)
        ensures
            final(self)@ == old(self)@.remove(id@),
    {
        proof {
            use_type_invariant(&*self);
        }
        let key = id.to_owned();
        match self.find(&key) {
            Some(i) => {
                let ghost before = self.entries@;
                let ghost old_view = self@;
                let mut entries: Vec<(String, Appearance)> = Vec::new();
                std::mem::swap(&mut entries, &mut self.entries);
                entries.remove(i);
                proof {
                    assert forall|a: int, b: int| 0 <= a < b < entries@.len() implies entries@[a].0@ != entries@[b].0@ by {
                        let a0 = if a < i { a } else { a + 1 };
                        let b0 = if b < i { b } else { b + 1 };
                        assert(entries@[a] == before[a0]);
                        assert(entries@[b] == before[b0]);
                    }
                }
                self.entries = entries;
                proof {
                    assert forall|k: Seq<char>| #[trigger] self@.contains_key(k) == old_view.remove(id@).contains_key(k) by {
                        if self@.contains_key(k) {
                            let j = choose|j: int| 0 <= j < self.entries@.len() && #[trigger] self.entries@[j].0@ == k;
                            let j0 = if j < i { j } else { j + 1 };
                            assert(self.entries@[j] == before[j0]);
                            assert(before[j0].0@ == k);
                            assert(j0 != i);
                        }
                        if old_view.remove(id@).contains_key(k) {
                            let j0 = choose|j: int| 0 <= j < before.len() && #[trigger] before[j].0@ == k;
                            assert(j0 != i);
                            let j = if j0 < i { j0 } else { j0 - 1 };
                            assert(self.entries@[j] == before[j0]);
                        }
                    }
                    assert forall|k: Seq<char>| #[trigger] self@.contains_key(k) implies self@[k] == old_view[k] by {
                        let j = choose|j: int| 0 <= j < self.entries@.len() && #[trigger] self.entries@[j].0@ == k;
                        let j0 = if j < i { j } else { j + 1 };
                        assert(self.entries@[j] == before[j0]);
                        self.lemma_entry_in_view(j);
                        lemma_unique_entry_in_view(before, j0);
                    }
                    assert(self@ == old_view.remove(id@));
                }
            },
            None => {
                proof {
                    assert(self@ == old(self)@.remove(id@));
                }
            },
        }
    }

    /// The layout that instance `id` must receive before its next frame.
    pub fn layout_to_apply(&self, id: &str, encoder: bool) -> (r: Option<BarStyle>)
        ensures
            r == pending_layout(self@, id@, encoder),
    {
        match self.get(id) {
            Some(a) => {
                if encoder && a.applied_style != Some(a.style) {
                    Some(a.style)
                } else {
                    None
                }
            },
            None => None,
        }
    }

    /// Instance `id` received the feedback layout of `style`.
    pub fn mark_layout_applied(&mut self, id: &str, style: BarStyle)
        ensures
            final(self)@ == if old(self)@.contains_key(id@) {
                old(self)@.insert(id@, Appearance { applied_style: Some(style), ..old(self)@[id@] })
            } else {
                old(self)@
            },
    {
        proof {
            use_type_invariant(&*self);
        }
        let key = id.to_owned();
        match self.find(&key) {
            Some(i) => {
                let current = self.entries[i].1.clone();
                let entry = (key, Appearance { applied_style: Some(style), ..current });
                proof {
                    self.lemma_entry_in_view(i as int);
                }
                self.replace_entry(i, entry);
            },
            None => {},
        }
    }

    /// Replace entry `i` by one with the same key.
    fn replace_entry(&mut self, i: usize, entry: (String, Appearance))
        requires
            i < old(self).entries@.len(),
            old(self).entries@[i as int].0@ == entry.0@,
        ensures
            final(self)@ == old(self)@.insert(entry.0@, entry.1),
    {
        proof {
            use_type_invariant(&*self);
        }
        let ghost before = self.entries@;
        let ghost old_view = self@;
        let ghost key = entry.0@;
        let ghost value = entry.1;
        let mut entries: Vec<(String, Appearance)> = Vec::new();
        std::mem::swap(&mut entries, &mut self.entries);
        entries.remove(i);
        entries.insert(i, entry);
        proof {
            assert(entries@ == before.update(i as int, entry));
            assert forall|a: int, b: int| 0 <= a < b < entries@.len() implies entries@[a].0@ != entries@[b].0@ by {
                assert(entries@[a].0@ == before[a].0@);
                assert(entries@[b].0@ == before[b].0@);
            }
        }
        self.entries = entries;
        proof {
            assert forall|k: Seq<char>| #[trigger] self@.contains_key(k) == old_view.insert(key, value).contains_key(k) by {
                if old_view.contains_key(k) {
                    let j = choose|j: int| 0 <= j < before.len() && #[trigger] before[j].0@ == k;
                    assert(self.entries@[j].0@ == k);
                }
                if self@.contains_key(k) {
                    let j = choose|j: int| 0 <= j < self.entries@.len() && #[trigger] self.entries@[j].0@ == k;
                    assert(before[j].0@ == k);
                }
                if k == key {
                    assert(self.entries@[i as int].0@ == k);
                }
            }
            assert forall|k: Seq<char>| #[trigger] self@.contains_key(k) implies self@[k] == old_view.insert(key, value)[k] by {
                let j = choose|j: int| 0 <= j < self.entries@.len() && #[trigger] self.entries@[j].0@ == k;
                self.lemma_entry_in_view(j);
                if j != i {
                    assert(self.entries@[j] == before[j]);
                    lemma_unique_entry_in_view(before, j);
                }
            }
            assert(self@ == old_view.insert(key, value));
        }
    }

    /// Add an entry whose key is not in the store yet.
    fn add_entry(&mut self, entry: (String, Appearance))
        requires
            !old(self)@.contains_key(entry.0@),
        ensures
            final(self)@ == old(self)@.insert(entry.0@, entry.1),
    {
        proof {
            use_type_invariant(&*self);
        }
        let ghost before = self.entries@;
        let ghost old_view = self@;
        let ghost key = entry.0@;
        let ghost value = entry.1;
        let mut entries: Vec<(String, Appearance)> = Vec::new();
        std::mem::swap(&mut entries, &mut self.entries);
        entries.push(entry);
        proof {
            assert forall|a: int, b: int| 0 <= a < b < entries@.len() implies entries@[a].0@ != entries@[b].0@ by {
                assert(entries@[a] == before[a]);
                if b < before.len() {
                    assert(entries@[b] == before[b]);
                } else {
                    assert(before.contains(before[a]));
                    assert(before[a].0@ == entries@[a].0@);
                    if before[a].0@ == key {
                        assert(old_view.contains_key(key));
                    }
                }
            }
        }
        self.entries = entries;
        proof {
            let n = before.len() as int;
            assert forall|k: Seq<char>| #[trigger] self@.contains_key(k) == old_view.insert(key, value).contains_key(k) by {
                if old_view.contains_key(k) {
                    let j = choose|j: int| 0 <= j < before.len() && #[trigger] before[j].0@ == k;
                    assert(self.entries@[j].0@ == k);
                }
                if self@.contains_key(k) {
                    let j = choose|j: int| 0 <= j < self.entries@.len() && #[trigger] self.entries@[j].0@ == k;
                    if j < n {
                        assert(before[j].0@ == k);
                    }
                }
                if k == key {
                    assert(self.entries@[n].0@ == k);
                }
            }
            assert forall|k: Seq<char>| #[trigger] self@.contains_key(k) implies self@[k] == old_view.insert(key, value)[k] by {
                let j = choose|j: int| 0 <= j < self.entries@.len() && #[trigger] self.entries@[j].0@ == k;
                self.lemma_entry_in_view(j);
                if j < n {
                    assert(self.entries@[j] == before[j]);
                    lemma_unique_entry_in_view(before, j);
                }
            }
            assert(self@ == old_view.insert(key, value));
        }
    }
}

/// Once an instance has received the layout of its current style, later
/// redraws send no layout again.
pub proof fn lemma_layout_sent_once(m: Map<Seq<char>, Appearance>, id: Seq<char>, encoder: bool)
    requires
        m.contains_key(id),
    ensures
        pending_layout(
            m.insert(id, Appearance { applied_style: Some(m[id].style), ..m[id] }),
            id,
            encoder,
        ) is None,
{
}

/// A settings change that switches an encoder's style makes its next redraw
/// send the new style's layout first; a change that keeps the style whose
/// layout it has sends none.
pub proof fn lemma_style_switch_relayouts(
    m: Map<Seq<char>, Appearance>,
    id: Seq<char>,
    colors: BarColors,
    style: BarStyle,
)
    ensures
        ({
            let applied = if m.contains_key(id) {
                m[id].applied_style
            } else {
                None
            };
            let after = m.insert(id, Appearance { colors, style, applied_style: applied });
            &&& applied != Some(style) ==> pending_layout(after, id, true) == Some(style)
            &&& applied == Some(style) ==> pending_layout(after, id, true) is None
            &&& pending_layout(after, id, false) is None
        }),
{
}

/// In a list of entries with distinct keys, entry `i` is what the view holds
/// for its key.
proof fn lemma_unique_entry_in_view(entries: Seq<(String, Appearance)>, i: int)
    requires
        0 <= i < entries.len(),
        forall|a: int, b: int| 0 <= a < b < entries.len() ==> entries[a].0@ != entries[b].0@,
    ensures
        entries[choose|j: int| 0 <= j < entries.len() && #[trigger] entries[j].0@ == entries[i].0@].1
            == entries[i].1,
{
    let k = entries[i].0@;
    assert(entries[i].0@ == k);
    let j = choose|j: int| 0 <= j < entries.len() && #[trigger] entries[j].0@ == k;
    if j != i {
        if j < i {
            assert(entries[j].0@ != entries[i].0@);
        } else {
            assert(entries[i].0@ != entries[j].0@);
        }
    }
}

} // verus!
