//! Maps from names to texts, in the order of the names.

use crate::markers;
use crate::text;
use vstd::prelude::*;

verus! {

// ---------------------------------------------------------------------------
// Entries
// ---------------------------------------------------------------------------

/// A text for each of some names, in the order of the names
#[derive(Debug, PartialEq, Eq)]
pub struct TextMap {
    pub entries: Vec<(String, String)>,
}

/// Names and their texts
pub open spec fn entry_views(entries: Seq<(String, String)>) -> Seq<(Seq<char>, Seq<char>)> {
    Seq::new(entries.len(), |i: int| (entries[i].0@, entries[i].1@))
}

/// The names there are
pub open spec fn entry_names(entries: Seq<(Seq<char>, Seq<char>)>) -> Seq<Seq<char>> {
    Seq::new(entries.len(), |i: int| entries[i].0)
}

impl View for TextMap {
    type V = Seq<(Seq<char>, Seq<char>)>;

    open spec fn view(&self) -> Seq<(Seq<char>, Seq<char>)> {
        entry_views(self.entries@)
    }
}

impl Clone for TextMap {
    fn clone(&self) -> (copy: Self)
        ensures
            copy@ == self@,
    {
        let mut entries: Vec<(String, String)> = Vec::new();
        let mut i: usize = 0;
        while i < self.entries.len()
            invariant
                i <= self.entries@.len(),
                entries@.len() == i,
                forall|k: int|
                    0 <= k < i ==> (#[trigger] entries@[k]).0@ == self.entries@[k].0@
                        && entries@[k].1@ == self.entries@[k].1@,
            decreases self.entries@.len() - i,
        {
            entries.push((self.entries[i].0.clone(), self.entries[i].1.clone()));
            i = i + 1;
        }
        assert(entry_views(entries@) =~= entry_views(self.entries@));
        TextMap { entries }
    }
}

/// The text for a name
pub open spec fn value_of(entries: Seq<(Seq<char>, Seq<char>)>, name: Seq<char>) -> Option<
    Seq<char>,
> {
    match markers::index_of(entry_names(entries), name) {
        Some(i) => Some(entries[i].1),
        None => None,
    }
}

/// Entries with one more, in the place of one for the same name if there is one
pub open spec fn with_value(
    entries: Seq<(Seq<char>, Seq<char>)>,
    name: Seq<char>,
    value: Seq<char>,
) -> Seq<(Seq<char>, Seq<char>)> {
    match markers::index_of(entry_names(entries), name) {
        Some(i) => entries.update(i, (name, value)),
        None => entries.insert(markers::place(entry_names(entries), name), (name, value)),
    }
}

/// The entries with the given names and texts
pub open spec fn values_of(names: Seq<Seq<char>>, texts: Seq<Seq<char>>) -> Seq<
    (Seq<char>, Seq<char>),
>
    decreases names.len(),
{
    if names.len() == 0 || texts.len() != names.len() {
        Seq::empty()
    } else {
        with_value(
            values_of(names.drop_last(), texts.drop_last()),
            names.last(),
            texts.last(),
        )
    }
}

impl TextMap {
    /// No entries
    pub fn new() -> (values: Self)
        ensures
            values@ == Seq::<(Seq<char>, Seq<char>)>::empty(),
    {
        let values = TextMap { entries: Vec::new() };
        assert(values@ =~= Seq::empty());
        values
    }

    /// The text for `name`
    pub fn get(&self, name: &str) -> (value: Option<&str>)
        ensures
            match value {
                Some(value) => value_of(self@, name@) == Some(value@),
                None => value_of(self@, name@) is None,
            },
    {
        match self.index(name) {
            Some(i) => Some(self.entries[i].1.as_str()),
            None => None,
        }
    }

    fn index(&self, name: &str) -> (found: Option<usize>)
        ensures
            match found {
                Some(i) => i < self.entries@.len() && markers::index_of(
                    entry_names(self@),
                    name@,
                ) == Some(i as int),
                None => markers::index_of(entry_names(self@), name@) is None,
            },
    {
        let ghost names = entry_names(self@);
        let mut i: usize = 0;
        while i < self.entries.len()
            invariant
                i <= self.entries@.len(),
                names == entry_names(self@),
                forall|j: int| 0 <= j < i ==> names[j] != name@,
            decreases self.entries@.len() - i,
        {
            if text::same(self.entries[i].0.as_str(), name) {
                proof {
                    markers::lemma_index_of_is(names, name@, i as int);
                }
                return Some(i);
            }
            i = i + 1;
        }
        proof {
            markers::lemma_index_of(names, name@);
        }
        None
    }

    /// Sets the text for `name`
    pub fn set(&mut self, name: String, value: String)
        ensures
            final(self)@ == with_value(old(self)@, name@, value@),
    {
        let ghost before = self@;
        let ghost names = entry_names(self@);
        match self.index(name.as_str()) {
            Some(i) => {
                self.entries.set(i, (name, value));
                assert(self@ =~= before.update(i as int, (name@, value@)));
            },
            None => {
                let mut i: usize = 0;
                while i < self.entries.len() && text::comes_before(
                    self.entries[i].0.as_str(),
                    name.as_str(),
                )
                    invariant
                        i <= self.entries@.len(),
                        before == self@,
                        names == entry_names(self@),
                        forall|j: int| 0 <= j < i ==> text::before(#[trigger] names[j], name@),
                    decreases self.entries@.len() - i,
                {
                    i = i + 1;
                }
                proof {
                    markers::lemma_place_is(names, name@, i as int);
                }
                self.entries.insert(i, (name, value));
                assert(self@ =~= before.insert(i as int, (name@, value@)));
            },
        }
    }
}

pub proof fn lemma_with_value(
    entries: Seq<(Seq<char>, Seq<char>)>,
    name: Seq<char>,
    value: Seq<char>,
    other: Seq<char>,
)
    requires
        markers::in_order(entry_names(entries)),
    ensures
        markers::in_order(entry_names(with_value(entries, name, value))),
        value_of(with_value(entries, name, value), name) == Some(value),
        other != name ==> value_of(with_value(entries, name, value), other) == value_of(
            entries,
            other,
        ),
{
    let names = entry_names(entries);
    let after = with_value(entries, name, value);
    markers::lemma_index_of(names, name);
    markers::lemma_index_of(names, other);
    markers::lemma_place(names, name);
    let p = markers::place(names, name);
    match markers::index_of(names, name) {
        Some(i) => {
            assert(entry_names(after) =~= names);
        },
        None => {
            assert(entry_names(after) =~= names.insert(p, name));
            markers::lemma_insert_in_order(names, name);
        },
    }
    let after_names = entry_names(after);
    let at = match markers::index_of(names, name) {
        Some(i) => i,
        None => p,
    };
    assert(after_names[at] == name);
    assert forall|j: int| 0 <= j < at implies after_names[j] != name by {
        text::lemma_before_total(after_names[j], after_names[at]);
    }
    markers::lemma_index_of_is(after_names, name, at);
    if other != name {
        match markers::index_of(names, other) {
            Some(k) => {
                let m = match markers::index_of(names, name) {
                    Some(_) => k,
                    None => if k < p {
                        k
                    } else {
                        k + 1
                    },
                };
                assert(after_names[m] == other);
                assert(after[m] == entries[k]);
                assert forall|j: int| 0 <= j < m implies after_names[j] != other by {
                    text::lemma_before_total(after_names[j], after_names[m]);
                }
                markers::lemma_index_of_is(after_names, other, m);
            },
            None => {
                if after_names.contains(other) {
                    let m = choose|m: int| 0 <= m < after_names.len() && after_names[m] == other;
                    match markers::index_of(names, name) {
                        Some(_) => {
                            assert(names[m] == other);
                        },
                        None => {
                            if m < p {
                                assert(names[m] == other);
                            } else if m > p {
                                assert(names[m - 1] == other);
                            }
                        },
                    }
                    assert(names.contains(other));
                }
                markers::lemma_index_of(after_names, other);
            },
        }
    }
}

/// Each name has the text given for it, and no other name has one
pub proof fn law_entries(names: Seq<Seq<char>>, texts: Seq<Seq<char>>)
    requires
        names.no_duplicates(),
        texts.len() == names.len(),
    ensures
        markers::in_order(entry_names(values_of(names, texts))),
        forall|k: int|
            0 <= k < names.len() ==> value_of(values_of(names, texts), #[trigger] names[k])
                == Some(texts[k]),
        forall|name: Seq<char>|
            !names.contains(name) ==> #[trigger] value_of(values_of(names, texts), name) is None,
    decreases names.len(),
{
    if names.len() > 0 {
        let head = names.drop_last();
        let entries = values_of(head, texts.drop_last());
        assert(head.no_duplicates());
        law_entries(head, texts.drop_last());
        lemma_with_value(entries, names.last(), texts.last(), names.last());
        assert forall|k: int| 0 <= k < names.len() implies value_of(
            values_of(names, texts),
            #[trigger] names[k],
        ) == Some(texts[k]) by {
            if k < head.len() {
                assert(head[k] == names[k]);
                lemma_with_value(entries, names.last(), texts.last(), names[k]);
            }
        }
        assert forall|name: Seq<char>| !names.contains(name) implies #[trigger] value_of(
            values_of(names, texts),
            name,
        ) is None by {
            assert(names[names.len() - 1] == names.last());
            assert(name != names.last());
            assert(!head.contains(name)) by {
                if head.contains(name) {
                    let k = choose|k: int| 0 <= k < head.len() && head[k] == name;
                    assert(names[k] == name);
                }
            }
            lemma_with_value(entries, names.last(), texts.last(), name);
            assert(value_of(entries, name) is None);
        }
    } else {
        assert forall|name: Seq<char>| #[trigger] value_of(
            values_of(names, texts),
            name,
        ) is None by {
            markers::lemma_index_of(entry_names(values_of(names, texts)), name);
        }
    }
}

} // verus!
