//! The state behind a two-pane editor: the entries, a query filtering them,
//! and the selected entry.

use vstd::prelude::*;
use vstd::utf8::encode_utf8;
use crate::text::{contains_text, occurs_in};

verus! {

/// One translatable row: a key, the source text and its translation.
#[derive(Debug, Clone, PartialEq, Eq)]
pub struct Entry {
    pub key: String,
    pub source_text: String,
    pub target_text: String,
}

pub type EntryV = (Seq<char>, Seq<char>, Seq<char>);

impl View for Entry {
    type V = EntryV;

    open spec fn view(&self) -> EntryV {
        (self.key@, self.source_text@, self.target_text@)
    }
}

pub open spec fn entry_views(s: Seq<Entry>) -> Seq<EntryV> {
    s.map_values(|e: Entry| e@)
}

/// The first entry with `key`, if any.
pub open spec fn index_of_key(es: Seq<EntryV>, key: Seq<char>, n: int) -> Option<int>
    decreases n,
{
    if n <= 0 {
        None
    } else {
        match index_of_key(es, key, n - 1) {
            Some(i) => Some(i),
            None => if es[n - 1].0 == key {
                Some(n - 1)
            } else {
                None
            },
        }
    }
}

pub open spec fn find_key(es: Seq<EntryV>, key: Seq<char>) -> Option<int> {
    index_of_key(es, key, es.len() as int)
}

/// The entries among the first `n` whose source or target holds the query.
pub open spec fn filtered(es: Seq<EntryV>, q: Seq<char>, n: int) -> Seq<EntryV>
    decreases n,
{
    if n <= 0 {
        Seq::empty()
    } else {
        let e = es[n - 1];
        if occurs_in(encode_utf8(e.1), encode_utf8(q)) || occurs_in(encode_utf8(e.2), encode_utf8(q)) {
            filtered(es, q, n - 1).push(e)
        } else {
            filtered(es, q, n - 1)
        }
    }
}

#[derive(Debug)]
pub struct TwoPaneState {
    pub entries: Vec<Entry>,
    pub selected_key: Option<String>,
    pub query: String,
}

pub open spec fn opt_view(o: Option<String>) -> Option<Seq<char>> {
    match o {
        Some(s) => Some(s@),
        None => None,
    }
}

impl View for TwoPaneState {
    type V = (Seq<EntryV>, Option<Seq<char>>, Seq<char>);

    open spec fn view(&self) -> (Seq<EntryV>, Option<Seq<char>>, Seq<char>) {
        (entry_views(self.entries@), opt_view(self.selected_key), self.query@)
    }
}

fn copy_entry(e: &Entry) -> (r: Entry)
    ensures
        r@ == e@,
{
    Entry { key: e.key.clone(), source_text: e.source_text.clone(), target_text: e.target_text.clone() }
}

fn position_of(entries: &Vec<Entry>, key: &String) -> (r: Option<usize>)
    ensures
        r matches Some(i) ==> i < entries@.len() && find_key(entry_views(entries@), key@) == Some(i as int),
        r is None ==> find_key(entry_views(entries@), key@) is None,
{
    let n = entries.len();
    let mut i: usize = 0;
    while i < n
        invariant
            n == entries@.len(),
            i <= n,
            index_of_key(entry_views(entries@), key@, i as int) is None,
        decreases n - i,
    {
        if entries[i].key == *key {
            proof {
                assert(entry_views(entries@)[i as int].0 == key@);
                lemma_index_of_key_stable(entry_views(entries@), key@, i as int, n as int);
            }
            return Some(i);
        }
        i = i + 1;
    }
    None
}

proof fn lemma_index_of_key_range(es: Seq<EntryV>, key: Seq<char>, n: int)
    requires
        n <= es.len(),
    ensures
        index_of_key(es, key, n) matches Some(i) ==> 0 <= i < n && es[i].0 == key,
    decreases n,
{
    if n > 0 {
        lemma_index_of_key_range(es, key, n - 1);
    }
}

proof fn lemma_index_of_key_stable(es: Seq<EntryV>, key: Seq<char>, i: int, n: int)
    requires
        0 <= i < n <= es.len(),
        index_of_key(es, key, i) is None,
        es[i].0 == key,
    ensures
        index_of_key(es, key, n) == Some(i),
    decreases n,
{
    if n > i + 1 {
        lemma_index_of_key_stable(es, key, i, n - 1);
    }
}

impl TwoPaneState {
    pub fn new(entries: Vec<Entry>) -> (r: Self)
        ensures
            r@ == (entry_views(entries@), None::<Seq<char>>, Seq::<char>::empty()),
    {
        TwoPaneState { entries, selected_key: None, query: String::new() }
    }

    pub fn entries(&self) -> (r: &[Entry])
        ensures
            entry_views(r@) == self@.0,
    {
        self.entries.as_slice()
    }

    pub fn query(&self) -> (r: &str)
        ensures
            r@ == self@.2,
    {
        self.query.as_str()
    }

    pub fn set_query(&mut self, query: &str)
        ensures
            final(self)@ == (old(self)@.0, old(self)@.1, query@),
    {
        self.query = query.to_owned();
    }

    /// Replaces the entries; the selection stays only if its key is still there.
    pub fn set_entries(&mut self, entries: Vec<Entry>)
        ensures
            final(self)@.0 == entry_views(entries@),
            final(self)@.2 == old(self)@.2,
            final(self)@.1 == match old(self)@.1 {
                Some(k) => if find_key(entry_views(entries@), k) is Some {
                    Some(k)
                } else {
                    None
                },
                None => None,
            },
    {
        self.entries = entries;
        let keep = match &self.selected_key {
            Some(k) => position_of(&self.entries, k).is_some(),
            None => false,
        };
        if !keep {
            self.selected_key = None;
        }
    }

    /// Sets the texts of the first entry with `key`; false when there is none.
    pub fn update_entry(&mut self, key: &str, source: &str, target: &str) -> (r: bool)
        ensures
            final(self)@.1 == old(self)@.1,
            final(self)@.2 == old(self)@.2,
            match find_key(old(self)@.0, key@) {
                Some(i) => r && final(self)@.0 == old(self)@.0.update(i, (key@, source@, target@)),
                None => !r && final(self)@.0 == old(self)@.0,
            },
    {
        let k = key.to_owned();
        proof {
            lemma_index_of_key_range(entry_views(self.entries@), key@, self.entries@.len() as int);
        }
        match position_of(&self.entries, &k) {
            Some(i) => {
                let ghost before = self.entries@;
                self.entries[i] = Entry { key: k, source_text: source.to_owned(), target_text: target.to_owned() };
                proof {
                    assert(entry_views(self.entries@) =~= entry_views(before).update(
                        i as int,
                        (key@, source@, target@),
                    ));
                    assert(self@.0 == entry_views(self.entries@));
                }
                true
            },
            None => false,
        }
    }

    /// The entries whose source or target text holds the query, in order.
    pub fn filtered_entries(&self) -> (r: Vec<Entry>)
        ensures
            entry_views(r@) == filtered(self@.0, self@.2, self@.0.len() as int),
    {
        let mut out: Vec<Entry> = Vec::new();
        let n = self.entries.len();
        for i in 0..n
            invariant
                n == self.entries@.len(),
                entry_views(out@) == filtered(entry_views(self.entries@), self.query@, i as int),
        {
            let e = &self.entries[i];
            if contains_text(e.source_text.as_str(), self.query.as_str()) || contains_text(
                e.target_text.as_str(),
                self.query.as_str(),
            ) {
                let ghost before = out@;
                out.push(copy_entry(e));
                proof {
                    assert(entry_views(out@) =~= entry_views(before).push(e@));
                }
            }
        }
        out
    }

    pub fn selected_key(&self) -> (r: Option<&str>)
        ensures
            match self@.1 {
                Some(k) => r matches Some(s) && s@ == k,
                None => r is None,
            },
    {
        match &self.selected_key {
            Some(s) => Some(s.as_str()),
            None => None,
        }
    }

    /// Selects the entry with `key`; false, and no change, when there is none.
    pub fn select(&mut self, key: &str) -> (r: bool)
        ensures
            final(self)@.0 == old(self)@.0,
            final(self)@.2 == old(self)@.2,
            r == (find_key(old(self)@.0, key@) is Some),
            r ==> final(self)@.1 == Some(key@),
            !r ==> final(self)@.1 == old(self)@.1,
    {
        let k = key.to_owned();
        if position_of(&self.entries, &k).is_some() {
            self.selected_key = Some(k);
            true
        } else {
            false
        }
    }

    /// The first entry with the selected key, if there is one.
    pub fn selected_entry(&self) -> (r: Option<&Entry>)
        ensures
            match self@.1 {
                Some(k) => match find_key(self@.0, k) {
                    Some(i) => r matches Some(e) && e@ == self@.0[i],
                    None => r is None,
                },
                None => r is None,
            },
    {
        proof {
            assert(self@.0 == entry_views(self.entries@));
            assert(self@.1 == opt_view(self.selected_key));
            if let Some(k) = self@.1 {
                lemma_index_of_key_range(self@.0, k, self@.0.len() as int);
            }
        }
        match &self.selected_key {
            Some(k) => match position_of(&self.entries, k) {
                Some(i) => {
                    assert(self.entries@[i as int]@ == entry_views(self.entries@)[i as int]);
                    Some(&self.entries[i])
                },
                None => None,
            },
            None => None,
        }
    }
}

} // verus!
