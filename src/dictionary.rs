//! A source-to-target dictionary built from translated entries, applied to
//! fill in untranslated ones.

use vstd::prelude::*;
use crate::ui_state::{Entry, EntryV, entry_views};

verus! {

/// Distinct source texts, each with the target text last seen for it.
#[derive(Debug)]
pub struct TranslationDictionary {
    pairs: Vec<(String, String)>,
}

#[derive(Debug, Clone, Copy, Default, PartialEq, Eq)]
pub struct DictionaryBuildStats {
    pub files_seen: usize,
    pub file_pairs: usize,
    pub entries_added: usize,
}

#[derive(Debug, Clone, Copy, PartialEq, Eq, Structural)]
pub enum DictionaryError {
    Io,
    InvalidFileName,
    InvalidUtf8Name,
    InvalidFormat,
}

pub open spec fn pair_views(v: Seq<(String, String)>) -> Seq<(Seq<char>, Seq<char>)> {
    v.map_values(|p: (String, String)| (p.0@, p.1@))
}

/// The source texts are distinct.
pub open spec fn keys_distinct(p: Seq<(Seq<char>, Seq<char>)>) -> bool {
    forall|i: int, j: int| 0 <= i < j < p.len() ==> p[i].0 != p[j].0
}

pub open spec fn pairs_map(p: Seq<(Seq<char>, Seq<char>)>) -> Map<Seq<char>, Seq<char>> {
    Map::new(|s: Seq<char>| exists|i: int| 0 <= i < p.len() && p[i].0 == s, |s: Seq<char>| p[choose|i: int| 0 <= i < p.len() && p[i].0 == s].1)
}

impl View for TranslationDictionary {
    type V = Map<Seq<char>, Seq<char>>;

    closed spec fn view(&self) -> Map<Seq<char>, Seq<char>> {
        pairs_map(pair_views(self.pairs@))
    }
}

/// The pairs of the first `n` entries that have both texts; a later entry
/// for the same source wins.
pub open spec fn learned(es: Seq<EntryV>, n: int) -> Map<Seq<char>, Seq<char>>
    decreases n,
{
    if n <= 0 {
        Map::empty()
    } else if es[n - 1].1.len() > 0 && es[n - 1].2.len() > 0 {
        learned(es, n - 1).insert(es[n - 1].1, es[n - 1].2)
    } else {
        learned(es, n - 1)
    }
}

/// Entry `e` after a quick pass: when it is selected (or nothing is), and,
/// with `only_untranslated`, still untranslated, it takes the dictionary's
/// target for its source.
pub open spec fn quick_entry(d: Map<Seq<char>, Seq<char>>, e: EntryV, sel: Seq<Seq<char>>, only_untranslated: bool) -> EntryV {
    if sel.len() > 0 && !sel.contains(e.0) {
        e
    } else if only_untranslated && e.2.len() > 0 {
        e
    } else if d.contains_key(e.1) {
        (e.0, e.1, d[e.1])
    } else {
        e
    }
}

/// How many of the first `n` entries a quick pass changes.
pub open spec fn quick_count(d: Map<Seq<char>, Seq<char>>, es: Seq<EntryV>, sel: Seq<Seq<char>>, only_untranslated: bool, n: int) -> nat
    decreases n,
{
    if n <= 0 {
        0
    } else {
        quick_count(d, es, sel, only_untranslated, n - 1) + if quick_entry(d, es[n - 1], sel, only_untranslated).2 != es[n - 1].2 {
            1nat
        } else {
            0nat
        }
    }
}

fn find_source(pairs: &Vec<(String, String)>, s: &String) -> (r: Option<usize>)
    ensures
        r matches Some(i) ==> i < pairs@.len() && pair_views(pairs@)[i as int].0 == s@,
        r is None ==> forall|i: int| 0 <= i < pairs@.len() ==> pair_views(pairs@)[i].0 != s@,
{
    let n = pairs.len();
    for i in 0..n
        invariant
            n == pairs@.len(),
            forall|k: int| 0 <= k < i ==> pair_views(pairs@)[k].0 != s@,
    {
        if pairs[i].0 == *s {
            return Some(i);
        }
    }
    None
}

proof fn lemma_lookup_at(p: Seq<(Seq<char>, Seq<char>)>, i: int)
    requires
        keys_distinct(p),
        0 <= i < p.len(),
    ensures
        pairs_map(p).contains_key(p[i].0),
        pairs_map(p)[p[i].0] == p[i].1,
{
    let j = choose|j: int| 0 <= j < p.len() && p[j].0 == p[i].0;
    if j != i {
        if j < i {
            assert(p[j].0 != p[i].0);
        } else {
            assert(p[i].0 != p[j].0);
        }
    }
}

impl TranslationDictionary {
    pub fn is_empty(&self) -> (r: bool)
        ensures
            r == (self@.dom().len() == 0),
    {
        proof {
            use_type_invariant(self);
            self.lemma_wf_len();
        }
        self.pairs.len() == 0
    }

    /// The number of distinct source texts.
    pub fn len(&self) -> (r: usize)
        ensures
            r == self@.dom().len(),
    {
        proof {
            use_type_invariant(self);
            self.lemma_wf_len();
        }
        self.pairs.len()
    }

    #[verifier::type_invariant]
    spec fn wf(&self) -> bool {
        keys_distinct(pair_views(self.pairs@))
    }

    proof fn lemma_wf_len(&self)
        requires
            keys_distinct(pair_views(self.pairs@)),
        ensures
            self@.dom().len() == self.pairs@.len(),
            self@.dom().finite(),
    {
        let p = pair_views(self.pairs@);
        let keys = p.map_values(|x: (Seq<char>, Seq<char>)| x.0);
        assert(keys.no_duplicates()) by {
            assert forall|i: int, j: int| 0 <= i < keys.len() && 0 <= j < keys.len() && i != j implies keys[i] != keys[j] by {
                if i < j {
                    assert(p[i].0 != p[j].0);
                } else {
                    assert(p[j].0 != p[i].0);
                }
            }
        }
        assert forall|s: Seq<char>| self@.dom().contains(s) <==> keys.to_set().contains(s) by {
            if self@.dom().contains(s) {
                let i = choose|i: int| 0 <= i < p.len() && p[i].0 == s;
                assert(keys[i] == s);
                assert(keys.contains(s));
            }
            if keys.to_set().contains(s) {
                assert(keys.contains(s));
                let i = choose|i: int| 0 <= i < keys.len() && keys[i] == s;
                assert(p[i].0 == s);
            }
        }
        assert(self@.dom() =~= keys.to_set());
        keys.unique_seq_to_set();
    }

    /// Learns the source/target pair of every entry that has both texts.
    pub fn build_from_entries(entries: &[Entry]) -> (d: Self)
        ensures
            d@ == learned(entry_views(entries@), entries@.len() as int),
    {
        let ghost ev = entry_views(entries@);
        let mut pairs: Vec<(String, String)> = Vec::new();
        let n = entries.len();
        proof {
            assert(pairs_map(pair_views(pairs@)) =~= learned(ev, 0));
        }
        for k in 0..n
            invariant
                n == entries@.len(),
                ev == entry_views(entries@),
                keys_distinct(pair_views(pairs@)),
                pairs_map(pair_views(pairs@)) == learned(ev, k as int),
        {
            let e = &entries[k];
            proof {
                assert(ev[k as int] == e@);
            }
            if !e.source_text.as_str().is_empty() && !e.target_text.as_str().is_empty() {
                let ghost before = pair_views(pairs@);
                match find_source(&pairs, &e.source_text) {
                    Some(i) => {
                        let src = e.source_text.clone();
                        pairs[i] = (src, e.target_text.clone());
                        proof {
                            let after = pair_views(pairs@);
                            assert(after =~= before.update(i as int, (e.source_text@, e.target_text@)));
                            assert(keys_distinct(after)) by {
                                assert forall|a: int, b: int| 0 <= a < b < after.len() implies after[a].0 != after[b].0 by {
                                    assert(after[a].0 == before[a].0);
                                    assert(after[b].0 == before[b].0);
                                }
                            }
                            assert(pairs_map(after) =~= pairs_map(before).insert(e.source_text@, e.target_text@)) by {
                                assert forall|s: Seq<char>| #[trigger] pairs_map(after).contains_key(s) == pairs_map(before).insert(e.source_text@, e.target_text@).contains_key(s) by {
                                    if pairs_map(before).contains_key(s) {
                                        let j = choose|j: int| 0 <= j < before.len() && before[j].0 == s;
                                        assert(after[j].0 == s);
                                    }
                                    if pairs_map(after).contains_key(s) {
                                        let j = choose|j: int| 0 <= j < after.len() && after[j].0 == s;
                                        assert(before[j].0 == s);
                                    }
                                    if s == e.source_text@ {
                                        assert(after[i as int].0 == s);
                                    }
                                }
                                assert forall|s: Seq<char>| pairs_map(after).contains_key(s) implies #[trigger] pairs_map(after)[s] == pairs_map(before).insert(e.source_text@, e.target_text@)[s] by {
                                    let j = choose|j: int| 0 <= j < after.len() && after[j].0 == s;
                                    lemma_lookup_at(after, j);
                                    if s != e.source_text@ {
                                        assert(before[j].0 == s);
                                        lemma_lookup_at(before, j);
                                    }
                                }
                            }
                        }
                    },
                    None => {
                        pairs.push((e.source_text.clone(), e.target_text.clone()));
                        proof {
                            let after = pair_views(pairs@);
                            assert(after =~= before.push((e.source_text@, e.target_text@)));
                            assert(pairs_map(after) =~= pairs_map(before).insert(e.source_text@, e.target_text@)) by {
                                assert forall|s: Seq<char>| #[trigger] pairs_map(after).contains_key(s) == pairs_map(before).insert(e.source_text@, e.target_text@).contains_key(s) by {
                                    if pairs_map(before).contains_key(s) {
                                        let j = choose|j: int| 0 <= j < before.len() && before[j].0 == s;
                                        assert(after[j].0 == s);
                                    }
                                    if pairs_map(after).contains_key(s) && s != e.source_text@ {
                                        let j = choose|j: int| 0 <= j < after.len() && after[j].0 == s;
                                        assert(before[j].0 == s);
                                    }
                                    if s == e.source_text@ {
                                        assert(after[before.len() as int].0 == s);
                                    }
                                }
                                assert forall|s: Seq<char>| pairs_map(after).contains_key(s) implies #[trigger] pairs_map(after)[s] == pairs_map(before).insert(e.source_text@, e.target_text@)[s] by {
                                    let j = choose|j: int| 0 <= j < after.len() && after[j].0 == s;
                                    lemma_lookup_at(after, j);
                                    if s != e.source_text@ {
                                        assert(before[j].0 == s);
                                        lemma_lookup_at(before, j);
                                    }
                                }
                            }
                        }
                    },
                }
            }
        }
        TranslationDictionary { pairs }
    }

    /// Fills targets from the dictionary: only selected entries (all when
    /// nothing is selected) and, with `only_untranslated`, only empty targets.
    /// Returns the new entries and how many targets changed.
    pub fn apply_quick(&self, entries: &[Entry], selected_keys: &[String], only_untranslated: bool) -> (r: (
        Vec<Entry>,
        usize,
    ))
        ensures
            entry_views(r.0@).len() == entries@.len(),
            forall|i: int|
                0 <= i < entries@.len() ==> #[trigger] entry_views(r.0@)[i] == quick_entry(
                    self@,
                    entries@[i]@,
                    crate::search::string_views(selected_keys@),
                    only_untranslated,
                ),
            r.1 == quick_count(
                self@,
                entry_views(entries@),
                crate::search::string_views(selected_keys@),
                only_untranslated,
                entries@.len() as int,
            ),
    {
        proof {
            use_type_invariant(self);
        }
        let ghost sel = crate::search::string_views(selected_keys@);
        let ghost ev = entry_views(entries@);
        let mut out: Vec<Entry> = Vec::new();
        let mut updated: usize = 0;
        let n = entries.len();
        for k in 0..n
            invariant
                n == entries@.len(),
                ev == entry_views(entries@),
                sel == crate::search::string_views(selected_keys@),
                keys_distinct(pair_views(self.pairs@)),
                out@.len() == k,
                updated == quick_count(self@, ev, sel, only_untranslated, k as int),
                updated <= k,
                forall|i: int| 0 <= i < k ==> #[trigger] entry_views(out@)[i] == quick_entry(self@, entries@[i]@, sel, only_untranslated),
        {
            let e = &entries[k];
            proof {
                assert(ev[k as int] == e@);
            }
            let mut selected = selected_keys.len() == 0;
            let m = selected_keys.len();
            for j in 0..m
                invariant
                    m == selected_keys@.len(),
                    sel == crate::search::string_views(selected_keys@),
                    selected == (m == 0 || exists|x: int| 0 <= x < j && sel[x] == e.key@),
            {
                if selected_keys[j] == e.key {
                    proof {
                        assert(sel[j as int] == e.key@);
                    }
                    selected = true;
                }
            }
            proof {
                if sel.contains(e.key@) {
                    let x = choose|x: int| 0 <= x < sel.len() && sel[x] == e.key@;
                    assert(m == 0 || (0 <= x < m && sel[x] == e.key@));
                }
            }
            let mut next = Entry { key: e.key.clone(), source_text: e.source_text.clone(), target_text: e.target_text.clone() };
            if selected && !(only_untranslated && !e.target_text.as_str().is_empty()) {
                match find_source(&self.pairs, &e.source_text) {
                    Some(i) => {
                        proof {
                            lemma_lookup_at(pair_views(self.pairs@), i as int);
                        }
                        if self.pairs[i].1 != e.target_text {
                            next = Entry { key: e.key.clone(), source_text: e.source_text.clone(), target_text: self.pairs[i].1.clone() };
                            updated = updated + 1;
                        }
                    },
                    None => {
                        proof {
                            if self@.contains_key(e.source_text@) {
                                let p = pair_views(self.pairs@);
                                let x = choose|x: int| 0 <= x < p.len() && p[x].0 == e.source_text@;
                                assert(p[x].0 != e.source_text@);
                            }
                        }
                    },
                }
            }
            let ghost before = out@;
            out.push(next);
            proof {
                assert(entry_views(out@) =~= entry_views(before).push(next@));
                assert(next@ == quick_entry(self@, e@, sel, only_untranslated));
            }
        }
        (out, updated)
    }
}

} // verus!
