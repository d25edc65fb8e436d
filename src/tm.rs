//! Exact-match translation memory over a string table.

use vstd::prelude::*;
use crate::strings::{EntryView, StringsFile};
use crate::search::string_views;

verus! {

/// Each distinct text, with one copy of it for every entry that holds it.
#[derive(Debug)]
pub struct TranslationMemory {
    exact: Vec<(String, Vec<String>)>,
}

pub type MemoryV = Seq<(Seq<char>, Seq<Seq<char>>)>;

pub open spec fn bucket_views(v: Seq<(String, Vec<String>)>) -> MemoryV {
    v.map_values(|b: (String, Vec<String>)| (b.0@, string_views(b.1@)))
}

impl View for TranslationMemory {
    type V = MemoryV;

    closed spec fn view(&self) -> MemoryV {
        bucket_views(self.exact@)
    }
}

/// The list kept under text `s`: that of the first bucket keyed `s`.
pub open spec fn memory_lookup(m: MemoryV, s: Seq<char>, n: int) -> Option<Seq<Seq<char>>>
    decreases n,
{
    if n <= 0 {
        None
    } else {
        match memory_lookup(m, s, n - 1) {
            Some(l) => Some(l),
            None => if m[n - 1].0 == s {
                Some(m[n - 1].1)
            } else {
                None
            },
        }
    }
}

/// How many of the first `n` entries hold text `s`.
pub open spec fn text_count(es: Seq<EntryView>, s: Seq<char>, n: int) -> nat
    decreases n,
{
    if n <= 0 {
        0
    } else {
        text_count(es, s, n - 1) + if es[n - 1].1 == s {
            1nat
        } else {
            0nat
        }
    }
}

/// What the memory built from entries `es` answers for `s`.
pub open spec fn expected_matches(es: Seq<EntryView>, s: Seq<char>, n: int) -> Option<Seq<Seq<char>>> {
    if text_count(es, s, n) == 0 {
        None
    } else {
        Some(Seq::new(text_count(es, s, n), |_i: int| s))
    }
}

proof fn lemma_lookup_unchanged_update(m: MemoryV, q: int, x: (Seq<char>, Seq<Seq<char>>), s: Seq<char>, n: int)
    requires
        0 <= q < m.len(),
        n <= m.len(),
        m[q].0 == x.0,
        x.0 != s,
    ensures
        memory_lookup(m.update(q, x), s, n) == memory_lookup(m, s, n),
    decreases n,
{
    if n > 0 {
        lemma_lookup_unchanged_update(m, q, x, s, n - 1);
    }
}

proof fn lemma_lookup_prefix(m: MemoryV, x: (Seq<char>, Seq<Seq<char>>), s: Seq<char>, n: int)
    requires
        0 <= n <= m.len(),
    ensures
        memory_lookup(m.push(x), s, n) == memory_lookup(m, s, n),
    decreases n,
{
    if n > 0 {
        lemma_lookup_prefix(m, x, s, n - 1);
    }
}

proof fn lemma_lookup_first(m: MemoryV, s: Seq<char>, q: int, n: int)
    requires
        0 <= q < n <= m.len(),
        m[q].0 == s,
        memory_lookup(m, s, q) is None,
    ensures
        memory_lookup(m, s, n) == Some(m[q].1),
    decreases n,
{
    if n > q + 1 {
        lemma_lookup_first(m, s, q, n - 1);
    }
}

proof fn lemma_lookup_update_hit(m: MemoryV, q: int, l: Seq<Seq<char>>, s: Seq<char>, n: int)
    requires
        0 <= q < n <= m.len(),
        m[q].0 == s,
        memory_lookup(m, s, q) is None,
    ensures
        memory_lookup(m.update(q, (s, l)), s, n) == Some(l),
{
    let m2 = m.update(q, (s, l));
    assert(memory_lookup(m2, s, q) == memory_lookup(m, s, q)) by {
        lemma_lookup_same_below(m, m2, s, q);
    }
    lemma_lookup_first(m2, s, q, n);
}

proof fn lemma_lookup_same_below(m: MemoryV, m2: MemoryV, s: Seq<char>, n: int)
    requires
        0 <= n <= m.len(),
        n <= m2.len(),
        forall|i: int| 0 <= i < n ==> m[i] == m2[i],
    ensures
        memory_lookup(m2, s, n) == memory_lookup(m, s, n),
    decreases n,
{
    if n > 0 {
        lemma_lookup_same_below(m, m2, s, n - 1);
    }
}

fn find_bucket(exact: &Vec<(String, Vec<String>)>, s: &String) -> (r: Option<usize>)
    ensures
        r matches Some(q) ==> q < exact@.len() && bucket_views(exact@)[q as int].0 == s@ && memory_lookup(
            bucket_views(exact@),
            s@,
            q as int,
        ) is None,
        r is None ==> memory_lookup(bucket_views(exact@), s@, exact@.len() as int) is None,
{
    let n = exact.len();
    let mut q: usize = 0;
    while q < n
        invariant
            n == exact@.len(),
            q <= n,
            memory_lookup(bucket_views(exact@), s@, q as int) is None,
        decreases n - q,
    {
        if exact[q].0 == *s {
            return Some(q);
        }
        q = q + 1;
    }
    None
}

impl TranslationMemory {
    /// Groups a table's texts: every text maps to one copy per entry holding it.
    pub fn from_strings(file: &StringsFile) -> (tm: Self)
        ensures
            forall|s: Seq<char>| #[trigger] memory_lookup(tm@, s, tm@.len() as int) == expected_matches(file@, s, file@.len() as int),
    {
        let mut exact: Vec<(String, Vec<String>)> = Vec::new();
        let n = file.entries.len();
        for i in 0..n
            invariant
                n == file.entries@.len(),
                forall|s: Seq<char>| #[trigger] memory_lookup(bucket_views(exact@), s, exact@.len() as int)
                    == expected_matches(file@, s, i as int),
        {
            let text = &file.entries[i].text;
            let ghost m = bucket_views(exact@);
            let ghost t = text@;
            proof {
                assert(file@[i as int].1 == t);
            }
            match find_bucket(&exact, text) {
                Some(q) => {
                    let ghost before = exact@;
                    let (key, mut list) = exact.remove(q);
                    let ghost old_list = list@;
                    list.push(text.clone());
                    proof {
                        assert(string_views(list@) =~= string_views(old_list).push(t));
                    }
                    let ghost bucket = (key, list);
                    exact.insert(q, (key, list));
                    proof {
                        assert(exact@ =~= before.update(q as int, bucket));
                        let m2 = bucket_views(exact@);
                        let old_l = m[q as int].1;
                        assert(old_l == string_views(old_list));
                        assert(m2 =~= m.update(q as int, (t, old_l.push(t))));
                        assert forall|s: Seq<char>| #[trigger] memory_lookup(m2, s, m2.len() as int)
                            == expected_matches(file@, s, i + 1) by {
                            if s == t {
                                lemma_lookup_update_hit(m, q as int, old_l.push(t), t, m.len() as int);
                                lemma_lookup_first(m, t, q as int, m.len() as int);
                                assert(expected_matches(file@, t, i as int) == Some(old_l));
                                assert(old_l.push(t) =~= Seq::new(text_count(file@, t, i + 1), |_i: int| t));
                            } else {
                                lemma_lookup_unchanged_update(m, q as int, (t, old_l.push(t)), s, m.len() as int);
                            }
                        }
                    }
                },
                None => {
                    let mut list: Vec<String> = Vec::new();
                    list.push(text.clone());
                    proof {
                        assert(string_views(list@) =~= seq![t]);
                    }
                    exact.push((text.clone(), list));
                    proof {
                        let m2 = bucket_views(exact@);
                        assert(m2 =~= m.push((t, seq![t])));
                        assert forall|s: Seq<char>| #[trigger] memory_lookup(m2, s, m2.len() as int)
                            == expected_matches(file@, s, i + 1) by {
                            lemma_lookup_prefix(m, (t, seq![t]), s, m.len() as int);
                            if s == t {
                                assert(expected_matches(file@, t, i as int) is None);
                                assert(seq![t] =~= Seq::new(text_count(file@, t, i + 1), |_i: int| t));
                            }
                        }
                    }
                },
            }
        }
        TranslationMemory { exact }
    }

    /// The copies kept under `source_text`, if any entry held it.
    pub fn exact_match(&self, source_text: &str) -> (r: Option<&[String]>)
        ensures
            match memory_lookup(self@, source_text@, self@.len() as int) {
                Some(l) => r matches Some(v) && string_views(v@) == l,
                None => r is None,
            },
    {
        let key = source_text.to_owned();
        match find_bucket(&self.exact, &key) {
            Some(q) => {
                proof {
                    lemma_lookup_first(bucket_views(self.exact@), key@, q as int, self.exact@.len() as int);
                }
                Some(self.exact[q].1.as_slice())
            },
            None => None,
        }
    }
}

} // verus!
