//! A plugin's source entries: their `XTPLUGIN1` text form, and joining them
//! with a table's translations by id.

use vstd::prelude::*;
use crate::extract::{table_index, table_map, text_map};
use crate::strings::StringsFile;
use vstd::utf8::encode_utf8;
use crate::actions::{parse_u32, parse_u32_spec};
use vstd::string::StringExecFns;
use crate::extract::{decimal, push_decimal};
use crate::text::{blank, is_blank, is_whitespace, whitespace, lines_from, split_lines, push_char};

verus! {

/// A source text of a plugin, with the context it appears in.
#[derive(Debug, Clone, PartialEq, Eq)]
pub struct PluginEntry {
    pub id: u32,
    pub context: String,
    pub source_text: String,
}

#[derive(Debug, Clone, PartialEq, Eq)]
pub struct PluginFile {
    pub entries: Vec<PluginEntry>,
}

#[derive(Debug, Clone, Copy, PartialEq, Eq, Structural)]
pub enum PluginError {
    InvalidHeader,
    InvalidLine,
    InvalidId,
    DuplicateId(u32),
    InvalidField,
}

/// A plugin entry's context with the translated text of its id.
#[derive(Debug, Clone, PartialEq, Eq)]
pub struct HybridEntry {
    pub id: u32,
    pub context: String,
    pub target_text: String,
}

pub type HybridV = (u32, Seq<char>, Seq<char>);

pub open spec fn hybrid_views(s: Seq<HybridEntry>) -> Seq<HybridV> {
    s.map_values(|h: HybridEntry| (h.id, h.context@, h.target_text@))
}

/// The joined rows of the first `n` plugin entries, in plugin order.
pub open spec fn joined(pes: Seq<PluginEntry>, targets: Map<u32, Seq<char>>, n: int) -> Seq<HybridV>
    decreases n,
{
    if n <= 0 {
        Seq::empty()
    } else if targets.contains_key(pes[n - 1].id) {
        joined(pes, targets, n - 1).push((pes[n - 1].id, pes[n - 1].context@, targets[pes[n - 1].id]))
    } else {
        joined(pes, targets, n - 1)
    }
}

/// Every plugin entry whose id the table holds, with the table's text for it
/// (the last entry of the table for that id).
pub fn build_hybrid_entries(plugin: &PluginFile, strings: &StringsFile) -> (r: Vec<HybridEntry>)
    ensures
        hybrid_views(r@) == joined(plugin.entries@, table_index(strings@), plugin.entries@.len() as int),
{
    broadcast use vstd::std_specs::hash::group_hash_axioms;
    let targets = table_map(strings);
    let mut out: Vec<HybridEntry> = Vec::new();
    let n = plugin.entries.len();
    for i in 0..n
        invariant
            n == plugin.entries@.len(),
            text_map(targets) == table_index(strings@),
            hybrid_views(out@) == joined(plugin.entries@, table_index(strings@), i as int),
    {
        let e = &plugin.entries[i];
        match targets.get(&e.id) {
            Some(t) => {
                let h = HybridEntry { id: e.id, context: e.context.clone(), target_text: t.clone() };
                let ghost before = out@;
                out.push(h);
                proof {
                    assert(hybrid_views(out@) =~= hybrid_views(before).push((e.id, e.context@, t@)));
                }
            },
            None => {},
        }
    }
    out
}


/// The three `|`-separated fields of a line: the text before the first `|`,
/// between the first and second, and the rest.
pub open spec fn bar_from(s: Seq<char>, i: int) -> int
    decreases s.len() - i,
{
    if i < 0 || i >= s.len() {
        s.len() as int
    } else if s[i] == '|' {
        i
    } else {
        bar_from(s, i + 1)
    }
}

pub open spec fn fields(l: Seq<char>) -> Option<(Seq<char>, Seq<char>, Seq<char>)> {
    let a = bar_from(l, 0);
    if a >= l.len() {
        None
    } else {
        let b = bar_from(l, a + 1);
        if b >= l.len() {
            None
        } else {
            Some((l.take(a), l.subrange(a + 1, b), l.skip(b + 1)))
        }
    }
}

pub type PluginEntryV = (u32, Seq<char>, Seq<char>);

pub open spec fn plugin_entry_views(s: Seq<PluginEntry>) -> Seq<PluginEntryV> {
    s.map_values(|e: PluginEntry| (e.id, e.context@, e.source_text@))
}

/// The entries of the lines `ls[1..n)`: blank lines are skipped, every other
/// line is `id|context|source`.
pub open spec fn entry_lines(ls: Seq<Seq<char>>, n: int) -> Result<Seq<PluginEntryV>, PluginError>
    decreases n,
{
    if n <= 1 {
        Ok(Seq::empty())
    } else {
        match entry_lines(ls, n - 1) {
            Err(e) => Err(e),
            Ok(prev) => {
                let l = ls[n - 1];
                if blank(l) {
                    Ok(prev)
                } else {
                    match fields(l) {
                        None => Err(PluginError::InvalidLine),
                        Some((id, ctx, src)) => match parse_u32_spec(encode_utf8(id)) {
                            None => Err(PluginError::InvalidId),
                            Some(v) => Ok(prev.push((v, ctx, src))),
                        },
                    }
                }
            },
        }
    }
}


/// What reading a plugin text yields.
pub open spec fn plugin_text(input: Seq<char>) -> Result<Seq<PluginEntryV>, PluginError> {
    let ls = lines_from(input, 0);
    if ls.len() == 0 || trimmed(ls[0]) != "XTPLUGIN1"@ {
        Err(PluginError::InvalidHeader)
    } else {
        entry_lines(ls, ls.len() as int)
    }
}

fn split_fields(line: &str) -> (r: Option<(String, String, String)>)
    ensures
        match fields(line@) {
            Some((a, b, c)) => r matches Some((x, y, z)) && x@ == a && y@ == b && z@ == c,
            None => r is None,
        },
{
    let mut a = String::new();
    let mut b = String::new();
    let mut c = String::new();
    let mut bars: usize = 0;
    let ghost mut i1: int = 0;
    let ghost mut i2: int = 0;
    for ch in it: line.chars()
        invariant
            it.seq() == line@,
            bars <= 2,
            bars == 0 ==> a@ == line@.take(it.index()) && bar_from(line@, 0) == bar_from(line@, it.index()) && b@.len() == 0 && c@.len() == 0,
            bars >= 1 ==> 0 <= i1 < it.index() && bar_from(line@, 0) == i1 && a@ == line@.take(i1),
            bars == 1 ==> b@ == line@.subrange(i1 + 1, it.index()) && bar_from(line@, i1 + 1) == bar_from(line@, it.index()) && c@.len() == 0,
            bars == 2 ==> i1 < i2 < it.index() && bar_from(line@, i1 + 1) == i2 && b@ == line@.subrange(i1 + 1, i2) && c@ == line@.subrange(i2 + 1, it.index()),
    {
        let ghost k = it.index();
        proof {
            assert(line@[k] == ch);
        }
        if bars == 2 {
            push_char(&mut c, ch);
            proof {
                assert(c@ =~= line@.subrange(i2 + 1, k + 1));
            }
        } else if ch == '|' {
            proof {
                if bars == 0 {
                    i1 = k;
                } else {
                    i2 = k;
                }
            }
            bars = bars + 1;
            proof {
                assert(line@.subrange(i1 + 1, k + 1).len() == k - i1);
                if bars == 1 {
                    assert(b@ =~= line@.subrange(i1 + 1, k + 1));
                } else {
                    assert(c@ =~= line@.subrange(i2 + 1, k + 1));
                }
            }
        } else if bars == 0 {
            push_char(&mut a, ch);
            proof {
                assert(a@ =~= line@.take(k + 1));
            }
        } else {
            push_char(&mut b, ch);
            proof {
                assert(b@ =~= line@.subrange(i1 + 1, k + 1));
            }
        }
    }
    proof {
        if bars == 2 {
            assert(line@.skip(i2 + 1) =~= line@.subrange(i2 + 1, line@.len() as int));
        }
    }
    if bars < 2 {
        return None;
    }
    Some((a, b, c))
}

/// The first index from `i` that is not white space, or the length.
pub open spec fn lead(l: Seq<char>, i: int) -> int
    decreases l.len() - i,
{
    if i < 0 || i >= l.len() || !whitespace(l[i]) {
        if i < 0 { 0 } else if i > l.len() { l.len() as int } else { i }
    } else {
        lead(l, i + 1)
    }
}

/// Where trailing white space starts, scanning down from `j` but not below `a`.
pub open spec fn trail(l: Seq<char>, a: int, j: int) -> int
    decreases j - a,
{
    if j <= a || j > l.len() || !whitespace(l[j - 1]) {
        j
    } else {
        trail(l, a, j - 1)
    }
}

/// A line without leading and trailing white space.
pub open spec fn trimmed(l: Seq<char>) -> Seq<char> {
    let a = lead(l, 0);
    l.subrange(a, trail(l, a, l.len() as int))
}

fn header_ok(line: &str) -> (r: bool)
    ensures
        r == (trimmed(line@) == "XTPLUGIN1"@),
{
    let chars = crate::text::chars_of(line);
    let n = chars.len();
    let mut a: usize = 0;
    while a < n && is_whitespace(chars[a])
        invariant
            n == line@.len(),
            chars@ == line@,
            a <= n,
            lead(line@, 0) == lead(line@, a as int),
        decreases n - a,
    {
        a = a + 1;
    }
    let mut b: usize = n;
    while b > a && is_whitespace(chars[b - 1])
        invariant
            n == line@.len(),
            chars@ == line@,
            a <= b <= n,
            lead(line@, 0) == a,
            trail(line@, a as int, n as int) == trail(line@, a as int, b as int),
        decreases b,
    {
        b = b - 1;
    }
    proof {
        reveal_strlit("XTPLUGIN1");
    }
    let want: [char; 9] = ['X', 'T', 'P', 'L', 'U', 'G', 'I', 'N', '1'];
    proof {
        assert("XTPLUGIN1"@ =~= want@);
        assert(trimmed(line@) == line@.subrange(a as int, b as int));
    }
    if b - a != 9 {
        return false;
    }
    let mut same = true;
    for k in 0..9usize
        invariant
            b - a == 9,
            b <= n,
            n == line@.len(),
            chars@ == line@,
            "XTPLUGIN1"@ == want@,
            same == forall|x: int| 0 <= x < k ==> line@[a + x] == want@[x],
    {
        if chars[a + k] != want[k] {
            proof {
                assert(line@.subrange(a as int, b as int)[k as int] != want@[k as int]);
            }
            same = false;
        }
    }
    proof {
        if same {
            assert(line@.subrange(a as int, b as int) =~= "XTPLUGIN1"@);
        }
    }
    same
}

/// Reads a plugin text: a `XTPLUGIN1` header line, then `id|context|source`
/// lines; blank lines are skipped.
pub fn read_plugin(input: &str) -> (r: Result<PluginFile, PluginError>)
    ensures
        match plugin_text(input@) {
            Ok(v) => r matches Ok(f) && plugin_entry_views(f.entries@) == v,
            Err(e) => r == Err::<PluginFile, PluginError>(e),
        },
{
    let lines = split_lines(input);
    let ghost ls = lines_from(input@, 0);
    if lines.len() == 0 {
        return Err(PluginError::InvalidHeader);
    }
    proof {
        assert(ls[0] == lines@[0]@);
    }
    if !header_ok(lines[0].as_str()) {
        return Err(PluginError::InvalidHeader);
    }
    let mut entries: Vec<PluginEntry> = Vec::new();
    let n = lines.len();
    proof {
        assert(plugin_entry_views(entries@) =~= Seq::<PluginEntryV>::empty());
    }
    for i in 1..n
        invariant
            n == lines@.len(),
            ls == lines_from(input@, 0),
            lines@.map_values(|x: String| x@) == ls,
            ls.len() > 0,
            trimmed(ls[0]) == "XTPLUGIN1"@,
            entry_lines(ls, i as int) == Ok::<Seq<PluginEntryV>, PluginError>(plugin_entry_views(entries@)),
    {
        proof {
            assert(ls[i as int] == lines@[i as int]@);
        }
        let line = lines[i].as_str();
        if !is_blank(line) {
            let (id_text, context, source_text) = match split_fields(line) {
                Some(f) => f,
                None => {
                    proof {
                        lemma_entry_lines_error(ls, i + 1, n as int);
                    }
                    return Err(PluginError::InvalidLine);
                },
            };
            let id = match parse_u32(id_text.as_str().as_bytes()) {
                Some(v) => v,
                None => {
                    proof {
                        lemma_entry_lines_error(ls, i + 1, n as int);
                    }
                    return Err(PluginError::InvalidId);
                },
            };
            let ghost before = entries@;
            let e = PluginEntry { id, context, source_text };
            entries.push(e);
            proof {
                assert(plugin_entry_views(entries@) =~= plugin_entry_views(before).push((e.id, e.context@, e.source_text@)));
            }
        }
    }
    Ok(PluginFile { entries })
}

proof fn lemma_entry_lines_error(ls: Seq<Seq<char>>, m: int, n: int)
    requires
        1 < m <= n,
        entry_lines(ls, m) is Err,
    ensures
        entry_lines(ls, n) == entry_lines(ls, m),
    decreases n - m,
{
    if n > m {
        lemma_entry_lines_error(ls, m, n - 1);
    }
}


/// The text holds a `|`.
pub open spec fn has_bar(s: Seq<char>) -> bool {
    exists|k: int| 0 <= k < s.len() && s[k] == '|'
}

/// The context or the source text holds a `|`.
pub open spec fn entry_has_bar(e: PluginEntryV) -> bool {
    has_bar(e.1) || has_bar(e.2)
}

/// Two entries share id `d`.
pub open spec fn duplicated(es: Seq<PluginEntryV>, d: u32) -> bool {
    exists|i: int, j: int| 0 <= i < j < es.len() && es[i].0 == d && es[j].0 == d
}

pub open spec fn entry_line(e: PluginEntryV) -> Seq<char> {
    decimal(e.0 as nat) + seq!['|'] + e.1 + seq!['|'] + e.2 + seq!['\n']
}

pub open spec fn lines_in_order(es: Seq<PluginEntryV>, p: Seq<int>, n: int) -> Seq<char>
    decreases n,
{
    if n <= 0 {
        Seq::empty()
    } else {
        lines_in_order(es, p, n - 1) + entry_line(es[p[n - 1]])
    }
}

/// What writing a plugin text yields.
pub open spec fn write_plugin_result(es: Seq<PluginEntryV>, r: Result<String, PluginError>) -> bool {
    match r {
        Err(PluginError::DuplicateId(d)) => duplicated(es, d) && forall|d2: u32| d2 < d ==> !duplicated(es, d2),
        Err(PluginError::InvalidField) => (forall|d: u32| !duplicated(es, d)) && exists|i: int|
            0 <= i < es.len() && #[trigger] entry_has_bar(es[i]),
        Err(_) => false,
        Ok(t) => (forall|d: u32| !duplicated(es, d)) && (forall|i: int|
            0 <= i < es.len() ==> !#[trigger] entry_has_bar(es[i])) && exists|p: Seq<int>|
            #![trigger p.len()]
            p.len() == es.len() && (forall|j: int| 0 <= j < p.len() ==> 0 <= #[trigger] p[j] < p.len())
                && (forall|a: int, b: int| 0 <= a < b < p.len() ==> es[p[a]].0 < es[p[b]].0)
                && t@ == "XTPLUGIN1\n"@ + lines_in_order(es, p, es.len() as int),
    }
}

fn contains_bar(s: &String) -> (r: bool)
    ensures
        r == has_bar(s@),
{
    for c in it: s.as_str().chars()
        invariant
            it.seq() == s@,
            forall|k: int| 0 <= k < it.index() ==> s@[k] != '|',
    {
        if c == '|' {
            proof {
                assert(s@[it.index()] == '|');
            }
            return true;
        }
    }
    false
}

/// Writes a plugin text: the header, then one `id|context|source` line per
/// entry in ascending id order. Entries sharing an id fail with the smallest
/// such id; a context or source holding `|` fails with `InvalidField`.
pub fn write_plugin(file: &PluginFile) -> (r: Result<String, PluginError>)
    ensures
        write_plugin_result(plugin_entry_views(file.entries@), r),
{
    let ghost es = plugin_entry_views(file.entries@);
    let n = file.entries.len();
    let mut dup: Option<u32> = None;
    for i in 0..n
        invariant
            n == file.entries@.len(),
            es == plugin_entry_views(file.entries@),
            dup matches Some(d) ==> duplicated(es, d),
            forall|a: int, b: int| #![trigger es[a], es[b]]
                0 <= a < i && a < b < n && es[a].0 == es[b].0 ==> (dup matches Some(d) && d <= es[a].0),
    {
        for j in i + 1..n
            invariant
                n == file.entries@.len(),
                i < n,
                es == plugin_entry_views(file.entries@),
                dup matches Some(d) ==> duplicated(es, d),
                forall|a: int, b: int| #![trigger es[a], es[b]]
                    ((0 <= a < i && a < b < n) || (a == i && i < b < j)) && es[a].0 == es[b].0 ==> (dup matches Some(d) && d <= es[a].0),
        {
            if file.entries[i].id == file.entries[j].id {
                let d = file.entries[i].id;
                proof {
                    assert(es[i as int].0 == d && es[j as int].0 == d);
                    assert(duplicated(es, d));
                }
                match dup {
                    Some(x) => {
                        if d < x {
                            dup = Some(d);
                        }
                    },
                    None => {
                        dup = Some(d);
                    },
                }
            }
        }
    }
    if let Some(d) = dup {
        proof {
            assert forall|d2: u32| d2 < d implies !duplicated(es, d2) by {
                if duplicated(es, d2) {
                    let (a, b) = choose|a: int, b: int| 0 <= a < b < es.len() && es[a].0 == d2 && es[b].0 == d2;
                    assert(es[a].0 == es[b].0);
                }
            }
        }
        return Err(PluginError::DuplicateId(d));
    }
    proof {
        assert forall|d: u32| !duplicated(es, d) by {
            if duplicated(es, d) {
                let (a, b) = choose|a: int, b: int| 0 <= a < b < es.len() && es[a].0 == d && es[b].0 == d;
                assert(es[a].0 == es[b].0);
            }
        }
    }
    let mut i: usize = 0;
    while i < n
        invariant
            n == file.entries@.len(),
            i <= n,
            es == plugin_entry_views(file.entries@),
            forall|d: u32| !duplicated(es, d),
            forall|k: int| 0 <= k < i ==> !#[trigger] entry_has_bar(es[k]),
        decreases n - i,
    {
        proof {
            assert(es[i as int] == (file.entries@[i as int].id, file.entries@[i as int].context@, file.entries@[i as int].source_text@));
        }
        let bad_context = contains_bar(&file.entries[i].context);
        let bad_source = contains_bar(&file.entries[i].source_text);
        if bad_context || bad_source {
            proof {
                assert(entry_has_bar(es[i as int]));
                assert(es.len() == n);
            }
            return Err(PluginError::InvalidField);
        }
        proof {
            assert(!entry_has_bar(es[i as int]));
        }
        i = i + 1;
    }
    let mut used: Vec<bool> = Vec::new();
    for i in 0..n
        invariant
            used@.len() == i,
            forall|k: int| 0 <= k < i ==> !#[trigger] used@[k],
    {
        used.push(false);
    }
    let mut out = "XTPLUGIN1\n".to_owned();
    let ghost mut p: Seq<int> = Seq::empty();
    for round in 0..n
        invariant
            n == file.entries@.len(),
            es == plugin_entry_views(file.entries@),
            forall|d: u32| !duplicated(es, d),
            used@.len() == n,
            p.len() == round,
            forall|j: int| 0 <= j < p.len() ==> 0 <= #[trigger] p[j] < n,
            forall|k: int| 0 <= k < n ==> (#[trigger] used@[k] <==> p.contains(k)),
            forall|a: int, b: int| 0 <= a < b < p.len() ==> es[p[a]].0 < es[p[b]].0,
            forall|j: int, k: int| 0 <= j < p.len() && 0 <= k < n && !used@[k] ==> es[p[j]].0 < es[k].0,
            out@ == "XTPLUGIN1\n"@ + lines_in_order(es, p, round as int),
    {
        proof {
            if forall|k: int| 0 <= k < n ==> used@[k] {
                crate::heuristics::lemma_pigeon(p, n as int);
                let k = choose|k: int| 0 <= k < n && !#[trigger] p.contains(k);
                assert(used@[k]);
            }
        }
        let mut best: usize = n;
        for k in 0..n
            invariant
                n == file.entries@.len(),
                es == plugin_entry_views(file.entries@),
                used@.len() == n,
                best == n || (best < k && !used@[best as int]),
                best == n ==> forall|x: int| 0 <= x < k ==> used@[x],
                best < n ==> forall|x: int| 0 <= x < k && !used@[x] ==> es[best as int].0 <= es[x].0,
        {
            proof {
                assert(es[k as int].0 == file.entries@[k as int].id);
                if best < n {
                    assert(es[best as int].0 == file.entries@[best as int].id);
                }
            }
            if !used[k] {
                if best == n || file.entries[k].id < file.entries[best].id {
                    best = k;
                }
            }
        }
        proof {
            if best == n {
                let k = choose|k: int| 0 <= k < n && !used@[k];
                assert(used@[k]);
            }
            assert forall|x: int| 0 <= x < n && !used@[x] && x != best implies es[best as int].0 < es[x].0 by {
                assert(es[best as int].0 <= es[x].0);
                if es[best as int].0 == es[x].0 {
                    if best < x {
                        assert(duplicated(es, es[x].0));
                    } else {
                        assert(duplicated(es, es[x].0));
                    }
                }
            }
        }
        let ghost pre_used = used@;
        used.set(best, true);
        let e = &file.entries[best];
        let ghost before = out@;
        push_decimal(&mut out, e.id as usize);
        crate::text::push_char(&mut out, '|');
        out.append(e.context.as_str());
        crate::text::push_char(&mut out, '|');
        out.append(e.source_text.as_str());
        crate::text::push_char(&mut out, '\n');
        proof {
            let old_p = p;
            p = p.push(best as int);
            assert(es[best as int] == (e.id, e.context@, e.source_text@));
            assert(out@ =~= before + entry_line(es[best as int]));
            assert(lines_in_order(es, p, round + 1) == lines_in_order(es, old_p, round as int) + entry_line(es[best as int])) by {
                assert(lines_in_order(es, p, round as int) == lines_in_order(es, old_p, round as int)) by {
                    lemma_lines_prefix(es, old_p, p, round as int);
                }
            }
            assert forall|k: int| 0 <= k < n implies (#[trigger] used@[k] <==> p.contains(k)) by {
                if k == best {
                    assert(p[p.len() - 1] == k);
                } else {
                    if p.contains(k) {
                        let j = choose|j: int| 0 <= j < p.len() && p[j] == k;
                        assert(old_p[j] == k);
                    }
                    if old_p.contains(k) {
                        let j = choose|j: int| 0 <= j < old_p.len() && old_p[j] == k;
                        assert(p[j] == k);
                    }
                }
            }
            assert forall|a: int, b: int| 0 <= a < b < p.len() implies es[p[a]].0 < es[p[b]].0 by {
                if b == p.len() - 1 {
                    assert(old_p[a] == p[a]);
                } else {
                    assert(old_p[a] == p[a] && old_p[b] == p[b]);
                }
            }
            assert forall|j: int, k: int| 0 <= j < p.len() && 0 <= k < n && !used@[k] implies es[p[j]].0 < es[k].0 by {
                if j < old_p.len() {
                    assert(old_p[j] == p[j]);
                }
            }
        }
    }
    proof {
        assert(p.len() == es.len());
    }
    Ok(out)
}

proof fn lemma_lines_prefix(es: Seq<PluginEntryV>, p: Seq<int>, q: Seq<int>, n: int)
    requires
        0 <= n <= p.len(),
        n <= q.len(),
        forall|j: int| 0 <= j < n ==> p[j] == q[j],
    ensures
        lines_in_order(es, q, n) == lines_in_order(es, p, n),
    decreases n,
{
    if n > 0 {
        lemma_lines_prefix(es, p, q, n - 1);
    }
}

} // verus!
