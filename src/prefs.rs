//! Dictionary preferences: source and target language and the tables'
//! directory, stored as `key=value` lines.

use vstd::prelude::*;
use vstd::string::StringExecFns;
use vstd::utf8::{valid_utf8, decode_utf8, encode_utf8};
use crate::actions::{parse_u32, parse_u32_spec};
use crate::extract::{decimal, push_decimal};
use crate::text::{blank, is_blank, lines_from, split_lines, utf8_to_string};
use crate::workspace::{escaped_value, push_escaped, unescape_bytes, unescaped_from};

verus! {

#[derive(Clone, Debug, PartialEq, Eq)]
pub struct DictionaryPrefs {
    pub source_lang: String,
    pub target_lang: String,
    pub root: String,
}

impl Default for DictionaryPrefs {
    fn default() -> (r: Self)
        ensures
            r.source_lang@ == "english"@,
            r.target_lang@ == "japanese"@,
            r.root@ == "./Data/Strings/Translations"@,
    {
        DictionaryPrefs {
            source_lang: "english".to_owned(),
            target_lang: "japanese".to_owned(),
            root: "./Data/Strings/Translations".to_owned(),
        }
    }
}

/// The stored form of the preferences.
pub open spec fn prefs_text(src: Seq<char>, tgt: Seq<char>, root: Seq<char>) -> Seq<char> {
    "version=1\nsource_lang="@ + escaped_value(src) + "\ntarget_lang="@ + escaped_value(tgt) + "\nroot="@
        + escaped_value(root)
}

pub fn serialize_dictionary_prefs(prefs: &DictionaryPrefs) -> (r: String)
    ensures
        r@ == prefs_text(prefs.source_lang@, prefs.target_lang@, prefs.root@),
{
    let mut out = "version=1\nsource_lang=".to_owned();
    push_escaped(&mut out, prefs.source_lang.as_str());
    out.append("\ntarget_lang=");
    push_escaped(&mut out, prefs.target_lang.as_str());
    out.append("\nroot=");
    push_escaped(&mut out, prefs.root.as_str());
    proof {
        assert(out@ =~= prefs_text(prefs.source_lang@, prefs.target_lang@, prefs.root@));
    }
    out
}

/// A value's text, or the message for a malformed one.
pub open spec fn pref_value(v: Seq<char>) -> Result<Seq<char>, Seq<char>> {
    match unescaped_from(encode_utf8(v), 0) {
        None => Err("辞書設定エスケープが不正です"@),
        Some(b) => if valid_utf8(b) {
            Ok(decode_utf8(b))
        } else {
            Err("辞書設定文字列が不正です"@)
        },
    }
}

fn unescape_pref_value(value: &str) -> (r: Result<String, String>)
    ensures
        match r {
            Ok(s) => pref_value(value@) == Ok::<Seq<char>, Seq<char>>(s@),
            Err(m) => pref_value(value@) == Err::<Seq<char>, Seq<char>>(m@),
        },
{
    match unescape_bytes(value) {
        None => Err("辞書設定エスケープが不正です".to_owned()),
        Some(b) => match utf8_to_string(b.as_slice()) {
            Some(s) => Ok(s),
            None => Err("辞書設定文字列が不正です".to_owned()),
        },
    }
}

/// The first `=` of a line from `i`, or the length.
pub open spec fn eq_at(l: Seq<char>, i: int) -> int
    decreases l.len() - i,
{
    if i < 0 || i >= l.len() {
        l.len() as int
    } else if l[i] == '=' {
        i
    } else {
        eq_at(l, i + 1)
    }
}

/// Version seen, source, target, root.
pub type PrefsV = (Option<u32>, Seq<char>, Seq<char>, Seq<char>);

pub open spec fn prefs_step(st: PrefsV, l: Seq<char>) -> Result<PrefsV, Seq<char>> {
    let k = eq_at(l, 0);
    if blank(l) {
        Ok(st)
    } else if k >= l.len() {
        Err("辞書設定フォーマットが不正です"@)
    } else {
        let key = l.take(k);
        let v = l.skip(k + 1);
        if key == "version"@ {
            match parse_u32_spec(encode_utf8(v)) {
                Some(n) => Ok((Some(n), st.1, st.2, st.3)),
                None => Err("辞書設定versionが不正です"@),
            }
        } else if key == "source_lang"@ {
            match pref_value(v) {
                Ok(x) => Ok((st.0, x, st.2, st.3)),
                Err(m) => Err(m),
            }
        } else if key == "target_lang"@ {
            match pref_value(v) {
                Ok(x) => Ok((st.0, st.1, x, st.3)),
                Err(m) => Err(m),
            }
        } else if key == "root"@ {
            match pref_value(v) {
                Ok(x) => Ok((st.0, st.1, st.2, x)),
                Err(m) => Err(m),
            }
        } else {
            Ok(st)
        }
    }
}

pub open spec fn prefs_lines(ls: Seq<Seq<char>>, n: int) -> Result<PrefsV, Seq<char>>
    decreases n,
{
    if n <= 0 {
        Ok((None, "english"@, "japanese"@, "./Data/Strings/Translations"@))
    } else {
        match prefs_lines(ls, n - 1) {
            Err(m) => Err(m),
            Ok(st) => prefs_step(st, ls[n - 1]),
        }
    }
}

/// What reading stored preferences yields: the fields, or a message.
pub open spec fn prefs_of(content: Seq<char>) -> Result<(Seq<char>, Seq<char>, Seq<char>), Seq<char>> {
    let ls = lines_from(content, 0);
    match prefs_lines(ls, ls.len() as int) {
        Err(m) => Err(m),
        Ok(st) => match st.0 {
            None => Err("辞書設定versionがありません"@),
            Some(v) => if v == 1 {
                Ok((st.1, st.2, st.3))
            } else {
                Err("未対応の辞書設定version: "@ + decimal(v as nat))
            },
        },
    }
}

fn split_once_eq(line: &str) -> (r: Option<(String, String)>)
    ensures
        eq_at(line@, 0) < line@.len() ==> (r matches Some((k, v)) && k@ == line@.take(eq_at(line@, 0)) && v@ == line@.skip(eq_at(line@, 0) + 1)),
        eq_at(line@, 0) >= line@.len() ==> r is None,
{
    let mut key = String::new();
    let mut value = String::new();
    let mut found = false;
    let ghost mut at: int = 0;
    for c in it: line.chars()
        invariant
            it.seq() == line@,
            !found ==> key@ == line@.take(it.index()) && eq_at(line@, 0) == eq_at(line@, it.index()) && value@ == Seq::<char>::empty(),
            found ==> 0 <= at < it.index() && eq_at(line@, 0) == at && key@ == line@.take(at) && value@ == line@.subrange(at + 1, it.index()),
    {
        let ghost k = it.index();
        proof {
            assert(line@[k] == c);
        }
        if found {
            crate::text::push_char(&mut value, c);
            proof {
                assert(value@ =~= line@.subrange(at + 1, k + 1));
            }
        } else if c == '=' {
            found = true;
            proof {
                at = k;
                assert(value@ =~= line@.subrange(at + 1, k + 1));
            }
        } else {
            crate::text::push_char(&mut key, c);
            proof {
                assert(key@ =~= line@.take(k + 1));
            }
        }
    }
    proof {
        if found {
            assert(line@.skip(at + 1) =~= line@.subrange(at + 1, line@.len() as int));
        }
    }
    if !found {
        return None;
    }
    Some((key, value))
}

fn same(a: &String, b: &str) -> (r: bool)
    ensures
        r == (a@ == b@),
{
    *a == b.to_owned()
}

/// Reads stored preferences; fields not given keep their defaults, and the
/// version must be 1.
pub fn parse_dictionary_prefs(content: &str) -> (r: Result<DictionaryPrefs, String>)
    ensures
        match prefs_of(content@) {
            Ok(v) => r matches Ok(p) && p.source_lang@ == v.0 && p.target_lang@ == v.1 && p.root@ == v.2,
            Err(m) => r matches Err(x) && x@ == m,
        },
{
    let lines = split_lines(content);
    let ghost ls = lines_from(content@, 0);
    let mut out = DictionaryPrefs::default();
    let mut version: Option<u32> = None;
    let n = lines.len();
    for i in 0..n
        invariant
            n == lines@.len(),
            ls == lines_from(content@, 0),
            lines@.map_values(|x: String| x@) == ls,
            prefs_lines(ls, i as int) == Ok::<PrefsV, Seq<char>>((version, out.source_lang@, out.target_lang@, out.root@)),
    {
        let line = lines[i].as_str();
        proof {
            assert(ls[i as int] == line@);
        }
        if !is_blank(line) {
            let (key, value) = match split_once_eq(line) {
                Some(kv) => kv,
                None => {
                    proof {
                        lemma_prefs_error(ls, i + 1, n as int);
                    }
                    return Err("辞書設定フォーマットが不正です".to_owned());
                },
            };
            if same(&key, "version") {
                match parse_u32(value.as_str().as_bytes()) {
                    Some(v) => {
                        version = Some(v);
                    },
                    None => {
                        proof {
                            lemma_prefs_error(ls, i + 1, n as int);
                        }
                        return Err("辞書設定versionが不正です".to_owned());
                    },
                }
            } else if same(&key, "source_lang") || same(&key, "target_lang") || same(&key, "root") {
                let x = match unescape_pref_value(value.as_str()) {
                    Ok(x) => x,
                    Err(m) => {
                        proof {
                            lemma_prefs_error(ls, i + 1, n as int);
                        }
                        return Err(m);
                    },
                };
                if same(&key, "source_lang") {
                    out.source_lang = x;
                } else if same(&key, "target_lang") {
                    out.target_lang = x;
                } else {
                    out.root = x;
                }
            }
        }
    }
    match version {
        None => Err("辞書設定versionがありません".to_owned()),
        Some(v) => {
            if v == 1 {
                Ok(out)
            } else {
                let mut m = "未対応の辞書設定version: ".to_owned();
                push_decimal(&mut m, v as usize);
                Err(m)
            }
        },
    }
}

proof fn lemma_prefs_error(ls: Seq<Seq<char>>, m: int, n: int)
    requires
        0 < m <= n,
        prefs_lines(ls, m) is Err,
    ensures
        prefs_lines(ls, n) == prefs_lines(ls, m),
    decreases n - m,
{
    if n > m {
        lemma_prefs_error(ls, m, n - 1);
    }
}

} // verus!
